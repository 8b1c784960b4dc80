//! What the operations promise their callers.
//!
//! Each law speaks of calls: of what was handed to an operation and of what it gave back, or of
//! how several calls relate, in terms of the characters, the numbers and the variants that went in
//! and came out.

pub mod circuits;
pub mod limits;
pub mod prefixes;
pub mod refusals;
pub mod retries;
pub mod spans;
