//! Reliability overlays for resource resolution, verified.
//!
//! An overlay wraps a space, whatever it is, and adds behaviour to every resolution that flows
//! through it:
//!
//! - [`RateLimit`] rejects resolutions over a rate, by prefix: at most so many within a time
//!   window. Over budget, a request resolves to an endpoint that answers with an honest
//!   "retry after".
//! - [`Retry`] re-issues after a transient failure, up to a number of attempts, where the verb is
//!   idempotent.
//! - [`CircuitBreaker`] counts consecutive transient failures per target, fails fast for a
//!   cooldown once there are too many, and then probes.
//!
//! The overlays decide; they do not resolve, invoke or lock. A host resolves through the wrapped
//! space, hands the overlay what came back, and does what it says. What an overlay remembers is a
//! value of its own ([`Hits`], [`Breakers`]), which a host keeps behind a lock. Each decision that
//! depends on the time comes twice: told the moment (`resolve_at`, `enter_at`, `settle_at`), and
//! reading the clock itself (`resolve`, `enter`, `settle`). What a run of such calls comes to is
//! stated and proved in [`laws`].
//!
//! ```
//! use ikigai_throttle::{Rate, RateLimit, Span};
//! # fn wrap<S>(inner: S) {
//! let overlay = RateLimit::new(inner)
//!     .limit("urn:system:exec", Rate::new(3, Span::from_secs(10)))
//!     .limit("urn:httpGet", Rate::new(30, Span::from_secs(60)));
//! # let _ = overlay; }
//! ```

pub mod breaker;
pub mod hits;
pub mod laws;
pub mod rate_limit;
pub mod resource;
pub mod retry;
pub mod rules;
pub mod text;
pub mod time;
pub mod window;

pub use breaker::Breakers;
pub use breaker::CircuitBreaker;
pub use hits::Hits;
pub use rate_limit::RateLimit;
pub use resource::Error;
pub use resource::Request;
pub use resource::Resolution;
pub use resource::Resolved;
pub use resource::Verb;
pub use retry::Retry;
pub use time::Moment;
pub use time::Span;
pub use window::Rate;
