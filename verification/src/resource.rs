//! What an overlay reads of a request and of what became of it.
//!
//! The values of a resolution kernel that the overlays decide upon, as plain data: the verb and
//! the target of a request, what a space resolved it to, and the errors of an invocation.

use ikigai_core::Iri;

use vstd::prelude::*;

verus! {

/// The request verbs.
#[derive(Clone, Copy, Debug, PartialEq, Eq, Structural)]
pub enum Verb {
    /// Read a resource's representation.
    Source,
    /// Write or replace a resource's representation.
    Sink,
    /// Test for a resource's existence.
    Exists,
    /// Remove a resource.
    Delete,
    /// Read a resource's self-description.
    Meta,
}

/// Whether repeating a request with this verb is safe: every verb but [`Verb::Sink`].
pub open spec fn idempotent(verb: Verb) -> bool {
    verb != Verb::Sink
}

impl Verb {
    /// Whether repeating a request with this verb is safe.
    pub fn is_idempotent(&self) -> (safe: bool)
        ensures
            safe == idempotent(*self),
    {
        matches!(*self, Verb::Source | Verb::Exists | Verb::Meta | Verb::Delete)
    }
}

/// A request: what is to be done, and to which resource.
#[derive(Debug)]
pub struct Request {
    /// What is to be done.
    pub verb: Verb,
    /// The IRI of the resource, as text.
    pub target: String,
}

/// What a space resolved a request to: an endpoint of type `E`, with the variables of type `B`
/// that the matching grammar captured.
pub struct Resolved<E, B> {
    /// The endpoint.
    pub endpoint: E,
    /// The captured variables.
    pub bindings: B,
}

/// The outcome of resolving a request against a space.
pub enum Resolution<E, B> {
    /// An endpoint matched.
    Hit(Resolved<E, B>),
    /// Nothing in the space matched.
    Miss,
}

#[verifier::external_type_specification]
#[verifier::external_body]
pub struct ExIri(ikigai_core::Iri);

/// Why an invocation failed.
#[derive(Debug, PartialEq, Eq)]
pub enum Error {
    /// No endpoint resolved for the target.
    Unresolved(Iri),
    /// A required argument was absent.
    MissingArgument(String),
    /// An argument was present but unusable.
    InvalidArgument {
        /// The argument name.
        name: String,
        /// What was wrong with it.
        detail: String,
    },
    /// An endpoint failed while producing its representation.
    Endpoint(String),
    /// The capability did not authorize the operation.
    Denied(String),
    /// The named resource is absent.
    NotFound(String),
    /// The operation exceeded its time budget.
    Timeout(String),
    /// A dependency or transport is unavailable.
    Unavailable(String),
}

/// Whether a failure may pass by itself, so that a repeated request may succeed: a timeout, or
/// something unavailable. Every other failure is permanent.
pub open spec fn transient(error: Error) -> bool {
    error is Timeout || error is Unavailable
}

/// Calls `ikigai_core::Error::is_transient` on the same error of that crate, which answers
/// `true` for its `Timeout` and its `Unavailable` and `false` for every other variant.
#[verifier::external_body]
fn core_is_transient(error: &Error) -> (passing: bool)
    ensures
        passing == transient(*error),
{
    match error {
        Error::Unresolved(iri) => ikigai_core::Error::Unresolved(iri.clone()),
        Error::MissingArgument(s) => ikigai_core::Error::MissingArgument(s.clone()),
        Error::InvalidArgument { name, detail } => {
            let (name, detail) = (name.clone(), detail.clone());
            ikigai_core::Error::InvalidArgument { name, detail }
        },
        Error::Endpoint(s) => ikigai_core::Error::Endpoint(s.clone()),
        Error::Denied(s) => ikigai_core::Error::Denied(s.clone()),
        Error::NotFound(s) => ikigai_core::Error::NotFound(s.clone()),
        Error::Timeout(s) => ikigai_core::Error::Timeout(s.clone()),
        Error::Unavailable(s) => ikigai_core::Error::Unavailable(s.clone()),
    }.is_transient()
}

impl Error {
    /// Whether this failure may pass by itself, so that a repeated request may succeed.
    pub fn is_transient(&self) -> (passing: bool)
        ensures
            passing == transient(*self),
    {
        core_is_transient(self)
    }
}

} // verus!
