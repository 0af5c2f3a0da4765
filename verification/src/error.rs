//! The error values of the library.
use vstd::prelude::*;

verus! {

/// Errors raised by the HTTP core.
#[derive(Debug, PartialEq, Eq, Clone, Copy)]
pub enum HttpError {
    /// The raw request text could not be parsed into a request.
    MalformedRequest,
    /// A static file name has no known MIME type.
    UnknownMimeType,
}

/// A route was already registered to another resource.
#[derive(Debug, Clone, Copy, PartialEq, Eq)]
pub struct RouteAlreadyRegistered;

impl RouteAlreadyRegistered {
    /// The diagnostic text of this error.
    pub fn message(&self) -> (r: String)
        ensures
            r@ == "Route was already registered to other resource"@,
    {
        "Route was already registered to other resource".to_owned()
    }
}

/// An option line or argument that could not be understood: a missing or
/// unparsable value after a recognized name.
#[derive(Debug, PartialEq, Eq, Clone, Copy)]
pub struct OptsError;

} // verus!
