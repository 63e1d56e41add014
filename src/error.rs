//! The error kinds of the server core and their HTTP status codes.
use vstd::prelude::*;

verus! {

/// Why a request could not be served.
#[derive(Debug)]
pub enum ServeError {
    /// The path escapes the root.
    AccessDenied,
    /// The path lies within the root but names nothing.
    NotFound,
    /// Reading an existing path within the root failed.
    IoFailure,
    /// The external renderer failed, with its diagnostic text.
    RenderFailure(String),
}

pub open spec fn status_of(e: ServeError) -> u16 {
    match e {
        ServeError::AccessDenied => 403,
        ServeError::NotFound => 404,
        ServeError::IoFailure => 500,
        ServeError::RenderFailure(_) => 500,
    }
}

impl ServeError {
    /// The HTTP status that reports this error.
    pub fn status_code(&self) -> (r: u16)
        ensures
            r == status_of(*self),
    {
        match self {
            ServeError::AccessDenied => 403,
            ServeError::NotFound => 404,
            ServeError::IoFailure => 500,
            ServeError::RenderFailure(_) => 500,
        }
    }
}

} // verus!
