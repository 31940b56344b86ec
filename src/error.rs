//! Why a pattern was refused.
use vstd::prelude::*;

verus! {

#[derive(Debug, Clone, Copy, PartialEq, Eq, Structural)]
pub enum Error {
    /// The pattern breaks the syntax of patterns.
    InvalidFormat,
    /// The pattern cannot live beside the routes already added.
    RouteConflict,
}

impl Error {
    /// A short description of the error.
    pub fn message(&self) -> (r: &'static str)
        ensures
            *self == Error::InvalidFormat ==> r@ == "invalid format"@,
            *self == Error::RouteConflict ==> r@ == "route conflict"@,
    {
        match self {
            Error::InvalidFormat => "invalid format",
            Error::RouteConflict => "route conflict",
        }
    }
}

} // verus!
