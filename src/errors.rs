use vstd::prelude::*;

verus! {

/// The two families of failure the parser reports.
#[derive(Debug, Clone, Copy, PartialEq, Eq, Structural)]
pub enum ErrorKind {
    Parsing,
    UnknownElement,
}

/// An error with a human-readable message and its kind.
#[derive(Debug)]
pub struct ChemikazeError {
    pub msg: String,
    pub kind: ErrorKind,
}

} // verus!
