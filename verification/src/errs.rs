//! Failure results of the access layer. Key absence is never an error: a
//! lookup reports it as a normal "not found" outcome.

use vstd::prelude::*;

verus! {

/// The backing store could not be opened or created.
#[derive(Debug)]
pub struct OpenError {
    pub message: String,
}

/// A point write failed at the engine level.
#[derive(Debug)]
pub struct WriteError {
    pub message: String,
}

/// A point read failed for a reason other than key absence.
#[derive(Debug)]
pub struct ReadError {
    pub message: String,
}

} // verus!
