//! The session bundle a driver works with: one diagnostics sink whose
//! had-error flag outlives individual scans, so a batch run can decide its
//! exit behaviour after the fact.

use vstd::prelude::*;
use crate::error::Error;

verus! {

/// A scanning session: owns the diagnostics sink that successive scans feed.
/// The driver may reset the flag between independent units of input.
pub struct Lox {
    pub error: Error,
}

impl Lox {
    pub fn new() -> (l: Lox)
        ensures
            !l.error.had_error,
    {
        let error = Error::new();
        Lox { error }
    }
}

} // verus!
