//! The diagnostics sink: a latch that records whether any lexical error was
//! reported, plus the side-effecting emission of the human-readable message.

use std::io::Write;
use vstd::prelude::*;

verus! {

/// Mutable accumulator for non-fatal lexical errors. The flag starts false,
/// is latched by every report, and is never cleared except by the caller
/// between independent scans.
#[derive(Debug, Clone, Copy)]
pub struct Error {
    pub had_error: bool,
}

impl Error {
    pub fn new() -> (e: Error)
        ensures
            !e.had_error,
    {
        Error { had_error: false }
    }

    /// Records that a lexical error occurred at `line`: emits a message and
    /// latches the had-error flag. Never halts the caller.
    pub fn error(&mut self, line: usize, message: &str)
        ensures
            final(self).had_error,
    {
        self.report(line, "", message);
    }

    fn report(&mut self, line: usize, location: &str, message: &str)
        ensures
            final(self).had_error,
    {
        emit(line, location, message);
        self.had_error = true;
    }
}

/// Relies on `writeln!` to `std::io::Stderr`: prints one diagnostic line.
/// The message text is an external concern, not part of any contract.
#[verifier::external_body]
fn emit(line: usize, location: &str, message: &str) {
    let _ = writeln!(std::io::stderr(), "[line {}] Error {}: {}", line, location, message);
}

} // verus!
