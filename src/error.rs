//! The ways in which a log line can be refused.
use vstd::prelude::*;

verus! {

/// Every error is fatal to a run: the log is taken as corrupt.
#[derive(PartialEq, Eq, Structural, Debug, Clone, Copy)]
pub enum ParseError {
    /// The line has fewer than two space-separated fields.
    MalformedLine,
    /// A known event whose fields do not have the expected structure.
    MalformedEvent,
    /// A roster or kill event came before any match had started.
    SessionNotFound,
    /// A kill names a victim or attacker that is not on the roster.
    UnknownPlayer,
}

} // verus!
