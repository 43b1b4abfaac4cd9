//! The error kinds that session operations report to their callers.
use vstd::prelude::*;

verus! {

/// Why a session operation could not make progress.
#[derive(Clone, Copy, Debug, PartialEq, Eq, Structural)]
pub enum SessionError {
    /// Every discovery strategy was exhausted or timed out.
    Discovery,
    /// Dialing or handshaking with a resolved address failed.
    Connection,
    /// A malformed ticket, an unrecognised protocol or a decode failure.
    Protocol,
    /// Local storage failed.
    Storage,
    /// The hash is not held locally.
    NotFound,
}

} // verus!
