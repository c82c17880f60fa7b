//! Failures that signal misuse or malformed data, as opposed to a verifier
//! rejecting a prover (which is a plain `false`).
use vstd::prelude::*;

verus! {

#[derive(Clone, Copy, Debug, PartialEq, Eq, Structural)]
pub enum ProtocolError {
    /// A gadget-decoded coordinate was neither zero nor one where binary
    /// digits are required.
    NonBinaryDigit,
    /// Vector or matrix lengths do not fit together as the protocol requires.
    DimensionMismatch,
    /// A round index at or beyond the number of rounds the parameters define.
    RoundOutOfRange,
}

} // verus!
