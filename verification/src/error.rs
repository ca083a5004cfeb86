//! Typed failures of a decode operation.
//!
//! Malformed or malicious input is reported through these variants, never
//! through a panic.

use vstd::prelude::*;

verus! {

/// The ways a decode can fail.
#[derive(Clone, Copy, Debug, PartialEq, Eq, Structural)]
pub enum DecodeError {
    /// The cumulative byte budget of the configuration was exceeded.
    LimitExceeded,
    /// The input ended before all required bytes were read.
    UnexpectedEnd,
    /// A length-prefixed text payload was not valid UTF-8.
    Utf8,
    /// A decoded length does not fit in `usize` on this host.
    OutsideUsizeRange,
    /// An integer began with a width tag that names no supported width.
    InvalidIntegerTag,
}

} // verus!
