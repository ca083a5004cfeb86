//! The policy bundle that fixes how one encode or decode operation
//! interprets the wire: integer byte order, integer width mode, and an
//! optional cumulative byte limit for the decoder.
//!
//! A `Config` is chosen once per operation and never changes mid-stream.

use vstd::prelude::*;

verus! {

/// Byte order for multi-byte fixed-width integer payloads.
#[derive(Clone, Copy, Debug, PartialEq, Eq, Structural)]
pub enum Endianness {
    Little,
    Big,
}

/// Whether integers are written variable-width (compact) or always at
/// their full static width.
#[derive(Clone, Copy, Debug, PartialEq, Eq, Structural)]
pub enum IntEncoding {
    Variable,
    Fixed,
}

/// Immutable policy bundle for one encode/decode operation.
#[derive(Clone, Copy, Debug)]
pub struct Config {
    pub endianness: Endianness,
    pub int_encoding: IntEncoding,
    /// Greatest number of bytes a decoder may ever claim; `None` disables
    /// the check entirely.
    pub limit: Option<usize>,
}

/// The default configuration: little-endian, variable-width integers,
/// no byte limit.
pub fn standard() -> (c: Config)
    ensures
        c.endianness == Endianness::Little,
        c.int_encoding == IntEncoding::Variable,
        c.limit.is_none(),
{
    Config { endianness: Endianness::Little, int_encoding: IntEncoding::Variable, limit: None }
}

impl Config {
    /// The same policy with a cumulative byte limit.
    pub fn with_limit(self, limit: usize) -> (c: Config)
        ensures
            c.endianness == self.endianness,
            c.int_encoding == self.int_encoding,
            c.limit == Some(limit),
    {
        Config { limit: Some(limit), ..self }
    }

    /// The same policy with no byte limit.
    pub fn with_no_limit(self) -> (c: Config)
        ensures
            c.endianness == self.endianness,
            c.int_encoding == self.int_encoding,
            c.limit.is_none(),
    {
        Config { limit: None, ..self }
    }

    /// The same policy with big-endian integer payloads.
    pub fn with_big_endian(self) -> (c: Config)
        ensures
            c.endianness == Endianness::Big,
            c.int_encoding == self.int_encoding,
            c.limit == self.limit,
    {
        Config { endianness: Endianness::Big, ..self }
    }

    /// The same policy with little-endian integer payloads.
    pub fn with_little_endian(self) -> (c: Config)
        ensures
            c.endianness == Endianness::Little,
            c.int_encoding == self.int_encoding,
            c.limit == self.limit,
    {
        Config { endianness: Endianness::Little, ..self }
    }

    /// The same policy writing every integer at its full static width.
    pub fn with_fixed_int_encoding(self) -> (c: Config)
        ensures
            c.endianness == self.endianness,
            c.int_encoding == IntEncoding::Fixed,
            c.limit == self.limit,
    {
        Config { int_encoding: IntEncoding::Fixed, ..self }
    }

    /// The same policy writing integers variable-width.
    pub fn with_variable_int_encoding(self) -> (c: Config)
        ensures
            c.endianness == self.endianness,
            c.int_encoding == IntEncoding::Variable,
            c.limit == self.limit,
    {
        Config { int_encoding: IntEncoding::Variable, ..self }
    }
}

} // verus!
