//! The wire format: byte-level encodings of integers under a `Config`,
//! both as specification functions (what a correct stream looks like) and
//! as the executable conversions the encoder and decoder share.
//!
//! Variable-width integers are self-describing: a value up to
//! [`SINGLE_BYTE_MAX`] is one byte equal to the value; a larger value is a
//! one-byte width tag followed by exactly that many payload bytes in the
//! configured byte order. A decoder therefore never needs to look ahead
//! indefinitely to parse one integer.

use vstd::prelude::*;
use vstd::bytes::*;
use vstd::slice::*;
use vstd::assert_seqs_equal;

use crate::config::{Config, Endianness, IntEncoding};

verus! {

/// Largest value written as a single byte equal to itself.
pub const SINGLE_BYTE_MAX: u8 = 250;

/// Tag announcing a two-byte integer payload.
pub const TAG_U16: u8 = 251;

/// Tag announcing a four-byte integer payload.
pub const TAG_U32: u8 = 252;

/// Tag announcing an eight-byte integer payload.
pub const TAG_U64: u8 = 253;

/// The bytes of `x` at width two in byte order `e`.
pub open spec fn u16_wire_bytes(e: Endianness, x: u16) -> Seq<u8> {
    match e {
        Endianness::Little => spec_u16_to_le_bytes(x),
        Endianness::Big => spec_u16_to_le_bytes(x).reverse(),
    }
}

/// The bytes of `x` at width four in byte order `e`.
pub open spec fn u32_wire_bytes(e: Endianness, x: u32) -> Seq<u8> {
    match e {
        Endianness::Little => spec_u32_to_le_bytes(x),
        Endianness::Big => spec_u32_to_le_bytes(x).reverse(),
    }
}

/// The bytes of `x` at width eight in byte order `e`.
pub open spec fn u64_wire_bytes(e: Endianness, x: u64) -> Seq<u8> {
    match e {
        Endianness::Little => spec_u64_to_le_bytes(x),
        Endianness::Big => spec_u64_to_le_bytes(x).reverse(),
    }
}

/// The integer whose width-two wire bytes in order `e` are `s`.
pub open spec fn u16_from_wire(e: Endianness, s: Seq<u8>) -> u16
    recommends
        s.len() == 2,
{
    match e {
        Endianness::Little => spec_u16_from_le_bytes(s),
        Endianness::Big => spec_u16_from_le_bytes(s.reverse()),
    }
}

/// The integer whose width-four wire bytes in order `e` are `s`.
pub open spec fn u32_from_wire(e: Endianness, s: Seq<u8>) -> u32
    recommends
        s.len() == 4,
{
    match e {
        Endianness::Little => spec_u32_from_le_bytes(s),
        Endianness::Big => spec_u32_from_le_bytes(s.reverse()),
    }
}

/// The integer whose width-eight wire bytes in order `e` are `s`.
pub open spec fn u64_from_wire(e: Endianness, s: Seq<u8>) -> u64
    recommends
        s.len() == 8,
{
    match e {
        Endianness::Little => spec_u64_from_le_bytes(s),
        Endianness::Big => spec_u64_from_le_bytes(s.reverse()),
    }
}

/// The variable-width encoding of `x` in byte order `e`: one byte for
/// small values, otherwise a width tag followed by the smallest payload
/// width that holds `x`.
pub open spec fn varint_encoding(e: Endianness, x: u64) -> Seq<u8> {
    if x <= SINGLE_BYTE_MAX {
        seq![x as u8]
    } else if x <= 0xFFFF {
        seq![TAG_U16] + u16_wire_bytes(e, x as u16)
    } else if x <= 0xFFFF_FFFF {
        seq![TAG_U32] + u32_wire_bytes(e, x as u32)
    } else {
        seq![TAG_U64] + u64_wire_bytes(e, x)
    }
}

/// The encoding of a 64-bit integer (and of every length prefix) under a
/// full configuration.
pub open spec fn u64_encoding(c: Config, x: u64) -> Seq<u8> {
    match c.int_encoding {
        IntEncoding::Variable => varint_encoding(c.endianness, x),
        IntEncoding::Fixed => u64_wire_bytes(c.endianness, x),
    }
}

/// What the head of a stream holds when read as a variable-width integer.
pub enum VarintParse {
    /// The stream ends before the integer is complete.
    TooShort,
    /// The first byte is a width tag naming no supported width.
    BadTag,
    /// The integer `x`, occupying the first `len` bytes.
    Value { x: u64, len: int },
}

/// How many payload bytes the width tag `b` announces; zero when `b` is
/// not a tag of a supported width.
pub open spec fn tag_payload_width(b: u8) -> int {
    if b == TAG_U16 {
        2
    } else if b == TAG_U32 {
        4
    } else if b == TAG_U64 {
        8
    } else {
        0
    }
}

/// Reading a variable-width integer off the head of `s` in byte order `e`.
pub open spec fn varint_parse(e: Endianness, s: Seq<u8>) -> VarintParse {
    if s.len() < 1 {
        VarintParse::TooShort
    } else if s[0] <= SINGLE_BYTE_MAX {
        VarintParse::Value { x: s[0] as u64, len: 1 }
    } else if s[0] == TAG_U16 {
        if s.len() < 3 {
            VarintParse::TooShort
        } else {
            VarintParse::Value { x: u16_from_wire(e, s.subrange(1, 3)) as u64, len: 3 }
        }
    } else if s[0] == TAG_U32 {
        if s.len() < 5 {
            VarintParse::TooShort
        } else {
            VarintParse::Value { x: u32_from_wire(e, s.subrange(1, 5)) as u64, len: 5 }
        }
    } else if s[0] == TAG_U64 {
        if s.len() < 9 {
            VarintParse::TooShort
        } else {
            VarintParse::Value { x: u64_from_wire(e, s.subrange(1, 9)), len: 9 }
        }
    } else {
        VarintParse::BadTag
    }
}

/// Reading a 64-bit integer off the head of `s` under a full
/// configuration; in fixed mode the width is always eight.
pub open spec fn u64_parse(c: Config, s: Seq<u8>) -> VarintParse {
    match c.int_encoding {
        IntEncoding::Variable => varint_parse(c.endianness, s),
        IntEncoding::Fixed => if s.len() < 8 {
            VarintParse::TooShort
        } else {
            VarintParse::Value { x: u64_from_wire(c.endianness, s.subrange(0, 8)), len: 8 }
        },
    }
}

/// The fewest bytes any integer can occupy on the wire under `c`: one
/// in variable-width mode, the full eight in fixed-width mode.
pub open spec fn int_min_wire(c: Config) -> int {
    match c.int_encoding {
        IntEncoding::Variable => 1,
        IntEncoding::Fixed => 8,
    }
}

/// The integer floor as a runtime value.
pub fn int_min_wire_exec(c: Config) -> (n: usize)
    ensures
        n as int == int_min_wire(c),
{
    match c.int_encoding {
        IntEncoding::Variable => 1,
        IntEncoding::Fixed => 8,
    }
}

/// A parsed integer occupies at least the configuration's integer floor
/// and at most the whole input.
pub proof fn lemma_u64_parse_len(c: Config, s: Seq<u8>)
    ensures
        u64_parse(c, s) matches VarintParse::Value { x, len } ==> int_min_wire(c) <= len
            <= s.len(),
{
}

/// Reversing a sequence twice gives it back.
pub proof fn lemma_reverse_reverse(s: Seq<u8>)
    ensures
        s.reverse().reverse() == s,
{
    assert_seqs_equal!(s.reverse().reverse() == s);
}

/// A width-`w` integer written to the wire reads back as itself,
/// in either byte order.
pub proof fn lemma_wire_bytes_round_trip(e: Endianness)
    ensures
        forall|x: u16| #![trigger u16_wire_bytes(e, x)] u16_wire_bytes(e, x).len() == 2
            && u16_from_wire(e, u16_wire_bytes(e, x)) == x,
        forall|x: u32| #![trigger u32_wire_bytes(e, x)] u32_wire_bytes(e, x).len() == 4
            && u32_from_wire(e, u32_wire_bytes(e, x)) == x,
        forall|x: u64| #![trigger u64_wire_bytes(e, x)] u64_wire_bytes(e, x).len() == 8
            && u64_from_wire(e, u64_wire_bytes(e, x)) == x,
{
    lemma_auto_spec_u16_to_from_le_bytes();
    lemma_auto_spec_u32_to_from_le_bytes();
    lemma_auto_spec_u64_to_from_le_bytes();
    assert forall|x: u16| #![trigger u16_wire_bytes(e, x)] u16_wire_bytes(e, x).len() == 2
        && u16_from_wire(e, u16_wire_bytes(e, x)) == x by {
        if e == Endianness::Big {
            lemma_reverse_reverse(spec_u16_to_le_bytes(x));
        }
    }
    assert forall|x: u32| #![trigger u32_wire_bytes(e, x)] u32_wire_bytes(e, x).len() == 4
        && u32_from_wire(e, u32_wire_bytes(e, x)) == x by {
        if e == Endianness::Big {
            lemma_reverse_reverse(spec_u32_to_le_bytes(x));
        }
    }
    assert forall|x: u64| #![trigger u64_wire_bytes(e, x)] u64_wire_bytes(e, x).len() == 8
        && u64_from_wire(e, u64_wire_bytes(e, x)) == x by {
        if e == Endianness::Big {
            lemma_reverse_reverse(spec_u64_to_le_bytes(x));
        }
    }
}

/// The canonical variable-width encoding of `x`, followed by anything,
/// parses back to exactly `x`, consuming exactly the encoding.
pub proof fn lemma_varint_round_trip(e: Endianness, x: u64, rest: Seq<u8>)
    ensures
        varint_parse(e, varint_encoding(e, x) + rest) == (VarintParse::Value {
            x,
            len: varint_encoding(e, x).len() as int,
        }),
{
    lemma_wire_bytes_round_trip(e);
    let enc = varint_encoding(e, x);
    let s = enc + rest;
    if x <= SINGLE_BYTE_MAX {
    } else if x <= 0xFFFF {
        assert_seqs_equal!(s.subrange(1, 3) == u16_wire_bytes(e, x as u16));
    } else if x <= 0xFFFF_FFFF {
        assert_seqs_equal!(s.subrange(1, 5) == u32_wire_bytes(e, x as u32));
    } else {
        assert_seqs_equal!(s.subrange(1, 9) == u64_wire_bytes(e, x));
    }
}

/// The encoding of `x` under any configuration, followed by anything,
/// parses back to exactly `x`, consuming exactly the encoding.
pub proof fn lemma_u64_round_trip(c: Config, x: u64, rest: Seq<u8>)
    ensures
        u64_parse(c, u64_encoding(c, x) + rest) == (VarintParse::Value {
            x,
            len: u64_encoding(c, x).len() as int,
        }),
{
    match c.int_encoding {
        IntEncoding::Variable => {
            lemma_varint_round_trip(c.endianness, x, rest);
        },
        IntEncoding::Fixed => {
            lemma_wire_bytes_round_trip(c.endianness);
            let s = u64_encoding(c, x) + rest;
            assert_seqs_equal!(s.subrange(0, 8) == u64_wire_bytes(c.endianness, x));
        },
    }
}

/// A variable-width encoding is never empty and never longer than nine
/// bytes; a fixed-width length is always eight bytes.
pub proof fn lemma_u64_encoding_len(c: Config, x: u64)
    ensures
        1 <= u64_encoding(c, x).len() <= 9,
{
    if c.int_encoding == IntEncoding::Fixed || x > SINGLE_BYTE_MAX {
        lemma_wire_bytes_round_trip(c.endianness);
    }
}

/// Reverses the bytes of `v`.
pub fn reverse_vec(v: &Vec<u8>) -> (r: Vec<u8>)
    ensures
        r@ == v@.reverse(),
{
    let mut r: Vec<u8> = Vec::new();
    let mut i: usize = v.len();
    while i > 0
        invariant
            i <= v.len(),
            r@ =~= v@.subrange(i as int, v@.len() as int).reverse(),
        decreases i,
    {
        i = i - 1;
        r.push(v[i]);
        proof {
            assert_seqs_equal!(r@ == v@.subrange(i as int, v@.len() as int).reverse());
        }
    }
    proof {
        assert_seqs_equal!(r@ == v@.reverse());
    }
    r
}

/// Writes `x` at width two in byte order `e`.
pub fn u16_bytes_exec(e: Endianness, x: u16) -> (r: Vec<u8>)
    ensures
        r@ == u16_wire_bytes(e, x),
        r@.len() == 2,
{
    proof {
        lemma_wire_bytes_round_trip(e);
    }
    let le = u16_to_le_bytes(x);
    match e {
        Endianness::Little => le,
        Endianness::Big => reverse_vec(&le),
    }
}

/// Writes `x` at width four in byte order `e`.
pub fn u32_bytes_exec(e: Endianness, x: u32) -> (r: Vec<u8>)
    ensures
        r@ == u32_wire_bytes(e, x),
        r@.len() == 4,
{
    proof {
        lemma_wire_bytes_round_trip(e);
    }
    let le = u32_to_le_bytes(x);
    match e {
        Endianness::Little => le,
        Endianness::Big => reverse_vec(&le),
    }
}

/// Writes `x` at width eight in byte order `e`.
pub fn u64_bytes_exec(e: Endianness, x: u64) -> (r: Vec<u8>)
    ensures
        r@ == u64_wire_bytes(e, x),
        r@.len() == 8,
{
    proof {
        lemma_wire_bytes_round_trip(e);
    }
    let le = u64_to_le_bytes(x);
    match e {
        Endianness::Little => le,
        Endianness::Big => reverse_vec(&le),
    }
}

/// Reads a width-two integer from its wire bytes in byte order `e`.
pub fn u16_from_bytes_exec(e: Endianness, s: &[u8]) -> (x: u16)
    requires
        s@.len() == 2,
    ensures
        x == u16_from_wire(e, s@),
{
    match e {
        Endianness::Little => u16_from_le_bytes(s),
        Endianness::Big => {
            let rv = reverse_vec(&slice_to_vec(s));
            u16_from_le_bytes(rv.as_slice())
        },
    }
}

/// Reads a width-four integer from its wire bytes in byte order `e`.
pub fn u32_from_bytes_exec(e: Endianness, s: &[u8]) -> (x: u32)
    requires
        s@.len() == 4,
    ensures
        x == u32_from_wire(e, s@),
{
    match e {
        Endianness::Little => u32_from_le_bytes(s),
        Endianness::Big => {
            let rv = reverse_vec(&slice_to_vec(s));
            u32_from_le_bytes(rv.as_slice())
        },
    }
}

/// Reads a width-eight integer from its wire bytes in byte order `e`.
pub fn u64_from_bytes_exec(e: Endianness, s: &[u8]) -> (x: u64)
    requires
        s@.len() == 8,
    ensures
        x == u64_from_wire(e, s@),
{
    match e {
        Endianness::Little => u64_from_le_bytes(s),
        Endianness::Big => {
            let rv = reverse_vec(&slice_to_vec(s));
            u64_from_le_bytes(rv.as_slice())
        },
    }
}

} // verus!
