//! The capability traits every encodable or decodable type implements,
//! their primitive and tuple base cases, and the sequence codec.
//!
//! Both directions carry a functional specification: `Encode::encoding`
//! says what bytes a value writes, and `Decode::parsed` /
//! `BorrowDecode::parsed` say what value (as its deep view) and how many
//! bytes the head of a stream holds. Every decode is tied to `parsed`:
//! on success it returns exactly the parsed value over exactly its
//! bytes, and success is owed whenever the stream parses and the byte
//! budget covers it. Tuples decode strictly left to right: an element's
//! failure ends the whole decode before any later element is read.

use vstd::prelude::*;

use crate::config::Config;
use crate::de::{lemma_remaining_advance, lemma_u64_outcome_parse, DecoderImpl};
use crate::enc::EncoderImpl;
use crate::error::DecodeError;
use crate::wire::{int_min_wire, int_min_wire_exec, lemma_u64_parse_len, u64_encoding, u64_parse,
    VarintParse};
use vstd::utf8::{decode_utf8, encode_utf8, valid_utf8};

verus! {

broadcast use vstd::seq::group_seq_axioms;

/// A value with a wire form under every configuration.
pub trait Encode {
    /// The bytes `self` occupies on the wire under configuration `c`.
    spec fn encoding(&self, c: Config) -> Seq<u8>;

    /// Appends exactly `self`'s wire form to the encoder.
    fn encode(&self, e: &mut EncoderImpl)
        ensures
            final(e).cfg() == old(e).cfg(),
            final(e).written() == old(e).written() + self.encoding(old(e).cfg()),
    ;
}

/// Reading a length prefix off the head of `s`: the declared count and
/// the prefix's byte width, or nothing when no length fitting the host
/// is there.
pub open spec fn len_prefix_parse(c: Config, s: Seq<u8>) -> Option<(int, int)> {
    match u64_parse(c, s) {
        VarintParse::Value { x, len } => if x > usize::MAX {
            None
        } else {
            Some((x as int, len))
        },
        _ => None,
    }
}

/// A value that can be read back from the wire by any decoder carrying a
/// context of type `Ctx`. Every read claims its bytes first, so a
/// successful decode's claimed count equals the bytes it consumed.
pub trait Decode<Ctx>: Sized + DeepView {
    /// What the head of `s` holds under `c`: the deep view of the value
    /// and its byte count, or nothing when no value of this type is
    /// there.
    spec fn parsed(c: Config, s: Seq<u8>) -> Option<(<Self as DeepView>::V, int)>;

    /// A positive lower bound, fixed by the configuration, on the bytes
    /// any value of this type occupies on the wire; containers pre-claim
    /// it per declared element before allocating.
    spec fn min_wire(c: Config) -> int;

    /// The floor bound as a runtime value.
    fn min_wire_bytes(c: Config) -> (n: usize)
        ensures
            n as int == Self::min_wire(c),
            1 <= n <= 255,
    ;

    /// The floor is sound: a parsed value occupies at least `min_wire`
    /// bytes and at most the whole input.
    proof fn lemma_parsed_len(c: Config, s: Seq<u8>)
        ensures
            1 <= Self::min_wire(c) <= 255,
            Self::parsed(c, s) matches Some(p) ==> Self::min_wire(c) <= p.1 <= s.len(),
    ;

    /// Reads one value. On success it is exactly the value the wire
    /// grammar names at the head of the input, over exactly its bytes,
    /// with the claimed count equal to the bytes consumed; and success
    /// is owed whenever the head parses and the budget covers its bytes.
    fn decode<'a>(d: &mut DecoderImpl<'a, Ctx>) -> (r: Result<Self, DecodeError>)
        requires
            old(d).wf(),
        ensures
            final(d).advanced_from(*old(d)),
            r.is_ok() && old(d).cfg().limit.is_some() ==> final(d).claimed() - old(d).claimed()
                == final(d).position() - old(d).position(),
            (r matches Ok(v) ==> (Self::parsed(old(d).cfg(), old(d).remaining()) matches Some(p)
                && v.deep_view() == p.0 && final(d).position() == old(d).position() + p.1)),
            (Self::parsed(old(d).cfg(), old(d).remaining()) matches Some(p) ==> (old(d).budget_ok(
                p.1,
            ) ==> r.is_ok())),
    ;
}

/// A value that can be read back from the wire while borrowing the
/// decoder's backing storage instead of copying; types that cannot avoid
/// copying implement it in terms of [`Decode`].
pub trait BorrowDecode<'de, Ctx>: Sized + DeepView {
    /// As [`Decode::parsed`].
    spec fn parsed(c: Config, s: Seq<u8>) -> Option<(<Self as DeepView>::V, int)>;

    /// As [`Decode::min_wire`].
    spec fn min_wire(c: Config) -> int;

    /// The floor bound as a runtime value.
    fn min_wire_bytes(c: Config) -> (n: usize)
        ensures
            n as int == Self::min_wire(c),
            1 <= n <= 255,
    ;

    /// As [`Decode::lemma_parsed_len`].
    proof fn lemma_parsed_len(c: Config, s: Seq<u8>)
        ensures
            1 <= Self::min_wire(c) <= 255,
            Self::parsed(c, s) matches Some(p) ==> Self::min_wire(c) <= p.1 <= s.len(),
    ;

    /// As [`Decode::decode`], with the result free to hold references
    /// into the input buffer, which outlives the decoder.
    fn borrow_decode(d: &mut DecoderImpl<'de, Ctx>) -> (r: Result<Self, DecodeError>)
        requires
            old(d).wf(),
        ensures
            final(d).advanced_from(*old(d)),
            r.is_ok() && old(d).cfg().limit.is_some() ==> final(d).claimed() - old(d).claimed()
                == final(d).position() - old(d).position(),
            (r matches Ok(v) ==> (Self::parsed(old(d).cfg(), old(d).remaining()) matches Some(p)
                && v.deep_view() == p.0 && final(d).position() == old(d).position() + p.1)),
            (Self::parsed(old(d).cfg(), old(d).remaining()) matches Some(p) ==> (old(d).budget_ok(
                p.1,
            ) ==> r.is_ok())),
    ;
}

impl Encode for u8 {
    open spec fn encoding(&self, c: Config) -> Seq<u8> {
        seq![*self]
    }

    fn encode(&self, e: &mut EncoderImpl) {
        e.write_u8(*self);
    }
}

impl Encode for u64 {
    open spec fn encoding(&self, c: Config) -> Seq<u8> {
        u64_encoding(c, *self)
    }

    fn encode(&self, e: &mut EncoderImpl) {
        e.write_u64(*self);
    }
}

impl Encode for String {
    open spec fn encoding(&self, c: Config) -> Seq<u8> {
        u64_encoding(c, encode_utf8(self@).len() as u64) + encode_utf8(self@)
    }

    fn encode(&self, e: &mut EncoderImpl) {
        let bytes = self.as_str().as_bytes();
        e.encode_slice_len(bytes.len());
        e.write_slice(bytes);
    }
}

impl<Ctx> Decode<Ctx> for u8 {
    open spec fn parsed(c: Config, s: Seq<u8>) -> Option<(u8, int)> {
        if s.len() >= 1 {
            Some((s[0], 1))
        } else {
            None
        }
    }

    open spec fn min_wire(c: Config) -> int {
        1
    }

    fn min_wire_bytes(c: Config) -> usize {
        1
    }

    proof fn lemma_parsed_len(c: Config, s: Seq<u8>) {
    }

    fn decode<'a>(d: &mut DecoderImpl<'a, Ctx>) -> Result<Self, DecodeError> {
        d.decode_u8()
    }
}

impl<Ctx> Decode<Ctx> for u64 {
    open spec fn parsed(c: Config, s: Seq<u8>) -> Option<(u64, int)> {
        match u64_parse(c, s) {
            VarintParse::Value { x, len } => Some((x, len)),
            _ => None,
        }
    }

    open spec fn min_wire(c: Config) -> int {
        int_min_wire(c)
    }

    fn min_wire_bytes(c: Config) -> usize {
        int_min_wire_exec(c)
    }

    proof fn lemma_parsed_len(c: Config, s: Seq<u8>) {
        lemma_u64_parse_len(c, s);
    }

    fn decode<'a>(d: &mut DecoderImpl<'a, Ctx>) -> Result<Self, DecodeError> {
        proof {
            lemma_u64_outcome_parse(*old(d));
        }
        d.decode_u64()
    }
}

/// Reading a length-prefixed text value off the head of `s`.
pub open spec fn text_parse(c: Config, s: Seq<u8>) -> Option<(Seq<char>, int)> {
    match len_prefix_parse(c, s) {
        Some(nk) => {
            let n = nk.0;
            let k = nk.1;
            if s.len() < k + n {
                None
            } else if valid_utf8(s.subrange(k, k + n)) {
                Some((decode_utf8(s.subrange(k, k + n)), k + n))
            } else {
                None
            }
        },
        None => None,
    }
}

impl<Ctx> Decode<Ctx> for String {
    open spec fn parsed(c: Config, s: Seq<u8>) -> Option<(Seq<char>, int)> {
        text_parse(c, s)
    }

    open spec fn min_wire(c: Config) -> int {
        int_min_wire(c)
    }

    fn min_wire_bytes(c: Config) -> usize {
        int_min_wire_exec(c)
    }

    proof fn lemma_parsed_len(c: Config, s: Seq<u8>) {
        lemma_u64_parse_len(c, s);
    }

    fn decode<'a>(d: &mut DecoderImpl<'a, Ctx>) -> Result<Self, DecodeError> {
        proof {
            lemma_u64_outcome_parse(*old(d));
        }
        d.decode_string()
    }
}

impl<'de, Ctx> BorrowDecode<'de, Ctx> for &'de str {
    open spec fn parsed(c: Config, s: Seq<u8>) -> Option<(Seq<char>, int)> {
        text_parse(c, s)
    }

    open spec fn min_wire(c: Config) -> int {
        int_min_wire(c)
    }

    fn min_wire_bytes(c: Config) -> usize {
        int_min_wire_exec(c)
    }

    proof fn lemma_parsed_len(c: Config, s: Seq<u8>) {
        lemma_u64_parse_len(c, s);
    }

    fn borrow_decode(d: &mut DecoderImpl<'de, Ctx>) -> Result<Self, DecodeError> {
        proof {
            lemma_u64_outcome_parse(*old(d));
        }
        d.decode_borrowed_str()
    }
}

impl<'de, Ctx> BorrowDecode<'de, Ctx> for u8 {
    open spec fn parsed(c: Config, s: Seq<u8>) -> Option<(u8, int)> {
        <u8 as Decode<Ctx>>::parsed(c, s)
    }

    open spec fn min_wire(c: Config) -> int {
        1
    }

    fn min_wire_bytes(c: Config) -> usize {
        1
    }

    proof fn lemma_parsed_len(c: Config, s: Seq<u8>) {
    }

    fn borrow_decode(d: &mut DecoderImpl<'de, Ctx>) -> Result<Self, DecodeError> {
        d.decode_u8()
    }
}

impl<'de, Ctx> BorrowDecode<'de, Ctx> for u64 {
    open spec fn parsed(c: Config, s: Seq<u8>) -> Option<(u64, int)> {
        <u64 as Decode<Ctx>>::parsed(c, s)
    }

    open spec fn min_wire(c: Config) -> int {
        int_min_wire(c)
    }

    fn min_wire_bytes(c: Config) -> usize {
        int_min_wire_exec(c)
    }

    proof fn lemma_parsed_len(c: Config, s: Seq<u8>) {
        lemma_u64_parse_len(c, s);
    }

    fn borrow_decode(d: &mut DecoderImpl<'de, Ctx>) -> Result<Self, DecodeError> {
        proof {
            lemma_u64_outcome_parse(*old(d));
        }
        d.decode_u64()
    }
}

impl<'de, Ctx> BorrowDecode<'de, Ctx> for String {
    open spec fn parsed(c: Config, s: Seq<u8>) -> Option<(Seq<char>, int)> {
        text_parse(c, s)
    }

    open spec fn min_wire(c: Config) -> int {
        int_min_wire(c)
    }

    fn min_wire_bytes(c: Config) -> usize {
        int_min_wire_exec(c)
    }

    proof fn lemma_parsed_len(c: Config, s: Seq<u8>) {
        lemma_u64_parse_len(c, s);
    }

    fn borrow_decode(d: &mut DecoderImpl<'de, Ctx>) -> Result<Self, DecodeError> {
        proof {
            lemma_u64_outcome_parse(*old(d));
        }
        d.decode_string()
    }
}

impl<A: Encode> Encode for (A,) {
    open spec fn encoding(&self, c: Config) -> Seq<u8> {
        self.0.encoding(c)
    }

    fn encode(&self, e: &mut EncoderImpl) {
        self.0.encode(e);
    }
}

impl<A: Encode, B: Encode> Encode for (A, B) {
    open spec fn encoding(&self, c: Config) -> Seq<u8> {
        self.0.encoding(c) + self.1.encoding(c)
    }

    fn encode(&self, e: &mut EncoderImpl) {
        self.0.encode(e);
        self.1.encode(e);
        proof {
            assert(e.written() =~= old(e).written() + self.encoding(old(e).cfg()));
        }
    }
}

impl<A: Encode, B: Encode, C: Encode> Encode for (A, B, C) {
    open spec fn encoding(&self, c: Config) -> Seq<u8> {
        self.0.encoding(c) + self.1.encoding(c) + self.2.encoding(c)
    }

    fn encode(&self, e: &mut EncoderImpl) {
        self.0.encode(e);
        self.1.encode(e);
        self.2.encode(e);
        proof {
            assert(e.written() =~= old(e).written() + self.encoding(old(e).cfg()));
        }
    }
}

impl<A: Encode, B: Encode, C: Encode, D: Encode> Encode for (A, B, C, D) {
    open spec fn encoding(&self, c: Config) -> Seq<u8> {
        self.0.encoding(c) + self.1.encoding(c) + self.2.encoding(c) + self.3.encoding(c)
    }

    fn encode(&self, e: &mut EncoderImpl) {
        self.0.encode(e);
        self.1.encode(e);
        self.2.encode(e);
        self.3.encode(e);
        proof {
            assert(e.written() =~= old(e).written() + self.encoding(old(e).cfg()));
        }
    }
}

impl<Ctx, A: Decode<Ctx>> Decode<Ctx> for (A,) {
    open spec fn parsed(c: Config, s: Seq<u8>) -> Option<((<A as DeepView>::V,), int)> {
        match A::parsed(c, s) {
            Some(pa) => Some(((pa.0,), pa.1)),
            None => None,
        }
    }

    open spec fn min_wire(c: Config) -> int {
        A::min_wire(c)
    }

    fn min_wire_bytes(c: Config) -> usize {
        A::min_wire_bytes(c)
    }

    proof fn lemma_parsed_len(c: Config, s: Seq<u8>) {
        A::lemma_parsed_len(c, s);
    }

    fn decode<'a>(d: &mut DecoderImpl<'a, Ctx>) -> Result<Self, DecodeError> {
        let a = A::decode(d)?;
        Ok((a,))
    }
}

impl<Ctx, A: Decode<Ctx>, B: Decode<Ctx>> Decode<Ctx> for (A, B) {
    open spec fn parsed(c: Config, s: Seq<u8>) -> Option<
        ((<A as DeepView>::V, <B as DeepView>::V), int),
    > {
        match A::parsed(c, s) {
            Some(pa) => match B::parsed(c, s.subrange(pa.1, s.len() as int)) {
                Some(pb) => Some(((pa.0, pb.0), pa.1 + pb.1)),
                None => None,
            },
            None => None,
        }
    }

    open spec fn min_wire(c: Config) -> int {
        if A::min_wire(c) + B::min_wire(c) <= 255 {
            A::min_wire(c) + B::min_wire(c)
        } else {
            255
        }
    }

    fn min_wire_bytes(c: Config) -> usize {
        let a = A::min_wire_bytes(c);
        let b = B::min_wire_bytes(c);
        if a + b <= 255 {
            a + b
        } else {
            255
        }
    }

    proof fn lemma_parsed_len(c: Config, s: Seq<u8>) {
        A::lemma_parsed_len(c, s);
        B::lemma_parsed_len(c, s);
        match A::parsed(c, s) {
            Some(pa) => {
                B::lemma_parsed_len(c, s.subrange(pa.1, s.len() as int));
            },
            None => {},
        }
    }

    fn decode<'a>(d: &mut DecoderImpl<'a, Ctx>) -> Result<Self, DecodeError> {
        let ghost c = old(d).cfg();
        let ghost s0 = old(d).remaining();
        proof {
            A::lemma_parsed_len(c, s0);
            match A::parsed(c, s0) {
                Some(pa) => {
                    B::lemma_parsed_len(c, s0.subrange(pa.1, s0.len() as int));
                },
                None => {},
            }
        }
        let a = A::decode(d)?;
        proof {
            match A::parsed(c, s0) {
                Some(pa) => {
                    lemma_remaining_advance(*old(d), *d, pa.1);
                },
                None => {},
            }
        }
        let b = B::decode(d)?;
        Ok((a, b))
    }
}

impl<Ctx, A: Decode<Ctx>, B: Decode<Ctx>, C: Decode<Ctx>> Decode<Ctx> for (A, B, C) {
    open spec fn parsed(c: Config, s: Seq<u8>) -> Option<
        ((<A as DeepView>::V, <B as DeepView>::V, <C as DeepView>::V), int),
    > {
        match <(A, B) as Decode<Ctx>>::parsed(c, s) {
            Some(pab) => match C::parsed(c, s.subrange(pab.1, s.len() as int)) {
                Some(pc) => Some(((pab.0.0, pab.0.1, pc.0), pab.1 + pc.1)),
                None => None,
            },
            None => None,
        }
    }

    open spec fn min_wire(c: Config) -> int {
        if <(A, B) as Decode<Ctx>>::min_wire(c) + C::min_wire(c) <= 255 {
            <(A, B) as Decode<Ctx>>::min_wire(c) + C::min_wire(c)
        } else {
            255
        }
    }

    fn min_wire_bytes(c: Config) -> usize {
        let ab = <(A, B) as Decode<Ctx>>::min_wire_bytes(c);
        let cc = C::min_wire_bytes(c);
        if ab + cc <= 255 {
            ab + cc
        } else {
            255
        }
    }

    proof fn lemma_parsed_len(c: Config, s: Seq<u8>) {
        <(A, B) as Decode<Ctx>>::lemma_parsed_len(c, s);
        C::lemma_parsed_len(c, s);
        match <(A, B) as Decode<Ctx>>::parsed(c, s) {
            Some(pab) => {
                C::lemma_parsed_len(c, s.subrange(pab.1, s.len() as int));
            },
            None => {},
        }
    }

    fn decode<'a>(d: &mut DecoderImpl<'a, Ctx>) -> Result<Self, DecodeError> {
        let ghost c = old(d).cfg();
        let ghost s0 = old(d).remaining();
        proof {
            <(A, B) as Decode<Ctx>>::lemma_parsed_len(c, s0);
            match <(A, B) as Decode<Ctx>>::parsed(c, s0) {
                Some(pab) => {
                    C::lemma_parsed_len(c, s0.subrange(pab.1, s0.len() as int));
                },
                None => {},
            }
        }
        let ab = <(A, B) as Decode<Ctx>>::decode(d)?;
        proof {
            match <(A, B) as Decode<Ctx>>::parsed(c, s0) {
                Some(pab) => {
                    lemma_remaining_advance(*old(d), *d, pab.1);
                },
                None => {},
            }
        }
        let c2 = C::decode(d)?;
        Ok((ab.0, ab.1, c2))
    }
}

impl<Ctx, A: Decode<Ctx>, B: Decode<Ctx>, C: Decode<Ctx>, D: Decode<Ctx>> Decode<Ctx> for (
    A,
    B,
    C,
    D,
) {
    open spec fn parsed(c: Config, s: Seq<u8>) -> Option<
        ((<A as DeepView>::V, <B as DeepView>::V, <C as DeepView>::V, <D as DeepView>::V), int),
    > {
        match <(A, B, C) as Decode<Ctx>>::parsed(c, s) {
            Some(pabc) => match D::parsed(c, s.subrange(pabc.1, s.len() as int)) {
                Some(pd) => Some(((pabc.0.0, pabc.0.1, pabc.0.2, pd.0), pabc.1 + pd.1)),
                None => None,
            },
            None => None,
        }
    }

    open spec fn min_wire(c: Config) -> int {
        if <(A, B, C) as Decode<Ctx>>::min_wire(c) + D::min_wire(c) <= 255 {
            <(A, B, C) as Decode<Ctx>>::min_wire(c) + D::min_wire(c)
        } else {
            255
        }
    }

    fn min_wire_bytes(c: Config) -> usize {
        let abc = <(A, B, C) as Decode<Ctx>>::min_wire_bytes(c);
        let dd = D::min_wire_bytes(c);
        if abc + dd <= 255 {
            abc + dd
        } else {
            255
        }
    }

    proof fn lemma_parsed_len(c: Config, s: Seq<u8>) {
        <(A, B, C) as Decode<Ctx>>::lemma_parsed_len(c, s);
        D::lemma_parsed_len(c, s);
        match <(A, B, C) as Decode<Ctx>>::parsed(c, s) {
            Some(pabc) => {
                D::lemma_parsed_len(c, s.subrange(pabc.1, s.len() as int));
            },
            None => {},
        }
    }

    fn decode<'a>(d: &mut DecoderImpl<'a, Ctx>) -> Result<Self, DecodeError> {
        let ghost c = old(d).cfg();
        let ghost s0 = old(d).remaining();
        proof {
            <(A, B, C) as Decode<Ctx>>::lemma_parsed_len(c, s0);
            match <(A, B, C) as Decode<Ctx>>::parsed(c, s0) {
                Some(pabc) => {
                    D::lemma_parsed_len(c, s0.subrange(pabc.1, s0.len() as int));
                },
                None => {},
            }
        }
        let abc = <(A, B, C) as Decode<Ctx>>::decode(d)?;
        proof {
            match <(A, B, C) as Decode<Ctx>>::parsed(c, s0) {
                Some(pabc) => {
                    lemma_remaining_advance(*old(d), *d, pabc.1);
                },
                None => {},
            }
        }
        let d2 = D::decode(d)?;
        Ok((abc.0, abc.1, abc.2, d2))
    }
}

impl<'de, Ctx, A: BorrowDecode<'de, Ctx>> BorrowDecode<'de, Ctx> for (A,) {
    open spec fn parsed(c: Config, s: Seq<u8>) -> Option<((<A as DeepView>::V,), int)> {
        match A::parsed(c, s) {
            Some(pa) => Some(((pa.0,), pa.1)),
            None => None,
        }
    }

    open spec fn min_wire(c: Config) -> int {
        A::min_wire(c)
    }

    fn min_wire_bytes(c: Config) -> usize {
        A::min_wire_bytes(c)
    }

    proof fn lemma_parsed_len(c: Config, s: Seq<u8>) {
        A::lemma_parsed_len(c, s);
    }

    fn borrow_decode(d: &mut DecoderImpl<'de, Ctx>) -> Result<Self, DecodeError> {
        let a = A::borrow_decode(d)?;
        Ok((a,))
    }
}

impl<'de, Ctx, A: BorrowDecode<'de, Ctx>, B: BorrowDecode<'de, Ctx>> BorrowDecode<'de, Ctx> for (A, B) {
    open spec fn parsed(c: Config, s: Seq<u8>) -> Option<
        ((<A as DeepView>::V, <B as DeepView>::V), int),
    > {
        match A::parsed(c, s) {
            Some(pa) => match B::parsed(c, s.subrange(pa.1, s.len() as int)) {
                Some(pb) => Some(((pa.0, pb.0), pa.1 + pb.1)),
                None => None,
            },
            None => None,
        }
    }

    open spec fn min_wire(c: Config) -> int {
        if A::min_wire(c) + B::min_wire(c) <= 255 {
            A::min_wire(c) + B::min_wire(c)
        } else {
            255
        }
    }

    fn min_wire_bytes(c: Config) -> usize {
        let a = A::min_wire_bytes(c);
        let b = B::min_wire_bytes(c);
        if a + b <= 255 {
            a + b
        } else {
            255
        }
    }

    proof fn lemma_parsed_len(c: Config, s: Seq<u8>) {
        A::lemma_parsed_len(c, s);
        B::lemma_parsed_len(c, s);
        match A::parsed(c, s) {
            Some(pa) => {
                B::lemma_parsed_len(c, s.subrange(pa.1, s.len() as int));
            },
            None => {},
        }
    }

    fn borrow_decode(d: &mut DecoderImpl<'de, Ctx>) -> Result<Self, DecodeError> {
        let ghost c = old(d).cfg();
        let ghost s0 = old(d).remaining();
        proof {
            A::lemma_parsed_len(c, s0);
            match A::parsed(c, s0) {
                Some(pa) => {
                    B::lemma_parsed_len(c, s0.subrange(pa.1, s0.len() as int));
                },
                None => {},
            }
        }
        let a = A::borrow_decode(d)?;
        proof {
            match A::parsed(c, s0) {
                Some(pa) => {
                    lemma_remaining_advance(*old(d), *d, pa.1);
                },
                None => {},
            }
        }
        let b = B::borrow_decode(d)?;
        Ok((a, b))
    }
}

impl<'de, Ctx, A: BorrowDecode<'de, Ctx>, B: BorrowDecode<'de, Ctx>, C: BorrowDecode<'de, Ctx>> BorrowDecode<'de, Ctx> for (A, B, C) {
    open spec fn parsed(c: Config, s: Seq<u8>) -> Option<
        ((<A as DeepView>::V, <B as DeepView>::V, <C as DeepView>::V), int),
    > {
        match <(A, B) as BorrowDecode<'de, Ctx>>::parsed(c, s) {
            Some(pab) => match C::parsed(c, s.subrange(pab.1, s.len() as int)) {
                Some(pc) => Some(((pab.0.0, pab.0.1, pc.0), pab.1 + pc.1)),
                None => None,
            },
            None => None,
        }
    }

    open spec fn min_wire(c: Config) -> int {
        if <(A, B) as BorrowDecode<'de, Ctx>>::min_wire(c) + C::min_wire(c) <= 255 {
            <(A, B) as BorrowDecode<'de, Ctx>>::min_wire(c) + C::min_wire(c)
        } else {
            255
        }
    }

    fn min_wire_bytes(c: Config) -> usize {
        let ab = <(A, B) as BorrowDecode<'de, Ctx>>::min_wire_bytes(c);
        let cc = C::min_wire_bytes(c);
        if ab + cc <= 255 {
            ab + cc
        } else {
            255
        }
    }

    proof fn lemma_parsed_len(c: Config, s: Seq<u8>) {
        <(A, B) as BorrowDecode<'de, Ctx>>::lemma_parsed_len(c, s);
        C::lemma_parsed_len(c, s);
        match <(A, B) as BorrowDecode<'de, Ctx>>::parsed(c, s) {
            Some(pab) => {
                C::lemma_parsed_len(c, s.subrange(pab.1, s.len() as int));
            },
            None => {},
        }
    }

    fn borrow_decode(d: &mut DecoderImpl<'de, Ctx>) -> Result<Self, DecodeError> {
        let ghost c = old(d).cfg();
        let ghost s0 = old(d).remaining();
        proof {
            <(A, B) as BorrowDecode<'de, Ctx>>::lemma_parsed_len(c, s0);
            match <(A, B) as BorrowDecode<'de, Ctx>>::parsed(c, s0) {
                Some(pab) => {
                    C::lemma_parsed_len(c, s0.subrange(pab.1, s0.len() as int));
                },
                None => {},
            }
        }
        let ab = <(A, B) as BorrowDecode<'de, Ctx>>::borrow_decode(d)?;
        proof {
            match <(A, B) as BorrowDecode<'de, Ctx>>::parsed(c, s0) {
                Some(pab) => {
                    lemma_remaining_advance(*old(d), *d, pab.1);
                },
                None => {},
            }
        }
        let c2 = C::borrow_decode(d)?;
        Ok((ab.0, ab.1, c2))
    }
}

impl<'de, Ctx, A: BorrowDecode<'de, Ctx>, B: BorrowDecode<'de, Ctx>, C: BorrowDecode<'de, Ctx>, D: BorrowDecode<'de, Ctx>> BorrowDecode<'de, Ctx> for (A, B, C, D) {
    open spec fn parsed(c: Config, s: Seq<u8>) -> Option<
        ((<A as DeepView>::V, <B as DeepView>::V, <C as DeepView>::V, <D as DeepView>::V), int),
    > {
        match <(A, B, C) as BorrowDecode<'de, Ctx>>::parsed(c, s) {
            Some(pabc) => match D::parsed(c, s.subrange(pabc.1, s.len() as int)) {
                Some(pd) => Some(((pabc.0.0, pabc.0.1, pabc.0.2, pd.0), pabc.1 + pd.1)),
                None => None,
            },
            None => None,
        }
    }

    open spec fn min_wire(c: Config) -> int {
        if <(A, B, C) as BorrowDecode<'de, Ctx>>::min_wire(c) + D::min_wire(c) <= 255 {
            <(A, B, C) as BorrowDecode<'de, Ctx>>::min_wire(c) + D::min_wire(c)
        } else {
            255
        }
    }

    fn min_wire_bytes(c: Config) -> usize {
        let abc = <(A, B, C) as BorrowDecode<'de, Ctx>>::min_wire_bytes(c);
        let dd = D::min_wire_bytes(c);
        if abc + dd <= 255 {
            abc + dd
        } else {
            255
        }
    }

    proof fn lemma_parsed_len(c: Config, s: Seq<u8>) {
        <(A, B, C) as BorrowDecode<'de, Ctx>>::lemma_parsed_len(c, s);
        D::lemma_parsed_len(c, s);
        match <(A, B, C) as BorrowDecode<'de, Ctx>>::parsed(c, s) {
            Some(pabc) => {
                D::lemma_parsed_len(c, s.subrange(pabc.1, s.len() as int));
            },
            None => {},
        }
    }

    fn borrow_decode(d: &mut DecoderImpl<'de, Ctx>) -> Result<Self, DecodeError> {
        let ghost c = old(d).cfg();
        let ghost s0 = old(d).remaining();
        proof {
            <(A, B, C) as BorrowDecode<'de, Ctx>>::lemma_parsed_len(c, s0);
            match <(A, B, C) as BorrowDecode<'de, Ctx>>::parsed(c, s0) {
                Some(pabc) => {
                    D::lemma_parsed_len(c, s0.subrange(pabc.1, s0.len() as int));
                },
                None => {},
            }
        }
        let abc = <(A, B, C) as BorrowDecode<'de, Ctx>>::borrow_decode(d)?;
        proof {
            match <(A, B, C) as BorrowDecode<'de, Ctx>>::parsed(c, s0) {
                Some(pabc) => {
                    lemma_remaining_advance(*old(d), *d, pabc.1);
                },
                None => {},
            }
        }
        let d2 = D::borrow_decode(d)?;
        Ok((abc.0, abc.1, abc.2, d2))
    }
}


/// The wire form of a run of sequence elements, in order.
pub open spec fn elems_encoding<T: Encode>(s: Seq<T>, c: Config) -> Seq<u8>
    decreases s.len(),
{
    if s.len() == 0 {
        Seq::<u8>::empty()
    } else {
        s[0].encoding(c) + elems_encoding(s.drop_first(), c)
    }
}

/// Appending one element appends its wire form.
proof fn lemma_elems_encoding_snoc<T: Encode>(s: Seq<T>, x: T, c: Config)
    ensures
        elems_encoding(s.push(x), c) == elems_encoding(s, c) + x.encoding(c),
    decreases s.len(),
{
    if s.len() == 0 {
        assert(s.push(x)[0] == x);
        assert(s.push(x).drop_first() =~= s);
        assert(elems_encoding(s.push(x), c) == x.encoding(c) + elems_encoding(s, c));
        assert(elems_encoding(s, c) == Seq::<u8>::empty());
        assert(x.encoding(c) + Seq::<u8>::empty() =~= Seq::<u8>::empty() + x.encoding(c));
    } else {
        assert(s.push(x)[0] == s[0]);
        assert(s.push(x).drop_first() =~= s.drop_first().push(x));
        assert(elems_encoding(s.push(x), c) == s[0].encoding(c) + elems_encoding(
            s.drop_first().push(x),
            c,
        ));
        lemma_elems_encoding_snoc(s.drop_first(), x, c);
        assert(s[0].encoding(c) + (elems_encoding(s.drop_first(), c) + x.encoding(c)) =~= (
        s[0].encoding(c) + elems_encoding(s.drop_first(), c)) + x.encoding(c));
        assert(elems_encoding(s, c) == s[0].encoding(c) + elems_encoding(s.drop_first(), c));
    }
}

impl<T: Encode> Encode for Vec<T> {
    open spec fn encoding(&self, c: Config) -> Seq<u8> {
        u64_encoding(c, self@.len() as u64) + elems_encoding(self@, c)
    }

    #[verifier::loop_isolation(false)]
    fn encode(&self, e: &mut EncoderImpl) {
        let ghost c = e.cfg();
        let n = self.len();
        e.encode_slice_len(n);
        let mut i: usize = 0;
        while i < n
            invariant
                i <= n,
                e.cfg() == old(e).cfg(),
                e.written() =~= old(e).written() + u64_encoding(c, n as u64) + elems_encoding(
                    self@.subrange(0, i as int),
                    c,
                ),
            decreases n - i,
        {
            let p = &self[i];
            p.encode(e);
            proof {
                assert(self@.subrange(0, i + 1) =~= self@.subrange(0, i as int).push(
                    self@[i as int],
                ));
                lemma_elems_encoding_snoc(self@.subrange(0, i as int), self@[i as int], c);
                assert(e.written() =~= old(e).written() + u64_encoding(c, n as u64)
                    + elems_encoding(self@.subrange(0, i + 1), c));
            }
            i = i + 1;
        }
        proof {
            assert(self@.subrange(0, n as int) =~= self@);
            assert(e.written() =~= old(e).written() + self.encoding(old(e).cfg()));
        }
    }
}

/// Reading `n` consecutive values of `T` off the head of `s`: their deep
/// views in order and their total byte count, or nothing when the run
/// does not parse.
pub open spec fn run_parse<Ctx, T: Decode<Ctx>>(c: Config, s: Seq<u8>, n: nat) -> Option<
    (Seq<<T as DeepView>::V>, int),
>
    decreases n,
{
    if n == 0 {
        Some((Seq::<<T as DeepView>::V>::empty(), 0int))
    } else {
        match T::parsed(c, s) {
            Some(p) => match run_parse::<Ctx, T>(
                c,
                s.subrange(p.1, s.len() as int),
                (n - 1) as nat,
            ) {
                Some(q) => Some((seq![p.0] + q.0, p.1 + q.1)),
                None => None,
            },
            None => None,
        }
    }
}

/// A parsed run of `n` values occupies at least `n` floors and at most
/// the whole input.
pub proof fn lemma_run_parse_len<Ctx, T: Decode<Ctx>>(c: Config, s: Seq<u8>, n: nat)
    ensures
        run_parse::<Ctx, T>(c, s, n) matches Some(q) ==> n * T::min_wire(c) <= q.1 <= s.len()
            && q.0.len() == n,
    decreases n,
{
    T::lemma_parsed_len(c, s);
    if n > 0 {
        match T::parsed(c, s) {
            Some(p) => {
                lemma_run_parse_len::<Ctx, T>(c, s.subrange(p.1, s.len() as int), (n - 1) as nat);
                assert(n * T::min_wire(c) == (n - 1) * T::min_wire(c) + T::min_wire(c))
                    by (nonlinear_arith);
            },
            None => {},
        }
    } else {
        assert(n * T::min_wire(c) == 0) by (nonlinear_arith)
            requires
                n == 0,
        ;
    }
}

/// Parsing `m` more values from `rest` extends what `raw` values, over
/// `used` bytes, already read from the head of `whole`.
pub open spec fn run_parse_extends<Ctx, T: Decode<Ctx>>(
    c: Config,
    whole: Seq<u8>,
    n: nat,
    raw: Seq<<T as DeepView>::V>,
    used: int,
    rest: Seq<u8>,
    m: nat,
) -> bool {
    match run_parse::<Ctx, T>(c, rest, m) {
        Some(q) => run_parse::<Ctx, T>(c, whole, n) == Some((raw + q.0, used + q.1)),
        None => run_parse::<Ctx, T>(c, whole, n) is None,
    }
}

/// Reads a sequence: length, floor claim of `len` times the element
/// floor, then elements one at a time, each handing its floor share
/// back just before its own reads claim its true cost. A length whose
/// floor passes the limit is rejected before the vector is allocated,
/// even when the input ends right after the prefix. A successful decode
/// returns exactly the values the wire grammar names, and is owed
/// whenever the input parses and the budget covers its bytes.
#[verifier::loop_isolation(false)]
pub fn decode_vec<'a, Ctx, T: Decode<Ctx>>(d: &mut DecoderImpl<'a, Ctx>) -> (r: Result<
    Vec<T>,
    DecodeError,
>)
    requires
        old(d).wf(),
    ensures
        final(d).advanced_from(*old(d)),
        r.is_ok() && old(d).cfg().limit.is_some() ==> final(d).claimed() - old(d).claimed()
            == final(d).position() - old(d).position(),
        (match old(d).len_outcome() {
            Err(e) => r matches Err(e2) && e2 == e,
            Ok(n) => {
                &&& (!old(d).budget_ok(
                    old(d).u64_outcome_len() + n * T::min_wire(old(d).cfg()),
                ) ==> (r matches Err(e2) && e2 == DecodeError::LimitExceeded))
                &&& (r matches Ok(v) ==> v@.len() == n)
            },
        }),
        (r matches Ok(v) ==> (<Vec<T> as Decode<Ctx>>::parsed(
            old(d).cfg(),
            old(d).remaining(),
        ) matches Some(p) && v.deep_view() == p.0 && final(d).position() == old(d).position()
            + p.1)),
        (<Vec<T> as Decode<Ctx>>::parsed(old(d).cfg(), old(d).remaining()) matches Some(p) ==> (
        old(d).budget_ok(p.1) ==> r.is_ok())),
{
    let ghost dorig = *d;
    let ghost c = old(d).cfg();
    proof {
        lemma_u64_outcome_parse(dorig);
        T::lemma_parsed_len(c, dorig.remaining());
        match len_prefix_parse(c, dorig.remaining()) {
            Some(nk) => {
                lemma_run_parse_len::<Ctx, T>(
                    c,
                    dorig.remaining().subrange(nk.1, dorig.remaining().len() as int),
                    nk.0 as nat,
                );
                assert((nk.0 as int) * T::min_wire(c) >= 0) by (nonlinear_arith)
                    requires
                        nk.0 >= 0,
                        T::min_wire(c) >= 1,
                ;
            },
            None => {},
        }
    }
    let len = d.decode_slice_len()?;
    proof {
        assert(0 <= dorig.u64_outcome_len());
        lemma_remaining_advance(dorig, *d, dorig.u64_outcome_len());
        lemma_run_parse_len::<Ctx, T>(c, d.remaining(), len as nat);
        T::lemma_parsed_len(c, d.remaining());
    }
    let elem: usize = T::min_wire_bytes(d.config());
    d.claim_container_read(len, elem)?;
    let ghost dstart = *d;
    let ghost tail = dstart.remaining();
    let mut out: Vec<T> = Vec::new();
    let mut i: usize = 0;
    let ghost mut raw: Seq<<T as DeepView>::V> = Seq::<<T as DeepView>::V>::empty();
    proof {
        assert(raw + Seq::<<T as DeepView>::V>::empty() =~= raw);
        assert(out.deep_view() =~= raw);
    }
    while i < len
        invariant
            i <= len,
            d.wf(),
            out@.len() == i as int,
            out.deep_view() == raw,
            d.data() == dstart.data(),
            d.cfg() == dstart.cfg(),
            d.context() == dstart.context(),
            dstart.position() <= d.position() <= d.data().len(),
            dstart.cfg().limit.is_some() ==> d.claimed() == dstart.claimed() + (d.position()
                - dstart.position()) - (i as int) * (elem as int),
            dstart.cfg().limit.is_none() ==> d.claimed() == dstart.claimed(),
            run_parse_extends::<Ctx, T>(
                c,
                tail,
                len as nat,
                raw,
                d.position() - dstart.position(),
                d.remaining(),
                (len - i) as nat,
            ),
        decreases len - i,
    {
        proof {
            assert((len as int) * (elem as int) >= (i as int) * (elem as int) + (elem as int))
                by (nonlinear_arith)
                requires
                    i < len,
                    elem >= 1,
            ;
            assert((i as int) * (elem as int) >= 0) by (nonlinear_arith)
                requires
                    i >= 0,
                    elem >= 1,
            ;
        }
        d.unclaim_bytes_read(elem);
        let ghost dmid = *d;
        proof {
            T::lemma_parsed_len(c, dmid.remaining());
            match run_parse::<Ctx, T>(c, tail, len as nat) {
                Some(p) => {
                    if dorig.budget_ok(dorig.u64_outcome_len() + p.1) {
                        match run_parse::<Ctx, T>(c, dmid.remaining(), (len - i) as nat) {
                            Some(qi) => {
                                match T::parsed(c, dmid.remaining()) {
                                    Some(pe) => {
                                        lemma_run_parse_len::<Ctx, T>(
                                            c,
                                            dmid.remaining().subrange(
                                                pe.1,
                                                dmid.remaining().len() as int,
                                            ),
                                            (len - i - 1) as nat,
                                        );
                                        assert((len as int - i - 1) * (elem as int) <= (len - i
                                            - 1) * T::min_wire(c)) by (nonlinear_arith)
                                            requires
                                                elem as int == T::min_wire(c),
                                                i < len,
                                        ;
                                        assert((len as int) * (elem as int) - (i as int) * (
                                        elem as int) - (elem as int) == (len as int - i - 1) * (
                                        elem as int)) by (nonlinear_arith);
                                        assert(dmid.budget_ok(pe.1));
                                    },
                                    None => {
                                        assert(false);
                                    },
                                }
                            },
                            None => {
                                assert(run_parse::<Ctx, T>(c, tail, len as nat) is None);
                                assert(false);
                            },
                        }
                    }
                },
                None => {},
            }
        }
        let x = T::decode(d)?;
        proof {
            match T::parsed(c, dmid.remaining()) {
                Some(pe) => {
                    lemma_remaining_advance(dmid, *d, pe.1);
                    assert(raw.push(x.deep_view()) =~= raw + seq![pe.0]);
                    match run_parse::<Ctx, T>(c, d.remaining(), (len - i - 1) as nat) {
                        Some(qr) => {
                            assert(run_parse::<Ctx, T>(c, dmid.remaining(), (len - i) as nat)
                                == Some((seq![pe.0] + qr.0, pe.1 + qr.1)));
                            assert(raw + (seq![pe.0] + qr.0) =~= (raw + seq![pe.0]) + qr.0);
                        },
                        None => {},
                    }
                },
                None => {},
            }
            raw = raw.push(x.deep_view());
        }
        out.push(x);
        proof {
            assert(out.deep_view() =~= raw);
        }
        i = i + 1;
        proof {
            assert((i as int) * (elem as int) == (i as int - 1) * (elem as int) + (elem as int))
                by (nonlinear_arith);
        }
    }
    proof {
        assert(run_parse::<Ctx, T>(c, d.remaining(), 0) == Some(
            (Seq::<<T as DeepView>::V>::empty(), 0int),
        ));
        assert(raw + Seq::<<T as DeepView>::V>::empty() =~= raw);
        assert((len as int) * (elem as int) >= 0) by (nonlinear_arith)
            requires
                len >= 0,
                elem >= 1,
        ;
    }
    Ok(out)
}

impl<Ctx, T: Decode<Ctx>> Decode<Ctx> for Vec<T> {
    open spec fn parsed(c: Config, s: Seq<u8>) -> Option<(Seq<<T as DeepView>::V>, int)> {
        match len_prefix_parse(c, s) {
            Some(nk) => match run_parse::<Ctx, T>(
                c,
                s.subrange(nk.1, s.len() as int),
                nk.0 as nat,
            ) {
                Some(q) => Some((q.0, nk.1 + q.1)),
                None => None,
            },
            None => None,
        }
    }

    open spec fn min_wire(c: Config) -> int {
        int_min_wire(c)
    }

    fn min_wire_bytes(c: Config) -> usize {
        int_min_wire_exec(c)
    }

    proof fn lemma_parsed_len(c: Config, s: Seq<u8>) {
        lemma_u64_parse_len(c, s);
        match len_prefix_parse(c, s) {
            Some(nk) => {
                lemma_run_parse_len::<Ctx, T>(c, s.subrange(nk.1, s.len() as int), nk.0 as nat);
                T::lemma_parsed_len(c, s);
                assert((nk.0 as int) * T::min_wire(c) >= 0) by (nonlinear_arith)
                    requires
                        nk.0 >= 0,
                        T::min_wire(c) >= 1,
                ;
            },
            None => {},
        }
    }

    fn decode<'a>(d: &mut DecoderImpl<'a, Ctx>) -> Result<Self, DecodeError> {
        decode_vec(d)
    }
}

/// Reading `n` consecutive values of `T` off the head of `s`: their deep
/// views in order and their total byte count, or nothing when the run
/// does not parse.
pub open spec fn borrow_run_parse<'de, Ctx, T: BorrowDecode<'de, Ctx>>(c: Config, s: Seq<u8>, n: nat) -> Option<
    (Seq<<T as DeepView>::V>, int),
>
    decreases n,
{
    if n == 0 {
        Some((Seq::<<T as DeepView>::V>::empty(), 0int))
    } else {
        match T::parsed(c, s) {
            Some(p) => match borrow_run_parse::<'de, Ctx, T>(
                c,
                s.subrange(p.1, s.len() as int),
                (n - 1) as nat,
            ) {
                Some(q) => Some((seq![p.0] + q.0, p.1 + q.1)),
                None => None,
            },
            None => None,
        }
    }
}

/// A parsed run of `n` values occupies at least `n` floors and at most
/// the whole input.
pub proof fn lemma_borrow_run_parse_len<'de, Ctx, T: BorrowDecode<'de, Ctx>>(c: Config, s: Seq<u8>, n: nat)
    ensures
        borrow_run_parse::<'de, Ctx, T>(c, s, n) matches Some(q) ==> n * T::min_wire(c) <= q.1 <= s.len()
            && q.0.len() == n,
    decreases n,
{
    T::lemma_parsed_len(c, s);
    if n > 0 {
        match T::parsed(c, s) {
            Some(p) => {
                lemma_borrow_run_parse_len::<'de, Ctx, T>(c, s.subrange(p.1, s.len() as int), (n - 1) as nat);
                assert(n * T::min_wire(c) == (n - 1) * T::min_wire(c) + T::min_wire(c))
                    by (nonlinear_arith);
            },
            None => {},
        }
    } else {
        assert(n * T::min_wire(c) == 0) by (nonlinear_arith)
            requires
                n == 0,
        ;
    }
}

/// Parsing `m` more values from `rest` extends what `raw` values, over
/// `used` bytes, already read from the head of `whole`.
pub open spec fn borrow_run_parse_extends<'de, Ctx, T: BorrowDecode<'de, Ctx>>(
    c: Config,
    whole: Seq<u8>,
    n: nat,
    raw: Seq<<T as DeepView>::V>,
    used: int,
    rest: Seq<u8>,
    m: nat,
) -> bool {
    match borrow_run_parse::<'de, Ctx, T>(c, rest, m) {
        Some(q) => borrow_run_parse::<'de, Ctx, T>(c, whole, n) == Some((raw + q.0, used + q.1)),
        None => borrow_run_parse::<'de, Ctx, T>(c, whole, n) is None,
    }
}

/// Reads a sequence whose elements borrow the decoder's backing
/// storage; the protocol and contract are the ones `decode_vec`
/// carries: length, floor claim of `len` times the element
/// floor, then elements one at a time, each handing its floor share
/// back just before its own reads claim its true cost. A length whose
/// floor passes the limit is rejected before the vector is allocated,
/// even when the input ends right after the prefix. A successful decode
/// returns exactly the values the wire grammar names, and is owed
/// whenever the input parses and the budget covers its bytes.
#[verifier::loop_isolation(false)]
pub fn decode_vec_borrowed<'de, Ctx, T: BorrowDecode<'de, Ctx>>(d: &mut DecoderImpl<'de, Ctx>) -> (r: Result<
    Vec<T>,
    DecodeError,
>)
    requires
        old(d).wf(),
    ensures
        final(d).advanced_from(*old(d)),
        r.is_ok() && old(d).cfg().limit.is_some() ==> final(d).claimed() - old(d).claimed()
            == final(d).position() - old(d).position(),
        (match old(d).len_outcome() {
            Err(e) => r matches Err(e2) && e2 == e,
            Ok(n) => {
                &&& (!old(d).budget_ok(
                    old(d).u64_outcome_len() + n * T::min_wire(old(d).cfg()),
                ) ==> (r matches Err(e2) && e2 == DecodeError::LimitExceeded))
                &&& (r matches Ok(v) ==> v@.len() == n)
            },
        }),
        (r matches Ok(v) ==> (<Vec<T> as BorrowDecode<'de, Ctx>>::parsed(
            old(d).cfg(),
            old(d).remaining(),
        ) matches Some(p) && v.deep_view() == p.0 && final(d).position() == old(d).position()
            + p.1)),
        (<Vec<T> as BorrowDecode<'de, Ctx>>::parsed(old(d).cfg(), old(d).remaining()) matches Some(p) ==> (
        old(d).budget_ok(p.1) ==> r.is_ok())),
{
    let ghost dorig = *d;
    let ghost c = old(d).cfg();
    proof {
        lemma_u64_outcome_parse(dorig);
        T::lemma_parsed_len(c, dorig.remaining());
        match len_prefix_parse(c, dorig.remaining()) {
            Some(nk) => {
                lemma_borrow_run_parse_len::<'de, Ctx, T>(
                    c,
                    dorig.remaining().subrange(nk.1, dorig.remaining().len() as int),
                    nk.0 as nat,
                );
                assert((nk.0 as int) * T::min_wire(c) >= 0) by (nonlinear_arith)
                    requires
                        nk.0 >= 0,
                        T::min_wire(c) >= 1,
                ;
            },
            None => {},
        }
    }
    let len = d.decode_slice_len()?;
    proof {
        assert(0 <= dorig.u64_outcome_len());
        lemma_remaining_advance(dorig, *d, dorig.u64_outcome_len());
        lemma_borrow_run_parse_len::<'de, Ctx, T>(c, d.remaining(), len as nat);
        T::lemma_parsed_len(c, d.remaining());
    }
    let elem: usize = T::min_wire_bytes(d.config());
    d.claim_container_read(len, elem)?;
    let ghost dstart = *d;
    let ghost tail = dstart.remaining();
    let mut out: Vec<T> = Vec::new();
    let mut i: usize = 0;
    let ghost mut raw: Seq<<T as DeepView>::V> = Seq::<<T as DeepView>::V>::empty();
    proof {
        assert(raw + Seq::<<T as DeepView>::V>::empty() =~= raw);
        assert(out.deep_view() =~= raw);
    }
    while i < len
        invariant
            i <= len,
            d.wf(),
            out@.len() == i as int,
            out.deep_view() == raw,
            d.data() == dstart.data(),
            d.cfg() == dstart.cfg(),
            d.context() == dstart.context(),
            dstart.position() <= d.position() <= d.data().len(),
            dstart.cfg().limit.is_some() ==> d.claimed() == dstart.claimed() + (d.position()
                - dstart.position()) - (i as int) * (elem as int),
            dstart.cfg().limit.is_none() ==> d.claimed() == dstart.claimed(),
            borrow_run_parse_extends::<'de, Ctx, T>(
                c,
                tail,
                len as nat,
                raw,
                d.position() - dstart.position(),
                d.remaining(),
                (len - i) as nat,
            ),
        decreases len - i,
    {
        proof {
            assert((len as int) * (elem as int) >= (i as int) * (elem as int) + (elem as int))
                by (nonlinear_arith)
                requires
                    i < len,
                    elem >= 1,
            ;
            assert((i as int) * (elem as int) >= 0) by (nonlinear_arith)
                requires
                    i >= 0,
                    elem >= 1,
            ;
        }
        d.unclaim_bytes_read(elem);
        let ghost dmid = *d;
        proof {
            T::lemma_parsed_len(c, dmid.remaining());
            match borrow_run_parse::<'de, Ctx, T>(c, tail, len as nat) {
                Some(p) => {
                    if dorig.budget_ok(dorig.u64_outcome_len() + p.1) {
                        match borrow_run_parse::<'de, Ctx, T>(c, dmid.remaining(), (len - i) as nat) {
                            Some(qi) => {
                                match T::parsed(c, dmid.remaining()) {
                                    Some(pe) => {
                                        lemma_borrow_run_parse_len::<'de, Ctx, T>(
                                            c,
                                            dmid.remaining().subrange(
                                                pe.1,
                                                dmid.remaining().len() as int,
                                            ),
                                            (len - i - 1) as nat,
                                        );
                                        assert((len as int - i - 1) * (elem as int) <= (len - i
                                            - 1) * T::min_wire(c)) by (nonlinear_arith)
                                            requires
                                                elem as int == T::min_wire(c),
                                                i < len,
                                        ;
                                        assert((len as int) * (elem as int) - (i as int) * (
                                        elem as int) - (elem as int) == (len as int - i - 1) * (
                                        elem as int)) by (nonlinear_arith);
                                        assert(dmid.budget_ok(pe.1));
                                    },
                                    None => {
                                        assert(false);
                                    },
                                }
                            },
                            None => {
                                assert(borrow_run_parse::<'de, Ctx, T>(c, tail, len as nat) is None);
                                assert(false);
                            },
                        }
                    }
                },
                None => {},
            }
        }
        let x = T::borrow_decode(d)?;
        proof {
            match T::parsed(c, dmid.remaining()) {
                Some(pe) => {
                    lemma_remaining_advance(dmid, *d, pe.1);
                    assert(raw.push(x.deep_view()) =~= raw + seq![pe.0]);
                    match borrow_run_parse::<'de, Ctx, T>(c, d.remaining(), (len - i - 1) as nat) {
                        Some(qr) => {
                            assert(borrow_run_parse::<'de, Ctx, T>(c, dmid.remaining(), (len - i) as nat)
                                == Some((seq![pe.0] + qr.0, pe.1 + qr.1)));
                            assert(raw + (seq![pe.0] + qr.0) =~= (raw + seq![pe.0]) + qr.0);
                        },
                        None => {},
                    }
                },
                None => {},
            }
            raw = raw.push(x.deep_view());
        }
        out.push(x);
        proof {
            assert(out.deep_view() =~= raw);
        }
        i = i + 1;
        proof {
            assert((i as int) * (elem as int) == (i as int - 1) * (elem as int) + (elem as int))
                by (nonlinear_arith);
        }
    }
    proof {
        assert(borrow_run_parse::<'de, Ctx, T>(c, d.remaining(), 0) == Some(
            (Seq::<<T as DeepView>::V>::empty(), 0int),
        ));
        assert(raw + Seq::<<T as DeepView>::V>::empty() =~= raw);
        assert((len as int) * (elem as int) >= 0) by (nonlinear_arith)
            requires
                len >= 0,
                elem >= 1,
        ;
    }
    Ok(out)
}

impl<'de, Ctx, T: BorrowDecode<'de, Ctx>> BorrowDecode<'de, Ctx> for Vec<T> {
    open spec fn parsed(c: Config, s: Seq<u8>) -> Option<(Seq<<T as DeepView>::V>, int)> {
        match len_prefix_parse(c, s) {
            Some(nk) => match borrow_run_parse::<'de, Ctx, T>(
                c,
                s.subrange(nk.1, s.len() as int),
                nk.0 as nat,
            ) {
                Some(q) => Some((q.0, nk.1 + q.1)),
                None => None,
            },
            None => None,
        }
    }

    open spec fn min_wire(c: Config) -> int {
        int_min_wire(c)
    }

    fn min_wire_bytes(c: Config) -> usize {
        int_min_wire_exec(c)
    }

    proof fn lemma_parsed_len(c: Config, s: Seq<u8>) {
        lemma_u64_parse_len(c, s);
        match len_prefix_parse(c, s) {
            Some(nk) => {
                lemma_borrow_run_parse_len::<'de, Ctx, T>(c, s.subrange(nk.1, s.len() as int), nk.0 as nat);
                T::lemma_parsed_len(c, s);
                assert((nk.0 as int) * T::min_wire(c) >= 0) by (nonlinear_arith)
                    requires
                        nk.0 >= 0,
                        T::min_wire(c) >= 1,
                ;
            },
            None => {},
        }
    }

    fn borrow_decode(d: &mut DecoderImpl<'de, Ctx>) -> Result<Self, DecodeError> {
        decode_vec_borrowed(d)
    }
}

/// Encodes one value to a fresh byte vector under `c`.
pub fn encode_to_vec<T: Encode>(t: &T, c: Config) -> (r: Vec<u8>)
    ensures
        r@ == t.encoding(c),
{
    let mut e = EncoderImpl::new(c);
    t.encode(&mut e);
    proof {
        assert(e.written() =~= t.encoding(c));
    }
    e.into_vec()
}

/// Decodes one owned value off the front of `data` under `c`, with the
/// unit context; on success it is exactly the value the wire grammar
/// names at the front, together with how many bytes it occupied, and
/// success is owed whenever the front parses within the limit.
pub fn decode_from_slice<T: Decode<()>>(data: &[u8], c: Config) -> (r: Result<
    (T, usize),
    DecodeError,
>)
    ensures
        (r matches Ok(p) ==> (T::parsed(c, data@) matches Some(q) && p.0.deep_view() == q.0
            && p.1 == q.1)),
        (T::parsed(c, data@) matches Some(q) ==> ((match c.limit {
            Some(l) => q.1 <= l,
            None => true,
        }) ==> r.is_ok())),
{
    decode_from_slice_with_context(data, c, ())
}

/// Decodes one owned value off the front of `data` under `c`, threading
/// the given context value through every nested decode call.
pub fn decode_from_slice_with_context<Ctx, T: Decode<Ctx>>(data: &[u8], c: Config, ctx: Ctx) -> (r:
    Result<(T, usize), DecodeError>)
    ensures
        (r matches Ok(p) ==> (T::parsed(c, data@) matches Some(q) && p.0.deep_view() == q.0
            && p.1 == q.1)),
        (T::parsed(c, data@) matches Some(q) ==> ((match c.limit {
            Some(l) => q.1 <= l,
            None => true,
        }) ==> r.is_ok())),
{
    let reader = crate::reader::SliceReader::new(data);
    let mut d = DecoderImpl::new(reader, c, ctx);
    proof {
        assert(d.remaining() =~= data@);
    }
    match T::decode(&mut d) {
        Ok(t) => Ok((t, d.bytes_consumed())),
        Err(e) => Err(e),
    }
}

/// Decodes one value off the front of `data` under `c`, allowing the
/// value to borrow `data` itself instead of copying.
pub fn borrow_decode_from_slice<'de, T: BorrowDecode<'de, ()>>(data: &'de [u8], c: Config) -> (r:
    Result<(T, usize), DecodeError>)
    ensures
        (r matches Ok(p) ==> (T::parsed(c, data@) matches Some(q) && p.0.deep_view() == q.0
            && p.1 == q.1)),
        (T::parsed(c, data@) matches Some(q) ==> ((match c.limit {
            Some(l) => q.1 <= l,
            None => true,
        }) ==> r.is_ok())),
{
    let reader = crate::reader::SliceReader::new(data);
    let mut d = DecoderImpl::new(reader, c, ());
    proof {
        assert(d.remaining() =~= data@);
    }
    match T::borrow_decode(&mut d) {
        Ok(t) => Ok((t, d.bytes_consumed())),
        Err(e) => Err(e),
    }
}

impl<Ctx, A: Decode<Ctx>, B: Decode<Ctx>, C: Decode<Ctx>, D: Decode<Ctx>, E: Decode<Ctx>> Decode<Ctx> for (A, B, C, D, E) {
    open spec fn parsed(c: Config, s: Seq<u8>) -> Option<((<A as DeepView>::V, <B as DeepView>::V, <C as DeepView>::V, <D as DeepView>::V, <E as DeepView>::V), int)> {
        match <(A, B, C, D) as Decode<Ctx>>::parsed(c, s) {
            Some(pp) => match E::parsed(c, s.subrange(pp.1, s.len() as int)) {
                Some(pl) => Some(((pp.0.0, pp.0.1, pp.0.2, pp.0.3, pl.0), pp.1 + pl.1)),
                None => None,
            },
            None => None,
        }
    }

    open spec fn min_wire(c: Config) -> int {
        if <(A, B, C, D) as Decode<Ctx>>::min_wire(c) + E::min_wire(c) <= 255 {
            <(A, B, C, D) as Decode<Ctx>>::min_wire(c) + E::min_wire(c)
        } else {
            255
        }
    }

    fn min_wire_bytes(c: Config) -> usize {
        let a = <(A, B, C, D) as Decode<Ctx>>::min_wire_bytes(c);
        let b = E::min_wire_bytes(c);
        if a + b <= 255 {
            a + b
        } else {
            255
        }
    }

    proof fn lemma_parsed_len(c: Config, s: Seq<u8>) {
        <(A, B, C, D) as Decode<Ctx>>::lemma_parsed_len(c, s);
        E::lemma_parsed_len(c, s);
        match <(A, B, C, D) as Decode<Ctx>>::parsed(c, s) {
            Some(pp) => {
                E::lemma_parsed_len(c, s.subrange(pp.1, s.len() as int));
            },
            None => {},
        }
    }

    fn decode<'a>(d: &mut DecoderImpl<'a, Ctx>) -> Result<Self, DecodeError> {
        let ghost c = old(d).cfg();
        let ghost s0 = old(d).remaining();
        proof {
            <(A, B, C, D) as Decode<Ctx>>::lemma_parsed_len(c, s0);
            match <(A, B, C, D) as Decode<Ctx>>::parsed(c, s0) {
                Some(pp) => {
                    E::lemma_parsed_len(c, s0.subrange(pp.1, s0.len() as int));
                },
                None => {},
            }
        }
        let pv = <(A, B, C, D) as Decode<Ctx>>::decode(d)?;
        proof {
            match <(A, B, C, D) as Decode<Ctx>>::parsed(c, s0) {
                Some(pp) => {
                    lemma_remaining_advance(*old(d), *d, pp.1);
                },
                None => {},
            }
        }
        let last = E::decode(d)?;
        Ok((pv.0, pv.1, pv.2, pv.3, last))
    }
}

impl<Ctx, A: Decode<Ctx>, B: Decode<Ctx>, C: Decode<Ctx>, D: Decode<Ctx>, E: Decode<Ctx>, F: Decode<Ctx>> Decode<Ctx> for (A, B, C, D, E, F) {
    open spec fn parsed(c: Config, s: Seq<u8>) -> Option<((<A as DeepView>::V, <B as DeepView>::V, <C as DeepView>::V, <D as DeepView>::V, <E as DeepView>::V, <F as DeepView>::V), int)> {
        match <(A, B, C, D, E) as Decode<Ctx>>::parsed(c, s) {
            Some(pp) => match F::parsed(c, s.subrange(pp.1, s.len() as int)) {
                Some(pl) => Some(((pp.0.0, pp.0.1, pp.0.2, pp.0.3, pp.0.4, pl.0), pp.1 + pl.1)),
                None => None,
            },
            None => None,
        }
    }

    open spec fn min_wire(c: Config) -> int {
        if <(A, B, C, D, E) as Decode<Ctx>>::min_wire(c) + F::min_wire(c) <= 255 {
            <(A, B, C, D, E) as Decode<Ctx>>::min_wire(c) + F::min_wire(c)
        } else {
            255
        }
    }

    fn min_wire_bytes(c: Config) -> usize {
        let a = <(A, B, C, D, E) as Decode<Ctx>>::min_wire_bytes(c);
        let b = F::min_wire_bytes(c);
        if a + b <= 255 {
            a + b
        } else {
            255
        }
    }

    proof fn lemma_parsed_len(c: Config, s: Seq<u8>) {
        <(A, B, C, D, E) as Decode<Ctx>>::lemma_parsed_len(c, s);
        F::lemma_parsed_len(c, s);
        match <(A, B, C, D, E) as Decode<Ctx>>::parsed(c, s) {
            Some(pp) => {
                F::lemma_parsed_len(c, s.subrange(pp.1, s.len() as int));
            },
            None => {},
        }
    }

    fn decode<'a>(d: &mut DecoderImpl<'a, Ctx>) -> Result<Self, DecodeError> {
        let ghost c = old(d).cfg();
        let ghost s0 = old(d).remaining();
        proof {
            <(A, B, C, D, E) as Decode<Ctx>>::lemma_parsed_len(c, s0);
            match <(A, B, C, D, E) as Decode<Ctx>>::parsed(c, s0) {
                Some(pp) => {
                    F::lemma_parsed_len(c, s0.subrange(pp.1, s0.len() as int));
                },
                None => {},
            }
        }
        let pv = <(A, B, C, D, E) as Decode<Ctx>>::decode(d)?;
        proof {
            match <(A, B, C, D, E) as Decode<Ctx>>::parsed(c, s0) {
                Some(pp) => {
                    lemma_remaining_advance(*old(d), *d, pp.1);
                },
                None => {},
            }
        }
        let last = F::decode(d)?;
        Ok((pv.0, pv.1, pv.2, pv.3, pv.4, last))
    }
}

impl<Ctx, A: Decode<Ctx>, B: Decode<Ctx>, C: Decode<Ctx>, D: Decode<Ctx>, E: Decode<Ctx>, F: Decode<Ctx>, G: Decode<Ctx>> Decode<Ctx> for (A, B, C, D, E, F, G) {
    open spec fn parsed(c: Config, s: Seq<u8>) -> Option<((<A as DeepView>::V, <B as DeepView>::V, <C as DeepView>::V, <D as DeepView>::V, <E as DeepView>::V, <F as DeepView>::V, <G as DeepView>::V), int)> {
        match <(A, B, C, D, E, F) as Decode<Ctx>>::parsed(c, s) {
            Some(pp) => match G::parsed(c, s.subrange(pp.1, s.len() as int)) {
                Some(pl) => Some(((pp.0.0, pp.0.1, pp.0.2, pp.0.3, pp.0.4, pp.0.5, pl.0), pp.1 + pl.1)),
                None => None,
            },
            None => None,
        }
    }

    open spec fn min_wire(c: Config) -> int {
        if <(A, B, C, D, E, F) as Decode<Ctx>>::min_wire(c) + G::min_wire(c) <= 255 {
            <(A, B, C, D, E, F) as Decode<Ctx>>::min_wire(c) + G::min_wire(c)
        } else {
            255
        }
    }

    fn min_wire_bytes(c: Config) -> usize {
        let a = <(A, B, C, D, E, F) as Decode<Ctx>>::min_wire_bytes(c);
        let b = G::min_wire_bytes(c);
        if a + b <= 255 {
            a + b
        } else {
            255
        }
    }

    proof fn lemma_parsed_len(c: Config, s: Seq<u8>) {
        <(A, B, C, D, E, F) as Decode<Ctx>>::lemma_parsed_len(c, s);
        G::lemma_parsed_len(c, s);
        match <(A, B, C, D, E, F) as Decode<Ctx>>::parsed(c, s) {
            Some(pp) => {
                G::lemma_parsed_len(c, s.subrange(pp.1, s.len() as int));
            },
            None => {},
        }
    }

    fn decode<'a>(d: &mut DecoderImpl<'a, Ctx>) -> Result<Self, DecodeError> {
        let ghost c = old(d).cfg();
        let ghost s0 = old(d).remaining();
        proof {
            <(A, B, C, D, E, F) as Decode<Ctx>>::lemma_parsed_len(c, s0);
            match <(A, B, C, D, E, F) as Decode<Ctx>>::parsed(c, s0) {
                Some(pp) => {
                    G::lemma_parsed_len(c, s0.subrange(pp.1, s0.len() as int));
                },
                None => {},
            }
        }
        let pv = <(A, B, C, D, E, F) as Decode<Ctx>>::decode(d)?;
        proof {
            match <(A, B, C, D, E, F) as Decode<Ctx>>::parsed(c, s0) {
                Some(pp) => {
                    lemma_remaining_advance(*old(d), *d, pp.1);
                },
                None => {},
            }
        }
        let last = G::decode(d)?;
        Ok((pv.0, pv.1, pv.2, pv.3, pv.4, pv.5, last))
    }
}

impl<Ctx, A: Decode<Ctx>, B: Decode<Ctx>, C: Decode<Ctx>, D: Decode<Ctx>, E: Decode<Ctx>, F: Decode<Ctx>, G: Decode<Ctx>, H: Decode<Ctx>> Decode<Ctx> for (A, B, C, D, E, F, G, H) {
    open spec fn parsed(c: Config, s: Seq<u8>) -> Option<((<A as DeepView>::V, <B as DeepView>::V, <C as DeepView>::V, <D as DeepView>::V, <E as DeepView>::V, <F as DeepView>::V, <G as DeepView>::V, <H as DeepView>::V), int)> {
        match <(A, B, C, D, E, F, G) as Decode<Ctx>>::parsed(c, s) {
            Some(pp) => match H::parsed(c, s.subrange(pp.1, s.len() as int)) {
                Some(pl) => Some(((pp.0.0, pp.0.1, pp.0.2, pp.0.3, pp.0.4, pp.0.5, pp.0.6, pl.0), pp.1 + pl.1)),
                None => None,
            },
            None => None,
        }
    }

    open spec fn min_wire(c: Config) -> int {
        if <(A, B, C, D, E, F, G) as Decode<Ctx>>::min_wire(c) + H::min_wire(c) <= 255 {
            <(A, B, C, D, E, F, G) as Decode<Ctx>>::min_wire(c) + H::min_wire(c)
        } else {
            255
        }
    }

    fn min_wire_bytes(c: Config) -> usize {
        let a = <(A, B, C, D, E, F, G) as Decode<Ctx>>::min_wire_bytes(c);
        let b = H::min_wire_bytes(c);
        if a + b <= 255 {
            a + b
        } else {
            255
        }
    }

    proof fn lemma_parsed_len(c: Config, s: Seq<u8>) {
        <(A, B, C, D, E, F, G) as Decode<Ctx>>::lemma_parsed_len(c, s);
        H::lemma_parsed_len(c, s);
        match <(A, B, C, D, E, F, G) as Decode<Ctx>>::parsed(c, s) {
            Some(pp) => {
                H::lemma_parsed_len(c, s.subrange(pp.1, s.len() as int));
            },
            None => {},
        }
    }

    fn decode<'a>(d: &mut DecoderImpl<'a, Ctx>) -> Result<Self, DecodeError> {
        let ghost c = old(d).cfg();
        let ghost s0 = old(d).remaining();
        proof {
            <(A, B, C, D, E, F, G) as Decode<Ctx>>::lemma_parsed_len(c, s0);
            match <(A, B, C, D, E, F, G) as Decode<Ctx>>::parsed(c, s0) {
                Some(pp) => {
                    H::lemma_parsed_len(c, s0.subrange(pp.1, s0.len() as int));
                },
                None => {},
            }
        }
        let pv = <(A, B, C, D, E, F, G) as Decode<Ctx>>::decode(d)?;
        proof {
            match <(A, B, C, D, E, F, G) as Decode<Ctx>>::parsed(c, s0) {
                Some(pp) => {
                    lemma_remaining_advance(*old(d), *d, pp.1);
                },
                None => {},
            }
        }
        let last = H::decode(d)?;
        Ok((pv.0, pv.1, pv.2, pv.3, pv.4, pv.5, pv.6, last))
    }
}

impl<Ctx, A: Decode<Ctx>, B: Decode<Ctx>, C: Decode<Ctx>, D: Decode<Ctx>, E: Decode<Ctx>, F: Decode<Ctx>, G: Decode<Ctx>, H: Decode<Ctx>, I: Decode<Ctx>> Decode<Ctx> for (A, B, C, D, E, F, G, H, I) {
    open spec fn parsed(c: Config, s: Seq<u8>) -> Option<((<A as DeepView>::V, <B as DeepView>::V, <C as DeepView>::V, <D as DeepView>::V, <E as DeepView>::V, <F as DeepView>::V, <G as DeepView>::V, <H as DeepView>::V, <I as DeepView>::V), int)> {
        match <(A, B, C, D, E, F, G, H) as Decode<Ctx>>::parsed(c, s) {
            Some(pp) => match I::parsed(c, s.subrange(pp.1, s.len() as int)) {
                Some(pl) => Some(((pp.0.0, pp.0.1, pp.0.2, pp.0.3, pp.0.4, pp.0.5, pp.0.6, pp.0.7, pl.0), pp.1 + pl.1)),
                None => None,
            },
            None => None,
        }
    }

    open spec fn min_wire(c: Config) -> int {
        if <(A, B, C, D, E, F, G, H) as Decode<Ctx>>::min_wire(c) + I::min_wire(c) <= 255 {
            <(A, B, C, D, E, F, G, H) as Decode<Ctx>>::min_wire(c) + I::min_wire(c)
        } else {
            255
        }
    }

    fn min_wire_bytes(c: Config) -> usize {
        let a = <(A, B, C, D, E, F, G, H) as Decode<Ctx>>::min_wire_bytes(c);
        let b = I::min_wire_bytes(c);
        if a + b <= 255 {
            a + b
        } else {
            255
        }
    }

    proof fn lemma_parsed_len(c: Config, s: Seq<u8>) {
        <(A, B, C, D, E, F, G, H) as Decode<Ctx>>::lemma_parsed_len(c, s);
        I::lemma_parsed_len(c, s);
        match <(A, B, C, D, E, F, G, H) as Decode<Ctx>>::parsed(c, s) {
            Some(pp) => {
                I::lemma_parsed_len(c, s.subrange(pp.1, s.len() as int));
            },
            None => {},
        }
    }

    fn decode<'a>(d: &mut DecoderImpl<'a, Ctx>) -> Result<Self, DecodeError> {
        let ghost c = old(d).cfg();
        let ghost s0 = old(d).remaining();
        proof {
            <(A, B, C, D, E, F, G, H) as Decode<Ctx>>::lemma_parsed_len(c, s0);
            match <(A, B, C, D, E, F, G, H) as Decode<Ctx>>::parsed(c, s0) {
                Some(pp) => {
                    I::lemma_parsed_len(c, s0.subrange(pp.1, s0.len() as int));
                },
                None => {},
            }
        }
        let pv = <(A, B, C, D, E, F, G, H) as Decode<Ctx>>::decode(d)?;
        proof {
            match <(A, B, C, D, E, F, G, H) as Decode<Ctx>>::parsed(c, s0) {
                Some(pp) => {
                    lemma_remaining_advance(*old(d), *d, pp.1);
                },
                None => {},
            }
        }
        let last = I::decode(d)?;
        Ok((pv.0, pv.1, pv.2, pv.3, pv.4, pv.5, pv.6, pv.7, last))
    }
}

impl<Ctx, A: Decode<Ctx>, B: Decode<Ctx>, C: Decode<Ctx>, D: Decode<Ctx>, E: Decode<Ctx>, F: Decode<Ctx>, G: Decode<Ctx>, H: Decode<Ctx>, I: Decode<Ctx>, J: Decode<Ctx>> Decode<Ctx> for (A, B, C, D, E, F, G, H, I, J) {
    open spec fn parsed(c: Config, s: Seq<u8>) -> Option<((<A as DeepView>::V, <B as DeepView>::V, <C as DeepView>::V, <D as DeepView>::V, <E as DeepView>::V, <F as DeepView>::V, <G as DeepView>::V, <H as DeepView>::V, <I as DeepView>::V, <J as DeepView>::V), int)> {
        match <(A, B, C, D, E, F, G, H, I) as Decode<Ctx>>::parsed(c, s) {
            Some(pp) => match J::parsed(c, s.subrange(pp.1, s.len() as int)) {
                Some(pl) => Some(((pp.0.0, pp.0.1, pp.0.2, pp.0.3, pp.0.4, pp.0.5, pp.0.6, pp.0.7, pp.0.8, pl.0), pp.1 + pl.1)),
                None => None,
            },
            None => None,
        }
    }

    open spec fn min_wire(c: Config) -> int {
        if <(A, B, C, D, E, F, G, H, I) as Decode<Ctx>>::min_wire(c) + J::min_wire(c) <= 255 {
            <(A, B, C, D, E, F, G, H, I) as Decode<Ctx>>::min_wire(c) + J::min_wire(c)
        } else {
            255
        }
    }

    fn min_wire_bytes(c: Config) -> usize {
        let a = <(A, B, C, D, E, F, G, H, I) as Decode<Ctx>>::min_wire_bytes(c);
        let b = J::min_wire_bytes(c);
        if a + b <= 255 {
            a + b
        } else {
            255
        }
    }

    proof fn lemma_parsed_len(c: Config, s: Seq<u8>) {
        <(A, B, C, D, E, F, G, H, I) as Decode<Ctx>>::lemma_parsed_len(c, s);
        J::lemma_parsed_len(c, s);
        match <(A, B, C, D, E, F, G, H, I) as Decode<Ctx>>::parsed(c, s) {
            Some(pp) => {
                J::lemma_parsed_len(c, s.subrange(pp.1, s.len() as int));
            },
            None => {},
        }
    }

    fn decode<'a>(d: &mut DecoderImpl<'a, Ctx>) -> Result<Self, DecodeError> {
        let ghost c = old(d).cfg();
        let ghost s0 = old(d).remaining();
        proof {
            <(A, B, C, D, E, F, G, H, I) as Decode<Ctx>>::lemma_parsed_len(c, s0);
            match <(A, B, C, D, E, F, G, H, I) as Decode<Ctx>>::parsed(c, s0) {
                Some(pp) => {
                    J::lemma_parsed_len(c, s0.subrange(pp.1, s0.len() as int));
                },
                None => {},
            }
        }
        let pv = <(A, B, C, D, E, F, G, H, I) as Decode<Ctx>>::decode(d)?;
        proof {
            match <(A, B, C, D, E, F, G, H, I) as Decode<Ctx>>::parsed(c, s0) {
                Some(pp) => {
                    lemma_remaining_advance(*old(d), *d, pp.1);
                },
                None => {},
            }
        }
        let last = J::decode(d)?;
        Ok((pv.0, pv.1, pv.2, pv.3, pv.4, pv.5, pv.6, pv.7, pv.8, last))
    }
}

impl<Ctx, A: Decode<Ctx>, B: Decode<Ctx>, C: Decode<Ctx>, D: Decode<Ctx>, E: Decode<Ctx>, F: Decode<Ctx>, G: Decode<Ctx>, H: Decode<Ctx>, I: Decode<Ctx>, J: Decode<Ctx>, K: Decode<Ctx>> Decode<Ctx> for (A, B, C, D, E, F, G, H, I, J, K) {
    open spec fn parsed(c: Config, s: Seq<u8>) -> Option<((<A as DeepView>::V, <B as DeepView>::V, <C as DeepView>::V, <D as DeepView>::V, <E as DeepView>::V, <F as DeepView>::V, <G as DeepView>::V, <H as DeepView>::V, <I as DeepView>::V, <J as DeepView>::V, <K as DeepView>::V), int)> {
        match <(A, B, C, D, E, F, G, H, I, J) as Decode<Ctx>>::parsed(c, s) {
            Some(pp) => match K::parsed(c, s.subrange(pp.1, s.len() as int)) {
                Some(pl) => Some(((pp.0.0, pp.0.1, pp.0.2, pp.0.3, pp.0.4, pp.0.5, pp.0.6, pp.0.7, pp.0.8, pp.0.9, pl.0), pp.1 + pl.1)),
                None => None,
            },
            None => None,
        }
    }

    open spec fn min_wire(c: Config) -> int {
        if <(A, B, C, D, E, F, G, H, I, J) as Decode<Ctx>>::min_wire(c) + K::min_wire(c) <= 255 {
            <(A, B, C, D, E, F, G, H, I, J) as Decode<Ctx>>::min_wire(c) + K::min_wire(c)
        } else {
            255
        }
    }

    fn min_wire_bytes(c: Config) -> usize {
        let a = <(A, B, C, D, E, F, G, H, I, J) as Decode<Ctx>>::min_wire_bytes(c);
        let b = K::min_wire_bytes(c);
        if a + b <= 255 {
            a + b
        } else {
            255
        }
    }

    proof fn lemma_parsed_len(c: Config, s: Seq<u8>) {
        <(A, B, C, D, E, F, G, H, I, J) as Decode<Ctx>>::lemma_parsed_len(c, s);
        K::lemma_parsed_len(c, s);
        match <(A, B, C, D, E, F, G, H, I, J) as Decode<Ctx>>::parsed(c, s) {
            Some(pp) => {
                K::lemma_parsed_len(c, s.subrange(pp.1, s.len() as int));
            },
            None => {},
        }
    }

    fn decode<'a>(d: &mut DecoderImpl<'a, Ctx>) -> Result<Self, DecodeError> {
        let ghost c = old(d).cfg();
        let ghost s0 = old(d).remaining();
        proof {
            <(A, B, C, D, E, F, G, H, I, J) as Decode<Ctx>>::lemma_parsed_len(c, s0);
            match <(A, B, C, D, E, F, G, H, I, J) as Decode<Ctx>>::parsed(c, s0) {
                Some(pp) => {
                    K::lemma_parsed_len(c, s0.subrange(pp.1, s0.len() as int));
                },
                None => {},
            }
        }
        let pv = <(A, B, C, D, E, F, G, H, I, J) as Decode<Ctx>>::decode(d)?;
        proof {
            match <(A, B, C, D, E, F, G, H, I, J) as Decode<Ctx>>::parsed(c, s0) {
                Some(pp) => {
                    lemma_remaining_advance(*old(d), *d, pp.1);
                },
                None => {},
            }
        }
        let last = K::decode(d)?;
        Ok((pv.0, pv.1, pv.2, pv.3, pv.4, pv.5, pv.6, pv.7, pv.8, pv.9, last))
    }
}

impl<Ctx, A: Decode<Ctx>, B: Decode<Ctx>, C: Decode<Ctx>, D: Decode<Ctx>, E: Decode<Ctx>, F: Decode<Ctx>, G: Decode<Ctx>, H: Decode<Ctx>, I: Decode<Ctx>, J: Decode<Ctx>, K: Decode<Ctx>, L: Decode<Ctx>> Decode<Ctx> for (A, B, C, D, E, F, G, H, I, J, K, L) {
    open spec fn parsed(c: Config, s: Seq<u8>) -> Option<((<A as DeepView>::V, <B as DeepView>::V, <C as DeepView>::V, <D as DeepView>::V, <E as DeepView>::V, <F as DeepView>::V, <G as DeepView>::V, <H as DeepView>::V, <I as DeepView>::V, <J as DeepView>::V, <K as DeepView>::V, <L as DeepView>::V), int)> {
        match <(A, B, C, D, E, F, G, H, I, J, K) as Decode<Ctx>>::parsed(c, s) {
            Some(pp) => match L::parsed(c, s.subrange(pp.1, s.len() as int)) {
                Some(pl) => Some(((pp.0.0, pp.0.1, pp.0.2, pp.0.3, pp.0.4, pp.0.5, pp.0.6, pp.0.7, pp.0.8, pp.0.9, pp.0.10, pl.0), pp.1 + pl.1)),
                None => None,
            },
            None => None,
        }
    }

    open spec fn min_wire(c: Config) -> int {
        if <(A, B, C, D, E, F, G, H, I, J, K) as Decode<Ctx>>::min_wire(c) + L::min_wire(c) <= 255 {
            <(A, B, C, D, E, F, G, H, I, J, K) as Decode<Ctx>>::min_wire(c) + L::min_wire(c)
        } else {
            255
        }
    }

    fn min_wire_bytes(c: Config) -> usize {
        let a = <(A, B, C, D, E, F, G, H, I, J, K) as Decode<Ctx>>::min_wire_bytes(c);
        let b = L::min_wire_bytes(c);
        if a + b <= 255 {
            a + b
        } else {
            255
        }
    }

    proof fn lemma_parsed_len(c: Config, s: Seq<u8>) {
        <(A, B, C, D, E, F, G, H, I, J, K) as Decode<Ctx>>::lemma_parsed_len(c, s);
        L::lemma_parsed_len(c, s);
        match <(A, B, C, D, E, F, G, H, I, J, K) as Decode<Ctx>>::parsed(c, s) {
            Some(pp) => {
                L::lemma_parsed_len(c, s.subrange(pp.1, s.len() as int));
            },
            None => {},
        }
    }

    fn decode<'a>(d: &mut DecoderImpl<'a, Ctx>) -> Result<Self, DecodeError> {
        let ghost c = old(d).cfg();
        let ghost s0 = old(d).remaining();
        proof {
            <(A, B, C, D, E, F, G, H, I, J, K) as Decode<Ctx>>::lemma_parsed_len(c, s0);
            match <(A, B, C, D, E, F, G, H, I, J, K) as Decode<Ctx>>::parsed(c, s0) {
                Some(pp) => {
                    L::lemma_parsed_len(c, s0.subrange(pp.1, s0.len() as int));
                },
                None => {},
            }
        }
        let pv = <(A, B, C, D, E, F, G, H, I, J, K) as Decode<Ctx>>::decode(d)?;
        proof {
            match <(A, B, C, D, E, F, G, H, I, J, K) as Decode<Ctx>>::parsed(c, s0) {
                Some(pp) => {
                    lemma_remaining_advance(*old(d), *d, pp.1);
                },
                None => {},
            }
        }
        let last = L::decode(d)?;
        Ok((pv.0, pv.1, pv.2, pv.3, pv.4, pv.5, pv.6, pv.7, pv.8, pv.9, pv.10, last))
    }
}

impl<'de, Ctx, A: BorrowDecode<'de, Ctx>, B: BorrowDecode<'de, Ctx>, C: BorrowDecode<'de, Ctx>, D: BorrowDecode<'de, Ctx>, E: BorrowDecode<'de, Ctx>> BorrowDecode<'de, Ctx> for (A, B, C, D, E) {
    open spec fn parsed(c: Config, s: Seq<u8>) -> Option<((<A as DeepView>::V, <B as DeepView>::V, <C as DeepView>::V, <D as DeepView>::V, <E as DeepView>::V), int)> {
        match <(A, B, C, D) as BorrowDecode<'de, Ctx>>::parsed(c, s) {
            Some(pp) => match E::parsed(c, s.subrange(pp.1, s.len() as int)) {
                Some(pl) => Some(((pp.0.0, pp.0.1, pp.0.2, pp.0.3, pl.0), pp.1 + pl.1)),
                None => None,
            },
            None => None,
        }
    }

    open spec fn min_wire(c: Config) -> int {
        if <(A, B, C, D) as BorrowDecode<'de, Ctx>>::min_wire(c) + E::min_wire(c) <= 255 {
            <(A, B, C, D) as BorrowDecode<'de, Ctx>>::min_wire(c) + E::min_wire(c)
        } else {
            255
        }
    }

    fn min_wire_bytes(c: Config) -> usize {
        let a = <(A, B, C, D) as BorrowDecode<'de, Ctx>>::min_wire_bytes(c);
        let b = E::min_wire_bytes(c);
        if a + b <= 255 {
            a + b
        } else {
            255
        }
    }

    proof fn lemma_parsed_len(c: Config, s: Seq<u8>) {
        <(A, B, C, D) as BorrowDecode<'de, Ctx>>::lemma_parsed_len(c, s);
        E::lemma_parsed_len(c, s);
        match <(A, B, C, D) as BorrowDecode<'de, Ctx>>::parsed(c, s) {
            Some(pp) => {
                E::lemma_parsed_len(c, s.subrange(pp.1, s.len() as int));
            },
            None => {},
        }
    }

    fn borrow_decode(d: &mut DecoderImpl<'de, Ctx>) -> Result<Self, DecodeError> {
        let ghost c = old(d).cfg();
        let ghost s0 = old(d).remaining();
        proof {
            <(A, B, C, D) as BorrowDecode<'de, Ctx>>::lemma_parsed_len(c, s0);
            match <(A, B, C, D) as BorrowDecode<'de, Ctx>>::parsed(c, s0) {
                Some(pp) => {
                    E::lemma_parsed_len(c, s0.subrange(pp.1, s0.len() as int));
                },
                None => {},
            }
        }
        let pv = <(A, B, C, D) as BorrowDecode<'de, Ctx>>::borrow_decode(d)?;
        proof {
            match <(A, B, C, D) as BorrowDecode<'de, Ctx>>::parsed(c, s0) {
                Some(pp) => {
                    lemma_remaining_advance(*old(d), *d, pp.1);
                },
                None => {},
            }
        }
        let last = E::borrow_decode(d)?;
        Ok((pv.0, pv.1, pv.2, pv.3, last))
    }
}

impl<'de, Ctx, A: BorrowDecode<'de, Ctx>, B: BorrowDecode<'de, Ctx>, C: BorrowDecode<'de, Ctx>, D: BorrowDecode<'de, Ctx>, E: BorrowDecode<'de, Ctx>, F: BorrowDecode<'de, Ctx>> BorrowDecode<'de, Ctx> for (A, B, C, D, E, F) {
    open spec fn parsed(c: Config, s: Seq<u8>) -> Option<((<A as DeepView>::V, <B as DeepView>::V, <C as DeepView>::V, <D as DeepView>::V, <E as DeepView>::V, <F as DeepView>::V), int)> {
        match <(A, B, C, D, E) as BorrowDecode<'de, Ctx>>::parsed(c, s) {
            Some(pp) => match F::parsed(c, s.subrange(pp.1, s.len() as int)) {
                Some(pl) => Some(((pp.0.0, pp.0.1, pp.0.2, pp.0.3, pp.0.4, pl.0), pp.1 + pl.1)),
                None => None,
            },
            None => None,
        }
    }

    open spec fn min_wire(c: Config) -> int {
        if <(A, B, C, D, E) as BorrowDecode<'de, Ctx>>::min_wire(c) + F::min_wire(c) <= 255 {
            <(A, B, C, D, E) as BorrowDecode<'de, Ctx>>::min_wire(c) + F::min_wire(c)
        } else {
            255
        }
    }

    fn min_wire_bytes(c: Config) -> usize {
        let a = <(A, B, C, D, E) as BorrowDecode<'de, Ctx>>::min_wire_bytes(c);
        let b = F::min_wire_bytes(c);
        if a + b <= 255 {
            a + b
        } else {
            255
        }
    }

    proof fn lemma_parsed_len(c: Config, s: Seq<u8>) {
        <(A, B, C, D, E) as BorrowDecode<'de, Ctx>>::lemma_parsed_len(c, s);
        F::lemma_parsed_len(c, s);
        match <(A, B, C, D, E) as BorrowDecode<'de, Ctx>>::parsed(c, s) {
            Some(pp) => {
                F::lemma_parsed_len(c, s.subrange(pp.1, s.len() as int));
            },
            None => {},
        }
    }

    fn borrow_decode(d: &mut DecoderImpl<'de, Ctx>) -> Result<Self, DecodeError> {
        let ghost c = old(d).cfg();
        let ghost s0 = old(d).remaining();
        proof {
            <(A, B, C, D, E) as BorrowDecode<'de, Ctx>>::lemma_parsed_len(c, s0);
            match <(A, B, C, D, E) as BorrowDecode<'de, Ctx>>::parsed(c, s0) {
                Some(pp) => {
                    F::lemma_parsed_len(c, s0.subrange(pp.1, s0.len() as int));
                },
                None => {},
            }
        }
        let pv = <(A, B, C, D, E) as BorrowDecode<'de, Ctx>>::borrow_decode(d)?;
        proof {
            match <(A, B, C, D, E) as BorrowDecode<'de, Ctx>>::parsed(c, s0) {
                Some(pp) => {
                    lemma_remaining_advance(*old(d), *d, pp.1);
                },
                None => {},
            }
        }
        let last = F::borrow_decode(d)?;
        Ok((pv.0, pv.1, pv.2, pv.3, pv.4, last))
    }
}

impl<'de, Ctx, A: BorrowDecode<'de, Ctx>, B: BorrowDecode<'de, Ctx>, C: BorrowDecode<'de, Ctx>, D: BorrowDecode<'de, Ctx>, E: BorrowDecode<'de, Ctx>, F: BorrowDecode<'de, Ctx>, G: BorrowDecode<'de, Ctx>> BorrowDecode<'de, Ctx> for (A, B, C, D, E, F, G) {
    open spec fn parsed(c: Config, s: Seq<u8>) -> Option<((<A as DeepView>::V, <B as DeepView>::V, <C as DeepView>::V, <D as DeepView>::V, <E as DeepView>::V, <F as DeepView>::V, <G as DeepView>::V), int)> {
        match <(A, B, C, D, E, F) as BorrowDecode<'de, Ctx>>::parsed(c, s) {
            Some(pp) => match G::parsed(c, s.subrange(pp.1, s.len() as int)) {
                Some(pl) => Some(((pp.0.0, pp.0.1, pp.0.2, pp.0.3, pp.0.4, pp.0.5, pl.0), pp.1 + pl.1)),
                None => None,
            },
            None => None,
        }
    }

    open spec fn min_wire(c: Config) -> int {
        if <(A, B, C, D, E, F) as BorrowDecode<'de, Ctx>>::min_wire(c) + G::min_wire(c) <= 255 {
            <(A, B, C, D, E, F) as BorrowDecode<'de, Ctx>>::min_wire(c) + G::min_wire(c)
        } else {
            255
        }
    }

    fn min_wire_bytes(c: Config) -> usize {
        let a = <(A, B, C, D, E, F) as BorrowDecode<'de, Ctx>>::min_wire_bytes(c);
        let b = G::min_wire_bytes(c);
        if a + b <= 255 {
            a + b
        } else {
            255
        }
    }

    proof fn lemma_parsed_len(c: Config, s: Seq<u8>) {
        <(A, B, C, D, E, F) as BorrowDecode<'de, Ctx>>::lemma_parsed_len(c, s);
        G::lemma_parsed_len(c, s);
        match <(A, B, C, D, E, F) as BorrowDecode<'de, Ctx>>::parsed(c, s) {
            Some(pp) => {
                G::lemma_parsed_len(c, s.subrange(pp.1, s.len() as int));
            },
            None => {},
        }
    }

    fn borrow_decode(d: &mut DecoderImpl<'de, Ctx>) -> Result<Self, DecodeError> {
        let ghost c = old(d).cfg();
        let ghost s0 = old(d).remaining();
        proof {
            <(A, B, C, D, E, F) as BorrowDecode<'de, Ctx>>::lemma_parsed_len(c, s0);
            match <(A, B, C, D, E, F) as BorrowDecode<'de, Ctx>>::parsed(c, s0) {
                Some(pp) => {
                    G::lemma_parsed_len(c, s0.subrange(pp.1, s0.len() as int));
                },
                None => {},
            }
        }
        let pv = <(A, B, C, D, E, F) as BorrowDecode<'de, Ctx>>::borrow_decode(d)?;
        proof {
            match <(A, B, C, D, E, F) as BorrowDecode<'de, Ctx>>::parsed(c, s0) {
                Some(pp) => {
                    lemma_remaining_advance(*old(d), *d, pp.1);
                },
                None => {},
            }
        }
        let last = G::borrow_decode(d)?;
        Ok((pv.0, pv.1, pv.2, pv.3, pv.4, pv.5, last))
    }
}

impl<'de, Ctx, A: BorrowDecode<'de, Ctx>, B: BorrowDecode<'de, Ctx>, C: BorrowDecode<'de, Ctx>, D: BorrowDecode<'de, Ctx>, E: BorrowDecode<'de, Ctx>, F: BorrowDecode<'de, Ctx>, G: BorrowDecode<'de, Ctx>, H: BorrowDecode<'de, Ctx>> BorrowDecode<'de, Ctx> for (A, B, C, D, E, F, G, H) {
    open spec fn parsed(c: Config, s: Seq<u8>) -> Option<((<A as DeepView>::V, <B as DeepView>::V, <C as DeepView>::V, <D as DeepView>::V, <E as DeepView>::V, <F as DeepView>::V, <G as DeepView>::V, <H as DeepView>::V), int)> {
        match <(A, B, C, D, E, F, G) as BorrowDecode<'de, Ctx>>::parsed(c, s) {
            Some(pp) => match H::parsed(c, s.subrange(pp.1, s.len() as int)) {
                Some(pl) => Some(((pp.0.0, pp.0.1, pp.0.2, pp.0.3, pp.0.4, pp.0.5, pp.0.6, pl.0), pp.1 + pl.1)),
                None => None,
            },
            None => None,
        }
    }

    open spec fn min_wire(c: Config) -> int {
        if <(A, B, C, D, E, F, G) as BorrowDecode<'de, Ctx>>::min_wire(c) + H::min_wire(c) <= 255 {
            <(A, B, C, D, E, F, G) as BorrowDecode<'de, Ctx>>::min_wire(c) + H::min_wire(c)
        } else {
            255
        }
    }

    fn min_wire_bytes(c: Config) -> usize {
        let a = <(A, B, C, D, E, F, G) as BorrowDecode<'de, Ctx>>::min_wire_bytes(c);
        let b = H::min_wire_bytes(c);
        if a + b <= 255 {
            a + b
        } else {
            255
        }
    }

    proof fn lemma_parsed_len(c: Config, s: Seq<u8>) {
        <(A, B, C, D, E, F, G) as BorrowDecode<'de, Ctx>>::lemma_parsed_len(c, s);
        H::lemma_parsed_len(c, s);
        match <(A, B, C, D, E, F, G) as BorrowDecode<'de, Ctx>>::parsed(c, s) {
            Some(pp) => {
                H::lemma_parsed_len(c, s.subrange(pp.1, s.len() as int));
            },
            None => {},
        }
    }

    fn borrow_decode(d: &mut DecoderImpl<'de, Ctx>) -> Result<Self, DecodeError> {
        let ghost c = old(d).cfg();
        let ghost s0 = old(d).remaining();
        proof {
            <(A, B, C, D, E, F, G) as BorrowDecode<'de, Ctx>>::lemma_parsed_len(c, s0);
            match <(A, B, C, D, E, F, G) as BorrowDecode<'de, Ctx>>::parsed(c, s0) {
                Some(pp) => {
                    H::lemma_parsed_len(c, s0.subrange(pp.1, s0.len() as int));
                },
                None => {},
            }
        }
        let pv = <(A, B, C, D, E, F, G) as BorrowDecode<'de, Ctx>>::borrow_decode(d)?;
        proof {
            match <(A, B, C, D, E, F, G) as BorrowDecode<'de, Ctx>>::parsed(c, s0) {
                Some(pp) => {
                    lemma_remaining_advance(*old(d), *d, pp.1);
                },
                None => {},
            }
        }
        let last = H::borrow_decode(d)?;
        Ok((pv.0, pv.1, pv.2, pv.3, pv.4, pv.5, pv.6, last))
    }
}

impl<'de, Ctx, A: BorrowDecode<'de, Ctx>, B: BorrowDecode<'de, Ctx>, C: BorrowDecode<'de, Ctx>, D: BorrowDecode<'de, Ctx>, E: BorrowDecode<'de, Ctx>, F: BorrowDecode<'de, Ctx>, G: BorrowDecode<'de, Ctx>, H: BorrowDecode<'de, Ctx>, I: BorrowDecode<'de, Ctx>> BorrowDecode<'de, Ctx> for (A, B, C, D, E, F, G, H, I) {
    open spec fn parsed(c: Config, s: Seq<u8>) -> Option<((<A as DeepView>::V, <B as DeepView>::V, <C as DeepView>::V, <D as DeepView>::V, <E as DeepView>::V, <F as DeepView>::V, <G as DeepView>::V, <H as DeepView>::V, <I as DeepView>::V), int)> {
        match <(A, B, C, D, E, F, G, H) as BorrowDecode<'de, Ctx>>::parsed(c, s) {
            Some(pp) => match I::parsed(c, s.subrange(pp.1, s.len() as int)) {
                Some(pl) => Some(((pp.0.0, pp.0.1, pp.0.2, pp.0.3, pp.0.4, pp.0.5, pp.0.6, pp.0.7, pl.0), pp.1 + pl.1)),
                None => None,
            },
            None => None,
        }
    }

    open spec fn min_wire(c: Config) -> int {
        if <(A, B, C, D, E, F, G, H) as BorrowDecode<'de, Ctx>>::min_wire(c) + I::min_wire(c) <= 255 {
            <(A, B, C, D, E, F, G, H) as BorrowDecode<'de, Ctx>>::min_wire(c) + I::min_wire(c)
        } else {
            255
        }
    }

    fn min_wire_bytes(c: Config) -> usize {
        let a = <(A, B, C, D, E, F, G, H) as BorrowDecode<'de, Ctx>>::min_wire_bytes(c);
        let b = I::min_wire_bytes(c);
        if a + b <= 255 {
            a + b
        } else {
            255
        }
    }

    proof fn lemma_parsed_len(c: Config, s: Seq<u8>) {
        <(A, B, C, D, E, F, G, H) as BorrowDecode<'de, Ctx>>::lemma_parsed_len(c, s);
        I::lemma_parsed_len(c, s);
        match <(A, B, C, D, E, F, G, H) as BorrowDecode<'de, Ctx>>::parsed(c, s) {
            Some(pp) => {
                I::lemma_parsed_len(c, s.subrange(pp.1, s.len() as int));
            },
            None => {},
        }
    }

    fn borrow_decode(d: &mut DecoderImpl<'de, Ctx>) -> Result<Self, DecodeError> {
        let ghost c = old(d).cfg();
        let ghost s0 = old(d).remaining();
        proof {
            <(A, B, C, D, E, F, G, H) as BorrowDecode<'de, Ctx>>::lemma_parsed_len(c, s0);
            match <(A, B, C, D, E, F, G, H) as BorrowDecode<'de, Ctx>>::parsed(c, s0) {
                Some(pp) => {
                    I::lemma_parsed_len(c, s0.subrange(pp.1, s0.len() as int));
                },
                None => {},
            }
        }
        let pv = <(A, B, C, D, E, F, G, H) as BorrowDecode<'de, Ctx>>::borrow_decode(d)?;
        proof {
            match <(A, B, C, D, E, F, G, H) as BorrowDecode<'de, Ctx>>::parsed(c, s0) {
                Some(pp) => {
                    lemma_remaining_advance(*old(d), *d, pp.1);
                },
                None => {},
            }
        }
        let last = I::borrow_decode(d)?;
        Ok((pv.0, pv.1, pv.2, pv.3, pv.4, pv.5, pv.6, pv.7, last))
    }
}

impl<'de, Ctx, A: BorrowDecode<'de, Ctx>, B: BorrowDecode<'de, Ctx>, C: BorrowDecode<'de, Ctx>, D: BorrowDecode<'de, Ctx>, E: BorrowDecode<'de, Ctx>, F: BorrowDecode<'de, Ctx>, G: BorrowDecode<'de, Ctx>, H: BorrowDecode<'de, Ctx>, I: BorrowDecode<'de, Ctx>, J: BorrowDecode<'de, Ctx>> BorrowDecode<'de, Ctx> for (A, B, C, D, E, F, G, H, I, J) {
    open spec fn parsed(c: Config, s: Seq<u8>) -> Option<((<A as DeepView>::V, <B as DeepView>::V, <C as DeepView>::V, <D as DeepView>::V, <E as DeepView>::V, <F as DeepView>::V, <G as DeepView>::V, <H as DeepView>::V, <I as DeepView>::V, <J as DeepView>::V), int)> {
        match <(A, B, C, D, E, F, G, H, I) as BorrowDecode<'de, Ctx>>::parsed(c, s) {
            Some(pp) => match J::parsed(c, s.subrange(pp.1, s.len() as int)) {
                Some(pl) => Some(((pp.0.0, pp.0.1, pp.0.2, pp.0.3, pp.0.4, pp.0.5, pp.0.6, pp.0.7, pp.0.8, pl.0), pp.1 + pl.1)),
                None => None,
            },
            None => None,
        }
    }

    open spec fn min_wire(c: Config) -> int {
        if <(A, B, C, D, E, F, G, H, I) as BorrowDecode<'de, Ctx>>::min_wire(c) + J::min_wire(c) <= 255 {
            <(A, B, C, D, E, F, G, H, I) as BorrowDecode<'de, Ctx>>::min_wire(c) + J::min_wire(c)
        } else {
            255
        }
    }

    fn min_wire_bytes(c: Config) -> usize {
        let a = <(A, B, C, D, E, F, G, H, I) as BorrowDecode<'de, Ctx>>::min_wire_bytes(c);
        let b = J::min_wire_bytes(c);
        if a + b <= 255 {
            a + b
        } else {
            255
        }
    }

    proof fn lemma_parsed_len(c: Config, s: Seq<u8>) {
        <(A, B, C, D, E, F, G, H, I) as BorrowDecode<'de, Ctx>>::lemma_parsed_len(c, s);
        J::lemma_parsed_len(c, s);
        match <(A, B, C, D, E, F, G, H, I) as BorrowDecode<'de, Ctx>>::parsed(c, s) {
            Some(pp) => {
                J::lemma_parsed_len(c, s.subrange(pp.1, s.len() as int));
            },
            None => {},
        }
    }

    fn borrow_decode(d: &mut DecoderImpl<'de, Ctx>) -> Result<Self, DecodeError> {
        let ghost c = old(d).cfg();
        let ghost s0 = old(d).remaining();
        proof {
            <(A, B, C, D, E, F, G, H, I) as BorrowDecode<'de, Ctx>>::lemma_parsed_len(c, s0);
            match <(A, B, C, D, E, F, G, H, I) as BorrowDecode<'de, Ctx>>::parsed(c, s0) {
                Some(pp) => {
                    J::lemma_parsed_len(c, s0.subrange(pp.1, s0.len() as int));
                },
                None => {},
            }
        }
        let pv = <(A, B, C, D, E, F, G, H, I) as BorrowDecode<'de, Ctx>>::borrow_decode(d)?;
        proof {
            match <(A, B, C, D, E, F, G, H, I) as BorrowDecode<'de, Ctx>>::parsed(c, s0) {
                Some(pp) => {
                    lemma_remaining_advance(*old(d), *d, pp.1);
                },
                None => {},
            }
        }
        let last = J::borrow_decode(d)?;
        Ok((pv.0, pv.1, pv.2, pv.3, pv.4, pv.5, pv.6, pv.7, pv.8, last))
    }
}

impl<'de, Ctx, A: BorrowDecode<'de, Ctx>, B: BorrowDecode<'de, Ctx>, C: BorrowDecode<'de, Ctx>, D: BorrowDecode<'de, Ctx>, E: BorrowDecode<'de, Ctx>, F: BorrowDecode<'de, Ctx>, G: BorrowDecode<'de, Ctx>, H: BorrowDecode<'de, Ctx>, I: BorrowDecode<'de, Ctx>, J: BorrowDecode<'de, Ctx>, K: BorrowDecode<'de, Ctx>> BorrowDecode<'de, Ctx> for (A, B, C, D, E, F, G, H, I, J, K) {
    open spec fn parsed(c: Config, s: Seq<u8>) -> Option<((<A as DeepView>::V, <B as DeepView>::V, <C as DeepView>::V, <D as DeepView>::V, <E as DeepView>::V, <F as DeepView>::V, <G as DeepView>::V, <H as DeepView>::V, <I as DeepView>::V, <J as DeepView>::V, <K as DeepView>::V), int)> {
        match <(A, B, C, D, E, F, G, H, I, J) as BorrowDecode<'de, Ctx>>::parsed(c, s) {
            Some(pp) => match K::parsed(c, s.subrange(pp.1, s.len() as int)) {
                Some(pl) => Some(((pp.0.0, pp.0.1, pp.0.2, pp.0.3, pp.0.4, pp.0.5, pp.0.6, pp.0.7, pp.0.8, pp.0.9, pl.0), pp.1 + pl.1)),
                None => None,
            },
            None => None,
        }
    }

    open spec fn min_wire(c: Config) -> int {
        if <(A, B, C, D, E, F, G, H, I, J) as BorrowDecode<'de, Ctx>>::min_wire(c) + K::min_wire(c) <= 255 {
            <(A, B, C, D, E, F, G, H, I, J) as BorrowDecode<'de, Ctx>>::min_wire(c) + K::min_wire(c)
        } else {
            255
        }
    }

    fn min_wire_bytes(c: Config) -> usize {
        let a = <(A, B, C, D, E, F, G, H, I, J) as BorrowDecode<'de, Ctx>>::min_wire_bytes(c);
        let b = K::min_wire_bytes(c);
        if a + b <= 255 {
            a + b
        } else {
            255
        }
    }

    proof fn lemma_parsed_len(c: Config, s: Seq<u8>) {
        <(A, B, C, D, E, F, G, H, I, J) as BorrowDecode<'de, Ctx>>::lemma_parsed_len(c, s);
        K::lemma_parsed_len(c, s);
        match <(A, B, C, D, E, F, G, H, I, J) as BorrowDecode<'de, Ctx>>::parsed(c, s) {
            Some(pp) => {
                K::lemma_parsed_len(c, s.subrange(pp.1, s.len() as int));
            },
            None => {},
        }
    }

    fn borrow_decode(d: &mut DecoderImpl<'de, Ctx>) -> Result<Self, DecodeError> {
        let ghost c = old(d).cfg();
        let ghost s0 = old(d).remaining();
        proof {
            <(A, B, C, D, E, F, G, H, I, J) as BorrowDecode<'de, Ctx>>::lemma_parsed_len(c, s0);
            match <(A, B, C, D, E, F, G, H, I, J) as BorrowDecode<'de, Ctx>>::parsed(c, s0) {
                Some(pp) => {
                    K::lemma_parsed_len(c, s0.subrange(pp.1, s0.len() as int));
                },
                None => {},
            }
        }
        let pv = <(A, B, C, D, E, F, G, H, I, J) as BorrowDecode<'de, Ctx>>::borrow_decode(d)?;
        proof {
            match <(A, B, C, D, E, F, G, H, I, J) as BorrowDecode<'de, Ctx>>::parsed(c, s0) {
                Some(pp) => {
                    lemma_remaining_advance(*old(d), *d, pp.1);
                },
                None => {},
            }
        }
        let last = K::borrow_decode(d)?;
        Ok((pv.0, pv.1, pv.2, pv.3, pv.4, pv.5, pv.6, pv.7, pv.8, pv.9, last))
    }
}

impl<'de, Ctx, A: BorrowDecode<'de, Ctx>, B: BorrowDecode<'de, Ctx>, C: BorrowDecode<'de, Ctx>, D: BorrowDecode<'de, Ctx>, E: BorrowDecode<'de, Ctx>, F: BorrowDecode<'de, Ctx>, G: BorrowDecode<'de, Ctx>, H: BorrowDecode<'de, Ctx>, I: BorrowDecode<'de, Ctx>, J: BorrowDecode<'de, Ctx>, K: BorrowDecode<'de, Ctx>, L: BorrowDecode<'de, Ctx>> BorrowDecode<'de, Ctx> for (A, B, C, D, E, F, G, H, I, J, K, L) {
    open spec fn parsed(c: Config, s: Seq<u8>) -> Option<((<A as DeepView>::V, <B as DeepView>::V, <C as DeepView>::V, <D as DeepView>::V, <E as DeepView>::V, <F as DeepView>::V, <G as DeepView>::V, <H as DeepView>::V, <I as DeepView>::V, <J as DeepView>::V, <K as DeepView>::V, <L as DeepView>::V), int)> {
        match <(A, B, C, D, E, F, G, H, I, J, K) as BorrowDecode<'de, Ctx>>::parsed(c, s) {
            Some(pp) => match L::parsed(c, s.subrange(pp.1, s.len() as int)) {
                Some(pl) => Some(((pp.0.0, pp.0.1, pp.0.2, pp.0.3, pp.0.4, pp.0.5, pp.0.6, pp.0.7, pp.0.8, pp.0.9, pp.0.10, pl.0), pp.1 + pl.1)),
                None => None,
            },
            None => None,
        }
    }

    open spec fn min_wire(c: Config) -> int {
        if <(A, B, C, D, E, F, G, H, I, J, K) as BorrowDecode<'de, Ctx>>::min_wire(c) + L::min_wire(c) <= 255 {
            <(A, B, C, D, E, F, G, H, I, J, K) as BorrowDecode<'de, Ctx>>::min_wire(c) + L::min_wire(c)
        } else {
            255
        }
    }

    fn min_wire_bytes(c: Config) -> usize {
        let a = <(A, B, C, D, E, F, G, H, I, J, K) as BorrowDecode<'de, Ctx>>::min_wire_bytes(c);
        let b = L::min_wire_bytes(c);
        if a + b <= 255 {
            a + b
        } else {
            255
        }
    }

    proof fn lemma_parsed_len(c: Config, s: Seq<u8>) {
        <(A, B, C, D, E, F, G, H, I, J, K) as BorrowDecode<'de, Ctx>>::lemma_parsed_len(c, s);
        L::lemma_parsed_len(c, s);
        match <(A, B, C, D, E, F, G, H, I, J, K) as BorrowDecode<'de, Ctx>>::parsed(c, s) {
            Some(pp) => {
                L::lemma_parsed_len(c, s.subrange(pp.1, s.len() as int));
            },
            None => {},
        }
    }

    fn borrow_decode(d: &mut DecoderImpl<'de, Ctx>) -> Result<Self, DecodeError> {
        let ghost c = old(d).cfg();
        let ghost s0 = old(d).remaining();
        proof {
            <(A, B, C, D, E, F, G, H, I, J, K) as BorrowDecode<'de, Ctx>>::lemma_parsed_len(c, s0);
            match <(A, B, C, D, E, F, G, H, I, J, K) as BorrowDecode<'de, Ctx>>::parsed(c, s0) {
                Some(pp) => {
                    L::lemma_parsed_len(c, s0.subrange(pp.1, s0.len() as int));
                },
                None => {},
            }
        }
        let pv = <(A, B, C, D, E, F, G, H, I, J, K) as BorrowDecode<'de, Ctx>>::borrow_decode(d)?;
        proof {
            match <(A, B, C, D, E, F, G, H, I, J, K) as BorrowDecode<'de, Ctx>>::parsed(c, s0) {
                Some(pp) => {
                    lemma_remaining_advance(*old(d), *d, pp.1);
                },
                None => {},
            }
        }
        let last = L::borrow_decode(d)?;
        Ok((pv.0, pv.1, pv.2, pv.3, pv.4, pv.5, pv.6, pv.7, pv.8, pv.9, pv.10, last))
    }
}

} // verus!
