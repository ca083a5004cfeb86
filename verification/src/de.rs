//! Decoding: a cursor over the input plus the claim/unclaim byte-budget
//! protocol that stops a malicious length prefix from forcing a large
//! allocation before the claimed bytes are known to exist.
//!
//! Every primitive read first *claims* its byte count against the
//! configured limit; a claim that would pass the limit (or overflow the
//! counter) fails the whole decode at once with
//! [`DecodeError::LimitExceeded`]. Containers pre-claim a floor cost for
//! all their elements before allocating, then hand each element's floor
//! back just before that element's own reads claim its true cost, so a
//! successful decode's counter ends at the bytes actually consumed.

use vstd::prelude::*;

use crate::config::{Config, IntEncoding};
use crate::error::DecodeError;
use crate::reader::SliceReader;
use crate::wire::{
    tag_payload_width, u16_from_bytes_exec, u32_from_bytes_exec, u64_from_bytes_exec,
    u64_from_wire, SINGLE_BYTE_MAX, TAG_U16, TAG_U32, TAG_U64,
};
use vstd::utf8::{decode_utf8, encode_utf8, valid_utf8};

verus! {

broadcast use vstd::seq::group_seq_axioms;

/// A decoder that reads bytes from a borrowed slice under a fixed
/// configuration, carrying a caller-supplied context value.
pub struct DecoderImpl<'a, Ctx> {
    reader: SliceReader<'a>,
    config: Config,
    bytes_read: usize,
    ctx: Ctx,
}

impl<'a, Ctx> DecoderImpl<'a, Ctx> {
    /// The whole input.
    pub closed spec fn data(self) -> Seq<u8> {
        self.reader.data()
    }

    /// How many input bytes have been consumed.
    pub closed spec fn position(self) -> int {
        self.reader.consumed()
    }

    /// The input bytes not yet consumed.
    pub open spec fn remaining(self) -> Seq<u8> {
        self.data().subrange(self.position(), self.data().len() as int)
    }

    /// The configuration the decoder was created with.
    pub closed spec fn cfg(self) -> Config {
        self.config
    }

    /// The running claimed-byte counter.
    pub closed spec fn claimed(self) -> int {
        self.bytes_read as int
    }

    /// The caller-supplied context value.
    pub closed spec fn context(self) -> Ctx {
        self.ctx
    }

    /// The reader's cursor is within the input.
    pub closed spec fn reader_wf(self) -> bool {
        self.reader.wf()
    }

    /// The cursor is within the input and the claimed-byte counter never
    /// stands above the configured limit.
    pub open spec fn wf(self) -> bool {
        &&& self.reader_wf()
        &&& 0 <= self.position() <= self.data().len()
        &&& 0 <= self.claimed()
        &&& match self.cfg().limit {
            Some(l) => self.claimed() <= l,
            None => true,
        }
    }

    /// Whether `n` more bytes may be claimed without passing the limit.
    pub open spec fn budget_ok(self, n: int) -> bool {
        match self.cfg().limit {
            Some(l) => self.claimed() + n <= l,
            None => true,
        }
    }

    /// What every decoding step leaves behind: the same input, config and
    /// context, a cursor that only moved forward, and a claimed counter
    /// that never under-counts the bytes consumed since `pre`.
    pub open spec fn advanced_from(self, pre: DecoderImpl<'a, Ctx>) -> bool {
        &&& self.wf()
        &&& self.data() == pre.data()
        &&& self.cfg() == pre.cfg()
        &&& self.context() == pre.context()
        &&& pre.position() <= self.position() <= self.data().len()
        &&& pre.cfg().limit.is_some() ==> self.claimed() - pre.claimed() >= self.position()
            - pre.position() && self.claimed() >= pre.claimed()
        &&& pre.cfg().limit.is_none() ==> self.claimed() == pre.claimed()
    }

    /// A decoder over `reader` with a fresh byte budget.
    pub fn new(reader: SliceReader<'a>, config: Config, ctx: Ctx) -> (d: DecoderImpl<'a, Ctx>)
        requires
            reader.wf(),
        ensures
            d.wf(),
            d.data() == reader.data(),
            d.position() == reader.consumed(),
            d.cfg() == config,
            d.claimed() == 0,
            d.context() == ctx,
    {
        DecoderImpl { reader, config, bytes_read: 0, ctx }
    }

    /// The configuration.
    pub fn config(&self) -> (c: Config)
        ensures
            c == self.cfg(),
    {
        self.config
    }

    /// The context value.
    pub fn ctx(&self) -> (c: &Ctx)
        ensures
            c == self.context(),
    {
        &self.ctx
    }

    /// Writes the context value, handing the previous one back; the
    /// stream, configuration and byte budget are untouched.
    pub fn set_ctx(&mut self, ctx: Ctx) -> (prev: Ctx)
        ensures
            final(self).context() == ctx,
            prev == old(self).context(),
            final(self).data() == old(self).data(),
            final(self).position() == old(self).position(),
            final(self).cfg() == old(self).cfg(),
            final(self).claimed() == old(self).claimed(),
            old(self).wf() ==> final(self).wf(),
    {
        let mut taken = ctx;
        core::mem::swap(&mut self.ctx, &mut taken);
        taken
    }

    /// How many input bytes have been consumed, as a runtime value.
    pub fn bytes_consumed(&self) -> (n: usize)
        ensures
            n as int == self.position(),
    {
        self.reader.consumed_bytes()
    }

    /// The running claimed-byte counter, as a runtime value.
    pub fn bytes_read(&self) -> (n: usize)
        ensures
            n as int == self.claimed(),
    {
        self.bytes_read
    }

    /// Records that `n` more input bytes are about to be read, failing
    /// with [`DecodeError::LimitExceeded`] — before anything is read or
    /// allocated — when that would pass the configured limit or overflow
    /// the counter. With no limit configured the check is skipped.
    pub fn claim_bytes_read(&mut self, n: usize) -> (r: Result<(), DecodeError>)
        requires
            old(self).wf(),
        ensures
            final(self).wf(),
            final(self).data() == old(self).data(),
            final(self).position() == old(self).position(),
            final(self).cfg() == old(self).cfg(),
            final(self).context() == old(self).context(),
            match r {
                Ok(()) => {
                    &&& old(self).budget_ok(n as int)
                    &&& final(self).claimed() == if old(self).cfg().limit.is_some() {
                        old(self).claimed() + n
                    } else {
                        old(self).claimed()
                    }
                },
                Err(e) => {
                    &&& e == DecodeError::LimitExceeded
                    &&& !old(self).budget_ok(n as int)
                    &&& final(self).claimed() == old(self).claimed()
                },
            },
    {
        if let Some(limit) = self.config.limit {
            match self.bytes_read.checked_add(n) {
                Some(total) => {
                    if total > limit {
                        Err(DecodeError::LimitExceeded)
                    } else {
                        self.bytes_read = total;
                        Ok(())
                    }
                },
                None => Err(DecodeError::LimitExceeded),
            }
        } else {
            Ok(())
        }
    }

    /// Hands back `n` bytes of a previously claimed floor, immediately
    /// before the bytes it stood for are claimed for real. The protocol
    /// always claims a floor before unclaiming any part of it, so the
    /// counter cannot underflow.
    pub fn unclaim_bytes_read(&mut self, n: usize)
        requires
            old(self).wf(),
            old(self).cfg().limit.is_some() ==> n <= old(self).claimed(),
        ensures
            final(self).wf(),
            final(self).data() == old(self).data(),
            final(self).position() == old(self).position(),
            final(self).cfg() == old(self).cfg(),
            final(self).context() == old(self).context(),
            final(self).claimed() == if old(self).cfg().limit.is_some() {
                old(self).claimed() - n
            } else {
                old(self).claimed()
            },
    {
        if self.config.limit.is_some() {
            self.bytes_read = self.bytes_read - n;
        }
    }

    /// Pre-claims the floor cost of a container: `len` elements of at
    /// least `elem_size` wire bytes each. Fails fast, before any
    /// allocation sized to `len`, when the floor passes the limit.
    pub fn claim_container_read(&mut self, len: usize, elem_size: usize) -> (r: Result<
        (),
        DecodeError,
    >)
        requires
            old(self).wf(),
        ensures
            final(self).wf(),
            final(self).data() == old(self).data(),
            final(self).position() == old(self).position(),
            final(self).cfg() == old(self).cfg(),
            final(self).context() == old(self).context(),
            match r {
                Ok(()) => {
                    &&& old(self).budget_ok(len * elem_size)
                    &&& final(self).claimed() == if old(self).cfg().limit.is_some() {
                        old(self).claimed() + len * elem_size
                    } else {
                        old(self).claimed()
                    }
                },
                Err(e) => {
                    &&& e == DecodeError::LimitExceeded
                    &&& !old(self).budget_ok(len * elem_size)
                    &&& final(self).claimed() == old(self).claimed()
                },
            },
    {
        if self.config.limit.is_some() {
            match len.checked_mul(elem_size) {
                Some(n) => self.claim_bytes_read(n),
                None => {
                    proof {
                        assert(len * elem_size > usize::MAX);
                    }
                    Err(DecodeError::LimitExceeded)
                },
            }
        } else {
            Ok(())
        }
    }

    /// Exactly what reading one byte from this state returns.
    pub open spec fn u8_outcome(self) -> Result<u8, DecodeError> {
        if !self.budget_ok(1) {
            Err(DecodeError::LimitExceeded)
        } else if self.remaining().len() < 1 {
            Err(DecodeError::UnexpectedEnd)
        } else {
            Ok(self.remaining()[0])
        }
    }

    /// Exactly what reading a 64-bit integer from this state returns,
    /// budget checks included, in the order the decoder makes them: the
    /// claim of each span comes before its read.
    pub open spec fn u64_outcome(self) -> Result<u64, DecodeError> {
        let s = self.remaining();
        let e = self.cfg().endianness;
        match self.cfg().int_encoding {
            IntEncoding::Fixed => {
                if !self.budget_ok(8) {
                    Err(DecodeError::LimitExceeded)
                } else if s.len() < 8 {
                    Err(DecodeError::UnexpectedEnd)
                } else {
                    Ok(u64_from_wire(e, s.subrange(0, 8)))
                }
            },
            IntEncoding::Variable => {
                if !self.budget_ok(1) {
                    Err(DecodeError::LimitExceeded)
                } else if s.len() < 1 {
                    Err(DecodeError::UnexpectedEnd)
                } else if s[0] <= SINGLE_BYTE_MAX {
                    Ok(s[0] as u64)
                } else if s[0] > TAG_U64 {
                    Err(DecodeError::InvalidIntegerTag)
                } else if !self.budget_ok(1 + tag_payload_width(s[0])) {
                    Err(DecodeError::LimitExceeded)
                } else if s.len() < 1 + tag_payload_width(s[0]) {
                    Err(DecodeError::UnexpectedEnd)
                } else if s[0] == TAG_U16 {
                    Ok(crate::wire::u16_from_wire(e, s.subrange(1, 3)) as u64)
                } else if s[0] == TAG_U32 {
                    Ok(crate::wire::u32_from_wire(e, s.subrange(1, 5)) as u64)
                } else {
                    Ok(u64_from_wire(e, s.subrange(1, 9)))
                }
            },
        }
    }

    /// How many bytes the successful read of `u64_outcome` consumes.
    pub open spec fn u64_outcome_len(self) -> int {
        match self.cfg().int_encoding {
            IntEncoding::Fixed => 8,
            IntEncoding::Variable => 1 + tag_payload_width(self.remaining()[0]),
        }
    }

    /// Exactly what reading a length prefix from this state returns: a
    /// 64-bit integer that must also fit the host's `usize`.
    pub open spec fn len_outcome(self) -> Result<usize, DecodeError> {
        match self.u64_outcome() {
            Ok(x) => if x > usize::MAX {
                Err(DecodeError::OutsideUsizeRange)
            } else {
                Ok(x as usize)
            },
            Err(e) => Err(e),
        }
    }

    /// Reads one byte, claiming it first.
    pub fn decode_u8(&mut self) -> (r: Result<u8, DecodeError>)
        requires
            old(self).wf(),
        ensures
            final(self).advanced_from(*old(self)),
            r == old(self).u8_outcome(),
            r.is_ok() ==> final(self).position() == old(self).position() + 1,
            r.is_ok() && old(self).cfg().limit.is_some() ==> final(self).claimed() == old(
                self,
            ).claimed() + 1,
            r.is_err() ==> final(self).position() == old(self).position(),
    {
        self.claim_bytes_read(1)?;
        let b = self.reader.read_byte()?;
        Ok(b)
    }

    /// Reads a 64-bit integer as the configuration directs: at fixed
    /// width, or variable-width behind a self-describing tag. Each span
    /// of bytes is claimed before it is read, so a truncated or
    /// over-budget integer fails without reading past the limit.
    pub fn decode_u64(&mut self) -> (r: Result<u64, DecodeError>)
        requires
            old(self).wf(),
        ensures
            final(self).advanced_from(*old(self)),
            r == old(self).u64_outcome(),
            r.is_ok() ==> final(self).position() == old(self).position()
                + old(self).u64_outcome_len(),
            r.is_ok() && old(self).cfg().limit.is_some() ==> final(self).claimed() == old(
                self,
            ).claimed() + old(self).u64_outcome_len(),
    {
        let e = self.config.endianness;
        match self.config.int_encoding {
            IntEncoding::Fixed => {
                self.claim_bytes_read(8)?;
                let v = self.reader.read_vec(8)?;
                proof {
                    assert(v@ =~= old(self).remaining().subrange(0, 8));
                }
                Ok(u64_from_bytes_exec(e, v.as_slice()))
            },
            IntEncoding::Variable => {
                self.claim_bytes_read(1)?;
                let b = self.reader.read_byte()?;
                proof {
                    assert(b == old(self).remaining()[0]);
                }
                if b <= SINGLE_BYTE_MAX {
                    return Ok(b as u64);
                }
                if b > TAG_U64 {
                    return Err(DecodeError::InvalidIntegerTag);
                }
                let w: usize = if b == TAG_U16 {
                    2
                } else if b == TAG_U32 {
                    4
                } else {
                    8
                };
                self.claim_bytes_read(w)?;
                let p = self.reader.read_vec(w)?;
                proof {
                    assert(p@ =~= old(self).remaining().subrange(1, 1 + w as int));
                }
                if b == TAG_U16 {
                    Ok(u16_from_bytes_exec(e, p.as_slice()) as u64)
                } else if b == TAG_U32 {
                    Ok(u32_from_bytes_exec(e, p.as_slice()) as u64)
                } else {
                    Ok(u64_from_bytes_exec(e, p.as_slice()))
                }
            },
        }
    }

    /// Reads the length prefix of a variable-length value. A length the
    /// host cannot address is rejected as out of range before any use.
    pub fn decode_slice_len(&mut self) -> (r: Result<usize, DecodeError>)
        requires
            old(self).wf(),
        ensures
            final(self).advanced_from(*old(self)),
            r == old(self).len_outcome(),
            r.is_ok() ==> final(self).position() == old(self).position()
                + old(self).u64_outcome_len(),
            r.is_ok() && old(self).cfg().limit.is_some() ==> final(self).claimed() == old(
                self,
            ).claimed() + old(self).u64_outcome_len(),
    {
        let x = self.decode_u64()?;
        if x > usize::MAX as u64 {
            Err(DecodeError::OutsideUsizeRange)
        } else {
            Ok(x as usize)
        }
    }

    /// Exactly what reading a length-prefixed text value from this state
    /// returns: the length, then its byte floor claimed, then the payload
    /// read and held to UTF-8.
    pub open spec fn string_outcome(self) -> Result<Seq<char>, DecodeError> {
        let s = self.remaining();
        match self.len_outcome() {
            Err(e) => Err(e),
            Ok(n) => {
                let k = self.u64_outcome_len();
                if !self.budget_ok(k + n) {
                    Err(DecodeError::LimitExceeded)
                } else if s.len() < k + n {
                    Err(DecodeError::UnexpectedEnd)
                } else {
                    let payload = s.subrange(k, k + n);
                    if valid_utf8(payload) {
                        Ok(decode_utf8(payload))
                    } else {
                        Err(DecodeError::Utf8)
                    }
                }
            },
        }
    }

    /// Reads a length-prefixed text value: length, floor claim for that
    /// many payload bytes, payload, UTF-8 validation. Invalid payload
    /// bytes are never handed back as a value.
    pub fn decode_string(&mut self) -> (r: Result<String, DecodeError>)
        requires
            old(self).wf(),
        ensures
            final(self).advanced_from(*old(self)),
            (r matches Ok(st) ==> old(self).string_outcome() == Ok::<Seq<char>, DecodeError>(
                st@,
            )),
            (r matches Err(e) ==> old(self).string_outcome() == Err::<Seq<char>, DecodeError>(e)),
            r.is_ok() ==> final(self).position() == old(self).position()
                + old(self).u64_outcome_len() + old(self).string_payload_len(),
            r.is_ok() && old(self).cfg().limit.is_some() ==> final(self).claimed() == old(
                self,
            ).claimed() + old(self).u64_outcome_len() + old(self).string_payload_len(),
    {
        let ghost k = old(self).u64_outcome_len();
        let len = self.decode_slice_len()?;
        self.claim_container_read(len, 1)?;
        let bytes = self.reader.read_vec(len)?;
        proof {
            assert(bytes@ =~= old(self).remaining().subrange(k, k + len));
        }
        match string_from_utf8(bytes) {
            Some(st) => {
                proof {
                    vstd::utf8::encode_utf8_decode_utf8(st@);
                }
                Ok(st)
            },
            None => Err(DecodeError::Utf8),
        }
    }

    /// The payload length named by this state's length prefix; meaningful
    /// when the prefix parses and fits.
    pub open spec fn string_payload_len(self) -> int {
        match self.len_outcome() {
            Ok(n) => n as int,
            Err(_) => 0,
        }
    }

    /// Reads a length-prefixed text value without copying: the value
    /// borrows the decoder's backing storage directly and is valid for
    /// as long as that storage.
    pub fn decode_borrowed_str(&mut self) -> (r: Result<&'a str, DecodeError>)
        requires
            old(self).wf(),
        ensures
            final(self).advanced_from(*old(self)),
            (r matches Ok(st) ==> old(self).string_outcome() == Ok::<Seq<char>, DecodeError>(
                st@,
            )),
            (r matches Err(e) ==> old(self).string_outcome() == Err::<Seq<char>, DecodeError>(e)),
            r.is_ok() ==> final(self).position() == old(self).position()
                + old(self).u64_outcome_len() + old(self).string_payload_len(),
            r.is_ok() && old(self).cfg().limit.is_some() ==> final(self).claimed() == old(
                self,
            ).claimed() + old(self).u64_outcome_len() + old(self).string_payload_len(),
    {
        let ghost k = old(self).u64_outcome_len();
        let len = self.decode_slice_len()?;
        self.claim_container_read(len, 1)?;
        let bytes = self.reader.borrow_slice(len)?;
        proof {
            assert(bytes@ =~= old(self).remaining().subrange(k, k + len));
        }
        match str_from_utf8(bytes) {
            Some(st) => {
                proof {
                    vstd::utf8::encode_utf8_decode_utf8(st@);
                }
                Ok(st)
            },
            None => Err(DecodeError::Utf8),
        }
    }
}

/// The budget law: a well-formed decoder's claimed-byte counter never
/// stands above the configured limit, at any point of any decode, since
/// every operation requires and preserves well-formedness.
pub proof fn lemma_claimed_within_limit<'a, Ctx>(d: DecoderImpl<'a, Ctx>)
    requires
        d.wf(),
    ensures
        d.cfg().limit matches Some(l) ==> d.claimed() <= l,
{
}

/// A successful integer read returns what the wire grammar says the
/// head of the input holds, whatever the budget state; and whenever the
/// grammar names an integer and the budget covers its bytes, the read
/// succeeds.
pub proof fn lemma_u64_outcome_parse<'a, Ctx>(d: DecoderImpl<'a, Ctx>)
    requires
        d.wf(),
    ensures
        d.u64_outcome() matches Ok(x) ==> crate::wire::u64_parse(d.cfg(), d.remaining())
            == (crate::wire::VarintParse::Value { x, len: d.u64_outcome_len() }),
        crate::wire::u64_parse(d.cfg(), d.remaining()) matches crate::wire::VarintParse::Value {
            x,
            len,
        } ==> (d.budget_ok(len) ==> d.u64_outcome() == Ok::<u64, DecodeError>(x)
            && d.u64_outcome_len() == len),
{
}

/// A decoder `k` bytes further along the same input sees the suffix of
/// what the earlier one saw.
pub proof fn lemma_remaining_advance<'a, Ctx>(
    d1: DecoderImpl<'a, Ctx>,
    d2: DecoderImpl<'a, Ctx>,
    k: int,
)
    requires
        d1.wf(),
        d2.wf(),
        d2.data() == d1.data(),
        d2.position() == d1.position() + k,
        0 <= k,
    ensures
        d2.remaining() =~= d1.remaining().subrange(k, d1.remaining().len() as int),
{
}

/// The round-trip law for one byte: a decoder whose input continues
/// with the byte `x`, and whose budget has room for it, reads back
/// exactly `x`.
pub proof fn lemma_u8_round_trip<'a, Ctx>(d: DecoderImpl<'a, Ctx>, x: u8, rest: Seq<u8>)
    requires
        d.wf(),
        d.remaining() == seq![x] + rest,
        d.budget_ok(1),
    ensures
        d.u8_outcome() == Ok::<u8, DecodeError>(x),
{
    assert(d.remaining()[0] == x);
}

/// The round-trip law for 64-bit integers: a decoder whose input
/// continues with the encoding of `x` under its own configuration, and
/// whose budget has room for that encoding, reads back exactly `x`,
/// consuming exactly the encoding.
pub proof fn lemma_u64_round_trip_decode<'a, Ctx>(d: DecoderImpl<'a, Ctx>, x: u64, rest: Seq<u8>)
    requires
        d.wf(),
        d.remaining() == crate::wire::u64_encoding(d.cfg(), x) + rest,
        d.budget_ok(crate::wire::u64_encoding(d.cfg(), x).len() as int),
    ensures
        d.u64_outcome() == Ok::<u64, DecodeError>(x),
        d.u64_outcome_len() == crate::wire::u64_encoding(d.cfg(), x).len(),
{
    let c = d.cfg();
    let s = d.remaining();
    let enc = crate::wire::u64_encoding(c, x);
    crate::wire::lemma_u64_round_trip(c, x, rest);
    crate::wire::lemma_u64_encoding_len(c, x);
    assert(s.len() >= enc.len());
    match c.int_encoding {
        IntEncoding::Fixed => {
            assert(s.subrange(0, 8) =~= enc.subrange(0, 8));
        },
        IntEncoding::Variable => {
            assert(s[0] == enc[0]);
            if x <= SINGLE_BYTE_MAX as u64 {
            } else {
                let w = tag_payload_width(s[0]);
                assert(s.subrange(1, 1 + w) =~= enc.subrange(1, 1 + w));
            }
        },
    }
}

/// The round-trip law for text: a decoder whose input continues with
/// the encoding of the character sequence `v` — its UTF-8 byte count,
/// then its UTF-8 bytes — and whose budget has room for it, reads back
/// exactly `v`.
pub proof fn lemma_string_round_trip<'a, Ctx>(d: DecoderImpl<'a, Ctx>, v: Seq<char>, rest: Seq<u8>)
    requires
        d.wf(),
        encode_utf8(v).len() <= usize::MAX,
        d.remaining() == crate::wire::u64_encoding(d.cfg(), encode_utf8(v).len() as u64)
            + encode_utf8(v) + rest,
        d.budget_ok(
            crate::wire::u64_encoding(d.cfg(), encode_utf8(v).len() as u64).len() as int
                + encode_utf8(v).len() as int,
        ),
    ensures
        d.string_outcome() == Ok::<Seq<char>, DecodeError>(v),
{
    let c = d.cfg();
    let p = encode_utf8(v);
    let n = p.len() as int;
    let enc = crate::wire::u64_encoding(c, p.len() as u64);
    let k = enc.len() as int;
    assert(d.remaining() =~= enc + (p + rest));
    lemma_u64_round_trip_decode(d, p.len() as u64, p + rest);
    assert(d.len_outcome() == Ok::<usize, DecodeError>(p.len() as usize));
    assert(d.u64_outcome_len() == k);
    assert(d.remaining().len() >= k + n);
    assert(d.remaining().subrange(k, k + n) =~= p);
    vstd::utf8::encode_utf8_valid_utf8(v);
    vstd::utf8::encode_utf8_decode_utf8(v);
}

/// Relies on `String::from_utf8`: it returns the string whose byte
/// encoding is exactly `b` when `b` is valid UTF-8, and fails otherwise.
#[verifier::external_body]
fn string_from_utf8(b: Vec<u8>) -> (r: Option<String>)
    ensures
        match r {
            Some(s) => valid_utf8(b@) && encode_utf8(s@) == b@,
            None => !valid_utf8(b@),
        },
{
    String::from_utf8(b).ok()
}

/// Relies on `str::from_utf8`: it returns the string slice viewing
/// exactly the bytes `b` when `b` is valid UTF-8, and fails otherwise.
#[verifier::external_body]
fn str_from_utf8<'b>(b: &'b [u8]) -> (r: Option<&'b str>)
    ensures
        match r {
            Some(s) => valid_utf8(b@) && encode_utf8(s@) == b@,
            None => !valid_utf8(b@),
        },
{
    core::str::from_utf8(b).ok()
}

/// Adapts a decoder so that nested decode calls see a different context
/// value, without re-threading it manually. The adapted decoder's stream,
/// configuration and byte budget are the original's; the original context
/// is held aside, cannot be observed or changed through the adapter, and
/// comes back untouched from [`WithContext::finish`].
pub struct WithContext<'a, P, C> {
    /// The adapted decoder, exposing the borrowed context.
    pub decoder: DecoderImpl<'a, C>,
    /// The suspended context of the decoder that was adapted; nothing
    /// reaches it through `decoder`.
    pub parent: P,
}

impl<'a, P, C> WithContext<'a, P, C> {
    /// The suspended context of the decoder that was adapted.
    pub open spec fn parent_ctx(self) -> P {
        self.parent
    }

    /// Adapts `d` to expose `ctx` instead of its own context.
    pub fn new(d: DecoderImpl<'a, P>, ctx: C) -> (w: WithContext<'a, P, C>)
        ensures
            w.decoder.data() == d.data(),
            w.decoder.position() == d.position(),
            w.decoder.cfg() == d.cfg(),
            w.decoder.claimed() == d.claimed(),
            w.decoder.context() == ctx,
            w.parent_ctx() == d.context(),
            d.wf() ==> w.decoder.wf(),
    {
        let DecoderImpl { reader, config, bytes_read, ctx: parent } = d;
        WithContext { decoder: DecoderImpl { reader, config, bytes_read, ctx }, parent }
    }

    /// Takes the adapter apart: the decoder, carrying its original
    /// context again at the stream position the nested decodes reached,
    /// and the borrowed context value.
    pub fn finish(self) -> (r: (DecoderImpl<'a, P>, C))
        ensures
            r.0.data() == self.decoder.data(),
            r.0.position() == self.decoder.position(),
            r.0.cfg() == self.decoder.cfg(),
            r.0.claimed() == self.decoder.claimed(),
            r.0.context() == self.parent_ctx(),
            r.1 == self.decoder.context(),
            self.decoder.wf() ==> r.0.wf(),
    {
        let WithContext { decoder, parent } = self;
        let DecoderImpl { reader, config, bytes_read, ctx } = decoder;
        (DecoderImpl { reader, config, bytes_read, ctx: parent }, ctx)
    }
}

} // verus!
