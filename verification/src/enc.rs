//! Encoding: drives a growable byte sink, writing primitives and length
//! prefixes in the representation the configuration picks. The sink
//! grows as needed, so no write operation here can fail; a bounded sink
//! would be a different byte-sink collaborator outside this core.

use vstd::prelude::*;

use crate::config::{Config, IntEncoding};
use crate::wire::{
    u16_bytes_exec, u32_bytes_exec, u64_bytes_exec, u64_encoding, varint_encoding,
    SINGLE_BYTE_MAX, TAG_U16, TAG_U32, TAG_U64,
};

verus! {

broadcast use vstd::seq::group_seq_axioms;

/// An encoder that appends the wire form of values to an owned,
/// growable byte buffer under a fixed configuration.
pub struct EncoderImpl {
    out: Vec<u8>,
    config: Config,
}

impl EncoderImpl {
    /// Every byte written so far, in order.
    pub closed spec fn written(self) -> Seq<u8> {
        self.out@
    }

    /// The configuration the encoder was created with.
    pub closed spec fn cfg(self) -> Config {
        self.config
    }

    /// An encoder with an empty output buffer.
    pub fn new(config: Config) -> (e: EncoderImpl)
        ensures
            e.written() == Seq::<u8>::empty(),
            e.cfg() == config,
    {
        let out: Vec<u8> = Vec::new();
        proof {
            assert(out@ =~= Seq::<u8>::empty());
        }
        EncoderImpl { out, config }
    }

    /// Hands the accumulated bytes out.
    pub fn into_vec(self) -> (r: Vec<u8>)
        ensures
            r@ == self.written(),
    {
        self.out
    }

    /// Writes one raw byte.
    pub fn write_u8(&mut self, x: u8)
        ensures
            final(self).cfg() == old(self).cfg(),
            final(self).written() == old(self).written() + seq![x],
    {
        self.out.push(x);
        proof {
            assert(self.out@ =~= old(self).written() + seq![x]);
        }
    }

    /// Writes a raw byte slice, exactly as given; used for byte-string
    /// payloads after their length prefix.
    pub fn write_slice(&mut self, s: &[u8])
        ensures
            final(self).cfg() == old(self).cfg(),
            final(self).written() == old(self).written() + s@,
    {
        let mut i: usize = 0;
        while i < s.len()
            invariant
                i <= s@.len(),
                self.out@ =~= old(self).written() + s@.subrange(0, i as int),
                self.config == old(self).config,
            decreases s@.len() - i,
        {
            let b = *vstd::slice::slice_index_get(s, i);
            self.out.push(b);
            i = i + 1;
            proof {
                assert(self.out@ =~= old(self).written() + s@.subrange(0, i as int));
            }
        }
        proof {
            assert(s@.subrange(0, s@.len() as int) =~= s@);
        }
    }

    /// Appends an owned byte vector.
    fn write_vec(&mut self, mut b: Vec<u8>)
        ensures
            final(self).cfg() == old(self).cfg(),
            final(self).written() == old(self).written() + b@,
    {
        self.out.append(&mut b);
    }

    /// Writes a 64-bit integer as the configuration directs: at its full
    /// width, or variable-width behind a self-describing tag.
    pub fn write_u64(&mut self, x: u64)
        ensures
            final(self).cfg() == old(self).cfg(),
            final(self).written() == old(self).written() + u64_encoding(old(self).cfg(), x),
    {
        let e = self.config.endianness;
        match self.config.int_encoding {
            IntEncoding::Fixed => {
                let b = u64_bytes_exec(e, x);
                self.write_vec(b);
            },
            IntEncoding::Variable => {
                if x <= SINGLE_BYTE_MAX as u64 {
                    self.write_u8(x as u8);
                    proof {
                        assert(varint_encoding(e, x) =~= seq![x as u8]);
                    }
                } else if x <= 0xFFFF {
                    self.write_u8(TAG_U16);
                    let b = u16_bytes_exec(e, x as u16);
                    self.write_vec(b);
                    proof {
                        assert(self.out@ =~= old(self).written() + varint_encoding(e, x));
                    }
                } else if x <= 0xFFFF_FFFF {
                    self.write_u8(TAG_U32);
                    let b = u32_bytes_exec(e, x as u32);
                    self.write_vec(b);
                    proof {
                        assert(self.out@ =~= old(self).written() + varint_encoding(e, x));
                    }
                } else {
                    self.write_u8(TAG_U64);
                    let b = u64_bytes_exec(e, x);
                    self.write_vec(b);
                    proof {
                        assert(self.out@ =~= old(self).written() + varint_encoding(e, x));
                    }
                }
            },
        }
    }

    /// Writes the length prefix of a variable-length value.
    pub fn encode_slice_len(&mut self, n: usize)
        ensures
            final(self).cfg() == old(self).cfg(),
            final(self).written() == old(self).written() + u64_encoding(
                old(self).cfg(),
                n as u64,
            ),
    {
        self.write_u64(n as u64);
    }
}

} // verus!
