//! Reading variable-width codes off the payload.

use crate::bitstream::bits_value;
use crate::bitstream::lemma_bits_value_append_byte;
use crate::bitstream::lemma_bits_value_bounds;
use crate::bitstream::lemma_bits_value_take;
use crate::blocks::payload;
use crate::blocks::BlockReader;
use vstd::arithmetic::power2::lemma2_to64;
use vstd::arithmetic::power2::pow2;
use vstd::bits::lemma_u32_low_bits_mask_is_mod;
use vstd::bits::lemma_u32_shl_is_mul;
use vstd::bits::lemma_u32_shr_is_div;
use vstd::bits::low_bits_mask;
use vstd::prelude::*;

verus! {

/// The widest code that GIF allows, in bits.
pub const MAX_CODE_WIDTH: u32 = 12;

/// Powers of two up to `2^19`, spelled out for a width that is only known to
/// be small.
proof fn lemma_small_pow2(n: nat)
    requires
        n < 20,
    ensures
        1 <= pow2(n) <= 0x8_0000,
        n <= 11 ==> pow2(n) <= 0x800,
        n <= 12 ==> pow2(n) <= 0x1000,
{
    lemma2_to64();
    assert(n == 0 || n == 1 || n == 2 || n == 3 || n == 4 || n == 5 || n == 6 || n == 7 || n == 8
        || n == 9 || n == 10 || n == 11 || n == 12 || n == 13 || n == 14 || n == 15 || n == 16
        || n == 17 || n == 18 || n == 19);
}

/// A cursor over the bits of the payload, holding the few bits that were
/// fetched but not yet used.
pub struct CodeReader {
    blocks: BlockReader,
    /// The fetched bits that are still unused, the oldest in the lowest place.
    pending_bits: u32,
    /// How many bits `pending_bits` holds.
    bits: u32,
}

impl CodeReader {
    /// The bit of the payload at which the next code starts.
    pub closed spec fn position(&self, stream: Seq<u8>) -> int {
        8 * self.blocks.consumed(stream) - self.bits
    }

    /// The unused bits are the bits of the payload from `position` up to the
    /// last byte fetched.
    pub closed spec fn wf(&self, stream: Seq<u8>) -> bool {
        &&& self.blocks.wf(stream)
        &&& self.bits < 20
        &&& self.position(stream) >= 0
        &&& self.pending_bits == bits_value(
            payload(stream),
            self.position(stream),
            self.bits as nat,
        )
    }

    /// A cursor at the first bit of the payload.
    pub fn new(stream: &[u8]) -> (reader: Self)
        requires
            stream@.len() >= 1,
        ensures
            reader.wf(stream@),
            reader.position(stream@) == 0,
    {
        CodeReader { blocks: BlockReader::new(stream), pending_bits: 0, bits: 0 }
    }

    /// Takes the next `width` bits as a code. Returns `None`, and leaves the
    /// position where it was, when fewer than `width` bits are left.
    pub fn next_code(&mut self, stream: &[u8], width: u32) -> (code: Option<u32>)
        requires
            old(self).wf(stream@),
            1 <= width <= MAX_CODE_WIDTH,
        ensures
            final(self).wf(stream@),
            0 <= old(self).position(stream@),
            match code {
                Some(c) => {
                    &&& old(self).position(stream@) + width <= 8 * payload(stream@).len()
                    &&& c == bits_value(
                        payload(stream@),
                        old(self).position(stream@),
                        width as nat,
                    )
                    &&& final(self).position(stream@) == old(self).position(stream@) + width
                },
                None => {
                    &&& old(self).position(stream@) + width > 8 * payload(stream@).len()
                    &&& final(self).position(stream@) == old(self).position(stream@)
                },
            },
    {
        let ghost data = payload(stream@);
        let ghost pos = self.position(stream@);
        while self.bits < width
            invariant
                self.wf(stream@),
                self.position(stream@) == pos,
                pos == old(self).position(stream@),
                data == payload(stream@),
                1 <= width <= MAX_CODE_WIDTH,
            decreases data.len() - self.blocks.consumed(stream@),
        {
            let ghost have = self.bits as nat;
            let ghost taken = self.blocks.consumed(stream@);
            match self.blocks.next_byte(stream) {
                None => {
                    return None;
                },
                Some(b) => {
                    proof {
                        lemma_small_pow2(have);
                        lemma_bits_value_bounds(data, pos, have);
                        lemma_bits_value_append_byte(data, pos, have);
                        assert((pos + have) / 8 == taken);
                        assert(b as int * pow2(have) <= 255 * 0x800) by (nonlinear_arith)
                            requires
                                0 <= b <= 255,
                                1 <= pow2(have) <= 0x800,
                        ;
                        lemma_u32_shl_is_mul(b as u32, self.bits);
                    }
                    self.pending_bits = self.pending_bits + ((b as u32) << self.bits);
                    self.bits = self.bits + 8;
                    proof {
                        assert(pow2(have) * b == b * pow2(have)) by (nonlinear_arith);
                    }
                },
            }
        }
        proof {
            self.blocks.lemma_consumed_bounds(stream@);
            lemma_small_pow2(width as nat);
            lemma_bits_value_take(data, pos, self.bits as nat, width as nat);
            lemma_u32_shl_is_mul(1u32, width);
            lemma_u32_low_bits_mask_is_mod(self.pending_bits, width as nat);
            lemma_u32_shr_is_div(self.pending_bits, width);
        }
        let mask: u32 = (1u32 << width) - 1;
        assert(mask == low_bits_mask(width as nat) as u32);
        let code = self.pending_bits & mask;
        self.pending_bits = self.pending_bits >> width;
        self.bits = self.bits - width;
        Some(code)
    }
}

} // verus!
