//! The compressed payload seen as a string of bits.
//!
//! GIF packs its codes least significant bit first: bit `i` of the payload is
//! bit `i % 8` of byte `i / 8`, and a code of width `n` that starts at bit
//! `pos` has bit `pos + j` as its binary digit of weight `2^j`.

use vstd::arithmetic::div_mod::lemma_fundamental_div_mod_converse;
use vstd::arithmetic::mul::lemma_mul_is_associative;
use vstd::arithmetic::mul::lemma_mul_is_distributive_add;
use vstd::arithmetic::power2::lemma2_to64;
use vstd::arithmetic::power2::lemma_pow2_pos;
use vstd::arithmetic::power2::lemma_pow2_unfold;
use vstd::arithmetic::power2::pow2;
use vstd::prelude::*;

verus! {

/// Bit `i` of `data`, as 0 or 1.
pub open spec fn bit_at(data: Seq<u8>, i: int) -> int {
    (data[i / 8] as int / pow2((i % 8) as nat) as int) % 2
}

/// The number spelled by the `n` bits of `data` that start at bit `pos`,
/// the first of them being the least significant.
pub open spec fn bits_value(data: Seq<u8>, pos: int, n: nat) -> int
    decreases n,
{
    if n == 0 {
        0
    } else {
        bit_at(data, pos) + 2 * bits_value(data, pos + 1, (n - 1) as nat)
    }
}

/// A value of `n` bits lies in `0 .. 2^n`.
pub proof fn lemma_bits_value_bounds(data: Seq<u8>, pos: int, n: nat)
    ensures
        0 <= bits_value(data, pos, n) < pow2(n),
    decreases n,
{
    if n == 0 {
        lemma2_to64();
    } else {
        lemma_bits_value_bounds(data, pos + 1, (n - 1) as nat);
        lemma_pow2_unfold(n);
    }
}

/// Reading `a + b` bits is reading `a` bits and then `b` more, the later
/// ones weighing `2^a` times as much.
pub proof fn lemma_bits_value_split(data: Seq<u8>, pos: int, a: nat, b: nat)
    ensures
        bits_value(data, pos, a + b) == bits_value(data, pos, a) + pow2(a) * bits_value(
            data,
            pos + a,
            b,
        ),
    decreases a,
{
    if a == 0 {
        lemma2_to64();
    } else {
        let rest = bits_value(data, pos + a, b);
        let low = bits_value(data, pos + 1, (a - 1) as nat);
        let half = pow2((a - 1) as nat) as int;
        lemma_bits_value_split(data, pos + 1, (a - 1) as nat, b);
        lemma_pow2_unfold(a);
        assert(bits_value(data, pos + 1, (a + b - 1) as nat) == low + half * rest);
        assert(2 * (low + half * rest) == 2 * low + 2 * (half * rest)) by {
            lemma_mul_is_distributive_add(2, low, half * rest);
        }
        assert(2 * (half * rest) == (2 * half) * rest) by {
            lemma_mul_is_associative(2, half, rest);
        }
    }
}

/// Eight bits that start on a byte boundary spell that byte.
pub proof fn lemma_bits_value_byte(data: Seq<u8>, pos: int)
    requires
        0 <= pos,
        pos % 8 == 0,
    ensures
        bits_value(data, pos, 8) == data[pos / 8],
{
    let b: u8 = data[pos / 8];
    lemma2_to64();
    reveal_with_fuel(bits_value, 9);
    assert(b as int == (b as int / 1) % 2 + 2 * ((b as int / 2) % 2 + 2 * ((b as int / 4) % 2 + 2 * ((b
        as int / 8) % 2 + 2 * ((b as int / 16) % 2 + 2 * ((b as int / 32) % 2 + 2 * ((b as int
        / 64) % 2 + 2 * ((b as int / 128) % 2))))))));
}

/// The low `n` bits of a longer read are the read of `n` bits, and what is
/// left after dropping them is the read that starts `n` bits later.
pub proof fn lemma_bits_value_take(data: Seq<u8>, pos: int, have: nat, n: nat)
    requires
        n <= have,
    ensures
        bits_value(data, pos, have) % (pow2(n) as int) == bits_value(data, pos, n),
        bits_value(data, pos, have) / (pow2(n) as int) == bits_value(
            data,
            pos + n,
            (have - n) as nat,
        ),
{
    lemma_bits_value_split(data, pos, n, (have - n) as nat);
    lemma_bits_value_bounds(data, pos, n);
    lemma_pow2_pos(n);
    lemma_fundamental_div_mod_converse(
        bits_value(data, pos, have),
        pow2(n) as int,
        bits_value(data, pos + n, (have - n) as nat),
        bits_value(data, pos, n),
    );
}

/// Appending one byte on a byte boundary to a read of `have` bits adds that
/// byte, weighted by `2^have`.
pub proof fn lemma_bits_value_append_byte(data: Seq<u8>, pos: int, have: nat)
    requires
        0 <= pos,
        (pos + have) % 8 == 0,
    ensures
        bits_value(data, pos, have + 8) == bits_value(data, pos, have) + pow2(have) * data[(pos
            + have) / 8],
{
    lemma_bits_value_split(data, pos, have, 8);
    lemma_bits_value_byte(data, pos + have);
}

} // verus!
