//! Small verified helpers over machine integers: executable powers of two and
//! the two hash-decomposition primitives, splitting a 64-bit hash into a
//! register address (its top bits) and a rank (the position of the lowest set
//! bit of what remains).

use vstd::prelude::*;
use vstd::arithmetic::power2::{
    pow2, lemma_pow2_adds, lemma_pow2_strictly_increases, lemma2_to64, lemma2_to64_rest,
};
use vstd::arithmetic::div_mod::lemma_multiply_divide_lt;
use vstd::bits::lemma_u64_shr_is_div;
use vstd::std_specs::bits::u64_trailing_zeros;

verus! {

/// `pow2(e1) <= pow2(e2)` whenever `e1 <= e2`.
pub proof fn lemma_pow2_le(e1: nat, e2: nat)
    requires
        e1 <= e2,
    ensures
        pow2(e1) <= pow2(e2),
{
    if e1 < e2 {
        lemma_pow2_strictly_increases(e1, e2);
    }
}

/// `2^e` as a `u64`, for exponents that fit.
pub fn pow2_u64(e: u32) -> (r: u64)
    requires
        e <= 63,
    ensures
        r == pow2(e as nat),
{
    proof {
        lemma2_to64();
        lemma2_to64_rest();
    }
    let mut r: u64 = 1;
    let mut i: u32 = 0;
    while i < e
        invariant
            i <= e <= 63,
            r == pow2(i as nat),
            pow2(64) == 0x1_0000_0000_0000_0000,
        decreases e - i,
    {
        proof {
            lemma_pow2_le((i + 1) as nat, 63);
            lemma_pow2_strictly_increases(63, 64);
            assert(pow2((i + 1) as nat) == 2 * pow2(i as nat)) by {
                lemma_pow2_adds(1, i as nat);
                lemma2_to64();
            }
        }
        r = r * 2;
        i = i + 1;
    }
    r
}

/// `2^e` as a `u128`, for exponents that fit.
pub fn pow2_u128(e: u32) -> (r: u128)
    requires
        e <= 127,
    ensures
        r == pow2(e as nat),
{
    proof {
        lemma2_to64();
        lemma2_to64_rest();
        lemma_pow2_adds(64, 64);
    }
    let mut r: u128 = 1;
    let mut i: u32 = 0;
    while i < e
        invariant
            i <= e <= 127,
            r == pow2(i as nat),
            pow2(128) == 0x1_0000_0000_0000_0000_0000_0000_0000_0000,
        decreases e - i,
    {
        proof {
            lemma_pow2_le((i + 1) as nat, 127);
            lemma_pow2_strictly_increases(127, 128);
            assert(pow2((i + 1) as nat) == 2 * pow2(i as nat)) by {
                lemma_pow2_adds(1, i as nat);
                lemma2_to64();
            }
        }
        r = r * 2;
        i = i + 1;
    }
    r
}

/// The value of the top `pos` bits of `x`, i.e. `x` shifted right so that
/// only its `pos` most significant bits remain.
pub fn get_first_x_bits(x: u64, pos: usize) -> (r: u64)
    requires
        1 <= pos <= 64,
    ensures
        r == x as nat / pow2((64 - pos) as nat),
        r < pow2(pos as nat),
{
    let shift: u64 = (64 - pos) as u64;
    proof {
        lemma_u64_shr_is_div(x, shift);
        lemma_pow2_adds((64 - pos) as nat, pos as nat);
        lemma2_to64();
        lemma2_to64_rest();
        lemma_multiply_divide_lt(x as int, pow2((64 - pos) as nat) as int, pow2(pos as nat) as int);
    }
    x >> shift
}

/// Where, counting from bit `start` upward, the first set bit of `x` lies:
/// the number of zero bits of `x` at positions `start`, `start + 1`, ...
/// before the first one bit. If no bit at or above `start` is set, the
/// result clamps to `64 - start`, the number of positions inspected.
pub open spec fn spec_leftmost_pos(x: u64, start: nat) -> nat {
    let shifted = x as nat / pow2(start);
    if shifted == 0 {
        (64 - start) as nat
    } else {
        u64_trailing_zeros(shifted as u64) as nat
    }
}

/// Executable form of [`spec_leftmost_pos`].
pub fn leftmost_pos(x: u64, start: usize) -> (r: u8)
    requires
        start < 64,
    ensures
        r as nat == spec_leftmost_pos(x, start as nat),
        r <= 64 - start,
{
    proof {
        lemma_u64_shr_is_div(x, start as u64);
    }
    let shifted: u64 = x >> (start as u64);
    if shifted == 0 {
        (64 - start) as u8
    } else {
        proof {
            vstd::std_specs::bits::axiom_u64_trailing_zeros(shifted);
            let tz = u64_trailing_zeros(shifted) as nat;
            lemma_pow2_adds(start as nat, (64 - start) as nat);
            lemma2_to64();
            lemma2_to64_rest();
            lemma_multiply_divide_lt(
                x as int,
                pow2(start as nat) as int,
                pow2((64 - start) as nat) as int,
            );
            // the bit at position tz is set, so shifted >= 2^tz
            assert((shifted >> (tz as u64)) & 1u64 == 1u64);
            lemma_u64_shr_is_div(shifted, tz as u64);
            let y = shifted >> (tz as u64);
            assert(y & 1u64 == 1u64 ==> y >= 1u64) by (bit_vector);
            assert(shifted as nat / pow2(tz) >= 1);
            assert(tz < 64 - start) by {
                if tz >= 64 - start {
                    lemma_pow2_le((64 - start) as nat, tz);
                    lemma_multiply_divide_lt(shifted as int, pow2(tz) as int, 1);
                }
            }
        }
        shifted.trailing_zeros() as u8
    }
}

} // verus!
