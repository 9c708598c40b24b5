//! The estimator: a pure function of a register snapshot and its precision,
//! producing a cardinality estimate through the harmonic-mean formula with a
//! small-range (linear counting) and a large-range (hash saturation)
//! correction.
//!
//! Everything is unsigned fixed-point integer arithmetic. The harmonic-mean
//! denominator `sum of 2^-register` is carried scaled by `2^64`, where it is
//! exact; logarithms are taken in Q32 fixed point (32 fraction bits) by the
//! classic normalize-then-square bit recurrence, and `ln 2` enters as a Q32
//! constant. The estimate comes back as a whole count: the linear-counting
//! branch, which rules the smallest cardinalities where a fraction matters
//! most, rounds to nearest, the other branches round down, and the value
//! saturates at `u64::MAX` where the large-range formula runs out of the
//! 64-bit hash space.

use vstd::prelude::*;
use vstd::arithmetic::power2::{
    pow2, lemma2_to64, lemma2_to64_rest, lemma_pow2_adds, lemma_pow2_pos,
    lemma_pow2_strictly_increases,
};
use vstd::arithmetic::div_mod::{
    lemma_fundamental_div_mod, lemma_fundamental_div_mod_converse,
    lemma_div_is_ordered_by_denominator, lemma_div_denominator, lemma_div_multiples_vanish,
};
use vstd::arithmetic::mul::{
    lemma_mul_inequality, lemma_mul_is_associative, lemma_mul_is_distributive_add_other_way,
    lemma_mul_upper_bound,
};
use crate::bits::{pow2_u64, pow2_u128, lemma_pow2_le};
use crate::sketch::{
    Sketch, SketchView, lemma_add_idempotent, lemma_hash_decomposition_in_range, max_rank,
    spec_add, spec_rank, spec_register_index,
};

verus! {

/// `ln 2` in Q32 fixed point (rounded down).
pub const LN2_Q32: u64 = 2977044471;

pub const TWO32_U64: u64 = 0x1_0000_0000;

pub const TWO31: u128 = 0x8000_0000;

pub const TWO32: u128 = 0x1_0000_0000;

pub const TWO33: u128 = 0x2_0000_0000;

pub const TWO64: u128 = 0x1_0000_0000_0000_0000;

pub const TWO96: u128 = 0x1_0000_0000_0000_0000_0000_0000;

/// One register's contribution to the harmonic-mean denominator, scaled by
/// `2^64`: the zero sentinel contributes `2^64` (that is, `2^0 = 1`
/// unscaled), a register holding `r` contributes `2^(64-r)`.
pub open spec fn term_of(r: u8) -> nat {
    if r <= 64 {
        pow2((64 - r) as nat)
    } else {
        1
    }
}

/// The harmonic-mean denominator `sum over registers of 2^-register`, scaled
/// by `2^64`, where it is an exact natural number.
pub open spec fn indicator_sum(regs: Seq<u8>) -> nat
    decreases regs.len(),
{
    if regs.len() == 0 {
        0
    } else {
        indicator_sum(regs.drop_last()) + term_of(regs.last())
    }
}

/// How many registers still sit at the zero sentinel.
pub open spec fn zero_count(regs: Seq<u8>) -> nat
    decreases regs.len(),
{
    if regs.len() == 0 {
        0
    } else {
        zero_count(regs.drop_last()) + (if regs.last() == 0u8 {
            1nat
        } else {
            0nat
        })
    }
}

/// The raw harmonic-mean estimate, rounded down:
/// `alpha_m * m^2 / indicator` with `alpha_m = 0.7213 / (1 + 1.079 / m)`
/// cleared of fractions, so that a single floor division remains.
pub open spec fn spec_raw(p: nat, regs: Seq<u8>) -> nat {
    let m = pow2(p);
    (7213 * m * m * m * pow2(64)) / ((10000 * m + 10790) * indicator_sum(regs))
}

/// How many halvings bring `x` under `2^33`: the integer part of `log2` of a
/// Q32 value, counted from the `[1, 2)` mantissa window.
pub open spec fn norm_shift(x: nat) -> nat
    decreases x,
{
    if x < TWO33 as nat {
        0
    } else {
        1 + norm_shift(x / 2)
    }
}

/// One step of the square-and-compare recurrence that produces the fraction
/// bits of `log2` of a Q32 mantissa: square the mantissa; where it leaves
/// `[1, 2)` the next fraction bit is one and the mantissa is halved.
pub open spec fn frac_step(s: (nat, nat)) -> (nat, nat) {
    let sq = (s.0 * s.0) / (TWO32 as nat);
    if sq >= TWO33 as nat {
        (sq / 2, 2 * s.1 + 1)
    } else {
        (sq, 2 * s.1)
    }
}

/// Mantissa and accumulated fraction bits after `n` squaring steps.
pub open spec fn frac_iter(mant: nat, n: nat) -> (nat, nat)
    decreases n,
{
    if n == 0 {
        (mant, 0)
    } else {
        frac_step(frac_iter(mant, (n - 1) as nat))
    }
}

/// The natural logarithm, in Q32 fixed point, of a Q32 value `x >= 1`:
/// normalize to a mantissa in `[1, 2)`, take 32 fraction bits of `log2` by
/// the square-and-compare recurrence, and scale by `ln 2`.
pub open spec fn spec_ln_q32(x: nat) -> nat {
    let k = norm_shift(x);
    let mant = x / pow2(k);
    let f = frac_iter(mant, 32).1;
    ((k * (TWO32 as nat) + f) * (LN2_Q32 as nat)) / (TWO32 as nat)
}

/// The full estimate of a register snapshot at precision `p`.
///
/// Where the raw estimate is at most `2.5 * m` and empty registers remain,
/// linear counting `m * ln(m / zeros)` replaces it; where it exceeds a
/// thirtieth of the `2^64` hash space (rounded down), the saturation correction
/// `-2^64 * ln(1 - raw / 2^64)` replaces it, saturating at `u64::MAX` where
/// the formula runs off the end of the hash space; otherwise the raw estimate
/// stands.
pub open spec fn spec_estimate(p: nat, regs: Seq<u8>) -> nat {
    let m = pow2(p);
    let z = zero_count(regs);
    let raw = spec_raw(p, regs);
    if 2 * raw <= 5 * m && z > 0 {
        (m * spec_ln_q32((m * (TWO32 as nat)) / z) + (TWO31 as nat)) / (TWO32 as nat)
    } else if raw > pow2(64) / 30 {
        if raw >= pow2(64) {
            u64::MAX as nat
        } else {
            let e = (TWO32 as nat) * spec_ln_q32(pow2(96) / ((pow2(64) - raw) as nat));
            if e >= u64::MAX as nat {
                u64::MAX as nat
            } else {
                e
            }
        }
    } else {
        raw
    }
}

/// Every register at or below `rmax` puts the scaled indicator sum at or
/// above `len * 2^(64 - rmax)`; every sum is at most `len * 2^64`.
proof fn lemma_indicator_sum_bounds(regs: Seq<u8>, rmax: u8)
    requires
        rmax <= 64,
        forall|i: int| 0 <= i < regs.len() ==> regs[i] <= rmax,
    ensures
        indicator_sum(regs) >= regs.len() * pow2((64 - rmax) as nat),
        indicator_sum(regs) <= regs.len() * pow2(64),
    decreases regs.len(),
{
    let lo = pow2((64 - rmax) as nat);
    let hi = pow2(64);
    if regs.len() == 0 {
    } else {
        let dl = regs.drop_last();
        assert(forall|i: int| 0 <= i < dl.len() ==> dl[i] == regs[i]);
        lemma_indicator_sum_bounds(dl, rmax);
        let r = regs.last();
        assert(term_of(r) >= lo && term_of(r) <= hi) by {
            lemma_pow2_le((64 - rmax) as nat, (64 - r) as nat);
            lemma_pow2_le((64 - r) as nat, 64);
        }
        assert(dl.len() * lo + lo == regs.len() * lo) by {
            lemma_mul_is_distributive_add_other_way(lo as int, dl.len() as int, 1);
        }
        assert(dl.len() * hi + hi == regs.len() * hi) by {
            lemma_mul_is_distributive_add_other_way(hi as int, dl.len() as int, 1);
        }
    }
}

/// Raising one register moves the indicator sum by exactly the difference
/// of the two terms.
proof fn lemma_indicator_sum_update(regs: Seq<u8>, i: int, v: u8)
    requires
        0 <= i < regs.len(),
    ensures
        indicator_sum(regs.update(i, v)) + term_of(regs[i]) == indicator_sum(regs) + term_of(v),
    decreases regs.len(),
{
    let u = regs.update(i, v);
    if i == regs.len() - 1 {
        assert(u.drop_last() =~= regs.drop_last());
    } else {
        assert(u.drop_last() =~= regs.drop_last().update(i, v));
        assert(u.last() == regs.last());
        lemma_indicator_sum_update(regs.drop_last(), i, v);
    }
}

/// The same, for the count of zero registers.
proof fn lemma_zero_count_update(regs: Seq<u8>, i: int, v: u8)
    requires
        0 <= i < regs.len(),
    ensures
        zero_count(regs.update(i, v)) + (if regs[i] == 0u8 {
            1nat
        } else {
            0nat
        }) == zero_count(regs) + (if v == 0u8 {
            1nat
        } else {
            0nat
        }),
    decreases regs.len(),
{
    let u = regs.update(i, v);
    if i == regs.len() - 1 {
        assert(u.drop_last() =~= regs.drop_last());
    } else {
        assert(u.drop_last() =~= regs.drop_last().update(i, v));
        assert(u.last() == regs.last());
        lemma_zero_count_update(regs.drop_last(), i, v);
    }
}

/// In an all-zero register array every register contributes `2^64` and
/// counts as a zero.
proof fn lemma_all_zero_sums(regs: Seq<u8>)
    requires
        forall|i: int| 0 <= i < regs.len() ==> regs[i] == 0u8,
    ensures
        indicator_sum(regs) == regs.len() * pow2(64),
        zero_count(regs) == regs.len(),
    decreases regs.len(),
{
    if regs.len() > 0 {
        let dl = regs.drop_last();
        assert(forall|i: int| 0 <= i < dl.len() ==> dl[i] == 0u8);
        lemma_all_zero_sums(dl);
        assert(dl.len() * pow2(64) + pow2(64) == regs.len() * pow2(64)) by {
            lemma_mul_is_distributive_add_other_way(pow2(64) as int, dl.len() as int, 1);
        }
    }
}

/// At most every register can be zero.
proof fn lemma_zero_count_le_len(regs: Seq<u8>)
    ensures
        zero_count(regs) <= regs.len(),
    decreases regs.len(),
{
    if regs.len() > 0 {
        lemma_zero_count_le_len(regs.drop_last());
    }
}

/// `floor(a * 2^64 / b)` by long division, one quotient bit per step, so that
/// the product `a * 2^64` never has to exist in a machine word.
fn shl64_div(a: u128, b: u128) -> (r: u128)
    requires
        0 < b,
        a < 2 * b,
        b <= 0x4000_0000_0000_0000_0000_0000_0000_0000u128,
    ensures
        r as nat == (a as nat * pow2(64)) / b as nat,
        r < 2 * pow2(64),
{
    proof {
        lemma2_to64();
        lemma2_to64_rest();
    }
    let mut acc: u128 = a / b;
    let mut rem: u128 = a % b;
    proof {
        lemma_fundamental_div_mod(a as int, b as int);
        vstd::arithmetic::div_mod::lemma_multiply_divide_lt(a as int, b as int, 2);
    }
    let mut i: u32 = 0;
    while i < 64
        invariant
            0 < b,
            b <= 0x4000_0000_0000_0000_0000_0000_0000_0000u128,
            i <= 64,
            rem < b,
            acc * b + rem == a * pow2(i as nat),
            acc < 2 * pow2(i as nat),
            pow2(64) == 0x1_0000_0000_0000_0000,
        decreases 64 - i,
    {
        proof {
            assert(pow2((i + 1) as nat) == 2 * pow2(i as nat)) by {
                lemma_pow2_adds(1, i as nat);
                lemma2_to64();
            }
            lemma_pow2_le((i + 1) as nat, 64);
            lemma2_to64();
            lemma2_to64_rest();
            assert(a * pow2((i + 1) as nat) == 2 * (a * pow2(i as nat))) by {
                lemma_mul_is_associative(2, a as int, pow2(i as nat) as int);
                lemma_mul_is_associative(a as int, 2, pow2(i as nat) as int);
            }
        }
        let ghost acc0 = acc as int;
        let ghost rem0 = rem as int;
        let rem2 = rem * 2;
        if rem2 >= b {
            proof {
                assert((2 * acc0 + 1) * b + (2 * rem0 - b) == 2 * (acc0 * b + rem0)) by {
                    lemma_mul_is_distributive_add_other_way(b as int, 2 * acc0, 1);
                    lemma_mul_is_distributive_add_other_way(b as int, acc0, acc0);
                }
            }
            acc = acc * 2 + 1;
            rem = rem2 - b;
        } else {
            proof {
                assert((2 * acc0) * b == 2 * (acc0 * b)) by {
                    lemma_mul_is_distributive_add_other_way(b as int, acc0, acc0);
                }
            }
            acc = acc * 2;
            rem = rem2;
        }
        i = i + 1;
    }
    proof {
        lemma_fundamental_div_mod_converse(
            (a as nat * pow2(64)) as int,
            b as int,
            acc as int,
            rem as int,
        );
    }
    acc
}

/// The Q32 natural logarithm of a Q32 value `x >= 1`, matching
/// [`spec_ln_q32`] exactly.
fn ln_q32(x: u128) -> (r: u64)
    requires
        TWO32 <= x,
        x <= TWO96,
    ensures
        r as nat == spec_ln_q32(x as nat),
        r < 0x80_0000_0000u64,
{
    proof {
        lemma2_to64();
        lemma2_to64_rest();
    }
    let mut v: u128 = x;
    let mut k: u32 = 0;
    while v >= TWO33
        invariant
            TWO32 <= v,
            x <= TWO96,
            v as nat == x as nat / pow2(k as nat),
            norm_shift(x as nat) == k + norm_shift(v as nat),
            pow2(k as nat) * (TWO32 as nat) <= x as nat,
            k <= 64,
        decreases v,
    {
        proof {
            lemma_pow2_adds(k as nat, 1);
            lemma2_to64();
            lemma_pow2_pos(k as nat);
            lemma_div_denominator(x as int, pow2(k as nat) as int, 2);
            // the new mantissa is still at least 2^32, so 2^(k+1) * 2^32 <= x
            assert((v / 2) as nat == x as nat / pow2((k + 1) as nat));
            lemma_div_lower_bound(x as nat, pow2((k + 1) as nat), TWO32 as nat);
            // k stays at or under 64: 2^(k+1) * 2^32 <= x <= 2^96
            assert(k + 1 <= 64) by {
                if k + 1 > 64 {
                    lemma_pow2_strictly_increases(64, (k + 1) as nat);
                    lemma_pow2_adds(64, 32);
                    lemma2_to64_rest();
                    lemma_mul_inequality(
                        pow2(64) as int + 1,
                        pow2((k + 1) as nat) as int,
                        TWO32 as int,
                    );
                    lemma_mul_is_distributive_add_other_way(TWO32 as int, pow2(64) as int, 1);
                }
            }
        }
        v = v / 2;
        k = k + 1;
    }
    proof {
        assert(norm_shift(x as nat) == k);
        assert(v as nat == x as nat / pow2(norm_shift(x as nat)));
    }
    let ghost mant0: nat = v as nat;
    let mut mant: u128 = v;
    let mut f: u64 = 0;
    let mut j: u32 = 0;
    while j < 32
        invariant
            TWO32 <= mant < TWO33,
            j <= 32,
            f < pow2(j as nat),
            (mant as nat, f as nat) == frac_iter(mant0, j as nat),
            TWO32 <= mant0 < TWO33,
        decreases 32 - j,
    {
        proof {
            lemma2_to64();
            lemma2_to64_rest();
            assert(pow2((j + 1) as nat) == 2 * pow2(j as nat)) by {
                lemma_pow2_adds(1, j as nat);
                lemma2_to64();
            }
            lemma_pow2_le((j + 1) as nat, 32);
            // mant^2 stays under 2^66, and at or above 2^64
            lemma_mul_upper_bound(mant as int, TWO33 as int - 1, mant as int, TWO33 as int - 1);
            lemma_mul_inequality(TWO32 as int, mant as int, TWO32 as int);
            lemma_mul_inequality(TWO32 as int, mant as int, mant as int);
            lemma_div_is_ordered((TWO32 * TWO32) as int, (mant * mant) as int, TWO32 as int);
        }
        let sq: u128 = (mant * mant) / TWO32;
        if sq >= TWO33 {
            mant = sq / 2;
            f = 2 * f + 1;
        } else {
            mant = sq;
            f = 2 * f;
        }
        j = j + 1;
    }
    proof {
        lemma2_to64();
        lemma2_to64_rest();
        assert(f < TWO32_U64);
    }
    let l: u64 = (k as u64) * TWO32_U64 + f;
    proof {
        assert(l <= 0x41_0000_0000u64);
        lemma_mul_upper_bound(l as int, 0x41_0000_0000, LN2_Q32 as int, 0xffff_ffff);
        lemma_div_is_ordered(
            (l as int) * (LN2_Q32 as int),
            (0x41_0000_0000 * 0xffff_ffff) as int,
            TWO32 as int,
        );
    }
    let r128: u128 = (l as u128) * (LN2_Q32 as u128) / TWO32;
    r128 as u64
}

/// A division is at least `c` when the dividend is at least `c` times the
/// divisor.
proof fn lemma_div_lower_bound(x: nat, d: nat, c: nat)
    requires
        0 < d,
        x / d >= c,
    ensures
        x >= c * d,
{
    lemma_fundamental_div_mod(x as int, d as int);
    lemma_mul_inequality(c as int, (x / d) as int, d as int);
}

/// A division by a positive divisor is monotone in the dividend.
proof fn lemma_div_is_ordered(x: int, y: int, z: int)
    requires
        0 <= x <= y,
        0 < z,
    ensures
        x / z <= y / z,
{
    vstd::arithmetic::div_mod::lemma_div_is_ordered(x, y, z);
}

impl Sketch {
    /// The cardinality estimate of everything added so far: the harmonic-mean
    /// formula with its two corrections, computed exactly as
    /// [`spec_estimate`] states it, rounded down to a whole count.
    pub fn estimate(&self) -> (r: u64)
        requires
            self@.wf(),
        ensures
            r as nat == spec_estimate(self@.precision as nat, self@.regs),
    {
        proof {
            lemma2_to64();
            lemma2_to64_rest();
            lemma_pow2_le(self@.precision as nat, 18);
        }
        let p: usize = self.precision as usize;
        let m64: u64 = pow2_u64(p as u32);
        let m: u128 = m64 as u128;
        let len: usize = self.registers.len();
        let mut s: u128 = 0;
        let mut zeros: u64 = 0;
        let mut i: usize = 0;
        while i < len
            invariant
                self@.wf(),
                len == self.registers@.len(),
                i <= len,
                len <= 0x40000,
                s as nat == indicator_sum(self.registers@.take(i as int)),
                zeros as nat == zero_count(self.registers@.take(i as int)),
                s <= i * pow2(64),
                zeros <= i,
                pow2(64) == 0x1_0000_0000_0000_0000,
            decreases len - i,
        {
            let r: u8 = self.registers[i];
            proof {
                assert(self@.regs[i as int] <= max_rank(self@.precision));
                lemma_pow2_le((64 - r) as nat, 64);
                let t = self.registers@.take((i + 1) as int);
                assert(t.drop_last() =~= self.registers@.take(i as int));
                assert(t.last() == self.registers@[i as int]);
                lemma_mul_is_distributive_add_other_way(pow2(64) as int, i as int, 1);
            }
            let term: u128 = pow2_u128(64 - r as u32);
            s = s + term;
            if r == 0 {
                zeros = zeros + 1;
            }
            i = i + 1;
        }
        proof {
            assert(self.registers@.take(len as int) =~= self.registers@);
        }
        proof {
            lemma_mul_upper_bound(7213 * (m as int), (7213 * 0x40000) as int, m as int, 0x40000);
            lemma_mul_upper_bound(
                7213 * (m as int) * (m as int),
                (7213 * 0x40000 * 0x40000) as int,
                m as int,
                0x40000,
            );
        }
        let an: u128 = 7213 * m * m * m;
        proof {
            lemma_mul_upper_bound(
                10000 * (m as int) + 10790,
                (10000 * 0x40000 + 10790) as int,
                s as int,
                (0x40000 * 0x1_0000_0000_0000_0000) as int,
            );
        }
        let ad: u128 = (10000 * m + 10790) * s;
        proof {
            lemma_estimate_entry_bounds(self@, m as nat, s as nat);
        }
        let raw: u128 = shl64_div(an, ad);
        proof {
            assert(raw as nat == spec_raw(self@.precision as nat, self@.regs));
        }
        if 2 * raw <= 5 * m && zeros > 0 {
            proof {
                lemma_zero_count_le_len(self@.regs);
                lemma_div_is_ordered_by_denominator(
                    (m64 as int) * (TWO32_U64 as int),
                    zeros as int,
                    m64 as int,
                );
                lemma_div_multiples_vanish(TWO32_U64 as int, m64 as int);
                lemma_mul_upper_bound(m64 as int, 0x40000, TWO32_U64 as int, TWO32_U64 as int);
            }
            let t: u64 = (m64 * TWO32_U64) / zeros;
            let l: u64 = ln_q32(t as u128);
            proof {
                lemma_mul_upper_bound(m as int, 0x40000, l as int, 0x80_0000_0000i64 as int);
            }
            let est: u128 = (m * (l as u128) + TWO31) / TWO32;
            proof {
                lemma_div_is_ordered(
                    (m * (l as u128) + TWO31) as int,
                    (0x40000 * 0x80_0000_0000 + 0x8000_0000) as int,
                    TWO32 as int,
                );
            }
            est as u64
        } else if raw > TWO64 / 30 {
            if raw >= TWO64 {
                u64::MAX
            } else {
                let u: u128 = TWO64 - raw;
                proof {
                    lemma_div_is_ordered_by_denominator(TWO96 as int, u as int, TWO64 as int);
                    lemma_pow2_adds(64, 32);
                }
                let ratio: u128 = TWO96 / u;
                let l: u64 = ln_q32(ratio);
                let e: u128 = (l as u128) * TWO32;
                if e >= 0xffff_ffff_ffff_ffffu128 {
                    u64::MAX
                } else {
                    e as u64
                }
            }
        } else {
            raw as u64
        }
    }
}

/// Adding the same hash a second time leaves the estimate exactly where the
/// first add put it: a repeated item never moves — in particular never
/// lowers — the estimate.
pub proof fn lemma_repeat_add_keeps_estimate(v: SketchView, h: u64)
    requires
        v.wf(),
    ensures
        spec_estimate(
            spec_add(spec_add(v, h), h).precision as nat,
            spec_add(spec_add(v, h), h).regs,
        ) == spec_estimate(spec_add(v, h).precision as nat, spec_add(v, h).regs),
{
    lemma_add_idempotent(v, h);
}

/// The estimate a sketch gives after exactly one add: linear counting with a
/// single occupied register, a value of the precision alone.
pub open spec fn spec_single_add_estimate(p: nat) -> nat {
    let m = pow2(p);
    (m * spec_ln_q32((m * (TWO32 as nat)) / ((m - 1) as nat)) + (TWO31 as nat)) / (TWO32 as nat)
}

/// After exactly one add into an all-zero sketch, every register but the
/// addressed one is still zero, the raw value sits under the small-range
/// threshold, and the estimate is one fixed value of the precision alone —
/// whatever the item, wherever its hash landed.
pub proof fn lemma_single_add_small_range(v: SketchView, h: u64)
    requires
        v.wf(),
        forall|i: int| 0 <= i < v.regs.len() ==> v.regs[i] == 0u8,
    ensures
        zero_count(spec_add(v, h).regs) + 1 == v.regs.len(),
        2 * spec_raw(v.precision as nat, spec_add(v, h).regs) <= 5 * pow2(v.precision as nat),
        spec_estimate(v.precision as nat, spec_add(v, h).regs) == spec_single_add_estimate(
            v.precision as nat,
        ),
{
    let p = v.precision as nat;
    let m = pow2(p);
    let pw = pow2(64);
    lemma2_to64();
    lemma_pow2_le(4, p);
    lemma_hash_decomposition_in_range(h, v.precision);
    let idx = spec_register_index(h, v.precision);
    let rank = spec_rank(h, v.precision);
    let regs2 = spec_add(v, h).regs;
    assert(v.regs[idx] == 0u8 && rank >= 1);
    assert(regs2 == v.regs.update(idx, rank));
    lemma_all_zero_sums(v.regs);
    lemma_indicator_sum_update(v.regs, idx, rank);
    lemma_zero_count_update(v.regs, idx, rank);
    assert(zero_count(regs2) + 1 == m);
    let s = indicator_sum(regs2);
    // the one raised register swaps a 2^64 term for term_of(rank), so
    // s == (m - 1) * 2^64 + term_of(rank) >= (m - 1) * 2^64
    assert(s + pw == m * pw + term_of(rank));
    assert((m - 1) * pw + pw == m * pw) by {
        lemma_mul_is_distributive_add_other_way(pw as int, (m - 1) as int, 1);
    }
    assert(s >= (m - 1) * pw);
    // the raw value stays under the small-range threshold 2.5 * m
    let x = 7213 * m * m * m * pw;
    let y = (10000 * m + 10790) * s;
    let half = pow2((p - 1) as nat);
    lemma_pow2_adds(1, (p - 1) as nat);
    assert(m == 2 * half);
    assert(2 * x == (14426 * m) * (m * m * pw)) by (nonlinear_arith)
        requires
            x == 7213 * m * m * m * pw,
    ;
    assert((14426 * m) * (m * m * pw) <= (50000 * (m - 1)) * (m * m * pw)) by {
        lemma_mul_inequality(
            (14426 * m) as int,
            (50000 * (m - 1)) as int,
            (m * m * pw) as int,
        );
    }
    assert(5 * m * ((10000 * m) * ((m - 1) * pw)) == (50000 * (m - 1)) * (m * m * pw))
        by (nonlinear_arith);
    assert((10000 * m) * ((m - 1) * pw) <= y) by {
        lemma_mul_inequality(((m - 1) * pw) as int, s as int, (10000 * m) as int);
        lemma_mul_inequality((10000 * m) as int, (10000 * m + 10790) as int, s as int);
    }
    assert(5 * m * ((10000 * m) * ((m - 1) * pw)) <= 5 * m * y) by {
        lemma_mul_inequality(((10000 * m) * ((m - 1) * pw)) as int, y as int, (5 * m) as int);
    }
    assert(2 * x <= 5 * m * y);
    let c = 5 * half;
    assert(2 * c == 5 * m);
    assert(x <= c * y) by (nonlinear_arith)
        requires
            2 * x <= (2 * c) * y,
    ;
    assert((10000 * m) * ((m - 1) * pw) >= 1) by (nonlinear_arith)
        requires
            m >= 16,
            pw >= 1,
    ;
    assert(y >= 1);
    assert(x < y * (c + 1)) by (nonlinear_arith)
        requires
            x <= c * y,
            y >= 1,
    ;
    vstd::arithmetic::div_mod::lemma_multiply_divide_lt(x as int, y as int, (c + 1) as int);
    assert(spec_raw(p, regs2) == x / y);
    assert(2 * spec_raw(p, regs2) <= 5 * m);
    // with m - 1 zero registers left, linear counting rules, and its value
    // depends on the precision alone
    assert(spec_estimate(p, regs2) == spec_single_add_estimate(p));
}

/// At the entry to the raw division: the numerator `7213 m^3` is under twice
/// the denominator `(10000 m + 10790) * s`, the denominator is positive and
/// fits the divider's window, and `s` is the indicator sum.
proof fn lemma_estimate_entry_bounds(v: SketchView, m: nat, s: nat)
    requires
        v.wf(),
        m == pow2(v.precision as nat),
        s == indicator_sum(v.regs),
    ensures
        7213 * m * m * m < 2 * ((10000 * m + 10790) * s),
        0 < (10000 * m + 10790) * s,
        (10000 * m + 10790) * s <= 0x4000_0000_0000_0000_0000_0000_0000_0000u128 as nat,
{
    let p = v.precision as nat;
    lemma2_to64();
    lemma2_to64_rest();
    lemma_pow2_le(p, 18);
    lemma_pow2_pos((p - 1) as nat);
    lemma_pow2_adds(1, (p - 1) as nat);
    let ph = pow2((p - 1) as nat);
    assert(m == 2 * ph);
    lemma_indicator_sum_bounds(v.regs, (max_rank(v.precision)) as u8);
    assert(64 - max_rank(v.precision) == p - 1);
    assert(s >= m * ph);
    assert(s <= m * pow2(64));
    assert(7213 * m * m * m < 2 * ((10000 * m + 10790) * s)) by (nonlinear_arith)
        requires
            s >= m * ph,
            m == 2 * ph,
            ph >= 1,
    ;
    assert((10000 * m + 10790) * s <= 0x4000_0000_0000_0000_0000_0000_0000_0000u128 as nat)
        by (nonlinear_arith)
        requires
            s <= m * pow2(64),
            m <= 0x40000,
            pow2(64) == 0x1_0000_0000_0000_0000,
    ;
    assert(0 < (10000 * m + 10790) * s) by (nonlinear_arith)
        requires
            s >= m * ph,
            m >= 1,
            ph >= 1,
    ;
}

} // verus!
