//! The sketch itself: its register array, construction, the `add` path that
//! decomposes a 64-bit hash into a register address and a rank, and the
//! register-wise-maximum merge, together with the algebraic laws of both.

use vstd::prelude::*;
use vstd::arithmetic::power2::{pow2, lemma2_to64, lemma2_to64_rest, lemma_pow2_adds};
use vstd::arithmetic::div_mod::lemma_multiply_divide_lt;
use vstd::pervasive::VecAdditionalExecFns;
use crate::bits::{pow2_u64, get_first_x_bits, leftmost_pos, spec_leftmost_pos};
use crate::error::SketchError;
use crate::hashing::{murmur2_of, murmur2_hash64, hash_item};

verus! {

/// The width of the hash the sketch consumes. The estimator's large-range
/// threshold and the largest rank both derive from it: a hash of another
/// width would need this one constant changed, not scattered literals.
pub const HASH_BITS: usize = 64;

/// Whether `p` is a precision the sketch accepts. Below 4 the variance is
/// unusable; above 18 the register array grows out of proportion.
pub open spec fn valid_precision(p: int) -> bool {
    4 <= p <= 18
}

/// The largest rank a register can hold at precision `p`: one past the
/// largest bit position a hash suffix offers, reached only by the all-zero
/// suffix clamp.
pub open spec fn max_rank(p: int) -> int {
    1 + HASH_BITS as int - p
}

/// The mathematical content of a sketch: its precision and its register
/// sequence, index = register address.
pub ghost struct SketchView {
    pub precision: int,
    pub regs: Seq<u8>,
}

impl SketchView {
    /// Well-formedness: a valid precision, exactly `2^p` registers, every one
    /// of them at or below the largest rank the precision admits.
    pub open spec fn wf(self) -> bool {
        &&& valid_precision(self.precision)
        &&& self.regs.len() == pow2(self.precision as nat)
        &&& forall|i: int|
            0 <= i < self.regs.len() ==> self.regs[i] <= max_rank(self.precision)
    }
}

/// The register a 64-bit hash addresses: its top `p` bits.
pub open spec fn spec_register_index(h: u64, p: int) -> int {
    h as int / pow2((HASH_BITS - p) as nat) as int
}

/// What remains of a hash once the address bits are gone: its low `64 - p`
/// bits.
pub open spec fn spec_suffix(h: u64, p: int) -> u64 {
    (h as nat % pow2((HASH_BITS - p) as nat)) as u64
}

/// The rank a hash contributes: one past the position of the lowest set bit
/// of its suffix, clamped to `max_rank(p)` when the suffix is all zero.
pub open spec fn spec_rank(h: u64, p: int) -> u8 {
    let candidate = spec_leftmost_pos(spec_suffix(h, p), 0) + 1;
    if candidate <= max_rank(p) {
        candidate as u8
    } else {
        max_rank(p) as u8
    }
}

/// One observation folded into a sketch: the addressed register rises to the
/// hash's rank if that rank exceeds it, and nothing else moves.
pub open spec fn spec_add(v: SketchView, h: u64) -> SketchView {
    let idx = spec_register_index(h, v.precision);
    let rank = spec_rank(h, v.precision);
    if v.regs[idx] < rank {
        SketchView { precision: v.precision, regs: v.regs.update(idx, rank) }
    } else {
        v
    }
}

/// Register-wise maximum of two register sequences of one length.
pub open spec fn spec_merge(a: Seq<u8>, b: Seq<u8>) -> Seq<u8> {
    Seq::new(a.len(), |i: int| if a[i] < b[i] { b[i] } else { a[i] })
}

/// A cardinality-estimation sketch: `2^precision` registers, each holding the
/// maximum rank seen at its address.
pub struct Sketch {
    /// How many hash bits address a register; fixed at construction.
    pub precision: u8,
    /// `2^precision` registers; a register only ever increases.
    pub registers: Vec<u8>,
}

impl View for Sketch {
    type V = SketchView;

    open spec fn view(&self) -> SketchView {
        SketchView { precision: self.precision as int, regs: self.registers@ }
    }
}

impl Sketch {
    /// A fresh sketch of the given precision, every register at the zero
    /// sentinel; rejects a precision outside `4..=18`.
    pub fn new(precision: usize) -> (r: Result<Sketch, SketchError>)
        ensures
            match r {
                Ok(s) => {
                    &&& valid_precision(precision as int)
                    &&& s@.wf()
                    &&& s@.precision == precision
                    &&& s@.regs == Seq::new(pow2(precision as nat), |i: int| 0u8)
                },
                Err(e) => {
                    &&& !valid_precision(precision as int)
                    &&& e == SketchError::InvalidPrecision
                },
            },
    {
        if precision < 4 || precision > 18 {
            return Err(SketchError::InvalidPrecision);
        }
        let m: u64 = pow2_u64(precision as u32);
        let mut registers: Vec<u8> = Vec::new();
        let mut i: u64 = 0;
        while i < m
            invariant
                i <= m,
                m == pow2(precision as nat),
                registers@ == Seq::new(i as nat, |j: int| 0u8),
            decreases m - i,
        {
            registers.push(0u8);
            proof {
                assert(registers@ =~= Seq::new((i + 1) as nat, |j: int| 0u8));
            }
            i = i + 1;
        }
        let s = Sketch { precision: precision as u8, registers };
        proof {
            assert(s@.regs == Seq::new(pow2(precision as nat), |j: int| 0u8));
        }
        Ok(s)
    }

    /// An exact copy of this sketch: same precision, same registers.
    pub fn duplicate(&self) -> (r: Sketch)
        requires
            self@.wf(),
        ensures
            r@ == self@,
    {
        let len: usize = self.registers.len();
        let mut registers: Vec<u8> = Vec::new();
        let mut i: usize = 0;
        while i < len
            invariant
                len == self.registers@.len(),
                i <= len,
                registers@ == self.registers@.take(i as int),
            decreases len - i,
        {
            registers.push(self.registers[i]);
            proof {
                assert(registers@ =~= self.registers@.take((i + 1) as int));
            }
            i = i + 1;
        }
        let r = Sketch { precision: self.precision, registers };
        proof {
            assert(self.registers@.take(len as int) =~= self.registers@);
            assert(r@.regs == self@.regs);
        }
        r
    }

    /// The precision this sketch was built with.
    pub fn precision(&self) -> (r: u8)
        ensures
            r == self@.precision,
    {
        self.precision
    }

    /// How many registers the sketch holds.
    pub fn register_count(&self) -> (r: usize)
        requires
            self@.wf(),
        ensures
            r == self@.regs.len(),
    {
        self.registers.len()
    }

    /// Fold one already-hashed observation into the sketch.
    pub fn add_hash(&mut self, h: u64)
        requires
            old(self)@.wf(),
        ensures
            final(self)@.wf(),
            final(self)@ == spec_add(old(self)@, h),
    {
        let p: usize = self.precision as usize;
        proof {
            lemma_hash_decomposition_in_range(h, p as int);
            vstd::arithmetic::power2::lemma_pow2_pos((64 - p) as nat);
            lemma2_to64();
        }
        let idx64: u64 = get_first_x_bits(h, p);
        let modulus: u64 = pow2_u64((HASH_BITS - p) as u32);
        let suffix: u64 = h % modulus;
        let pos: u8 = leftmost_pos(suffix, 0);
        let cap: u8 = (1 + HASH_BITS - p) as u8;
        let rank: u8 = if pos < cap { pos + 1 } else { cap };
        proof {
            vstd::arithmetic::power2::lemma_pow2_pos(0);
            lemma2_to64();
            assert(suffix == spec_suffix(h, p as int));
            assert(rank == spec_rank(h, p as int));
        }
        let idx: usize = idx64 as usize;
        if self.registers[idx] < rank {
            self.registers.set(idx, rank);
        }
    }

    /// Fold one byte-string item into the sketch, hashing it with the 64-bit
    /// murmur2 hash. The item must stay under `i32::MAX` bytes: the hash
    /// binding takes its length as a C `int`.
    pub fn add_bytes(&mut self, item: &[u8])
        requires
            old(self)@.wf(),
            item@.len() <= 0x7fff_ffff,
        ensures
            final(self)@.wf(),
            final(self)@ == spec_add(old(self)@, murmur2_of(item@)),
    {
        let h = murmur2_hash64(item);
        self.add_hash(h);
    }

    /// Fold one item of any hashable type into the sketch: some 64-bit hash
    /// of the item lands in one register. The item's `Hash` impl must write
    /// fewer than `i32::MAX` bytes (see [`crate::hashing::hash_item`]);
    /// ordinary items write a handful.
    pub fn add<T: std::hash::Hash>(&mut self, item: &T)
        requires
            old(self)@.wf(),
        ensures
            final(self)@.wf(),
            exists|h: u64| final(self)@ == spec_add(old(self)@, h),
    {
        let h = hash_item(item);
        self.add_hash(h);
    }

    /// Take, register by register, the maximum of this sketch and another of
    /// the same precision; a precision mismatch is rejected and leaves this
    /// sketch untouched.
    pub fn merge(&mut self, other: &Sketch) -> (r: Result<(), SketchError>)
        requires
            old(self)@.wf(),
            other@.wf(),
        ensures
            final(self)@.wf(),
            match r {
                Ok(()) => {
                    &&& old(self)@.precision == other@.precision
                    &&& final(self)@.precision == old(self)@.precision
                    &&& final(self)@.regs == spec_merge(old(self)@.regs, other@.regs)
                },
                Err(e) => {
                    &&& old(self)@.precision != other@.precision
                    &&& e == SketchError::PrecisionMismatch
                    &&& final(self)@ == old(self)@
                },
            },
    {
        if self.precision != other.precision {
            return Err(SketchError::PrecisionMismatch);
        }
        let len: usize = self.registers.len();
        let mut i: usize = 0;
        while i < len
            invariant
                len == self.registers.len(),
                len == other.registers.len(),
                len == old(self)@.regs.len(),
                len == other@.regs.len(),
                i <= len,
                self.precision == old(self).precision,
                other@.wf(),
                old(self)@.wf(),
                self@.precision == old(self)@.precision,
                forall|j: int|
                    0 <= j < i ==> self.registers@[j] == spec_merge(
                        old(self)@.regs,
                        other@.regs,
                    )[j],
                forall|j: int| i <= j < len ==> self.registers@[j] == old(self)@.regs[j],
            decreases len - i,
        {
            let a: u8 = self.registers[i];
            let b: u8 = other.registers[i];
            if a < b {
                self.registers.set(i, b);
            }
            proof {
                assert(self.registers@[i as int] == spec_merge(old(self)@.regs, other@.regs)[i as int]);
            }
            i = i + 1;
        }
        proof {
            assert(self@.regs =~= spec_merge(old(self)@.regs, other@.regs));
        }
        Ok(())
    }
}

/// The address a hash selects always lies inside the register array, and the
/// rank it contributes is positive and at most `max_rank(p)`.
pub proof fn lemma_hash_decomposition_in_range(h: u64, p: int)
    requires
        valid_precision(p),
    ensures
        0 <= spec_register_index(h, p) < pow2(p as nat),
        1 <= spec_rank(h, p) <= max_rank(p),
{
    lemma2_to64();
    lemma2_to64_rest();
    lemma_pow2_adds((64 - p) as nat, p as nat);
    vstd::arithmetic::power2::lemma_pow2_pos((64 - p) as nat);
    lemma_multiply_divide_lt(h as int, pow2((64 - p) as nat) as int, pow2(p as nat) as int);
    vstd::arithmetic::div_mod::lemma_div_pos_is_pos(h as int, pow2((64 - p) as nat) as int);
}

/// Adding a hash never lowers any register, and touches none but the one the
/// hash addresses.
pub proof fn lemma_add_monotone(v: SketchView, h: u64)
    requires
        v.wf(),
    ensures
        spec_add(v, h).regs.len() == v.regs.len(),
        forall|i: int| 0 <= i < v.regs.len() ==> spec_add(v, h).regs[i] >= v.regs[i],
        forall|i: int|
            0 <= i < v.regs.len() && i != spec_register_index(h, v.precision)
                ==> spec_add(v, h).regs[i] == v.regs[i],
{
    lemma_hash_decomposition_in_range(h, v.precision);
}

/// Adding the same hash a second time leaves the sketch exactly as the first
/// add left it, so a repeated item can never change — let alone lower — the
/// estimate.
pub proof fn lemma_add_idempotent(v: SketchView, h: u64)
    requires
        v.wf(),
    ensures
        spec_add(spec_add(v, h), h) == spec_add(v, h),
{
    lemma_hash_decomposition_in_range(h, v.precision);
    let idx = spec_register_index(h, v.precision);
    let rank = spec_rank(h, v.precision);
    let once = spec_add(v, h);
    assert(once.regs[idx] >= rank);
}

/// A merge never lowers a register: the register-wise maximum sits at or
/// above both of its inputs, so registers only ever increase.
pub proof fn lemma_merge_monotone(a: Seq<u8>, b: Seq<u8>)
    requires
        a.len() == b.len(),
    ensures
        spec_merge(a, b).len() == a.len(),
        forall|i: int|
            0 <= i < a.len() ==> spec_merge(a, b)[i] >= a[i] && spec_merge(a, b)[i] >= b[i],
{
}

/// Merging is commutative: either order yields the same registers.
pub proof fn lemma_merge_commutes(a: Seq<u8>, b: Seq<u8>)
    requires
        a.len() == b.len(),
    ensures
        spec_merge(a, b) == spec_merge(b, a),
{
    assert(spec_merge(a, b) =~= spec_merge(b, a));
}

/// Merging a sketch with itself changes nothing.
pub proof fn lemma_merge_self(a: Seq<u8>)
    ensures
        spec_merge(a, a) == a,
{
    assert(spec_merge(a, a) =~= a);
}

/// Merging is associative.
pub proof fn lemma_merge_assoc(a: Seq<u8>, b: Seq<u8>, c: Seq<u8>)
    requires
        a.len() == b.len(),
        b.len() == c.len(),
    ensures
        spec_merge(spec_merge(a, b), c) == spec_merge(a, spec_merge(b, c)),
{
    assert(spec_merge(spec_merge(a, b), c) =~= spec_merge(a, spec_merge(b, c)));
}

/// A merge preserves well-formedness: with equal precisions the register-wise
/// maximum of two well-formed register arrays is again well-formed.
pub proof fn lemma_merge_wf(a: SketchView, b: SketchView)
    requires
        a.wf(),
        b.wf(),
        a.precision == b.precision,
    ensures
        (SketchView { precision: a.precision, regs: spec_merge(a.regs, b.regs) }).wf(),
{
}

} // verus!
