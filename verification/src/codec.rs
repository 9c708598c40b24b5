//! The persisted byte layout: one format-version byte, one precision byte,
//! then `2^precision` register bytes (the largest rank, 61, fits one byte).
//! Deserialization accepts exactly the buffers this layout can produce from a
//! well-formed sketch and rejects everything else as corrupt data.

use vstd::prelude::*;
use vstd::arithmetic::power2::{pow2, lemma2_to64};
use crate::bits::{pow2_u64, lemma_pow2_le};
use crate::error::SketchError;
use crate::sketch::{Sketch, SketchView, valid_precision, max_rank, HASH_BITS};

verus! {

/// The single byte layout version this crate writes and reads.
pub const FORMAT_VERSION: u8 = 1;

/// The byte image of a sketch: version byte, precision byte, registers.
pub open spec fn spec_serialize(v: SketchView) -> Seq<u8> {
    seq![FORMAT_VERSION, v.precision as u8] + v.regs
}

/// Which byte buffers deserialize: the version byte, a precision in range,
/// the exact length the precision dictates, and every register byte within
/// the precision's largest rank.
pub open spec fn spec_valid_encoding(bytes: Seq<u8>) -> bool {
    &&& bytes.len() >= 2
    &&& bytes[0] == FORMAT_VERSION
    &&& valid_precision(bytes[1] as int)
    &&& bytes.len() == 2 + pow2(bytes[1] as nat)
    &&& forall|i: int| 2 <= i < bytes.len() ==> #[trigger] bytes[i] <= max_rank(bytes[1] as int)
}

impl Sketch {
    /// The byte image of this sketch, sufficient to reconstruct it exactly.
    pub fn serialize(&self) -> (r: Vec<u8>)
        requires
            self@.wf(),
        ensures
            r@ == spec_serialize(self@),
    {
        let len: usize = self.registers.len();
        let mut out: Vec<u8> = Vec::new();
        out.push(FORMAT_VERSION);
        out.push(self.precision);
        let mut i: usize = 0;
        while i < len
            invariant
                self@.wf(),
                len == self.registers@.len(),
                i <= len,
                out@ == seq![FORMAT_VERSION, self@.precision as u8] + self.registers@.take(
                    i as int,
                ),
            decreases len - i,
        {
            out.push(self.registers[i]);
            proof {
                assert(self.registers@.take((i + 1) as int) =~= self.registers@.take(i as int)
                    + seq![self.registers@[i as int]]);
                assert(out@ =~= seq![FORMAT_VERSION, self@.precision as u8]
                    + self.registers@.take((i + 1) as int));
            }
            i = i + 1;
        }
        proof {
            assert(self.registers@.take(len as int) =~= self.registers@);
        }
        out
    }

    /// Rebuild a sketch from its byte image. Exactly the buffers that
    /// [`spec_valid_encoding`] admits succeed; every other buffer — wrong
    /// version, precision out of range, wrong length for the declared
    /// precision, or a register byte above the precision's largest rank — is
    /// rejected as corrupt.
    pub fn deserialize(bytes: &[u8]) -> (r: Result<Sketch, SketchError>)
        ensures
            match r {
                Ok(s) => {
                    &&& spec_valid_encoding(bytes@)
                    &&& s@.wf()
                    &&& s@.precision == bytes@[1] as int
                    &&& s@.regs == bytes@.skip(2)
                },
                Err(e) => {
                    &&& !spec_valid_encoding(bytes@)
                    &&& e == SketchError::CorruptData
                },
            },
    {
        proof {
            lemma2_to64();
        }
        if bytes.len() < 2 {
            return Err(SketchError::CorruptData);
        }
        let version: u8 = bytes[0];
        let p: u8 = bytes[1];
        if version != FORMAT_VERSION {
            return Err(SketchError::CorruptData);
        }
        if p < 4 || p > 18 {
            return Err(SketchError::CorruptData);
        }
        proof {
            lemma_pow2_le(p as nat, 18);
        }
        let m: u64 = pow2_u64(p as u32);
        if bytes.len() != 2 + m as usize {
            return Err(SketchError::CorruptData);
        }
        let cap: u8 = (1 + HASH_BITS - p as usize) as u8;
        let mut registers: Vec<u8> = Vec::new();
        let mut i: usize = 2;
        while i < bytes.len()
            invariant
                bytes@.len() == 2 + pow2(p as nat),
                2 <= i <= bytes@.len(),
                p == bytes@[1],
                cap as int == max_rank(p as int),
                registers@ == bytes@.subrange(2, i as int),
                forall|j: int| 2 <= j < i ==> bytes@[j] <= max_rank(p as int),
            decreases bytes@.len() - i,
        {
            let b: u8 = bytes[i];
            if b > cap {
                proof {
                    assert(bytes@[i as int] > max_rank(bytes@[1] as int));
                }
                return Err(SketchError::CorruptData);
            }
            registers.push(b);
            proof {
                assert(bytes@.subrange(2, (i + 1) as int) =~= bytes@.subrange(2, i as int)
                    + seq![bytes@[i as int]]);
                assert(registers@ =~= bytes@.subrange(2, (i + 1) as int));
            }
            i = i + 1;
        }
        let s = Sketch { precision: p, registers };
        proof {
            assert(bytes@.skip(2) =~= bytes@.subrange(2, bytes@.len() as int));
            assert(s@.regs == bytes@.skip(2));
            assert(spec_valid_encoding(bytes@));
        }
        Ok(s)
    }
}

/// Round trip: the byte image of a well-formed sketch is a valid encoding,
/// and decoding it reproduces the precision and the registers exactly — so
/// `deserialize(serialize(s))` rebuilds `s`'s view, by the exact contracts of
/// the two functions.
pub proof fn lemma_round_trip(v: SketchView)
    requires
        v.wf(),
    ensures
        spec_valid_encoding(spec_serialize(v)),
        spec_serialize(v)[1] as int == v.precision,
        spec_serialize(v).skip(2) == v.regs,
{
    let bytes = spec_serialize(v);
    assert(bytes.len() == 2 + v.regs.len());
    assert(forall|i: int| 2 <= i < bytes.len() ==> bytes[i] == v.regs[i - 2]);
    assert(bytes.skip(2) =~= v.regs);
}

} // verus!
