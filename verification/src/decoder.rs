//! Byte-accumulating construction of a [`UInt`].
//!
//! A [`Decoder`] receives bytes one at a time, least significant first,
//! folding each into the limb under construction at the current bit offset
//! and moving to the next limb when one fills up. After exactly eight bytes
//! per limb, `finish` yields the assembled value. The byte and hex
//! constructors of [`UInt`] are its only users.

use crate::model::{as_nat, lemma_as_nat_snoc};
use crate::uint::UInt;
use vstd::arithmetic::power2::{lemma2_to64, lemma2_to64_rest, lemma_pow2_adds, pow2};
use vstd::bits::lemma_u64_shl_is_mul;
use vstd::prelude::*;

verus! {

/// Accumulator that assembles a [`UInt`] from bytes fed least significant
/// first.
pub struct Decoder {
    /// The limb array under construction.
    pub limbs: Vec<u64>,
    /// Index of the limb currently being filled.
    pub idx: usize,
    /// Bit offset within that limb at which the next byte lands.
    pub shift: u64,
    /// Accumulator for the limb currently being filled.
    pub acc: u64,
}

impl Decoder {
    /// The accumulator state is consistent: the bit offset is a byte
    /// boundary inside one limb, the accumulator holds only bits below it,
    /// and the limb index is within the width.
    pub open spec fn wf(&self) -> bool {
        &&& self.shift % 8 == 0
        &&& self.shift < 64
        &&& self.idx <= self.limbs@.len()
        &&& (self.acc as nat) < pow2(self.shift as nat)
        &&& (self.idx == self.limbs@.len() ==> self.shift == 0)
    }

    /// The width, in limbs, of the value under construction.
    pub open spec fn width(&self) -> nat {
        self.limbs@.len()
    }

    /// How many bytes have been fed so far.
    pub open spec fn bytes_fed(&self) -> nat {
        self.idx as nat * 8 + self.shift as nat / 8
    }

    /// The value fed so far, reading the finished limbs and the partial
    /// accumulator as one little-endian number.
    pub open spec fn value(&self) -> nat {
        (as_nat(self.limbs@.take(self.idx as int)) + self.acc * pow2(64 * self.idx as nat)) as nat
    }

    /// Create an empty decoder for the given width.
    pub fn new(nlimbs: usize) -> (r: Self)
        ensures
            r.wf(),
            r.width() == nlimbs,
            r.bytes_fed() == 0,
            r.value() == 0,
    {
        let mut limbs: Vec<u64> = Vec::new();
        let mut i: usize = 0;
        while i < nlimbs
            invariant
                i <= nlimbs,
                limbs@.len() == i,
            decreases nlimbs - i,
        {
            limbs.push(0);
            i += 1;
        }
        let r = Decoder { limbs, idx: 0, shift: 0, acc: 0 };
        proof {
            lemma2_to64();
            assert(r.limbs@.take(0) =~= Seq::<u64>::empty());
            assert(as_nat(r.limbs@.take(0)) == 0);
            assert(r.acc * pow2(64 * r.idx as nat) == 0) by (nonlinear_arith)
                requires
                    r.acc == 0,
            ;
        }
        r
    }

    /// Fold one more byte into the value at the next byte position.
    pub fn add_byte(self, byte: u8) -> (r: Self)
        requires
            self.wf(),
            self.bytes_fed() < 8 * self.width(),
        ensures
            r.wf(),
            r.width() == self.width(),
            r.bytes_fed() == self.bytes_fed() + 1,
            r.value() == self.value() + byte * pow2(8 * self.bytes_fed()),
    {
        let mut d = self;
        proof {
            lemma2_to64();
            lemma2_to64_rest();
            assert(pow2(d.shift as nat) <= pow2(56)) by {
                if (d.shift as nat) < 56 {
                    vstd::arithmetic::power2::lemma_pow2_strictly_increases(d.shift as nat, 56);
                }
            }
            assert((byte as u64) * pow2(d.shift as nat) <= 255 * pow2(56)) by (nonlinear_arith)
                requires
                    byte <= 255,
                    pow2(d.shift as nat) <= pow2(56),
            ;
            lemma_u64_shl_is_mul(byte as u64, d.shift);
            lemma_u64_shl_is_mul(1u64, d.shift);
        }
        let nb: u64 = (byte as u64) << d.shift;
        proof {
            let sh = d.shift;
            let a = d.acc;
            assert(a | nb == a + nb) by (bit_vector)
                requires
                    sh < 64,
                    a < (1u64 << sh),
                    nb == (byte as u64) << sh,
            ;
            lemma_pow2_adds(d.shift as nat, 8);
            assert(((a + (byte as u64) * pow2(sh as nat)) as nat) < pow2(sh as nat) * 256)
                by (nonlinear_arith)
                requires
                    (a as nat) < pow2(sh as nat),
                    byte <= 255,
            ;
            lemma_value_grows(
                as_nat(d.limbs@.take(d.idx as int)),
                d.acc as nat,
                byte as nat,
                d.idx as nat,
                d.shift as nat,
            );
        }
        d.acc = d.acc | nb;
        d.shift = d.shift + 8;
        if d.shift == 64 {
            proof {
                let full = d.acc;
                let pre = d.limbs@;
                assert(pre.update(d.idx as int, full).take(d.idx as int + 1) =~= pre.take(
                    d.idx as int,
                ).push(full));
                assert(pre.update(d.idx as int, full).take(d.idx as int) =~= pre.take(
                    d.idx as int,
                ));
                lemma_as_nat_snoc(pre.take(d.idx as int), full);
            }
            let i = d.idx;
            proof {
                assert(i < d.limbs.len());
            }
            d.limbs[i] = d.acc;
            d.idx = i + 1;
            d.shift = 0;
            d.acc = 0;
            proof {
                lemma2_to64();
                lemma_pow2_adds(64 * (i as nat), 64);
                assert(0 * pow2(64 * d.idx as nat) == 0) by (nonlinear_arith);
            }
        }
        d
    }

    /// Yield the assembled value; valid only once every byte of the width
    /// has been fed.
    pub fn finish(self) -> (r: UInt)
        requires
            self.wf(),
            self.bytes_fed() == 8 * self.width(),
        ensures
            r@.len() == self.width(),
            as_nat(r@) == self.value(),
    {
        proof {
            lemma2_to64();
            assert(self.idx == self.limbs@.len());
            assert(self.limbs@.take(self.idx as int) =~= self.limbs@);
            assert(self.acc == 0);
            assert(0 * pow2(64 * self.idx as nat) == 0) by (nonlinear_arith);
        }
        UInt { limbs: self.limbs }
    }
}

/// Folding a byte into the accumulator raises the running value by that
/// byte at the weight of the next byte position.
proof fn lemma_value_grows(base: nat, acc: nat, byte: nat, idx: nat, shift: nat)
    ensures
        base + (acc + byte * pow2(shift)) * pow2(64 * idx) == base + acc * pow2(64 * idx) + byte
            * pow2(64 * idx + shift),
{
    lemma_pow2_adds(64 * idx, shift);
    let p = pow2(64 * idx);
    let q = pow2(shift);
    assert((acc + byte * q) * p == acc * p + byte * (p * q)) by (nonlinear_arith);
}

} // verus!
