//! The fixed-width unsigned integer type and its constructors.

use crate::model::{as_nat, lemma_limb_base};
use vstd::arithmetic::power2::pow2;
use vstd::prelude::*;

verus! {

/// One machine-word digit of the big-integer representation.
pub type Limb = u64;

/// Why a byte or hex constructor rejected its input.
#[derive(Clone, Copy, Debug, PartialEq, Eq, Structural)]
pub enum DecodeError {
    /// The input length does not match the requested width.
    WrongLength,
    /// A character outside `[0-9a-fA-F]` appeared in hex input.
    BadHexDigit,
}

/// Big unsigned integer of a width fixed at construction.
///
/// The limbs are stored least significant first; every instance keeps the
/// limb count it was built with, and operations that combine two values
/// require equal counts.
#[derive(Clone, Debug)]
pub struct UInt {
    /// Inner limb array, least significant first.
    pub limbs: Vec<Limb>,
}

impl View for UInt {
    type V = Seq<u64>;

    open spec fn view(&self) -> Seq<u64> {
        self.limbs@
    }
}

impl UInt {
    /// The value `0` at the given width.
    pub fn zero(nlimbs: usize) -> (r: Self)
        requires
            nlimbs >= 1,
        ensures
            r@.len() == nlimbs,
            as_nat(r@) == 0,
            forall|i: int| 0 <= i < nlimbs ==> r@[i] == 0,
    {
        let r = Self::filled(nlimbs, 0);
        proof {
            crate::model::lemma_as_nat_zero(r@);
        }
        r
    }

    /// The value `1` at the given width.
    pub fn one(nlimbs: usize) -> (r: Self)
        requires
            nlimbs >= 1,
        ensures
            r@.len() == nlimbs,
            as_nat(r@) == 1,
    {
        Self::from_u8(1, nlimbs)
    }

    /// The largest value the given width can express.
    pub fn max(nlimbs: usize) -> (r: Self)
        requires
            nlimbs >= 1,
        ensures
            r@.len() == nlimbs,
            as_nat(r@) == pow2(64 * nlimbs as nat) - 1,
            forall|i: int| 0 <= i < nlimbs ==> r@[i] == u64::MAX,
    {
        let r = Self::filled(nlimbs, u64::MAX);
        proof {
            crate::model::lemma_as_nat_all_max(r@);
        }
        r
    }

    /// A value all of whose limbs are `fill`.
    fn filled(nlimbs: usize, fill: u64) -> (r: Self)
        requires
            nlimbs >= 1,
        ensures
            r@.len() == nlimbs,
            r@ =~= Seq::new(nlimbs as nat, |i: int| fill),
    {
        let mut limbs: Vec<u64> = Vec::new();
        let mut i: usize = 0;
        while i < nlimbs
            invariant
                i <= nlimbs,
                limbs@.len() == i,
                forall|k: int| 0 <= k < i ==> limbs@[k] == fill,
            decreases nlimbs - i,
        {
            limbs.push(fill);
            i += 1;
        }
        UInt { limbs }
    }

    /// Create a [`UInt`] of the given width from a `u8`.
    pub fn from_u8(n: u8, nlimbs: usize) -> (r: Self)
        requires
            nlimbs >= 1,
        ensures
            r@.len() == nlimbs,
            as_nat(r@) == n,
    {
        Self::from_u64(n as u64, nlimbs)
    }

    /// Create a [`UInt`] of the given width from a `u16`.
    pub fn from_u16(n: u16, nlimbs: usize) -> (r: Self)
        requires
            nlimbs >= 1,
        ensures
            r@.len() == nlimbs,
            as_nat(r@) == n,
    {
        Self::from_u64(n as u64, nlimbs)
    }

    /// Create a [`UInt`] of the given width from a `u32`.
    pub fn from_u32(n: u32, nlimbs: usize) -> (r: Self)
        requires
            nlimbs >= 1,
        ensures
            r@.len() == nlimbs,
            as_nat(r@) == n,
    {
        Self::from_u64(n as u64, nlimbs)
    }

    /// Create a [`UInt`] of the given width from a `u64`: the word becomes the
    /// least-significant limb and the rest are zero.
    pub fn from_u64(n: u64, nlimbs: usize) -> (r: Self)
        requires
            nlimbs >= 1,
        ensures
            r@.len() == nlimbs,
            as_nat(r@) == n,
    {
        let mut r = Self::zero(nlimbs);
        r.limbs[0] = n;
        proof {
            let tail = r@.drop_first();
            assert(forall|i: int| 0 <= i < tail.len() ==> tail[i] == r@[i + 1]);
            crate::model::lemma_as_nat_zero(tail);
            assert(as_nat(r@) == n + crate::model::limb_base() * as_nat(tail));
        }
        r
    }

    /// Create a [`UInt`] of the given width from a `u128`: the two 64-bit
    /// words become the two least-significant limbs and the rest are zero.
    pub fn from_u128(n: u128, nlimbs: usize) -> (r: Self)
        requires
            nlimbs >= 2,
        ensures
            r@.len() == nlimbs,
            as_nat(r@) == n,
    {
        let lo: u64 = (n % 0x1_0000_0000_0000_0000u128) as u64;
        let hi: u64 = (n / 0x1_0000_0000_0000_0000u128) as u64;
        let mut r = Self::zero(nlimbs);
        r.limbs[0] = lo;
        r.limbs[1] = hi;
        proof {
            lemma_limb_base();
            let tail = r@.drop_first().drop_first();
            crate::model::lemma_as_nat_zero(tail);
            assert(forall|i: int| 0 <= i < tail.len() ==> tail[i] == r@[i + 2]);
            assert(as_nat(r@.drop_first()) == hi + crate::model::limb_base() * as_nat(tail));
            assert(as_nat(r@) == lo + crate::model::limb_base() * as_nat(r@.drop_first()));
            vstd::arithmetic::div_mod::lemma_fundamental_div_mod(
                n as int,
                0x1_0000_0000_0000_0000,
            );
        }
        r
    }

    /// Borrow the limbs of this [`UInt`].
    pub fn limbs(&self) -> (r: &Vec<Limb>)
        ensures
            r@ == self@,
    {
        &self.limbs
    }

    /// Read back a one-limb value as a `u64`.
    pub fn to_u64(&self) -> (r: u64)
        requires
            self@.len() == 1,
        ensures
            r == as_nat(self@),
    {
        proof {
            crate::model::lemma_as_nat_zero(self@.drop_first());
            assert(as_nat(self@) == self@[0] + crate::model::limb_base() * as_nat(
                self@.drop_first(),
            ));
        }
        self.limbs[0]
    }

    /// Read back a two-limb value as a `u128`.
    pub fn to_u128(&self) -> (r: u128)
        requires
            self@.len() == 2,
        ensures
            r == as_nat(self@),
    {
        let lo: u64 = self.limbs[0];
        let hi: u64 = self.limbs[1];
        let r: u128 = (lo as u128) + (hi as u128) * 0x1_0000_0000_0000_0000u128;
        proof {
            lemma_limb_base();
            let tail = self@.drop_first().drop_first();
            assert(tail =~= Seq::<u64>::empty());
            assert(as_nat(tail) == 0);
            assert(as_nat(self@.drop_first()) == hi + crate::model::limb_base() * 0);
            assert(as_nat(self@) == lo + crate::model::limb_base() * as_nat(self@.drop_first()));
        }
        r
    }

    /// The two half-width values whose concatenation is `self`, returned as
    /// `(high, low)`.
    pub fn split(&self) -> (r: (Self, Self))
        requires
            self@.len() >= 2,
            self@.len() % 2 == 0,
        ensures
            r.0@ =~= self@.skip(self@.len() as int / 2),
            r.1@ =~= self@.take(self@.len() as int / 2),
            r.0@.len() == self@.len() / 2,
            r.1@.len() == self@.len() / 2,
            as_nat(self@) == as_nat(r.1@) + pow2(64 * (self@.len() / 2)) * as_nat(r.0@),
    {
        let half: usize = self.limbs.len() / 2;
        let mut lo_limbs: Vec<u64> = Vec::new();
        let mut i: usize = 0;
        while i < half
            invariant
                i <= half,
                half <= self@.len(),
                lo_limbs@ =~= self@.take(i as int),
            decreases half - i,
        {
            lo_limbs.push(self.limbs[i]);
            i += 1;
        }
        let mut hi_limbs: Vec<u64> = Vec::new();
        while i < self.limbs.len()
            invariant
                half <= i <= self@.len(),
                hi_limbs@ =~= self@.subrange(half as int, i as int),
            decreases self@.len() - i,
        {
            hi_limbs.push(self.limbs[i]);
            i += 1;
        }
        proof {
            assert(self@ =~= self@.take(half as int) + self@.skip(half as int));
            crate::model::lemma_as_nat_append(self@.take(half as int), self@.skip(half as int));
        }
        (UInt { limbs: hi_limbs }, UInt { limbs: lo_limbs })
    }

    /// The full-width value whose high half is `self` and whose low half is
    /// `rhs`.
    pub fn concat(&self, rhs: &Self) -> (r: Self)
        requires
            self@.len() == rhs@.len(),
            self@.len() >= 1,
        ensures
            r@ =~= rhs@ + self@,
            r@.len() == 2 * self@.len(),
            as_nat(r@) == as_nat(rhs@) + pow2(64 * rhs@.len()) * as_nat(self@),
    {
        let mut limbs: Vec<u64> = Vec::new();
        let mut i: usize = 0;
        let n = self.limbs.len();
        while i < n
            invariant
                i <= n,
                n == rhs@.len(),
                limbs@ =~= rhs@.take(i as int),
            decreases n - i,
        {
            limbs.push(rhs.limbs[i]);
            i += 1;
        }
        i = 0;
        while i < n
            invariant
                i <= n,
                n == self@.len(),
                n == rhs@.len(),
                limbs@ =~= rhs@ + self@.take(i as int),
            decreases n - i,
        {
            limbs.push(self.limbs[i]);
            i += 1;
        }
        proof {
            crate::model::lemma_as_nat_append(rhs@, self@);
        }
        UInt { limbs }
    }
}

} // verus!
