//! Constant-time equality, selection and checked arithmetic.
//!
//! The flag types come from the `subtle` crate: a `Choice` is a 0/1 flag that
//! can be combined without branching, and a `CtOption` carries a value
//! together with such a validity flag. The spec functions `choice_bit`,
//! `ctopt_limbs` and `ctopt_present` name what those opaque values hold; the
//! trusted wrappers below state how subtle's operations act on them, and
//! everything else here is verified against those contracts.

use crate::model::{as_nat, lemma_as_nat_bound, lemma_as_nat_zero};
use crate::uint::UInt;
use subtle::ConditionallySelectable;
use subtle::ConstantTimeEq;
use vstd::arithmetic::div_mod::lemma_fundamental_div_mod_converse;
use vstd::arithmetic::power2::{lemma_pow2_pos, pow2};
use vstd::prelude::*;

verus! {

/// The 0/1 flag a `subtle::Choice` carries, as a boolean.
pub uninterp spec fn choice_bit(c: subtle::Choice) -> bool;

/// The limbs of the value a `subtle::CtOption` of [`UInt`] carries.
pub uninterp spec fn ctopt_limbs(o: subtle::CtOption<UInt>) -> Seq<u64>;

/// Whether a `subtle::CtOption` of [`UInt`] is flagged as present.
pub uninterp spec fn ctopt_present(o: subtle::CtOption<UInt>) -> bool;

#[verifier::external_type_specification]
#[verifier::external_body]
pub struct ExChoice(subtle::Choice);

#[verifier::external_type_specification]
#[verifier::external_body]
#[verifier::reject_recursive_types(T)]
pub struct ExCtOption<T>(subtle::CtOption<T>);

/// Relies on subtle's `From<u8>` impl for `Choice`, which wraps a flag that
/// must be 0 or 1.
#[verifier::external_body]
fn choice_of(b: u8) -> (r: subtle::Choice)
    requires
        b <= 1,
    ensures
        choice_bit(r) == (b == 1),
{
    subtle::Choice::from(b)
}

/// Relies on subtle's `From<Choice>` impl for `bool`, which reads the flag
/// back as a boolean.
#[verifier::external_body]
pub fn choice_to_bool(c: subtle::Choice) -> (r: bool)
    ensures
        r == choice_bit(c),
{
    c.into()
}

/// Relies on subtle's `ConstantTimeEq` impl for `u64`: the flag is set
/// exactly when the two words are equal.
#[verifier::external_body]
fn limb_ct_eq(a: u64, b: u64) -> (r: subtle::Choice)
    ensures
        choice_bit(r) == (a == b),
{
    a.ct_eq(&b)
}

/// Relies on subtle's `BitAnd` impl for `Choice`: the conjunction of two
/// flags.
#[verifier::external_body]
fn choice_and(a: subtle::Choice, b: subtle::Choice) -> (r: subtle::Choice)
    ensures
        choice_bit(r) == (choice_bit(a) && choice_bit(b)),
{
    a & b
}

/// Relies on subtle's `ConditionallySelectable` impl for `u64`: picks the
/// second word exactly when the flag is set, by masking rather than by a
/// branch.
#[verifier::external_body]
fn limb_select(a: u64, b: u64, choice: subtle::Choice) -> (r: u64)
    ensures
        r == (if choice_bit(choice) {
            b
        } else {
            a
        }),
{
    u64::conditional_select(&a, &b, choice)
}

/// Relies on subtle's `CtOption::new`: the value and the flag are stored as
/// given.
#[verifier::external_body]
fn ct_option_new(value: UInt, is_some: subtle::Choice) -> (r: subtle::CtOption<UInt>)
    ensures
        ctopt_limbs(r) == value@,
        ctopt_present(r) == choice_bit(is_some),
{
    subtle::CtOption::new(value, is_some)
}

impl UInt {
    /// Compare every limb pair without short-circuiting, yielding a
    /// constant-time flag that is set exactly when the values are equal.
    pub fn ct_eq(&self, other: &Self) -> (r: subtle::Choice)
        requires
            self@.len() == other@.len(),
        ensures
            choice_bit(r) == (self@ == other@),
    {
        let n = self.limbs.len();
        let mut acc = choice_of(1);
        let mut i: usize = 0;
        while i < n
            invariant
                i <= n,
                n == self@.len(),
                n == other@.len(),
                choice_bit(acc) == (forall|k: int| 0 <= k < i ==> self@[k] == other@[k]),
            decreases n - i,
        {
            let e = limb_ct_eq(self.limbs[i], other.limbs[i]);
            proof {
                if (forall|k: int| 0 <= k < i ==> self@[k] == other@[k]) && self@[i as int]
                    == other@[i as int] {
                    assert forall|k: int| 0 <= k < i + 1 implies self@[k] == other@[k] by {
                        if k < i {
                            assert(self@[k] == other@[k]);
                        }
                    }
                }
            }
            acc = choice_and(acc, e);
            i += 1;
        }
        proof {
            if self@ == other@ {
                assert(forall|k: int| 0 <= k < n ==> self@[k] == other@[k]);
            }
            if forall|k: int| 0 <= k < n ==> self@[k] == other@[k] {
                assert(self@ =~= other@);
            }
        }
        acc
    }

    /// Determine whether this [`UInt`] is zero, as a constant-time flag.
    pub fn is_zero(&self) -> (r: subtle::Choice)
        requires
            self@.len() >= 1,
        ensures
            choice_bit(r) == (as_nat(self@) == 0),
    {
        let z = Self::zero(self.limbs.len());
        let r = self.ct_eq(&z);
        proof {
            lemma_as_nat_zero(self@);
            if as_nat(self@) == 0 {
                assert(self@ =~= z@);
            }
            if self@ == z@ {
                assert(forall|k: int| 0 <= k < self@.len() ==> self@[k] == 0);
            }
        }
        r
    }

    /// Select `b` where the flag is set and `a` where it is not, limb by
    /// limb and without branching on the flag.
    pub fn conditional_select(a: &Self, b: &Self, choice: subtle::Choice) -> (r: Self)
        requires
            a@.len() == b@.len(),
        ensures
            r@.len() == a@.len(),
            r@ == (if choice_bit(choice) {
                b@
            } else {
                a@
            }),
    {
        let n = a.limbs.len();
        let mut limbs: Vec<u64> = Vec::new();
        let mut i: usize = 0;
        while i < n
            invariant
                i <= n,
                n == a@.len(),
                n == b@.len(),
                limbs@.len() == i,
                forall|k: int|
                    0 <= k < i ==> limbs@[k] == (if choice_bit(choice) {
                        b@[k]
                    } else {
                        a@[k]
                    }),
            decreases n - i,
        {
            limbs.push(limb_select(a.limbs[i], b.limbs[i], choice));
            i += 1;
        }
        proof {
            if choice_bit(choice) {
                assert(limbs@ =~= b@);
            } else {
                assert(limbs@ =~= a@);
            }
        }
        UInt { limbs }
    }

    /// Perform checked addition: the payload is the wrapped sum and the
    /// validity flag is set exactly when no overflow occurred, computed
    /// without a data-dependent branch.
    pub fn checked_add(&self, rhs: &Self) -> (r: subtle::CtOption<UInt>)
        requires
            self@.len() == rhs@.len(),
        ensures
            ctopt_limbs(r).len() == self@.len(),
            as_nat(ctopt_limbs(r)) == (as_nat(self@) + as_nat(rhs@)) % pow2(64 * self@.len()),
            ctopt_present(r) <==> as_nat(self@) + as_nat(rhs@) < pow2(64 * self@.len()),
    {
        let (result, carry) = self.adc(rhs, 0);
        proof {
            lemma_as_nat_bound(result@);
            lemma_pow2_pos(64 * self@.len());
            let pw: int = pow2(64 * self@.len()) as int;
            let s: int = (as_nat(self@) + as_nat(rhs@)) as int;
            assert(s == (carry as int) * pw + as_nat(result@)) by (nonlinear_arith)
                requires
                    as_nat(result@) + (carry as int) * pw == s,
            ;
            lemma_fundamental_div_mod_converse(s, pw, carry as int, as_nat(result@) as int);
        }
        let flag = limb_ct_eq(carry, 0);
        ct_option_new(result, flag)
    }

    /// Perform checked subtraction: the payload is the wrapped difference and
    /// the validity flag is set exactly when no underflow occurred, computed
    /// without a data-dependent branch.
    pub fn checked_sub(&self, rhs: &Self) -> (r: subtle::CtOption<UInt>)
        requires
            self@.len() == rhs@.len(),
        ensures
            ctopt_limbs(r).len() == self@.len(),
            as_nat(ctopt_limbs(r)) == (as_nat(self@) - as_nat(rhs@)) % (pow2(64 * self@.len())
                as int),
            ctopt_present(r) <==> as_nat(self@) >= as_nat(rhs@),
    {
        let (result, borrow) = self.sbb(rhs, 0);
        proof {
            lemma_as_nat_bound(result@);
            lemma_pow2_pos(64 * self@.len());
            let pw: int = pow2(64 * self@.len()) as int;
            let x: int = as_nat(self@) - as_nat(rhs@);
            assert(x == (-(borrow as int)) * pw + as_nat(result@)) by (nonlinear_arith)
                requires
                    as_nat(result@) == x + (borrow as int) * pw,
            ;
            lemma_fundamental_div_mod_converse(x, pw, -(borrow as int), as_nat(result@) as int);
        }
        let flag = limb_ct_eq(borrow, 0);
        ct_option_new(result, flag)
    }

    /// Perform checked multiplication: the payload is the low half of the
    /// wide product and the validity flag is set exactly when the high half
    /// is zero, tested by the constant-time zero comparison.
    pub fn checked_mul(&self, rhs: &Self) -> (r: subtle::CtOption<UInt>)
        requires
            self@.len() == rhs@.len(),
            1 <= self@.len() <= usize::MAX / 2,
        ensures
            ctopt_limbs(r).len() == self@.len(),
            as_nat(ctopt_limbs(r)) == (as_nat(self@) * as_nat(rhs@)) % pow2(64 * self@.len()),
            ctopt_present(r) <==> as_nat(self@) * as_nat(rhs@) < pow2(64 * self@.len()),
    {
        let (hi, lo) = self.mul_wide(rhs);
        proof {
            lemma_as_nat_bound(lo@);
            lemma_pow2_pos(64 * self@.len());
            let pw: int = pow2(64 * self@.len()) as int;
            let h: int = as_nat(hi@) as int;
            let l: int = as_nat(lo@) as int;
            let ab: int = (as_nat(self@) * as_nat(rhs@)) as int;
            assert(ab == h * pw + l) by (nonlinear_arith)
                requires
                    l + pw * h == ab,
            ;
            assert(h == 0 <==> ab < pw) by (nonlinear_arith)
                requires
                    ab == h * pw + l,
                    0 <= l < pw,
                    0 <= h,
                    0 < pw,
            ;
            lemma_fundamental_div_mod_converse(ab, pw, h, l);
        }
        let flag = hi.is_zero();
        ct_option_new(lo, flag)
    }
}

impl PartialEq for UInt {
    /// Values are equal when their limb arrays are; different widths are
    /// never equal. The limb comparison runs in constant time for a given
    /// width.
    fn eq(&self, other: &Self) -> (r: bool) {
        if self.limbs.len() != other.limbs.len() {
            false
        } else {
            choice_to_bool(self.ct_eq(other))
        }
    }
}

impl vstd::std_specs::cmp::PartialEqSpecImpl for UInt {
    open spec fn obeys_eq_spec() -> bool {
        true
    }

    open spec fn eq_spec(&self, other: &Self) -> bool {
        self@ == other@
    }
}

} // verus!
