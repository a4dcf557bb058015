//! Carry-propagating arithmetic on the limb array.
//!
//! Every loop here processes each limb unconditionally, so the executed
//! instruction sequence is independent of the operand values. The contracts
//! relate the limb-level results to the mathematical values of the operands.

use crate::limb;
use crate::model::{
    as_nat, lemma_as_nat_bound, lemma_as_nat_snoc, lemma_as_nat_take_succ, lemma_as_nat_update,
    lemma_as_nat_zero, lemma_limb_base,
};
use crate::uint::UInt;
use vstd::arithmetic::div_mod::lemma_fundamental_div_mod_converse;
use vstd::arithmetic::power2::{lemma2_to64, lemma_pow2_adds, lemma_pow2_pos, pow2};
use vstd::prelude::*;

verus! {

impl UInt {
    /// Computes `self + rhs + carry`, returning the full-width sum along with
    /// the carry-out bit.
    pub fn adc(&self, rhs: &Self, carry: u64) -> (r: (Self, u64))
        requires
            self@.len() == rhs@.len(),
            carry <= 1,
        ensures
            r.0@.len() == self@.len(),
            as_nat(r.0@) + r.1 * pow2(64 * self@.len()) == as_nat(self@) + as_nat(rhs@) + carry,
            r.1 <= 1,
            r.1 == 1 <==> as_nat(self@) + as_nat(rhs@) + carry >= pow2(64 * self@.len()),
    {
        let n = self.limbs.len();
        let mut limbs: Vec<u64> = Vec::new();
        let mut c: u64 = carry;
        let mut i: usize = 0;
        proof {
            assert(as_nat(limbs@) == 0);
            assert(as_nat(self@.take(0)) == 0);
            assert(as_nat(rhs@.take(0)) == 0);
            lemma2_to64();
            lemma_mul_congr(c as int, pow2(64 * (0 as nat)) as int, 1);
        }
        while i < n
            invariant
                i <= n,
                n == self@.len(),
                n == rhs@.len(),
                limbs@.len() == i,
                c <= 1,
                as_nat(limbs@) + c * pow2(64 * (i as nat)) == as_nat(self@.take(i as int))
                    + as_nat(rhs@.take(i as int)) + carry,
            decreases n - i,
        {
            let (w, c2) = limb::adc(self.limbs[i], rhs.limbs[i], c);
            proof {
                let p = pow2(64 * (i as nat)) as int;
                let ai = self@[i as int] as int;
                let bi = rhs@[i as int] as int;
                lemma_as_nat_snoc(limbs@, w);
                lemma_as_nat_take_succ(self@, i as int);
                lemma_as_nat_take_succ(rhs@, i as int);
                lemma_pow2_adds(64 * (i as nat), 64);
                lemma_limb_base();
                assert(w * p + c2 * (p * 0x1_0000_0000_0000_0000) == ai * p + bi * p + c * p)
                    by (nonlinear_arith)
                    requires
                        w + c2 * 0x1_0000_0000_0000_0000 == ai + bi + c,
                ;
                assert(pow2(64 * ((i + 1) as nat)) == p * 0x1_0000_0000_0000_0000);
            }
            limbs.push(w);
            c = c2;
            i += 1;
        }
        proof {
            assert(self@.take(n as int) =~= self@);
            assert(rhs@.take(n as int) =~= rhs@);
            lemma_as_nat_bound(limbs@);
            lemma_pow2_pos(64 * (n as nat));
            let pw = pow2(64 * (n as nat)) as int;
            if c == 0 {
                lemma_mul_congr(pw, c as int, 0);
            } else {
                lemma_mul_congr(pw, c as int, 1);
            }
        }
        (UInt { limbs }, c)
    }

    /// Computes `self - rhs - borrow`, returning the full-width difference
    /// along with the borrow-out bit.
    pub fn sbb(&self, rhs: &Self, borrow: u64) -> (r: (Self, u64))
        requires
            self@.len() == rhs@.len(),
            borrow <= 1,
        ensures
            r.0@.len() == self@.len(),
            as_nat(r.0@) == as_nat(self@) - as_nat(rhs@) - borrow + r.1 * pow2(64 * self@.len()),
            r.1 <= 1,
            r.1 == 1 <==> as_nat(self@) < as_nat(rhs@) + borrow,
    {
        let n = self.limbs.len();
        let mut limbs: Vec<u64> = Vec::new();
        let mut b: u64 = borrow;
        let mut i: usize = 0;
        proof {
            assert(as_nat(limbs@) == 0);
            assert(as_nat(self@.take(0)) == 0);
            assert(as_nat(rhs@.take(0)) == 0);
            lemma2_to64();
            lemma_mul_congr(b as int, pow2(64 * (0 as nat)) as int, 1);
        }
        while i < n
            invariant
                i <= n,
                n == self@.len(),
                n == rhs@.len(),
                limbs@.len() == i,
                b <= 1,
                as_nat(limbs@) == as_nat(self@.take(i as int)) - as_nat(rhs@.take(i as int))
                    - borrow + b * pow2(64 * (i as nat)),
            decreases n - i,
        {
            let (w, b2) = limb::sbb(self.limbs[i], rhs.limbs[i], b);
            proof {
                let p = pow2(64 * (i as nat)) as int;
                let ai = self@[i as int] as int;
                let bi = rhs@[i as int] as int;
                lemma_as_nat_snoc(limbs@, w);
                lemma_as_nat_take_succ(self@, i as int);
                lemma_as_nat_take_succ(rhs@, i as int);
                lemma_pow2_adds(64 * (i as nat), 64);
                lemma_limb_base();
                assert(w * p == ai * p - bi * p - b * p + b2 * (p * 0x1_0000_0000_0000_0000))
                    by (nonlinear_arith)
                    requires
                        w == ai - bi - b + b2 * 0x1_0000_0000_0000_0000,
                ;
                assert(pow2(64 * ((i + 1) as nat)) == p * 0x1_0000_0000_0000_0000);
            }
            limbs.push(w);
            b = b2;
            i += 1;
        }
        proof {
            assert(self@.take(n as int) =~= self@);
            assert(rhs@.take(n as int) =~= rhs@);
            lemma_as_nat_bound(limbs@);
            lemma_as_nat_bound(rhs@);
            lemma_pow2_pos(64 * (n as nat));
            let pw = pow2(64 * (n as nat)) as int;
            if b == 0 {
                lemma_mul_congr(pw, b as int, 0);
            } else {
                lemma_mul_congr(pw, b as int, 1);
            }
        }
        (UInt { limbs }, b)
    }

    /// Perform wrapping addition, discarding overflow.
    pub fn wrapping_add(&self, rhs: &Self) -> (r: Self)
        requires
            self@.len() == rhs@.len(),
        ensures
            r@.len() == self@.len(),
            as_nat(r@) == (as_nat(self@) + as_nat(rhs@)) % pow2(64 * self@.len()),
    {
        let (r, c) = self.adc(rhs, 0);
        proof {
            lemma_as_nat_bound(r@);
            lemma_pow2_pos(64 * self@.len());
            let pw = pow2(64 * self@.len()) as int;
            if c == 0 {
                lemma_mul_congr(pw, c as int, 0);
            } else {
                lemma_mul_congr(pw, c as int, 1);
            }
            lemma_fundamental_div_mod_converse(
                (as_nat(self@) + as_nat(rhs@)) as int,
                pow2(64 * self@.len()) as int,
                c as int,
                as_nat(r@) as int,
            );
        }
        r
    }

    /// Perform wrapping subtraction, discarding underflow and wrapping around
    /// the boundary of the type.
    pub fn wrapping_sub(&self, rhs: &Self) -> (r: Self)
        requires
            self@.len() == rhs@.len(),
        ensures
            r@.len() == self@.len(),
            as_nat(r@) == (as_nat(self@) - as_nat(rhs@)) % (pow2(64 * self@.len()) as int),
    {
        let (r, b) = self.sbb(rhs, 0);
        proof {
            lemma_as_nat_bound(r@);
            lemma_pow2_pos(64 * self@.len());
            let pw = pow2(64 * self@.len()) as int;
            let x: int = as_nat(self@) - as_nat(rhs@);
            assert(x == (-(b as int)) * pw + as_nat(r@)) by (nonlinear_arith)
                requires
                    as_nat(r@) == x + (b as int) * pw,
            ;
            lemma_fundamental_div_mod_converse(
                (as_nat(self@) - as_nat(rhs@)) as int,
                pow2(64 * self@.len()) as int,
                -(b as int),
                as_nat(r@) as int,
            );
        }
        r
    }

    /// Compute "wide" multiplication by the schoolbook method, returning a
    /// `(high, low)` pair of the operand width whose concatenation is the
    /// double-width product.
    pub fn mul_wide(&self, rhs: &Self) -> (r: (Self, Self))
        requires
            self@.len() == rhs@.len(),
            self@.len() <= usize::MAX / 2,
        ensures
            r.0@.len() == self@.len(),
            r.1@.len() == self@.len(),
            as_nat(r.1@) + pow2(64 * self@.len()) * as_nat(r.0@) == as_nat(self@) * as_nat(rhs@),
    {
        let n = self.limbs.len();
        let mut lo = Self::zero_wide(n);
        let mut hi = Self::zero_wide(n);
        let mut i: usize = 0;
        proof {
            lemma_mul_zeros(as_nat(self@.take(0)), as_nat(rhs@), pow2(64 * (n as nat)));
        }
        while i < n
            invariant
                i <= n,
                n == self@.len(),
                n == rhs@.len(),
                n <= usize::MAX / 2,
                lo@.len() == n,
                hi@.len() == n,
                forall|m: int| i <= m < n ==> hi@[m] == 0,
                as_nat(lo@) + pow2(64 * (n as nat)) * as_nat(hi@) == as_nat(self@.take(i as int))
                    * as_nat(rhs@),
            decreases n - i,
        {
            let ghost op = as_nat(self@.take(i as int)) * as_nat(rhs@);
            let a_i = self.limbs[i];
            let mut carry: u64 = 0;
            let mut j: usize = 0;
            proof {
                lemma_mul_zeros(as_nat(rhs@.take(0)), a_i as nat, pow2(64 * (i as nat)));
            }
            while j < n
                invariant
                    j <= n,
                    i < n,
                    n == self@.len(),
                    n == rhs@.len(),
                    n <= usize::MAX / 2,
                    lo@.len() == n,
                    hi@.len() == n,
                    a_i == self@[i as int],
                    forall|m: int| i <= m < n ==> hi@[m] == 0,
                    as_nat(lo@) + pow2(64 * (n as nat)) * as_nat(hi@) + carry * pow2(
                        (64 * (i + j)) as nat,
                    ) == op + a_i * as_nat(rhs@.take(j as int)) * pow2(64 * (i as nat)),
                decreases n - j,
            {
                let k = i + j;
                let ghost d_old: int = (as_nat(lo@) + pow2(64 * (n as nat)) * as_nat(hi@)) as int;
                let b_j = rhs.limbs[j];
                if k >= n {
                    let old_w = hi.limbs[k - n];
                    let (w, c2) = limb::mac(old_w, a_i, b_j, carry);
                    proof {
                        let q = pow2((64 * (k - n)) as nat) as int;
                        let nn = pow2(64 * (n as nat)) as int;
                        let h0 = as_nat(hi@) as int;
                        let h1 = as_nat(hi@.update(k - n, w)) as int;
                        lemma_as_nat_update(hi@, k - n, w);
                        lemma_pow2_adds(64 * (n as nat), (64 * (k - n)) as nat);
                        assert(nn * h1 + old_w * (nn * q) == nn * h0 + w * (nn * q))
                            by (nonlinear_arith)
                            requires
                                h1 + old_w * q == h0 + w * q,
                        ;
                        assert(nn * q == pow2((64 * k) as nat));
                        let pos = pow2((64 * k) as nat) as int;
                        lemma_mul_sub_distribute(w as int, old_w as int, pos);
                        lemma_mul_congr(w as int, pos, nn * q);
                        lemma_mul_congr(old_w as int, pos, nn * q);
                        lemma_mul_inner_step(
                            d_old,
                            as_nat(lo@) + pow2(64 * (n as nat)) * as_nat(
                                hi@.update(k - n, w),
                            ) as int,
                            old_w,
                            w,
                            c2,
                            carry,
                            a_i,
                            b_j,
                            rhs@,
                            i as int,
                            j as int,
                            op,
                        );
                    }
                    hi.limbs[k - n] = w;
                    carry = c2;
                } else {
                    let old_w = lo.limbs[k];
                    let (w, c2) = limb::mac(old_w, a_i, b_j, carry);
                    proof {
                        let pos = pow2((64 * k) as nat) as int;
                        lemma_as_nat_update(lo@, k as int, w);
                        lemma_mul_sub_distribute(w as int, old_w as int, pos);
                        lemma_mul_inner_step(
                            d_old,
                            as_nat(lo@.update(k as int, w)) + pow2(64 * (n as nat)) * as_nat(
                                hi@,
                            ) as int,
                            old_w,
                            w,
                            c2,
                            carry,
                            a_i,
                            b_j,
                            rhs@,
                            i as int,
                            j as int,
                            op,
                        );
                    }
                    lo.limbs[k] = w;
                    carry = c2;
                }
                j += 1;
            }
            proof {
                let q = pow2((64 * i) as nat) as int;
                let nn = pow2(64 * (n as nat)) as int;
                let h0 = as_nat(hi@) as int;
                let h1 = as_nat(hi@.update(i as int, carry)) as int;
                assert(rhs@.take(n as int) =~= rhs@);
                lemma_as_nat_update(hi@, i as int, carry);
                lemma_pow2_adds(64 * (n as nat), (64 * i) as nat);
                assert(nn * h1 + 0 * (nn * q) == nn * h0 + carry * (nn * q)) by (nonlinear_arith)
                    requires
                        h1 + 0 * q == h0 + carry * q,
                ;
                assert(nn * q == pow2((64 * (i + n)) as nat));
                lemma_mul_congr(carry as int, pow2((64 * (i + n)) as nat) as int, nn * q);
                lemma_as_nat_take_succ(self@, i as int);
                assert((as_nat(self@.take(i as int)) + a_i * q) * as_nat(rhs@) == as_nat(
                    self@.take(i as int),
                ) * as_nat(rhs@) + a_i * as_nat(rhs@) * q) by (nonlinear_arith);
            }
            hi.limbs[i] = carry;
            i += 1;
        }
        proof {
            assert(self@.take(n as int) =~= self@);
        }
        (hi, lo)
    }

    /// Perform wrapping multiplication, discarding overflow.
    pub fn wrapping_mul(&self, rhs: &Self) -> (r: Self)
        requires
            self@.len() == rhs@.len(),
            self@.len() <= usize::MAX / 2,
        ensures
            r@.len() == self@.len(),
            as_nat(r@) == (as_nat(self@) * as_nat(rhs@)) % pow2(64 * self@.len()),
    {
        let (hi, lo) = self.mul_wide(rhs);
        proof {
            lemma_as_nat_bound(lo@);
            lemma_pow2_pos(64 * self@.len());
            let pw: int = pow2(64 * self@.len()) as int;
            let h: int = as_nat(hi@) as int;
            let l: int = as_nat(lo@) as int;
            let ab: int = (as_nat(self@) * as_nat(rhs@)) as int;
            assert(ab == h * pw + l) by (nonlinear_arith)
                requires
                    l + pw * h == ab,
            ;
            lemma_fundamental_div_mod_converse(
                (as_nat(self@) * as_nat(rhs@)) as int,
                pow2(64 * self@.len()) as int,
                as_nat(hi@) as int,
                as_nat(lo@) as int,
            );
        }
        lo
    }

    /// Square `self`, returning the double-width product as one value.
    pub fn square(&self) -> (r: Self)
        requires
            self@.len() >= 1,
            self@.len() <= usize::MAX / 2,
        ensures
            r@.len() == 2 * self@.len(),
            as_nat(r@) == as_nat(self@) * as_nat(self@),
    {
        let (hi, lo) = self.mul_wide(self);
        hi.concat(&lo)
    }

    /// A zero accumulator for the wide product.
    fn zero_wide(nlimbs: usize) -> (r: Self)
        ensures
            r@.len() == nlimbs,
            as_nat(r@) == 0,
            forall|i: int| 0 <= i < nlimbs ==> r@[i] == 0,
    {
        let mut limbs: Vec<u64> = Vec::new();
        let mut i: usize = 0;
        while i < nlimbs
            invariant
                i <= nlimbs,
                limbs@.len() == i,
                forall|k: int| 0 <= k < i ==> limbs@[k] == 0,
            decreases nlimbs - i,
        {
            limbs.push(0);
            i += 1;
        }
        proof {
            lemma_as_nat_zero(limbs@);
        }
        UInt { limbs }
    }
}

/// Multiplying by a zero factor gives zero, whatever the other factors.
proof fn lemma_mul_zeros(z: nat, x: nat, y: nat)
    by (nonlinear_arith)
    requires
        z == 0,
    ensures
        z * x == 0,
        x * z * y == 0,
{
}

/// One inner step of the schoolbook product: accumulating `a_i * b_j` into
/// the double-width accumulator at weight `64 * (i + j)` keeps the running
/// row equation.
proof fn lemma_mul_inner_step(
    d_old: int,
    d_new: int,
    old_w: u64,
    w: u64,
    c2: u64,
    carry: u64,
    a_i: u64,
    b_j: u64,
    b: Seq<u64>,
    i: int,
    j: int,
    op: nat,
)
    requires
        0 <= j < b.len(),
        0 <= i,
        b_j == b[j],
        d_new == d_old + (w - old_w) * pow2((64 * (i + j)) as nat),
        w + c2 * 0x1_0000_0000_0000_0000 == old_w + a_i * b_j + carry,
        d_old + carry * pow2((64 * (i + j)) as nat) == op + a_i * as_nat(b.take(j)) * pow2(
            (64 * i) as nat,
        ),
    ensures
        d_new + c2 * pow2((64 * (i + j + 1)) as nat) == op + a_i * as_nat(b.take(j + 1)) * pow2(
            (64 * i) as nat,
        ),
{
    let bb = 0x1_0000_0000_0000_0000 as int;
    let p_i = pow2((64 * i) as nat) as int;
    let p_j = pow2((64 * j) as nat) as int;
    let p_ij = pow2((64 * (i + j)) as nat) as int;
    let p_ij1 = pow2((64 * (i + j + 1)) as nat) as int;
    let t_j = as_nat(b.take(j)) as int;
    let t_j1 = as_nat(b.take(j + 1)) as int;
    lemma_as_nat_take_succ(b, j);
    lemma_pow2_adds((64 * i) as nat, (64 * j) as nat);
    lemma_pow2_adds((64 * (i + j)) as nat, 64);
    lemma_limb_base();
    assert(t_j1 == t_j + b_j * p_j);
    assert(p_ij == p_i * p_j);
    assert(p_ij1 == p_ij * bb);
    assert((w - old_w) * p_ij + c2 * (p_ij * bb) == a_i * b_j * p_ij + carry * p_ij)
        by (nonlinear_arith)
        requires
            w + c2 * bb == old_w + a_i * b_j + carry,
    ;
    assert(a_i * b_j * p_ij == a_i * (b_j * p_j) * p_i) by (nonlinear_arith)
        requires
            p_ij == p_i * p_j,
    ;
    assert(a_i * t_j1 * p_i == a_i * t_j * p_i + a_i * (b_j * p_j) * p_i) by (nonlinear_arith)
        requires
            t_j1 == t_j + b_j * p_j,
    ;
    lemma_mul_congr(c2 as int, p_ij1, p_ij * bb);
}

/// Congruence of multiplication in the second factor.
proof fn lemma_mul_congr(x: int, y: int, z: int)
    by (nonlinear_arith)
    requires
        y == z,
    ensures
        x * y == x * z,
{
}

/// Distribution of multiplication over subtraction.
proof fn lemma_mul_sub_distribute(x: int, y: int, p: int)
    by (nonlinear_arith)
    ensures
        (x - y) * p == x * p - y * p,
{
}

} // verus!
