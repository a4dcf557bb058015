//! Branch-free carry, borrow and multiply-accumulate primitives on one limb.
//!
//! Each primitive widens to `u128`, so its control flow never depends on the
//! operand values; the contracts state the exact double-word equations the
//! limb-array algorithms build on.

use vstd::arithmetic::div_mod::{lemma_fundamental_div_mod, lemma_fundamental_div_mod_converse};
use vstd::prelude::*;

verus! {

/// Computes `a + b + carry`, returning the low word and the carry-out bit.
pub fn adc(a: u64, b: u64, carry: u64) -> (r: (u64, u64))
    requires
        carry <= 1,
    ensures
        r.0 + r.1 * 0x1_0000_0000_0000_0000 == a + b + carry,
        r.1 <= 1,
{
    let t: u128 = a as u128 + b as u128 + carry as u128;
    let lo: u64 = (t % 0x1_0000_0000_0000_0000u128) as u64;
    let hi: u64 = (t / 0x1_0000_0000_0000_0000u128) as u64;
    proof {
        lemma_fundamental_div_mod(t as int, 0x1_0000_0000_0000_0000);
    }
    (lo, hi)
}

/// Computes `a - b - borrow`, returning the low word of the difference and
/// the borrow-out bit.
pub fn sbb(a: u64, b: u64, borrow: u64) -> (r: (u64, u64))
    requires
        borrow <= 1,
    ensures
        r.0 == a - b - borrow + r.1 * 0x1_0000_0000_0000_0000,
        r.1 <= 1,
        r.1 == 1 <==> a < b + borrow,
{
    let t: u128 = 0x1_0000_0000_0000_0000u128 + a as u128 - b as u128 - borrow as u128;
    let lo: u64 = (t % 0x1_0000_0000_0000_0000u128) as u64;
    let no_borrow: u64 = (t / 0x1_0000_0000_0000_0000u128) as u64;
    proof {
        lemma_fundamental_div_mod(t as int, 0x1_0000_0000_0000_0000);
        if a >= b + borrow {
            lemma_fundamental_div_mod_converse(
                t as int,
                0x1_0000_0000_0000_0000,
                1,
                a - b - borrow,
            );
        } else {
            lemma_fundamental_div_mod_converse(
                t as int,
                0x1_0000_0000_0000_0000,
                0,
                0x1_0000_0000_0000_0000 + a - b - borrow,
            );
        }
    }
    (lo, 1 - no_borrow)
}

/// Computes `a + b * c + carry` over double words, returning the low word and
/// the carry word.
pub fn mac(a: u64, b: u64, c: u64, carry: u64) -> (r: (u64, u64))
    ensures
        r.0 + r.1 * 0x1_0000_0000_0000_0000 == a + b * c + carry,
{
    proof {
        assert((b as u128) * (c as u128) <= 0xffff_ffff_ffff_fffe_0000_0000_0000_0001u128)
            by (nonlinear_arith)
            requires
                b <= 0xffff_ffff_ffff_ffffu64,
                c <= 0xffff_ffff_ffff_ffffu64,
        ;
    }
    let t: u128 = a as u128 + (b as u128) * (c as u128) + carry as u128;
    let lo: u64 = (t % 0x1_0000_0000_0000_0000u128) as u64;
    let hi: u64 = (t / 0x1_0000_0000_0000_0000u128) as u64;
    proof {
        lemma_fundamental_div_mod(t as int, 0x1_0000_0000_0000_0000);
    }
    (lo, hi)
}

} // verus!
