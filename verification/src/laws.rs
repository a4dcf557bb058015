//! Algebraic laws relating the arithmetic, comparison and codec contracts.
//!
//! Each proof function here states one law over the same spec values the
//! functions' own contracts use, so a caller can chain a law onto the
//! results of the corresponding calls.

use crate::codec::{all_hex_digits, hex_pairs_bytes, is_hex_digit, is_upper_hex_digit};
use crate::model::{
    as_nat, be_bytes_as_nat, bytes_as_nat, lemma_as_nat_bound, lemma_as_nat_injective,
    lemma_as_nat_zero,
};
use vstd::arithmetic::div_mod::{
    lemma_fundamental_div_mod, lemma_mod_multiples_vanish, lemma_small_mod,
};
use vstd::arithmetic::power2::{lemma_pow2_pos, pow2};
use vstd::prelude::*;

verus! {

/// Wrapping subtraction undoes wrapping addition: when `s` has the limbs of
/// `a.wrapping_add(b)` and `d` those of `s.wrapping_sub(b)` at one width,
/// `d` is `a` again.
pub proof fn lemma_wrapping_add_sub_round_trip(a: Seq<u64>, b: Seq<u64>, s: Seq<u64>, d: Seq<u64>)
    requires
        a.len() == b.len(),
        s.len() == a.len(),
        d.len() == a.len(),
        as_nat(s) == (as_nat(a) + as_nat(b)) % pow2(64 * a.len()),
        as_nat(d) == (as_nat(s) - as_nat(b)) % (pow2(64 * a.len()) as int),
    ensures
        d == a,
{
    let m = pow2(64 * a.len()) as int;
    let va = as_nat(a) as int;
    let vb = as_nat(b) as int;
    lemma_pow2_pos(64 * a.len());
    lemma_as_nat_bound(a);
    lemma_fundamental_div_mod(va + vb, m);
    let q = (va + vb) / m;
    assert(as_nat(s) - vb == m * (-q) + va) by (nonlinear_arith)
        requires
            as_nat(s) == (va + vb) - m * q,
    ;
    lemma_mod_multiples_vanish(-q, va, m);
    lemma_small_mod(as_nat(a), m as nat);
    lemma_as_nat_injective(d, a);
}

/// The carry-out of `adc` with carry-in 0 is set exactly when `checked_add`
/// reports the sum invalid: both compare the true sum against the width
/// bound.
pub proof fn lemma_adc_carry_matches_checked_add(
    a: Seq<u64>,
    b: Seq<u64>,
    carry: u64,
    present: bool,
)
    requires
        a.len() == b.len(),
        carry <= 1,
        carry == 1 <==> as_nat(a) + as_nat(b) >= pow2(64 * a.len()),
        present <==> as_nat(a) + as_nat(b) < pow2(64 * a.len()),
    ensures
        carry == 1 <==> !present,
        carry == 0 <==> present,
{
}

/// Multiplying by one is the identity: when `(hi, lo)` has the limbs of
/// `a.mul_wide(one)` with `one` denoting 1, the high half is zero and the
/// low half is `a`.
pub proof fn lemma_mul_wide_by_one(a: Seq<u64>, one: Seq<u64>, hi: Seq<u64>, lo: Seq<u64>)
    requires
        a.len() == one.len(),
        hi.len() == a.len(),
        lo.len() == a.len(),
        as_nat(one) == 1,
        as_nat(lo) + pow2(64 * a.len()) * as_nat(hi) == as_nat(a) * as_nat(one),
    ensures
        as_nat(hi) == 0,
        forall|i: int| 0 <= i < hi.len() ==> hi[i] == 0,
        lo == a,
{
    let pw = pow2(64 * a.len()) as int;
    let h = as_nat(hi) as int;
    let l = as_nat(lo) as int;
    lemma_pow2_pos(64 * a.len());
    lemma_as_nat_bound(a);
    lemma_as_nat_bound(lo);
    assert(as_nat(a) * as_nat(one) == as_nat(a)) by (nonlinear_arith)
        requires
            as_nat(one) == 1,
    ;
    assert(h == 0 && l == as_nat(a)) by (nonlinear_arith)
        requires
            l + pw * h == as_nat(a),
            as_nat(a) < pw,
            0 <= l,
            0 <= h,
            0 < pw,
    ;
    lemma_as_nat_zero(hi);
    lemma_as_nat_injective(lo, a);
}

/// The high half of `mul_wide` is zero exactly when `checked_mul` reports
/// the product valid, and a valid payload is the low half.
pub proof fn lemma_mul_wide_matches_checked_mul(
    a: Seq<u64>,
    b: Seq<u64>,
    hi: Seq<u64>,
    lo: Seq<u64>,
    present: bool,
    payload: Seq<u64>,
)
    requires
        a.len() == b.len(),
        hi.len() == a.len(),
        lo.len() == a.len(),
        payload.len() == a.len(),
        as_nat(lo) + pow2(64 * a.len()) * as_nat(hi) == as_nat(a) * as_nat(b),
        present <==> as_nat(a) * as_nat(b) < pow2(64 * a.len()),
        as_nat(payload) == (as_nat(a) * as_nat(b)) % pow2(64 * a.len()),
    ensures
        as_nat(hi) == 0 <==> present,
        present ==> payload == lo,
{
    let pw = pow2(64 * a.len()) as int;
    let h = as_nat(hi) as int;
    let l = as_nat(lo) as int;
    let ab = (as_nat(a) * as_nat(b)) as int;
    lemma_pow2_pos(64 * a.len());
    lemma_as_nat_bound(lo);
    assert(h == 0 <==> ab < pw) by (nonlinear_arith)
        requires
            l + pw * h == ab,
            0 <= l < pw,
            0 <= h,
            0 < pw,
    ;
    if present {
        assert(l == ab) by (nonlinear_arith)
            requires
                l + pw * h == ab,
                h == 0,
        ;
        lemma_small_mod(as_nat(a) * as_nat(b), pw as nat);
        lemma_as_nat_injective(payload, lo);
    }
}

/// Decoding the little-endian byte encoding of a value yields the value:
/// `bytes` as `to_le_bytes` describes them, fed back through
/// `from_le_bytes`, give `x` again.
pub proof fn lemma_le_bytes_round_trip(x: Seq<u64>, bytes: Seq<u8>, y: Seq<u64>)
    requires
        bytes.len() == 8 * x.len(),
        bytes_as_nat(bytes) == as_nat(x),
        y.len() == x.len(),
        as_nat(y) == bytes_as_nat(bytes),
    ensures
        y == x,
{
    lemma_as_nat_injective(y, x);
}

/// Decoding the big-endian byte encoding of a value yields the value:
/// `bytes` as `to_be_bytes` describes them, fed back through
/// `from_be_bytes`, give `x` again.
pub proof fn lemma_be_bytes_round_trip(x: Seq<u64>, bytes: Seq<u8>, y: Seq<u64>)
    requires
        bytes.len() == 8 * x.len(),
        be_bytes_as_nat(bytes) == as_nat(x),
        y.len() == x.len(),
        as_nat(y) == be_bytes_as_nat(bytes),
    ensures
        y == x,
{
    lemma_as_nat_injective(y, x);
}

/// Decoding the little-endian hex encoding of a value yields the value, and
/// such text always decodes: every digit `to_le_hex` emits is a hex digit.
pub proof fn lemma_le_hex_round_trip(x: Seq<u64>, h: Seq<u8>, y: Seq<u64>)
    requires
        h.len() == 16 * x.len(),
        forall|i: int| 0 <= i < h.len() ==> is_upper_hex_digit(h[i]),
        bytes_as_nat(hex_pairs_bytes(h)) == as_nat(x),
        y.len() == x.len(),
        as_nat(y) == bytes_as_nat(hex_pairs_bytes(h)),
    ensures
        all_hex_digits(h),
        y == x,
{
    assert forall|i: int| 0 <= i < h.len() implies is_hex_digit(h[i]) by {
        assert(is_upper_hex_digit(h[i]));
    }
    lemma_as_nat_injective(y, x);
}

/// Decoding the big-endian hex encoding of a value yields the value, and
/// such text always decodes: every digit `to_be_hex` emits is a hex digit.
pub proof fn lemma_be_hex_round_trip(x: Seq<u64>, h: Seq<u8>, y: Seq<u64>)
    requires
        h.len() == 16 * x.len(),
        forall|i: int| 0 <= i < h.len() ==> is_upper_hex_digit(h[i]),
        be_bytes_as_nat(hex_pairs_bytes(h)) == as_nat(x),
        y.len() == x.len(),
        as_nat(y) == be_bytes_as_nat(hex_pairs_bytes(h)),
    ensures
        all_hex_digits(h),
        y == x,
{
    assert forall|i: int| 0 <= i < h.len() implies is_hex_digit(h[i]) by {
        assert(is_upper_hex_digit(h[i]));
    }
    lemma_as_nat_injective(y, x);
}

/// Concatenation undoes splitting: the halves `split` returns, handed to
/// `concat` as `(high, low)`, rebuild the original limbs.
pub proof fn lemma_split_concat_round_trip(x: Seq<u64>, hi: Seq<u64>, lo: Seq<u64>, r: Seq<u64>)
    requires
        x.len() >= 2,
        x.len() % 2 == 0,
        hi == x.skip(x.len() as int / 2),
        lo == x.take(x.len() as int / 2),
        r == lo + hi,
    ensures
        r == x,
{
    assert(lo + hi =~= x);
}

/// Constant-time equality is reflexive and symmetric, and agrees with
/// limb-wise equality: the flag `ct_eq` yields is set exactly when every
/// limb pair is equal.
pub proof fn lemma_ct_eq_properties(
    x: Seq<u64>,
    y: Seq<u64>,
    bit_xy: bool,
    bit_yx: bool,
    bit_xx: bool,
)
    requires
        x.len() == y.len(),
        bit_xy == (x == y),
        bit_yx == (y == x),
        bit_xx == (x == x),
    ensures
        bit_xx,
        bit_xy == bit_yx,
        bit_xy <==> (forall|k: int| 0 <= k < x.len() ==> x[k] == y[k]),
    {
    if forall|k: int| 0 <= k < x.len() ==> x[k] == y[k] {
        assert(x =~= y);
    }
}

} // verus!
