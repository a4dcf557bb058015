//! Mathematical model of the limb representation.
//!
//! A fixed-width unsigned integer is a sequence of 64-bit limbs stored least
//! significant first; `as_nat` gives the value such a sequence denotes. The
//! byte-level counterpart `bytes_as_nat` does the same for little-endian byte
//! sequences. The lemmas here are the facts every arithmetic proof leans on:
//! how the value changes when a limb is appended or updated, that the value is
//! bounded by the width, and that equal values mean equal limb sequences.

use vstd::arithmetic::div_mod::lemma_fundamental_div_mod_converse;
use vstd::arithmetic::power2::{lemma2_to64, lemma_pow2_adds, lemma_pow2_pos, pow2};
use vstd::prelude::*;

verus! {

/// Number of values one limb can take: `2^64`.
pub open spec fn limb_base() -> nat {
    0x1_0000_0000_0000_0000
}

/// The value denoted by a limb sequence, least-significant limb first.
pub open spec fn as_nat(s: Seq<u64>) -> nat
    decreases s.len(),
{
    if s.len() == 0 {
        0
    } else {
        (s[0] + limb_base() * as_nat(s.drop_first())) as nat
    }
}

/// The value denoted by a little-endian byte sequence.
pub open spec fn bytes_as_nat(s: Seq<u8>) -> nat
    decreases s.len(),
{
    if s.len() == 0 {
        0
    } else {
        (s[0] + 256 * bytes_as_nat(s.drop_first())) as nat
    }
}

/// The value denoted by a big-endian byte sequence.
pub open spec fn be_bytes_as_nat(s: Seq<u8>) -> nat {
    bytes_as_nat(s.reverse())
}

/// `limb_base()` is `pow2(64)`.
pub proof fn lemma_limb_base()
    ensures
        limb_base() == pow2(64),
{
    lemma2_to64();
}

/// Appending a limb adds its value scaled by the weight of its position.
pub proof fn lemma_as_nat_snoc(s: Seq<u64>, x: u64)
    ensures
        as_nat(s.push(x)) == as_nat(s) + x * pow2(64 * s.len()),
    decreases s.len(),
{
    lemma_limb_base();
    if s.len() == 0 {
        assert(s.push(x).drop_first() =~= Seq::<u64>::empty());
        assert(as_nat(Seq::<u64>::empty()) == 0);
        assert(as_nat(s.push(x)) == x + limb_base() * 0);
        assert(pow2(0) == 1) by {
            lemma2_to64();
        }
    } else {
        let df = s.drop_first();
        let p = pow2((64 * (s.len() - 1)) as nat);
        let b = limb_base();
        assert(s.push(x).drop_first() =~= df.push(x));
        lemma_as_nat_snoc(df, x);
        assert(as_nat(s.push(x)) == s[0] + b * as_nat(df.push(x)));
        assert(b * (as_nat(df) + x * p) == b * as_nat(df) + x * (b * p)) by (nonlinear_arith);
        lemma_pow2_adds(64, (64 * (s.len() - 1)) as nat);
        assert(b * p == pow2(64 * s.len()));
        assert(as_nat(s) == s[0] + b * as_nat(df));
    }
}

/// Extending a prefix by one limb adds that limb at its weight.
pub proof fn lemma_as_nat_take_succ(s: Seq<u64>, i: int)
    requires
        0 <= i < s.len(),
    ensures
        as_nat(s.take(i + 1)) == as_nat(s.take(i)) + s[i] * pow2((64 * i) as nat),
{
    assert(s.take(i + 1) =~= s.take(i).push(s[i]));
    lemma_as_nat_snoc(s.take(i), s[i]);
}

/// The value of a limb sequence is below the width's bound.
pub proof fn lemma_as_nat_bound(s: Seq<u64>)
    ensures
        as_nat(s) < pow2(64 * s.len()),
    decreases s.len(),
{
    lemma_limb_base();
    if s.len() == 0 {
        lemma2_to64();
    } else {
        let df = s.drop_first();
        let p = pow2((64 * (s.len() - 1)) as nat);
        let b = limb_base();
        lemma_as_nat_bound(df);
        lemma_pow2_adds(64, (64 * (s.len() - 1)) as nat);
        assert(b * p == pow2(64 * s.len()));
        assert(as_nat(s) == s[0] + b * as_nat(df));
        assert(b * (as_nat(df) + 1) <= b * p) by (nonlinear_arith)
            requires
                as_nat(df) + 1 <= p,
                b >= 0,
        ;
        assert(b * (as_nat(df) + 1) == b * as_nat(df) + b) by (nonlinear_arith);
    }
}

/// Concatenation splits the value at the weight of the boundary.
pub proof fn lemma_as_nat_append(a: Seq<u64>, b: Seq<u64>)
    ensures
        as_nat(a + b) == as_nat(a) + pow2(64 * a.len()) * as_nat(b),
    decreases a.len(),
{
    lemma_limb_base();
    if a.len() == 0 {
        assert(a + b =~= b);
        assert(pow2(0) == 1) by {
            lemma2_to64();
        }
    } else {
        let df = a.drop_first();
        let p = pow2((64 * (a.len() - 1)) as nat);
        let lb = limb_base();
        assert((a + b).drop_first() =~= df + b);
        lemma_as_nat_append(df, b);
        assert(as_nat(a + b) == a[0] + lb * as_nat(df + b));
        assert(lb * (as_nat(df) + p * as_nat(b)) == lb * as_nat(df) + (lb * p) * as_nat(
            b,
        )) by (nonlinear_arith);
        lemma_pow2_adds(64, (64 * (a.len() - 1)) as nat);
        assert(lb * p == pow2(64 * a.len()));
        assert(as_nat(a) == a[0] + lb * as_nat(df));
    }
}

/// Equal values at equal widths mean equal limb sequences.
pub proof fn lemma_as_nat_injective(s: Seq<u64>, t: Seq<u64>)
    requires
        s.len() == t.len(),
        as_nat(s) == as_nat(t),
    ensures
        s =~= t,
    decreases s.len(),
{
    if s.len() > 0 {
        lemma_as_nat_mod_first(s);
        lemma_as_nat_mod_first(t);
        lemma_as_nat_injective(s.drop_first(), t.drop_first());
        assert forall|i: int| 0 <= i < s.len() implies s[i] == t[i] by {
            if i >= 1 {
                assert(s.drop_first()[i - 1] == t.drop_first()[i - 1]);
            }
        }
    }
}

/// The least-significant limb is the value modulo the limb base, and the rest
/// is the quotient.
pub proof fn lemma_as_nat_mod_first(s: Seq<u64>)
    requires
        s.len() > 0,
    ensures
        s[0] == as_nat(s) % limb_base(),
        as_nat(s.drop_first()) == as_nat(s) / limb_base(),
{
    assert(as_nat(s) == s[0] + limb_base() * as_nat(s.drop_first()));
    assert(as_nat(s) as int == as_nat(s.drop_first()) as int * (limb_base() as int) + s[0] as int)
        by (nonlinear_arith)
        requires
            as_nat(s) == s[0] + limb_base() * as_nat(s.drop_first()),
    ;
    lemma_fundamental_div_mod_converse(
        as_nat(s) as int,
        limb_base() as int,
        as_nat(s.drop_first()) as int,
        s[0] as int,
    );
}

/// A sequence denotes zero exactly when every limb is zero.
pub proof fn lemma_as_nat_zero(s: Seq<u64>)
    ensures
        as_nat(s) == 0 <==> (forall|i: int| 0 <= i < s.len() ==> s[i] == 0),
    decreases s.len(),
{
    if s.len() > 0 {
        let df = s.drop_first();
        lemma_as_nat_zero(df);
        assert(as_nat(s) == s[0] + limb_base() * as_nat(df));
        if as_nat(s) == 0 {
            assert(limb_base() * as_nat(df) == 0);
            assert(as_nat(df) == 0);
            assert forall|i: int| 0 <= i < s.len() implies s[i] == 0 by {
                if i >= 1 {
                    assert(df[i - 1] == 0);
                }
            }
        }
        if forall|i: int| 0 <= i < s.len() ==> s[i] == 0 {
            assert forall|i: int| 0 <= i < df.len() implies df[i] == 0 by {
                assert(s[i + 1] == 0);
            }
            assert(as_nat(df) == 0);
            assert(as_nat(s) == s[0] + limb_base() * 0);
        }
    }
}

/// A sequence of all-maximal limbs denotes the width's largest value.
pub proof fn lemma_as_nat_all_max(s: Seq<u64>)
    requires
        forall|i: int| 0 <= i < s.len() ==> s[i] == u64::MAX,
    ensures
        as_nat(s) == pow2(64 * s.len()) - 1,
    decreases s.len(),
{
    lemma_limb_base();
    if s.len() == 0 {
        lemma2_to64();
    } else {
        let df = s.drop_first();
        let p = pow2((64 * (s.len() - 1)) as nat);
        let b = limb_base();
        assert forall|i: int| 0 <= i < df.len() implies df[i] == u64::MAX by {
            assert(s[i + 1] == u64::MAX);
        }
        lemma_as_nat_all_max(df);
        lemma_pow2_pos((64 * (s.len() - 1)) as nat);
        assert(as_nat(s) == s[0] + b * as_nat(df));
        assert(b * (p - 1) == b * p - b) by (nonlinear_arith);
        lemma_pow2_adds(64, (64 * (s.len() - 1)) as nat);
        assert(b * p == pow2(64 * s.len()));
    }
}

/// Replacing one limb shifts the value by the difference at that weight.
pub proof fn lemma_as_nat_update(s: Seq<u64>, k: int, x: u64)
    requires
        0 <= k < s.len(),
    ensures
        as_nat(s.update(k, x)) + s[k] * pow2((64 * k) as nat) == as_nat(s) + x * pow2(
            (64 * k) as nat,
        ),
    decreases k,
{
    lemma_limb_base();
    if k == 0 {
        let q = pow2((64 * k) as nat);
        assert(s.update(k, x).drop_first() =~= s.drop_first());
        assert(as_nat(s.update(k, x)) == x + limb_base() * as_nat(s.drop_first()));
        assert(as_nat(s) == s[0] + limb_base() * as_nat(s.drop_first()));
        assert(q == 1) by {
            lemma2_to64();
        }
        assert(s[k] * q == s[k] && x * q == x) by (nonlinear_arith)
            requires
                q == 1,
        ;
    } else {
        let df = s.drop_first();
        let p = pow2((64 * (k - 1)) as nat);
        let b = limb_base();
        assert(s.update(k, x).drop_first() =~= df.update(k - 1, x));
        lemma_as_nat_update(df, k - 1, x);
        assert(as_nat(s.update(k, x)) == s[0] + b * as_nat(df.update(k - 1, x)));
        assert(as_nat(s) == s[0] + b * as_nat(df));
        let a1 = as_nat(df.update(k - 1, x));
        let a2 = as_nat(df);
        let c = df[k - 1];
        assert(b * a1 + c * (b * p) == b * a2 + x * (b * p)) by (nonlinear_arith)
            requires
                a1 + c * p == a2 + x * p,
        ;
        lemma_pow2_adds(64, (64 * (k - 1)) as nat);
        assert(b * p == pow2((64 * k) as nat));
        assert(s[k] == c);
        let q = pow2((64 * k) as nat);
        assert(c * (b * p) == c * q && x * (b * p) == x * q) by (nonlinear_arith)
            requires
                b * p == q,
        ;
        assert(as_nat(s.update(k, x)) + s[k] * q == s[0] + b * a1 + c * (b * p));
        assert(as_nat(s) + x * q == s[0] + b * a2 + x * (b * p));
    }
}

/// Appending a byte adds its value scaled by the weight of its position.
pub proof fn lemma_bytes_as_nat_snoc(s: Seq<u8>, x: u8)
    ensures
        bytes_as_nat(s.push(x)) == bytes_as_nat(s) + x * pow2(8 * s.len()),
    decreases s.len(),
{
    if s.len() == 0 {
        assert(s.push(x).drop_first() =~= Seq::<u8>::empty());
        assert(bytes_as_nat(Seq::<u8>::empty()) == 0);
        assert(bytes_as_nat(s.push(x)) == x + 256 * 0);
        assert(pow2(0) == 1) by {
            lemma2_to64();
        }
    } else {
        let df = s.drop_first();
        let p = pow2((8 * (s.len() - 1)) as nat);
        assert(s.push(x).drop_first() =~= df.push(x));
        lemma_bytes_as_nat_snoc(df, x);
        assert(bytes_as_nat(s.push(x)) == s[0] + 256 * bytes_as_nat(df.push(x)));
        assert(256 * (bytes_as_nat(df) + x * p) == 256 * bytes_as_nat(df) + x * (256
            * p)) by (nonlinear_arith);
        lemma_pow2_adds(8, (8 * (s.len() - 1)) as nat);
        assert(pow2(8) == 256) by {
            lemma2_to64();
        }
        assert(bytes_as_nat(s) == s[0] + 256 * bytes_as_nat(df));
    }
}

/// Extending a byte prefix by one byte adds that byte at its weight.
pub proof fn lemma_bytes_as_nat_take_succ(s: Seq<u8>, i: int)
    requires
        0 <= i < s.len(),
    ensures
        bytes_as_nat(s.take(i + 1)) == bytes_as_nat(s.take(i)) + s[i] * pow2((8 * i) as nat),
{
    assert(s.take(i + 1) =~= s.take(i).push(s[i]));
    lemma_bytes_as_nat_snoc(s.take(i), s[i]);
}

/// Byte concatenation splits the value at the weight of the boundary.
pub proof fn lemma_bytes_as_nat_append(a: Seq<u8>, b: Seq<u8>)
    ensures
        bytes_as_nat(a + b) == bytes_as_nat(a) + pow2(8 * a.len()) * bytes_as_nat(b),
    decreases a.len(),
{
    if a.len() == 0 {
        assert(a + b =~= b);
        assert(pow2(0) == 1) by {
            lemma2_to64();
        }
    } else {
        let df = a.drop_first();
        let p = pow2((8 * (a.len() - 1)) as nat);
        assert((a + b).drop_first() =~= df + b);
        lemma_bytes_as_nat_append(df, b);
        assert(bytes_as_nat(a + b) == a[0] + 256 * bytes_as_nat(df + b));
        assert(256 * (bytes_as_nat(df) + p * bytes_as_nat(b)) == 256 * bytes_as_nat(df) + (256 * p)
            * bytes_as_nat(b)) by (nonlinear_arith);
        lemma_pow2_adds(8, (8 * (a.len() - 1)) as nat);
        assert(pow2(8) == 256) by {
            lemma2_to64();
        }
        assert(256 * p == pow2(8 * a.len()));
        assert(bytes_as_nat(a) == a[0] + 256 * bytes_as_nat(df));
    }
}

} // verus!
