//! Fixed-layout encoding and decoding between limbs, bytes and hex text.
//!
//! Byte forms are exactly eight bytes per limb; hex forms are exactly two
//! digits per byte, high nibble first within each pair. Big-endian input is
//! fed to the [`Decoder`](crate::decoder::Decoder) in reverse, so one
//! accumulator serves all four constructors.

use crate::decoder::Decoder;
use crate::model::{
    as_nat, be_bytes_as_nat, bytes_as_nat, lemma_bytes_as_nat_append, lemma_bytes_as_nat_take_succ,
};
use crate::uint::{DecodeError, UInt};
use vstd::prelude::*;

verus! {

/// Whether `c` is an ASCII hex digit, of either case.
pub open spec fn is_hex_digit(c: u8) -> bool {
    (0x30 <= c <= 0x39) || (0x61 <= c <= 0x66) || (0x41 <= c <= 0x46)
}

/// Whether `c` is a digit or an uppercase hex letter.
pub open spec fn is_upper_hex_digit(c: u8) -> bool {
    (0x30 <= c <= 0x39) || (0x41 <= c <= 0x46)
}

/// Whether `c` is a digit or a lowercase hex letter.
pub open spec fn is_lower_hex_digit(c: u8) -> bool {
    (0x30 <= c <= 0x39) || (0x61 <= c <= 0x66)
}

/// The value of an ASCII hex digit; zero on other bytes.
pub open spec fn hex_digit_val(c: u8) -> nat {
    if 0x30 <= c <= 0x39 {
        (c - 0x30) as nat
    } else if 0x61 <= c <= 0x66 {
        (c - 0x61 + 10) as nat
    } else if 0x41 <= c <= 0x46 {
        (c - 0x41 + 10) as nat
    } else {
        0
    }
}

/// Whether every byte of `h` is an ASCII hex digit.
pub open spec fn all_hex_digits(h: Seq<u8>) -> bool {
    forall|i: int| 0 <= i < h.len() ==> is_hex_digit(h[i])
}

/// The bytes a hex text denotes: each digit pair becomes one byte, high
/// nibble first, pairs kept in text order.
pub open spec fn hex_pairs_bytes(h: Seq<u8>) -> Seq<u8> {
    Seq::new(h.len() / 2, |j: int| (hex_digit_val(h[2 * j]) * 16 + hex_digit_val(h[2 * j + 1])) as u8)
}

/// Decode one ASCII hex digit to its value.
fn hex_nibble(c: u8) -> (r: Option<u8>)
    ensures
        r is Some <==> is_hex_digit(c),
        r matches Some(v) ==> v == hex_digit_val(c) && v < 16,
{
    if 0x30 <= c && c <= 0x39 {
        Some(c - 0x30)
    } else if 0x61 <= c && c <= 0x66 {
        Some(c - 0x61 + 10)
    } else if 0x41 <= c && c <= 0x46 {
        Some(c - 0x41 + 10)
    } else {
        None
    }
}

/// Decode a single byte encoded as two hexadecimal characters, high nibble
/// first.
pub fn decode_hex_byte(bytes: [u8; 2]) -> (r: Result<u8, DecodeError>)
    ensures
        r is Ok <==> is_hex_digit(bytes@[0]) && is_hex_digit(bytes@[1]),
        r matches Ok(v) ==> v == hex_digit_val(bytes@[0]) * 16 + hex_digit_val(bytes@[1]),
        r is Err ==> r == Err::<u8, DecodeError>(DecodeError::BadHexDigit),
{
    let hi = match hex_nibble(bytes[0]) {
        Some(v) => v,
        None => {
            return Err(DecodeError::BadHexDigit);
        },
    };
    let lo = match hex_nibble(bytes[1]) {
        Some(v) => v,
        None => {
            return Err(DecodeError::BadHexDigit);
        },
    };
    Ok(hi * 16 + lo)
}

/// Encode one value below 16 as an uppercase ASCII hex digit.
fn upper_hex_digit(n: u8) -> (r: u8)
    requires
        n < 16,
    ensures
        is_upper_hex_digit(r),
        is_hex_digit(r),
        hex_digit_val(r) == n,
{
    if n < 10 {
        0x30 + n
    } else {
        0x41 + (n - 10)
    }
}

/// Encode one value below 16 as a lowercase ASCII hex digit.
fn lower_hex_digit(n: u8) -> (r: u8)
    requires
        n < 16,
    ensures
        is_lower_hex_digit(r),
        is_hex_digit(r),
        hex_digit_val(r) == n,
{
    if n < 10 {
        0x30 + n
    } else {
        0x61 + (n - 10)
    }
}

impl UInt {
    /// Create a new [`UInt`] of the given width from the provided
    /// little-endian bytes, which must be exactly eight per limb.
    pub fn from_le_bytes(bytes: &[u8], nlimbs: usize) -> (r: Result<Self, DecodeError>)
        requires
            nlimbs >= 1,
        ensures
            r is Ok <==> bytes@.len() == 8 * nlimbs,
            r matches Ok(v) ==> v@.len() == nlimbs && as_nat(v@) == bytes_as_nat(bytes@),
            r is Err ==> r == Err::<UInt, DecodeError>(DecodeError::WrongLength),
    {
        let blen = bytes.len();
        if nlimbs > usize::MAX / 8 {
            return Err(DecodeError::WrongLength);
        }
        let total = 8 * nlimbs;
        if blen != total {
            return Err(DecodeError::WrongLength);
        }
        let mut d = Decoder::new(nlimbs);
        let mut i: usize = 0;
        while i < total
            invariant
                i <= total,
                total == 8 * nlimbs,
                bytes@.len() == total,
                d.wf(),
                d.width() == nlimbs,
                d.bytes_fed() == i,
                d.value() == bytes_as_nat(bytes@.take(i as int)),
            decreases total - i,
        {
            proof {
                lemma_bytes_as_nat_take_succ(bytes@, i as int);
            }
            d = d.add_byte(bytes[i]);
            i += 1;
        }
        proof {
            assert(bytes@.take(total as int) =~= bytes@);
        }
        Ok(d.finish())
    }

    /// Create a new [`UInt`] of the given width from the provided big-endian
    /// bytes, which must be exactly eight per limb.
    pub fn from_be_bytes(bytes: &[u8], nlimbs: usize) -> (r: Result<Self, DecodeError>)
        requires
            nlimbs >= 1,
        ensures
            r is Ok <==> bytes@.len() == 8 * nlimbs,
            r matches Ok(v) ==> v@.len() == nlimbs && as_nat(v@) == be_bytes_as_nat(bytes@),
            r is Err ==> r == Err::<UInt, DecodeError>(DecodeError::WrongLength),
    {
        let blen = bytes.len();
        if nlimbs > usize::MAX / 8 {
            return Err(DecodeError::WrongLength);
        }
        let total = 8 * nlimbs;
        if blen != total {
            return Err(DecodeError::WrongLength);
        }
        let mut d = Decoder::new(nlimbs);
        let mut i: usize = 0;
        while i < total
            invariant
                i <= total,
                total == 8 * nlimbs,
                bytes@.len() == total,
                d.wf(),
                d.width() == nlimbs,
                d.bytes_fed() == i,
                d.value() == bytes_as_nat(bytes@.reverse().take(i as int)),
            decreases total - i,
        {
            proof {
                lemma_bytes_as_nat_take_succ(bytes@.reverse(), i as int);
                assert(bytes@.reverse()[i as int] == bytes@[total - 1 - i as int]);
            }
            d = d.add_byte(bytes[total - 1 - i]);
            i += 1;
        }
        proof {
            assert(bytes@.reverse().take(total as int) =~= bytes@.reverse());
        }
        Ok(d.finish())
    }

    /// Create a new [`UInt`] of the given width from the provided
    /// little-endian hex text, which must be exactly sixteen digits per
    /// limb, of either case.
    pub fn from_le_hex(hex: &[u8], nlimbs: usize) -> (r: Result<Self, DecodeError>)
        requires
            nlimbs >= 1,
        ensures
            r is Ok <==> hex@.len() == 16 * nlimbs && all_hex_digits(hex@),
            r matches Ok(v) ==> v@.len() == nlimbs && as_nat(v@) == bytes_as_nat(
                hex_pairs_bytes(hex@),
            ),
            hex@.len() != 16 * nlimbs ==> r == Err::<UInt, DecodeError>(DecodeError::WrongLength),
            hex@.len() == 16 * nlimbs && !all_hex_digits(hex@) ==> r == Err::<
                UInt,
                DecodeError,
            >(DecodeError::BadHexDigit),
    {
        let hlen = hex.len();
        if nlimbs > usize::MAX / 16 {
            return Err(DecodeError::WrongLength);
        }
        let pairs = 8 * nlimbs;
        if hlen != 16 * nlimbs {
            return Err(DecodeError::WrongLength);
        }
        let mut d = Decoder::new(nlimbs);
        let mut t: usize = 0;
        while t < pairs
            invariant
                t <= pairs,
                pairs == 8 * nlimbs,
                nlimbs <= usize::MAX / 16,
                hex@.len() == 16 * nlimbs,
                d.wf(),
                d.width() == nlimbs,
                d.bytes_fed() == t,
                d.value() == bytes_as_nat(hex_pairs_bytes(hex@).take(t as int)),
                forall|c: int| 0 <= c < 2 * t ==> is_hex_digit(hex@[c]),
            decreases pairs - t,
        {
            let b = match decode_hex_byte([hex[2 * t], hex[2 * t + 1]]) {
                Ok(b) => b,
                Err(_) => {
                    proof {
                        assert(!(is_hex_digit(hex@[2 * t as int]) && is_hex_digit(
                            hex@[2 * t as int + 1],
                        )));
                    }
                    return Err(DecodeError::BadHexDigit);
                },
            };
            proof {
                assert(hex_digit_val(hex@[2 * t as int]) <= 15);
                assert(hex_digit_val(hex@[2 * t as int + 1]) <= 15);
                assert(hex_pairs_bytes(hex@)[t as int] == b);
                lemma_bytes_as_nat_take_succ(hex_pairs_bytes(hex@), t as int);
                assert forall|c: int| 0 <= c < 2 * (t + 1) implies is_hex_digit(hex@[c]) by {
                    if c < 2 * t {
                        assert(is_hex_digit(hex@[c]));
                    }
                }
            }
            d = d.add_byte(b);
            t += 1;
        }
        proof {
            assert(hex_pairs_bytes(hex@).take(pairs as int) =~= hex_pairs_bytes(hex@));
        }
        Ok(d.finish())
    }

    /// Create a new [`UInt`] of the given width from the provided big-endian
    /// hex text, which must be exactly sixteen digits per limb, of either
    /// case.
    pub fn from_be_hex(hex: &[u8], nlimbs: usize) -> (r: Result<Self, DecodeError>)
        requires
            nlimbs >= 1,
        ensures
            r is Ok <==> hex@.len() == 16 * nlimbs && all_hex_digits(hex@),
            r matches Ok(v) ==> v@.len() == nlimbs && as_nat(v@) == be_bytes_as_nat(
                hex_pairs_bytes(hex@),
            ),
            hex@.len() != 16 * nlimbs ==> r == Err::<UInt, DecodeError>(DecodeError::WrongLength),
            hex@.len() == 16 * nlimbs && !all_hex_digits(hex@) ==> r == Err::<
                UInt,
                DecodeError,
            >(DecodeError::BadHexDigit),
    {
        let hlen = hex.len();
        if nlimbs > usize::MAX / 16 {
            return Err(DecodeError::WrongLength);
        }
        let pairs = 8 * nlimbs;
        let total = 16 * nlimbs;
        if hlen != total {
            return Err(DecodeError::WrongLength);
        }
        let mut d = Decoder::new(nlimbs);
        let mut t: usize = 0;
        while t < pairs
            invariant
                t <= pairs,
                pairs == 8 * nlimbs,
                nlimbs <= usize::MAX / 16,
                total == 16 * nlimbs,
                hex@.len() == total,
                d.wf(),
                d.width() == nlimbs,
                d.bytes_fed() == t,
                d.value() == bytes_as_nat(hex_pairs_bytes(hex@).reverse().take(t as int)),
                forall|c: int| total - 2 * t <= c < total ==> is_hex_digit(hex@[c]),
            decreases pairs - t,
        {
            let off = total - 2 * t - 2;
            let b = match decode_hex_byte([hex[off], hex[off + 1]]) {
                Ok(b) => b,
                Err(_) => {
                    proof {
                        assert(!(is_hex_digit(hex@[off as int]) && is_hex_digit(
                            hex@[off as int + 1],
                        )));
                    }
                    return Err(DecodeError::BadHexDigit);
                },
            };
            proof {
                let ps = hex_pairs_bytes(hex@);
                assert(hex_digit_val(hex@[off as int]) <= 15);
                assert(hex_digit_val(hex@[off as int + 1]) <= 15);
                assert(ps.reverse()[t as int] == ps[pairs - 1 - t as int]);
                assert(2 * (pairs - 1 - t as int) == off);
                assert(ps[pairs - 1 - t as int] == b);
                lemma_bytes_as_nat_take_succ(ps.reverse(), t as int);
                assert forall|c: int| total - 2 * (t + 1) <= c < total implies is_hex_digit(
                    hex@[c],
                ) by {
                    if total - 2 * t <= c {
                        assert(is_hex_digit(hex@[c]));
                    }
                }
            }
            d = d.add_byte(b);
            t += 1;
        }
        proof {
            assert(hex_pairs_bytes(hex@).reverse().take(pairs as int) =~= hex_pairs_bytes(
                hex@,
            ).reverse());
        }
        Ok(d.finish())
    }

    /// Serialize this [`UInt`] as little-endian bytes, eight per limb.
    pub fn to_le_bytes(&self) -> (r: Vec<u8>)
        ensures
            r@.len() == 8 * self@.len(),
            bytes_as_nat(r@) == as_nat(self@),
    {
        let n = self.limbs.len();
        let mut out: Vec<u8> = Vec::new();
        let mut i: usize = 0;
        proof {
            assert(self@.take(0) =~= Seq::<u64>::empty());
            assert(as_nat(self@.take(0)) == 0);
        }
        while i < n
            invariant
                i <= n,
                n == self@.len(),
                out@.len() == 8 * i,
                bytes_as_nat(out@) == as_nat(self@.take(i as int)),
            decreases n - i,
        {
            let l = self.limbs[i];
            let ghost prefix = out@;
            out.push((l & 0xff) as u8);
            out.push(((l >> 8) & 0xff) as u8);
            out.push(((l >> 16) & 0xff) as u8);
            out.push(((l >> 24) & 0xff) as u8);
            out.push(((l >> 32) & 0xff) as u8);
            out.push(((l >> 40) & 0xff) as u8);
            out.push(((l >> 48) & 0xff) as u8);
            out.push(((l >> 56) & 0xff) as u8);
            proof {
                let tail = out@.skip(prefix.len() as int);
                assert(out@ =~= prefix + tail);
                lemma_limb_le_bytes(l, tail);
                lemma_bytes_as_nat_append(prefix, tail);
                crate::model::lemma_as_nat_take_succ(self@, i as int);
                lemma_mul_comm(vstd::arithmetic::power2::pow2((8 * prefix.len()) as nat), l as nat);
            }
            i += 1;
        }
        proof {
            assert(self@.take(n as int) =~= self@);
        }
        out
    }

    /// Serialize this [`UInt`] as big-endian bytes, eight per limb.
    pub fn to_be_bytes(&self) -> (r: Vec<u8>)
        ensures
            r@.len() == 8 * self@.len(),
            be_bytes_as_nat(r@) == as_nat(self@),
    {
        let le = self.to_le_bytes();
        let total = le.len();
        let mut out: Vec<u8> = Vec::new();
        let mut i: usize = 0;
        while i < total
            invariant
                i <= total,
                total == le@.len(),
                out@.len() == i,
                forall|k: int| 0 <= k < i ==> out@[k] == le@[total - 1 - k],
            decreases total - i,
        {
            out.push(le[total - 1 - i]);
            i += 1;
        }
        proof {
            assert(out@.reverse() =~= le@);
        }
        out
    }

    /// Render this [`UInt`] as little-endian uppercase hex text, sixteen
    /// digits per limb.
    pub fn to_le_hex(&self) -> (r: Vec<u8>)
        ensures
            r@.len() == 16 * self@.len(),
            forall|i: int| 0 <= i < r@.len() ==> is_upper_hex_digit(r@[i]),
            bytes_as_nat(hex_pairs_bytes(r@)) == as_nat(self@),
    {
        let b = self.to_le_bytes();
        let r = hex_encode(&b);
        proof {
            assert(hex_pairs_bytes(r@) =~= b@);
        }
        r
    }

    /// Render this [`UInt`] as big-endian uppercase hex text, sixteen
    /// digits per limb; the full-width zero renders as all zero digits.
    pub fn to_be_hex(&self) -> (r: Vec<u8>)
        ensures
            r@.len() == 16 * self@.len(),
            forall|i: int| 0 <= i < r@.len() ==> is_upper_hex_digit(r@[i]),
            be_bytes_as_nat(hex_pairs_bytes(r@)) == as_nat(self@),
    {
        let b = self.to_be_bytes();
        let r = hex_encode(&b);
        proof {
            assert(hex_pairs_bytes(r@) =~= b@);
        }
        r
    }

    /// Render this [`UInt`] as big-endian lowercase hex text, sixteen
    /// digits per limb.
    pub fn to_be_hex_lower(&self) -> (r: Vec<u8>)
        ensures
            r@.len() == 16 * self@.len(),
            forall|i: int| 0 <= i < r@.len() ==> is_lower_hex_digit(r@[i]),
            be_bytes_as_nat(hex_pairs_bytes(r@)) == as_nat(self@),
    {
        let b = self.to_be_bytes();
        let r = hex_encode_lower(&b);
        proof {
            assert(hex_pairs_bytes(r@) =~= b@);
        }
        r
    }
}

/// Encode each byte as two uppercase hex digits, high nibble first, in
/// order.
fn hex_encode(b: &Vec<u8>) -> (r: Vec<u8>)
    ensures
        r@.len() == 2 * b@.len(),
        forall|i: int| 0 <= i < r@.len() ==> is_upper_hex_digit(r@[i]),
        hex_pairs_bytes(r@) =~= b@,
{
    let n = b.len();
    let mut out: Vec<u8> = Vec::new();
    let mut j: usize = 0;
    while j < n
        invariant
            j <= n,
            n == b@.len(),
            out@.len() == 2 * j,
            forall|i: int| 0 <= i < out@.len() ==> is_upper_hex_digit(out@[i]),
            forall|k: int|
                0 <= k < j ==> hex_digit_val(out@[2 * k]) * 16 + hex_digit_val(out@[2 * k + 1])
                    == b@[k],
        decreases n - j,
    {
        let v = b[j];
        proof {
            lemma_byte_nibbles(v);
        }
        out.push(upper_hex_digit(v >> 4));
        out.push(upper_hex_digit(v & 0xf));
        j += 1;
    }
    proof {
        assert forall|k: int| 0 <= k < hex_pairs_bytes(out@).len() implies hex_pairs_bytes(
            out@,
        )[k] == b@[k] by {
            assert(hex_digit_val(out@[2 * k]) * 16 + hex_digit_val(out@[2 * k + 1]) == b@[k]);
        }
        assert(hex_pairs_bytes(out@) =~= b@);
    }
    out
}

/// Encode each byte as two lowercase hex digits, high nibble first, in
/// order.
fn hex_encode_lower(b: &Vec<u8>) -> (r: Vec<u8>)
    ensures
        r@.len() == 2 * b@.len(),
        forall|i: int| 0 <= i < r@.len() ==> is_lower_hex_digit(r@[i]),
        hex_pairs_bytes(r@) =~= b@,
{
    let n = b.len();
    let mut out: Vec<u8> = Vec::new();
    let mut j: usize = 0;
    while j < n
        invariant
            j <= n,
            n == b@.len(),
            out@.len() == 2 * j,
            forall|i: int| 0 <= i < out@.len() ==> is_lower_hex_digit(out@[i]),
            forall|k: int|
                0 <= k < j ==> hex_digit_val(out@[2 * k]) * 16 + hex_digit_val(out@[2 * k + 1])
                    == b@[k],
        decreases n - j,
    {
        let v = b[j];
        proof {
            lemma_byte_nibbles(v);
        }
        out.push(lower_hex_digit(v >> 4));
        out.push(lower_hex_digit(v & 0xf));
        j += 1;
    }
    proof {
        assert forall|k: int| 0 <= k < hex_pairs_bytes(out@).len() implies hex_pairs_bytes(
            out@,
        )[k] == b@[k] by {
            assert(hex_digit_val(out@[2 * k]) * 16 + hex_digit_val(out@[2 * k + 1]) == b@[k]);
        }
        assert(hex_pairs_bytes(out@) =~= b@);
    }
    out
}

/// Commutativity of multiplication.
proof fn lemma_mul_comm(x: nat, y: nat)
    by (nonlinear_arith)
    ensures
        x * y == y * x,
{
}

/// The high and low nibbles of a byte recombine to the byte.
proof fn lemma_byte_nibbles(v: u8)
    ensures
        (v >> 4) < 16,
        (v & 0xf) < 16,
        (v >> 4) * 16 + (v & 0xf) == v,
{
    assert((v >> 4) < 16 && (v & 0xf) < 16 && (v >> 4) * 16 + (v & 0xf) == v) by (bit_vector);
}

/// The eight bytes pushed for one limb denote that limb's value.
proof fn lemma_limb_le_bytes(l: u64, tail: Seq<u8>)
    requires
        tail.len() == 8,
        tail[0] == (l & 0xff) as u8,
        tail[1] == ((l >> 8) & 0xff) as u8,
        tail[2] == ((l >> 16) & 0xff) as u8,
        tail[3] == ((l >> 24) & 0xff) as u8,
        tail[4] == ((l >> 32) & 0xff) as u8,
        tail[5] == ((l >> 40) & 0xff) as u8,
        tail[6] == ((l >> 48) & 0xff) as u8,
        tail[7] == ((l >> 56) & 0xff) as u8,
    ensures
        bytes_as_nat(tail) == l,
{
    let t1 = tail.drop_first();
    let t2 = t1.drop_first();
    let t3 = t2.drop_first();
    let t4 = t3.drop_first();
    let t5 = t4.drop_first();
    let t6 = t5.drop_first();
    let t7 = t6.drop_first();
    assert(t1 =~= tail.subrange(1, 8));
    assert(t2 =~= tail.subrange(2, 8));
    assert(t3 =~= tail.subrange(3, 8));
    assert(t4 =~= tail.subrange(4, 8));
    assert(t5 =~= tail.subrange(5, 8));
    assert(t6 =~= tail.subrange(6, 8));
    assert(t7 =~= tail.subrange(7, 8));
    assert(t7.drop_first() =~= Seq::<u8>::empty());
    assert(bytes_as_nat(t7.drop_first()) == 0);
    assert(t7.len() == 1 && t7[0] == tail[7]);
    assert(bytes_as_nat(t7) == tail[7] + 256 * 0);
    assert(bytes_as_nat(t6) == tail[6] + 256 * bytes_as_nat(t7));
    assert(bytes_as_nat(t5) == tail[5] + 256 * bytes_as_nat(t6));
    assert(bytes_as_nat(t4) == tail[4] + 256 * bytes_as_nat(t5));
    assert(bytes_as_nat(t3) == tail[3] + 256 * bytes_as_nat(t4));
    assert(bytes_as_nat(t2) == tail[2] + 256 * bytes_as_nat(t3));
    assert(bytes_as_nat(t1) == tail[1] + 256 * bytes_as_nat(t2));
    assert(bytes_as_nat(tail) == tail[0] + 256 * bytes_as_nat(t1));
    let b0 = (l & 0xff) as u8;
    let b1 = ((l >> 8) & 0xff) as u8;
    let b2 = ((l >> 16) & 0xff) as u8;
    let b3 = ((l >> 24) & 0xff) as u8;
    let b4 = ((l >> 32) & 0xff) as u8;
    let b5 = ((l >> 40) & 0xff) as u8;
    let b6 = ((l >> 48) & 0xff) as u8;
    let b7 = ((l >> 56) & 0xff) as u8;
    assert(b0 + 256 * (b1 + 256 * (b2 + 256 * (b3 + 256 * (b4 + 256 * (b5 + 256 * (b6 + 256 * (
    b7 + 256 * 0))))))) == l) by (bit_vector)
        requires
            b0 == (l & 0xff) as u8,
            b1 == ((l >> 8) & 0xff) as u8,
            b2 == ((l >> 16) & 0xff) as u8,
            b3 == ((l >> 24) & 0xff) as u8,
            b4 == ((l >> 32) & 0xff) as u8,
            b5 == ((l >> 40) & 0xff) as u8,
            b6 == ((l >> 48) & 0xff) as u8,
            b7 == ((l >> 56) & 0xff) as u8,
    ;
}

} // verus!
