//! Arbitrary-precision unsigned integers for the chain engine.
//!
//! A `BigNum` stores little-endian base-256 digits and is modelled in
//! specifications by the natural number `le_nat` of its digit sequence.
//! Arithmetic that the engine needs from the big-integer substrate (addition,
//! halving, equality, bit length) is obtained from `num_bigint` through
//! trusted wrappers whose contracts speak over that model.

use vstd::prelude::*;
use num_bigint::BigUint;
use num_traits::One;

verus! {

/// The natural number denoted by a little-endian base-256 digit sequence.
pub open spec fn le_nat(s: Seq<u8>) -> nat
    decreases s.len(),
{
    if s.len() == 0 {
        0
    } else {
        s[0] as nat + 256 * le_nat(s.subrange(1, s.len() as int))
    }
}

/// 256 raised to the power `k`.
pub open spec fn p256(k: nat) -> nat
    decreases k,
{
    if k == 0 {
        1
    } else {
        256 * p256((k - 1) as nat)
    }
}

/// An arbitrary-precision unsigned integer: little-endian base-256 digits.
/// Trailing zero digits are allowed and do not change the value.
pub struct BigNum {
    /// Little-endian base-256 digits of the value.
    pub bytes: Vec<u8>,
}

impl View for BigNum {
    type V = nat;

    open spec fn view(&self) -> nat {
        le_nat(self.bytes@)
    }
}

/// The values of a sequence of big numbers.
pub open spec fn vals(c: Seq<BigNum>) -> Seq<nat> {
    Seq::new(c.len(), |i: int| c[i]@)
}

/// Appending a big number appends its value to the value sequence.
pub proof fn lemma_vals_push(s: Seq<BigNum>, x: BigNum)
    ensures
        vals(s.push(x)) == vals(s).push(x@),
{
    assert(vals(s.push(x)) =~= vals(s).push(x@));
}

/// Appending a digit adds its value scaled by 256^(old length).
pub proof fn lemma_le_nat_push(s: Seq<u8>, b: u8)
    ensures
        le_nat(s.push(b)) == le_nat(s) + (b as nat) * p256(s.len()),
    decreases s.len(),
{
    if s.len() == 0 {
        assert(s.push(b).subrange(1, 1) =~= Seq::<u8>::empty());
        assert(le_nat(Seq::<u8>::empty()) == 0);
        assert(le_nat(s) == 0);
        assert(p256(0) == 1);
        assert(s.push(b)[0] == b);
        assert(le_nat(s.push(b)) == b as nat + 256 * le_nat(s.push(b).subrange(1, 1)));
        assert((b as nat) * p256(s.len()) == b as nat) by (nonlinear_arith)
            requires
                p256(s.len()) == 1,
        ;
    } else {
        let t = s.subrange(1, s.len() as int);
        assert(s.push(b).subrange(1, s.len() as int + 1) =~= t.push(b));
        lemma_le_nat_push(t, b);
        assert(256 * (le_nat(t) + (b as nat) * p256(t.len())) == 256 * le_nat(t) + (b as nat)
            * (256 * p256(t.len()))) by (nonlinear_arith);
    }
}

/// A digit sequence denotes a value below 256^(its length).
pub proof fn lemma_le_nat_bound(s: Seq<u8>)
    ensures
        le_nat(s) < p256(s.len()),
    decreases s.len(),
{
    if s.len() > 0 {
        let t = s.subrange(1, s.len() as int);
        lemma_le_nat_bound(t);
        assert(256 * le_nat(t) <= 256 * (p256(t.len()) - 1)) by (nonlinear_arith)
            requires
                le_nat(t) <= p256(t.len()) - 1,
        ;
    }
}

/// The parity of the value is the parity of the lowest digit.
pub proof fn lemma_le_nat_parity(s: Seq<u8>)
    requires
        s.len() > 0,
    ensures
        le_nat(s) % 2 == (s[0] as nat) % 2,
{
    let r = le_nat(s.subrange(1, s.len() as int));
    assert(le_nat(s) == 2 * (128 * r) + s[0] as nat) by (nonlinear_arith)
        requires
            le_nat(s) == s[0] as nat + 256 * r,
    ;
    vstd::arithmetic::div_mod::lemma_mod_multiples_vanish(128 * r as int, s[0] as int, 2);
}

/// 256^k is monotone in `k`.
pub proof fn lemma_p256_mono(a: nat, b: nat)
    requires
        a <= b,
    ensures
        p256(a) <= p256(b),
    decreases b,
{
    if a < b {
        lemma_p256_mono(a, (b - 1) as nat);
        assert(p256((b - 1) as nat) <= 256 * p256((b - 1) as nat)) by (nonlinear_arith)
            requires
                p256((b - 1) as nat) >= 0,
        ;
    }
}

/// 256^k is at least 1.
pub proof fn lemma_p256_pos(k: nat)
    ensures
        p256(k) >= 1,
    decreases k,
{
    if k > 0 {
        lemma_p256_pos((k - 1) as nat);
    }
}

impl BigNum {
    /// The big number with the given `u64` value.
    pub fn from_u64(v: u64) -> (r: BigNum)
        ensures
            r@ == v as nat,
    {
        let mut bytes: Vec<u8> = Vec::new();
        let mut x: u64 = v;
        proof {
            assert(bytes@ =~= Seq::<u8>::empty());
            assert(le_nat(bytes@) == 0);
            assert(p256(0) == 1);
        }
        while x > 0
            invariant
                le_nat(bytes@) + (x as nat) * p256(bytes@.len()) == v as nat,
            decreases x,
        {
            let b: u8 = (x % 256) as u8;
            let x2: u64 = x / 256;
            proof {
                lemma_le_nat_push(bytes@, b);
                assert((x as nat) * p256(bytes@.len()) == (b as nat) * p256(bytes@.len()) + (
                x2 as nat) * (256 * p256(bytes@.len()))) by (nonlinear_arith)
                    requires
                        x as nat == b as nat + 256 * (x2 as nat),
                ;
            }
            bytes.push(b);
            x = x2;
        }
        BigNum { bytes }
    }

    /// The big number denoted by little-endian base-256 digits.
    pub fn from_bytes_le(bytes: Vec<u8>) -> (r: BigNum)
        ensures
            r@ == le_nat(bytes@),
    {
        BigNum { bytes }
    }

    /// A copy of this big number with the same value.
    pub fn dup(&self) -> (r: BigNum)
        ensures
            r@ == self@,
    {
        let mut bytes: Vec<u8> = Vec::new();
        let mut i: usize = 0;
        while i < self.bytes.len()
            invariant
                i <= self.bytes@.len(),
                bytes@ == self.bytes@.subrange(0, i as int),
            decreases self.bytes@.len() - i,
        {
            bytes.push(self.bytes[i]);
            proof {
                assert(self.bytes@.subrange(0, i as int).push(self.bytes@[i as int])
                    =~= self.bytes@.subrange(0, i as int + 1));
            }
            i = i + 1;
        }
        proof {
            assert(bytes@ =~= self.bytes@);
        }
        BigNum { bytes }
    }

    /// Whether the value is even.
    pub fn is_even(&self) -> (r: bool)
        ensures
            r == (self@ % 2 == 0),
    {
        if self.bytes.len() == 0 {
            true
        } else {
            proof {
                lemma_le_nat_parity(self.bytes@);
            }
            self.bytes[0] % 2 == 0
        }
    }

    /// The value less one, for an odd value.
    pub fn dec_one(&self) -> (r: BigNum)
        requires
            self@ % 2 == 1,
        ensures
            r@ == self@ - 1,
    {
        proof {
            if self.bytes@.len() == 0 {
                assert(self@ == 0);
            }
            lemma_le_nat_parity(self.bytes@);
        }
        let mut bytes: Vec<u8> = Vec::new();
        let b0: u8 = self.bytes[0];
        bytes.push(b0 - 1);
        let mut i: usize = 1;
        while i < self.bytes.len()
            invariant
                1 <= i <= self.bytes@.len(),
                bytes@.len() == i,
                bytes@[0] == self.bytes@[0] - 1,
                forall|t: int| 1 <= t < i ==> bytes@[t] == self.bytes@[t],
            decreases self.bytes@.len() - i,
        {
            bytes.push(self.bytes[i]);
            i = i + 1;
        }
        proof {
            assert(bytes@.subrange(1, bytes@.len() as int)
                =~= self.bytes@.subrange(1, self.bytes@.len() as int));
        }
        BigNum { bytes }
    }

    /// The value as a `u64`, where it fits.
    pub fn to_u64(&self) -> (r: Option<u64>)
        ensures
            self@ <= u64::MAX ==> r == Some(self@ as u64),
            self@ > u64::MAX ==> r is None,
    {
        proof {
            reveal_with_fuel(p256, 9);
        }
        let mut acc: u64 = 0;
        let mut factor: u64 = 1;
        let mut i: usize = 0;
        while i < self.bytes.len()
            invariant
                i <= self.bytes@.len(),
                acc as nat == le_nat(self.bytes@.subrange(0, i as int)),
                i < 8 ==> factor as nat == p256(i as nat),
                i < 8 ==> (acc as nat) < p256(i as nat),
                i >= 8 ==> (acc as nat) < p256(8),
                p256(8) == 0x1_0000_0000_0000_0000,
            decreases self.bytes@.len() - i,
        {
            let prefix = Ghost(self.bytes@.subrange(0, i as int));
            proof {
                assert(prefix@.push(self.bytes@[i as int])
                    =~= self.bytes@.subrange(0, i as int + 1));
                lemma_le_nat_push(prefix@, self.bytes@[i as int]);
            }
            if i < 8 {
                let b: u8 = self.bytes[i];
                proof {
                    lemma_le_nat_bound(self.bytes@.subrange(0, i as int + 1));
                    lemma_p256_mono(i as nat + 1, 8);
                    assert((b as nat) * p256(i as nat) == (b as nat) * (factor as nat));
                }
                acc = acc + (b as u8 as u64) * factor;
                if i + 1 < 8 {
                    proof {
                        lemma_p256_mono(i as nat + 1, 7);
                    }
                    factor = factor * 256;
                }
            } else {
                let b: u8 = self.bytes[i];
                if b != 0 {
                    proof {
                        let full = self.bytes@;
                        let rest = full.subrange(i as int, full.len() as int);
                        lemma_le_nat_split(full, i as int);
                        lemma_p256_mono(8, i as nat);
                        lemma_p256_pos(i as nat);
                        assert(rest.len() > 0 && rest[0] == b);
                        assert(le_nat(rest) >= b as nat);
                        assert(p256(i as nat) * le_nat(rest) >= p256(i as nat) * 1) by (
                        nonlinear_arith)
                            requires
                                le_nat(rest) >= 1,
                                p256(i as nat) >= 1,
                        ;
                    }
                    return None;
                }
                proof {
                    assert(self.bytes@[i as int] == 0);
                    assert((self.bytes@[i as int] as nat) * p256(prefix@.len()) == 0) by (
                    nonlinear_arith)
                        requires
                            self.bytes@[i as int] == 0,
                    ;
                    assert(le_nat(prefix@.push(self.bytes@[i as int])) == le_nat(prefix@));
                    assert(le_nat(self.bytes@.subrange(0, i as int + 1)) == acc as nat);
                }
            }
            i = i + 1;
        }
        proof {
            assert(self.bytes@.subrange(0, self.bytes@.len() as int) =~= self.bytes@);
        }
        Some(acc)
    }
}

/// A digit sequence splits at any index into prefix plus scaled suffix.
pub proof fn lemma_le_nat_split(s: Seq<u8>, k: int)
    requires
        0 <= k <= s.len(),
    ensures
        le_nat(s) == le_nat(s.subrange(0, k)) + p256(k as nat) * le_nat(
            s.subrange(k, s.len() as int),
        ),
    decreases k,
{
    if k == 0 {
        assert(s.subrange(0, 0) =~= Seq::<u8>::empty());
        assert(s.subrange(0, s.len() as int) =~= s);
        assert(le_nat(Seq::<u8>::empty()) == 0);
        assert(p256(0) == 1);
        assert(p256(0) * le_nat(s) == le_nat(s)) by (nonlinear_arith)
            requires
                p256(0) == 1,
        ;
    } else {
        let t = s.subrange(1, s.len() as int);
        lemma_le_nat_split(t, k - 1);
        assert(s.subrange(0, k).subrange(1, k) =~= t.subrange(0, k - 1));
        assert(t.subrange(k - 1, t.len() as int) =~= s.subrange(k, s.len() as int));
        let pre = t.subrange(0, k - 1);
        let suf = s.subrange(k, s.len() as int);
        assert(le_nat(s) == s[0] as nat + 256 * (le_nat(pre) + p256((k - 1) as nat) * le_nat(suf)));
        assert(256 * (le_nat(pre) + p256((k - 1) as nat) * le_nat(suf)) == 256 * le_nat(pre) + (256
            * p256((k - 1) as nat)) * le_nat(suf)) by (nonlinear_arith);
        assert(p256(k as nat) == 256 * p256((k - 1) as nat));
        assert(s.subrange(0, k)[0] == s[0]);
        assert(le_nat(s.subrange(0, k)) == s[0] as nat + 256 * le_nat(pre));
    }
}

/// Relies on `BigUint::from_bytes_le`, `+` on `BigUint`, and
/// `BigUint::to_bytes_le`: the sum of the two little-endian values, written
/// back in little-endian digits.
#[verifier::external_body]
pub(crate) fn big_add(a: &BigNum, b: &BigNum) -> (r: BigNum)
    ensures
        r@ == a@ + b@,
{
    let x = BigUint::from_bytes_le(&a.bytes) + BigUint::from_bytes_le(&b.bytes);
    BigNum { bytes: x.to_bytes_le() }
}

/// Relies on `BigUint::from_bytes_le`, `>>` on `BigUint` (a right shift by one
/// bit halves the value, rounding down), and `BigUint::to_bytes_le`.
#[verifier::external_body]
pub(crate) fn big_half(a: &BigNum) -> (r: BigNum)
    ensures
        r@ == a@ / 2,
{
    let x = BigUint::from_bytes_le(&a.bytes) >> 1u32;
    BigNum { bytes: x.to_bytes_le() }
}

/// Relies on `BigUint::from_bytes_le`, `*` on `BigUint`, and
/// `BigUint::to_bytes_le`: the product of the two little-endian values,
/// written back in little-endian digits.
#[verifier::external_body]
pub(crate) fn big_mul(a: &BigNum, b: &BigNum) -> (r: BigNum)
    ensures
        r@ == a@ * b@,
{
    let x = BigUint::from_bytes_le(&a.bytes) * BigUint::from_bytes_le(&b.bytes);
    BigNum { bytes: x.to_bytes_le() }
}

/// Relies on `BigUint::from_bytes_le`, `/` on `BigUint` (floor division, which
/// panics on a zero divisor), and `BigUint::to_bytes_le`.
#[verifier::external_body]
pub(crate) fn big_div(a: &BigNum, b: &BigNum) -> (r: BigNum)
    requires
        b@ > 0,
    ensures
        r@ == a@ / b@,
{
    let x = BigUint::from_bytes_le(&a.bytes) / BigUint::from_bytes_le(&b.bytes);
    BigNum { bytes: x.to_bytes_le() }
}

/// Relies on `BigUint::from_bytes_le`, `%` on `BigUint` (Euclidean remainder,
/// which panics on a zero divisor), and `BigUint::to_bytes_le`.
#[verifier::external_body]
pub(crate) fn big_rem(a: &BigNum, b: &BigNum) -> (r: BigNum)
    requires
        b@ > 0,
    ensures
        r@ == a@ % b@,
{
    let x = BigUint::from_bytes_le(&a.bytes) % BigUint::from_bytes_le(&b.bytes);
    BigNum { bytes: x.to_bytes_le() }
}

/// Relies on `BigUint::from_bytes_le` and `num_traits::One::is_one`: whether
/// the little-endian value equals one.
#[verifier::external_body]
pub(crate) fn big_is_one(a: &BigNum) -> (r: bool)
    ensures
        r == (a@ == 1),
{
    BigUint::from_bytes_le(&a.bytes).is_one()
}

/// Relies on `BigUint::from_bytes_le` and `==` on `BigUint`: whether the two
/// little-endian values are equal.
#[verifier::external_body]
pub(crate) fn big_eq(a: &BigNum, b: &BigNum) -> (r: bool)
    ensures
        r == (a@ == b@),
{
    BigUint::from_bytes_le(&a.bytes) == BigUint::from_bytes_le(&b.bytes)
}

/// Relies on `BigUint::from_bytes_le` and `BigUint::bits`: the fewest bits
/// needed to express the value, which is `bit_len` of the value.
#[verifier::external_body]
pub(crate) fn big_bits(a: &BigNum) -> (r: u64)
    ensures
        r as nat == crate::bounds::bit_len(a@),
{
    BigUint::from_bytes_le(&a.bytes).bits()
}

} // verus!
