//! Arbitrary-precision natural numbers and integers.
//!
//! A `Natural` holds its value as base-2^32 limbs, least significant first,
//! with no trailing zero limb.  The arithmetic itself is done by `num-bigint`;
//! each such operation is a small trusted wrapper whose contract states the
//! mathematical result, and everything around it is verified.
use vstd::prelude::*;
use vstd::arithmetic::div_mod::*;
use vstd::arithmetic::power::*;
use num_bigint::BigUint;
use num_bigint::BigInt;
use num_bigint::Sign;
use num_integer::Integer as NumInteger;
use num_traits::Num;

use crate::number_theory::{gcd, has_inverse_mod, lemma_inverse_witness, lemma_neg_mod, lemma_neg_mod_zero};

verus! {

/// The base of one limb.
pub open spec fn limb_base() -> nat {
    0x1_0000_0000
}

/// The value of a little-endian sequence of base-2^32 limbs.
pub open spec fn limbs_value(d: Seq<u32>) -> nat
    decreases d.len(),
{
    if d.len() == 0 {
        0
    } else {
        d[0] as nat + limb_base() * limbs_value(d.subrange(1, d.len() as int))
    }
}

/// The value of a big-endian byte string.
pub open spec fn be_bytes_value(b: Seq<u8>) -> nat
    decreases b.len(),
{
    if b.len() == 0 {
        0
    } else {
        be_bytes_value(b.drop_last()) * 256 + b.last() as nat
    }
}

/// The numeric value of a lower-case hexadecimal digit.
pub open spec fn hex_digit_value(c: char) -> nat {
    if '0' <= c && c <= '9' {
        (c as nat - '0' as nat) as nat
    } else {
        (c as nat - 'a' as nat + 10) as nat
    }
}

/// Whether `c` is one of `0-9a-f`.
pub open spec fn is_hex_digit(c: char) -> bool {
    ('0' <= c && c <= '9') || ('a' <= c && c <= 'f')
}

/// The value of a string of hexadecimal digits, most significant first.
pub open spec fn hex_value(s: Seq<char>) -> nat
    decreases s.len(),
{
    if s.len() == 0 {
        0
    } else {
        hex_value(s.drop_last()) * 16 + hex_digit_value(s.last())
    }
}

/// The decimal digit character of `d < 10`.
pub open spec fn decimal_digit(d: nat) -> char {
    ('0' as nat + d) as char
}

/// The decimal representation of `n`, without leading zeros ("0" for zero).
pub open spec fn decimal_string(n: nat) -> Seq<char>
    decreases n,
{
    if n < 10 {
        seq![decimal_digit(n)]
    } else {
        decimal_string(n / 10).push(decimal_digit(n % 10))
    }
}

/// Whether `s` is a non-empty string of lower-case hexadecimal digits.
pub open spec fn is_hex_string(s: Seq<char>) -> bool {
    s.len() > 0 && forall|i: int| 0 <= i < s.len() ==> is_hex_digit(#[trigger] s[i])
}

/// The value of a sign flag (true for negative) and a magnitude.
pub open spec fn signed_limbs_value(negative: bool, m: Seq<u32>) -> int {
    if negative {
        -(limbs_value(m) as int)
    } else {
        limbs_value(m) as int
    }
}

/// A limb sequence in canonical form: no trailing zero limb.
pub open spec fn canonical_limbs(d: Seq<u32>) -> bool {
    d.len() == 0 || d.last() != 0
}

/// An arbitrary-precision natural number.
#[derive(Debug, PartialEq, Eq, Hash)]
pub struct Natural {
    limbs: Vec<u32>,
}

impl View for Natural {
    type V = nat;

    closed spec fn view(&self) -> nat {
        limbs_value(self.limbs@)
    }
}

/// An arbitrary-precision signed integer: a sign and a magnitude.
#[derive(Debug, PartialEq, Eq, Hash)]
pub struct Integer {
    negative: bool,
    magnitude: Natural,
}

impl View for Integer {
    type V = int;

    closed spec fn view(&self) -> int {
        if self.negative {
            -(self.magnitude@ as int)
        } else {
            self.magnitude@ as int
        }
    }
}

// ---------------------------------------------------------------------------
// Lemmas about limb sequences
// ---------------------------------------------------------------------------

proof fn lemma_limbs_value_push_zero(d: Seq<u32>)
    ensures
        limbs_value(d.push(0u32)) == limbs_value(d),
    decreases d.len(),
{
    let e = d.push(0u32);
    if d.len() == 0 {
        assert(e.subrange(1, e.len() as int) =~= Seq::<u32>::empty());
        assert(limbs_value(e.subrange(1, e.len() as int)) == 0);
    } else {
        let t = d.subrange(1, d.len() as int);
        assert(e.subrange(1, e.len() as int) =~= t.push(0u32));
        lemma_limbs_value_push_zero(t);
        assert(e[0] == d[0]);
        assert(limbs_value(e) == e[0] as nat + limb_base() * limbs_value(t.push(0u32)));
        assert(limbs_value(d) == d[0] as nat + limb_base() * limbs_value(t));
    }
}

proof fn lemma_limbs_value_two(lo: u32, hi: u32)
    ensures
        limbs_value(seq![lo, hi]) == lo as nat + limb_base() * hi as nat,
{
    let s = seq![lo, hi];
    let t = s.subrange(1, 2);
    assert(t =~= seq![hi]);
    let u = t.subrange(1, 1);
    assert(u =~= Seq::<u32>::empty());
    assert(limbs_value(u) == 0);
    assert(limbs_value(t) == hi as nat);
}

// ---------------------------------------------------------------------------
// Trusted arithmetic on limb vectors, performed by num-bigint
// ---------------------------------------------------------------------------

/// `BigUint` multiplication: the limbs of the product of the two values.
#[verifier::external_body]
fn limbs_mul(a: &Vec<u32>, b: &Vec<u32>) -> (r: Vec<u32>)
    ensures
        limbs_value(r@) == limbs_value(a@) * limbs_value(b@),
{
    (BigUint::from_slice(a) * BigUint::from_slice(b)).to_u32_digits()
}

/// `BigUint` addition: the limbs of the sum of the two values.
#[verifier::external_body]
fn limbs_add(a: &Vec<u32>, b: &Vec<u32>) -> (r: Vec<u32>)
    ensures
        limbs_value(r@) == limbs_value(a@) + limbs_value(b@),
{
    (BigUint::from_slice(a) + BigUint::from_slice(b)).to_u32_digits()
}

/// `BigUint` subtraction, which panics on underflow; here `b <= a`.
#[verifier::external_body]
fn limbs_sub(a: &Vec<u32>, b: &Vec<u32>) -> (r: Vec<u32>)
    requires
        limbs_value(b@) <= limbs_value(a@),
    ensures
        limbs_value(r@) == limbs_value(a@) - limbs_value(b@),
{
    (BigUint::from_slice(a) - BigUint::from_slice(b)).to_u32_digits()
}

/// `BigUint` remainder `a % m`, which panics on a zero divisor; here `m > 0`.
#[verifier::external_body]
fn limbs_rem(a: &Vec<u32>, m: &Vec<u32>) -> (r: Vec<u32>)
    requires
        limbs_value(m@) > 0,
    ensures
        limbs_value(r@) == limbs_value(a@) % limbs_value(m@),
{
    (BigUint::from_slice(a) % BigUint::from_slice(m)).to_u32_digits()
}

/// `BigUint::modpow`: `(base ^ exponent) % modulus`; it panics on a zero modulus.
#[verifier::external_body]
fn limbs_modpow(base: &Vec<u32>, exponent: &Vec<u32>, modulus: &Vec<u32>) -> (r: Vec<u32>)
    requires
        limbs_value(modulus@) > 0,
    ensures
        limbs_value(r@) == pow(limbs_value(base@) as int, limbs_value(exponent@)) as nat
            % limbs_value(modulus@),
{
    BigUint::from_slice(base).modpow(&BigUint::from_slice(exponent), &BigUint::from_slice(modulus)).to_u32_digits()
}

/// `BigUint::modinv`: the `x` in `[0, modulus)` with `a * x = 1 (mod modulus)`, if one
/// exists; `None` exactly when none exists.  It panics on a zero modulus.
#[verifier::external_body]
fn limbs_modinv(a: &Vec<u32>, modulus: &Vec<u32>) -> (r: Option<Vec<u32>>)
    requires
        limbs_value(modulus@) > 0,
    ensures
        r matches Some(x) ==> limbs_value(x@) < limbs_value(modulus@) && (limbs_value(a@)
            * limbs_value(x@)) % limbs_value(modulus@) == 1nat % limbs_value(modulus@),
        r is None ==> !has_inverse_mod(limbs_value(a@), limbs_value(modulus@)),
{
    match BigUint::from_slice(a).modinv(&BigUint::from_slice(modulus)) {
        Some(x) => Some(x.to_u32_digits()),
        None => None,
    }
}

/// `BigUint` equality (`==`).
#[verifier::external_body]
fn limbs_eq(a: &Vec<u32>, b: &Vec<u32>) -> (r: bool)
    ensures
        r == (limbs_value(a@) == limbs_value(b@)),
{
    BigUint::from_slice(a) == BigUint::from_slice(b)
}

/// `BigUint` ordering (`<`).
#[verifier::external_body]
fn limbs_lt(a: &Vec<u32>, b: &Vec<u32>) -> (r: bool)
    ensures
        r == (limbs_value(a@) < limbs_value(b@)),
{
    BigUint::from_slice(a) < BigUint::from_slice(b)
}

/// `Integer::gcd` on `BigUint`: the greatest common divisor.
#[verifier::external_body]
fn limbs_gcd(a: &Vec<u32>, b: &Vec<u32>) -> (r: Vec<u32>)
    ensures
        limbs_value(r@) == gcd(limbs_value(a@), limbs_value(b@)),
{
    BigUint::from_slice(a).gcd(&BigUint::from_slice(b)).to_u32_digits()
}

/// `BigUint::from_bytes_be`: the value of a big-endian byte string.
#[verifier::external_body]
fn limbs_from_bytes_be(bytes: &[u8]) -> (r: Vec<u32>)
    ensures
        limbs_value(r@) == be_bytes_value(bytes@),
{
    BigUint::from_bytes_be(bytes).to_u32_digits()
}

/// `BigUint::to_str_radix(10)`: the decimal representation of the value.
#[verifier::external_body]
fn limbs_to_decimal(a: &Vec<u32>) -> (r: String)
    ensures
        r@ == decimal_string(limbs_value(a@)),
{
    BigUint::from_slice(a).to_str_radix(10)
}

/// `BigUint::from_str_radix(s, 16)`.  On a non-empty string of lower-case
/// hexadecimal digits it returns that number; what it returns on other strings
/// (signs, underscores, upper case) is left unsaid here.
#[verifier::external_body]
fn limbs_from_hex(s: &str) -> (r: Option<Vec<u32>>)
    ensures
        is_hex_string(s@) ==> r is Some && limbs_value(r->0@) == hex_value(s@),
{
    match BigUint::from_str_radix(s, 16) {
        Ok(v) => Some(v.to_u32_digits()),
        Err(_) => None,
    }
}

/// The result of `Integer::extended_gcd` on two non-negative `BigInt`s, as the
/// pair of Bézout coefficients `(x, y)`.
pub uninterp spec fn bezout_coefficients(a: nat, b: nat) -> (int, int);

/// `Integer::extended_gcd` on `BigInt`: the gcd (which is non-negative) and the
/// Bézout coefficients `x`, `y` with `x * a + y * b == gcd`.
/// Each coefficient comes back as a sign flag and the limbs of its magnitude.
#[verifier::external_body]
fn limbs_extended_gcd(a: &Vec<u32>, b: &Vec<u32>) -> (r: (Vec<u32>, (bool, Vec<u32>), (bool, Vec<u32>)))
    ensures
        limbs_value(r.0@) == gcd(limbs_value(a@), limbs_value(b@)),
        (signed_limbs_value(r.1.0, r.1.1@), signed_limbs_value(r.2.0, r.2.1@))
            == bezout_coefficients(limbs_value(a@), limbs_value(b@)),
        signed_limbs_value(r.1.0, r.1.1@) * limbs_value(a@) + signed_limbs_value(r.2.0, r.2.1@)
            * limbs_value(b@) == gcd(limbs_value(a@), limbs_value(b@)),
{
    let e = BigInt::from(BigUint::from_slice(a)).extended_gcd(&BigInt::from(BigUint::from_slice(b)));
    let (xs, xm) = e.x.into_parts();
    let (ys, ym) = e.y.into_parts();
    (e.gcd.into_parts().1.to_u32_digits(), (xs == Sign::Minus, xm.to_u32_digits()), (ys == Sign::Minus, ym.to_u32_digits()))
}

// ---------------------------------------------------------------------------
// Natural
// ---------------------------------------------------------------------------

impl Natural {
    #[verifier::type_invariant]
    spec fn limbs_canonical(self) -> bool {
        canonical_limbs(self.limbs@)
    }

    /// Builds a natural from limbs, dropping trailing zero limbs.
    pub(crate) fn from_limbs(limbs: Vec<u32>) -> (r: Natural)
        ensures
            r@ == limbs_value(limbs@),
    {
        let mut v = limbs;
        let ghost orig = v@;
        while v.len() > 0 && v[v.len() - 1] == 0
            invariant
                limbs_value(v@) == limbs_value(orig),
            decreases v.len(),
        {
            let ghost before = v@;
            v.pop();
            proof {
                assert(before =~= v@.push(0u32));
                lemma_limbs_value_push_zero(v@);
            }
        }
        Natural { limbs: v }
    }

    /// The limbs, least significant first.
    pub(crate) fn limbs(&self) -> (r: &Vec<u32>)
        ensures
            limbs_value(r@) == self@,
    {
        &self.limbs
    }

    /// Zero.
    pub fn zero() -> (r: Natural)
        ensures
            r@ == 0,
    {
        Natural { limbs: Vec::new() }
    }

    /// One.
    pub fn one() -> (r: Natural)
        ensures
            r@ == 1,
    {
        Natural::from_u64(1)
    }

    /// The natural with the value of `x`.
    pub fn from_u64(x: u64) -> (r: Natural)
        ensures
            r@ == x as nat,
    {
        let lo: u32 = (x % 0x1_0000_0000) as u32;
        let hi: u32 = (x / 0x1_0000_0000) as u32;
        let mut v: Vec<u32> = Vec::new();
        v.push(lo);
        v.push(hi);
        proof {
            assert(v@ =~= seq![lo, hi]);
            lemma_limbs_value_two(lo, hi);
            lemma_fundamental_div_mod(x as int, 0x1_0000_0000);
        }
        Natural::from_limbs(v)
    }

    /// The natural whose big-endian bytes are `bytes`.
    pub fn from_bytes_be(bytes: &[u8]) -> (r: Natural)
        ensures
            r@ == be_bytes_value(bytes@),
    {
        Natural::from_limbs(limbs_from_bytes_be(bytes))
    }

    /// Parses a string of lower-case hexadecimal digits.  On a non-empty string
    /// of such digits the result is its value.
    pub fn from_hex(s: &str) -> (r: Option<Natural>)
        ensures
                is_hex_string(s@) ==> r is Some && r->0@ == hex_value(s@),
    {
        match limbs_from_hex(s) {
            Some(v) => Some(Natural::from_limbs(v)),
            None => None,
        }
    }

    /// The decimal representation.
    pub fn to_decimal(&self) -> (r: String)
        ensures
            r@ == decimal_string(self@),
    {
        limbs_to_decimal(&self.limbs)
    }

    /// A copy of this number.
    pub fn copy(&self) -> (r: Natural)
        ensures
            r@ == self@,
    {
        proof {
            use_type_invariant(self);
        }
        let mut v: Vec<u32> = Vec::new();
        let n = self.limbs.len();
        for i in 0..n
            invariant
                n == self.limbs@.len(),
                v@ =~= self.limbs@.subrange(0, i as int),
        {
            v.push(self.limbs[i]);
        }
        proof {
            assert(v@ =~= self.limbs@);
        }
        Natural { limbs: v }
    }

    /// Whether the number is zero.
    pub fn is_zero(&self) -> (r: bool)
        ensures
            r == (self@ == 0),
    {
        proof {
            use_type_invariant(self);
            if self.limbs@.len() > 0 {
                lemma_canonical_positive(self.limbs@);
            }
        }
        self.limbs.len() == 0
    }

    /// Whether the number is even.
    pub fn is_even(&self) -> (r: bool)
        ensures
            r == (self@ % 2 == 0),
    {
        if self.limbs.len() == 0 {
            true
        } else {
            proof {
                let d = self.limbs@;
                let t = d.subrange(1, d.len() as int);
                assert(self@ == d[0] as nat + limb_base() * limbs_value(t));
                assert((d[0] as nat + 0x1_0000_0000 * limbs_value(t)) % 2 == (d[0] as nat) % 2)
                    by (nonlinear_arith);
            }
            self.limbs[0] % 2 == 0
        }
    }

    /// `self == other`.
    pub fn equals(&self, other: &Natural) -> (r: bool)
        ensures
            r == (self@ == other@),
    {
        limbs_eq(&self.limbs, &other.limbs)
    }

    /// `self < other`.
    pub fn less_than(&self, other: &Natural) -> (r: bool)
        ensures
            r == (self@ < other@),
    {
        limbs_lt(&self.limbs, &other.limbs)
    }

    /// `self + other`.
    pub fn add(&self, other: &Natural) -> (r: Natural)
        ensures
            r@ == self@ + other@,
    {
        Natural::from_limbs(limbs_add(&self.limbs, &other.limbs))
    }

    /// `self - other`, for `other <= self`.
    pub fn sub(&self, other: &Natural) -> (r: Natural)
        requires
            other@ <= self@,
        ensures
            r@ == self@ - other@,
    {
        Natural::from_limbs(limbs_sub(&self.limbs, &other.limbs))
    }

    /// `self * other`.
    pub fn mul(&self, other: &Natural) -> (r: Natural)
        ensures
            r@ == self@ * other@,
    {
        Natural::from_limbs(limbs_mul(&self.limbs, &other.limbs))
    }

    /// `self % modulus`, for a positive modulus.
    pub fn rem(&self, modulus: &Natural) -> (r: Natural)
        requires
            modulus@ > 0,
        ensures
            r@ == self@ % modulus@,
    {
        Natural::from_limbs(limbs_rem(&self.limbs, &modulus.limbs))
    }

    /// `self ^ exponent % modulus`, for a positive modulus.
    pub fn modpow(&self, exponent: &Natural, modulus: &Natural) -> (r: Natural)
        requires
            modulus@ > 0,
        ensures
            r@ == pow(self@ as int, exponent@) as nat % modulus@,
    {
        Natural::from_limbs(limbs_modpow(&self.limbs, &exponent.limbs, &modulus.limbs))
    }

    /// The inverse of `self` modulo `modulus`: the `x < modulus` with
    /// `self * x = 1 (mod modulus)`, or `None` when there is none.
    pub fn modinv(&self, modulus: &Natural) -> (r: Option<Natural>)
        requires
            modulus@ > 0,
        ensures
            r matches Some(x) ==> x@ < modulus@ && (self@ * x@) % modulus@ == 1nat % modulus@,
            r is None <==> !has_inverse_mod(self@, modulus@),
    {
        match limbs_modinv(&self.limbs, &modulus.limbs) {
            Some(v) => {
                let x = Natural::from_limbs(v);
                proof {
                    assert(has_inverse_mod(self@, modulus@)) by {
                        lemma_inverse_witness(self@, modulus@, x@);
                    }
                }
                Some(x)
            },
            None => None,
        }
    }

    /// The greatest common divisor of `self` and `other`.
    pub fn gcd(&self, other: &Natural) -> (r: Natural)
        ensures
            r@ == gcd(self@, other@),
    {
        Natural::from_limbs(limbs_gcd(&self.limbs, &other.limbs))
    }

    /// The gcd of `self` and `other` with the Bézout coefficients `x`, `y`:
    /// `x * self + y * other == gcd`.
    pub fn extended_gcd(&self, other: &Natural) -> (r: (Natural, Integer, Integer))
        ensures
            r.0@ == gcd(self@, other@),
            (r.1@, r.2@) == bezout_coefficients(self@, other@),
            r.1@ * self@ + r.2@ * other@ == gcd(self@, other@),
    {
        let (g, (xn, xm), (yn, ym)) = limbs_extended_gcd(&self.limbs, &other.limbs);
        let x = Integer { negative: xn, magnitude: Natural::from_limbs(xm) };
        let y = Integer { negative: yn, magnitude: Natural::from_limbs(ym) };
        (Natural::from_limbs(g), x, y)
    }
}

proof fn lemma_canonical_positive(d: Seq<u32>)
    requires
        d.len() > 0,
        d.last() != 0,
    ensures
        limbs_value(d) > 0,
    decreases d.len(),
{
    let t = d.subrange(1, d.len() as int);
    if d.len() > 1 {
        assert(t.last() == d.last());
        lemma_canonical_positive(t);
        assert(limb_base() * limbs_value(t) > 0) by (nonlinear_arith)
            requires
                limbs_value(t) > 0,
                limb_base() > 0,
        ;
    } else {
        assert(d[0] == d.last());
    }
}

impl Clone for Natural {
    fn clone(&self) -> (r: Self)
        ensures
            r@ == self@,
    {
        self.copy()
    }
}

impl Clone for Integer {
    fn clone(&self) -> (r: Self)
        ensures
            r@ == self@,
    {
        self.copy()
    }
}

// ---------------------------------------------------------------------------
// Integer
// ---------------------------------------------------------------------------

impl Integer {
    /// The integer with the value of the natural `n`.
    pub fn from_natural(n: &Natural) -> (r: Integer)
        ensures
            r@ == n@ as int,
    {
        Integer { negative: false, magnitude: n.copy() }
    }

    /// The integer with the given sign (true for negative) and magnitude.
    pub fn from_sign_magnitude(negative: bool, magnitude: Natural) -> (r: Integer)
        ensures
            r@ == (if negative { -(magnitude@ as int) } else { magnitude@ as int }),
    {
        Integer { negative, magnitude }
    }

    /// The integer with the value `x`.
    pub fn from_i64(x: i64) -> (r: Integer)
        ensures
            r@ == x as int,
    {
        if x < 0 {
            let m: u64 = if x == i64::MIN { 0x8000_0000_0000_0000u64 } else { (-x) as u64 };
            Integer { negative: true, magnitude: Natural::from_u64(m) }
        } else {
            Integer { negative: false, magnitude: Natural::from_u64(x as u64) }
        }
    }

    /// Whether the integer is negative.
    pub fn is_negative(&self) -> (r: bool)
        ensures
            r == (self@ < 0),
    {
        if self.negative {
            !self.magnitude.is_zero()
        } else {
            false
        }
    }

    /// The absolute value.
    pub fn magnitude(&self) -> (r: Natural)
        ensures
            r@ as int == (if self@ < 0 { -self@ } else { self@ }),
    {
        self.magnitude.copy()
    }

    /// A copy of this integer.
    pub fn copy(&self) -> (r: Integer)
        ensures
            r@ == self@,
    {
        Integer { negative: self.negative, magnitude: self.magnitude.copy() }
    }

    /// The Euclidean remainder of `self` by a positive modulus, in `[0, modulus)`.
    pub fn rem_euclid(&self, modulus: &Natural) -> (r: Natural)
        requires
            modulus@ > 0,
        ensures
            r@ as int == self@ % (modulus@ as int),
    {
        let m = self.magnitude.rem(modulus);
        if !self.negative || m.is_zero() {
            proof {
                if self.negative {
                    lemma_neg_mod_zero(self.magnitude@ as int, modulus@ as int);
                }
            }
            m
        } else {
            proof {
                lemma_neg_mod(self.magnitude@ as int, modulus@ as int);
            }
            modulus.sub(&m)
        }
    }

    /// The integer `self * other` for a natural `other`.
    pub fn mul_natural(&self, other: &Natural) -> (r: Integer)
        ensures
            r@ == self@ * other@,
    {
        let m = self.magnitude.mul(other);
        proof {
            if self.negative {
                assert(-(self.magnitude@ as int) * (other@ as int) == -((self.magnitude@ * other@) as int))
                    by (nonlinear_arith);
            }
        }
        Integer { negative: self.negative, magnitude: m }
    }
}

} // verus!
