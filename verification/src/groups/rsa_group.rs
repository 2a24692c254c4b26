//! The RSA group: integers modulo `n = p * q` under multiplication.
use vstd::prelude::*;
use vstd::arithmetic::div_mod::*;
use vstd::arithmetic::mul::*;
use vstd::arithmetic::power::*;
use vstd::arithmetic::power2::*;
use num_bigint::BigUint;
use num_bigint::RandBigInt;

use crate::hashing::{hash_bytes_to_prime, hashed_prime};
use crate::natural::{Natural, Integer, limbs_value, decimal_string};
use crate::number_theory::{
    has_inverse_mod,
    lemma_inverse_unique,
    lemma_mul_mod_assoc,
    lemma_pow_mod_adds,
    lemma_pow_mod_pow,
    lemma_pow_nonneg,
    lemma_pow_one_mod,
};
use crate::traits::Group;

verus! {

/// The bit length of each safe prime of a generated modulus.
pub const KEY_SIZE: usize = 256;

/// `glass_pumpkin::safe_prime::from_rng` with the thread-local generator: a random
/// safe prime of exactly `bits` bits.  It fails only for `bits < 128`.
/// That the number is prime is not stated: the test behind it is probabilistic.
#[verifier::external_body]
fn random_safe_prime(bits: usize) -> (r: Vec<u32>)
    requires
        bits >= 128,
    ensures
        pow2((bits - 1) as nat) <= limbs_value(r@) < pow2(bits as nat),
{
    glass_pumpkin::safe_prime::from_rng(bits, &mut rand::thread_rng()).unwrap().to_u32_digits()
}

/// `RandBigInt::gen_biguint_range` with the thread-local generator: a random
/// number in `[low, high)`; here `low < high`.
#[verifier::external_body]
fn random_in_range(low: &Vec<u32>, high: &Vec<u32>) -> (r: Vec<u32>)
    requires
        limbs_value(low@) < limbs_value(high@),
    ensures
        limbs_value(low@) <= limbs_value(r@) < limbs_value(high@),
{
    rand::thread_rng().gen_biguint_range(&BigUint::from_slice(low), &BigUint::from_slice(high)).to_u32_digits()
}

/// A random safe prime of `bits` bits.
fn safe_prime(bits: usize) -> (r: Natural)
    requires
        bits >= 128,
    ensures
        r@ >= 2,
        pow2((bits - 1) as nat) <= r@ < pow2(bits as nat),
{
    let v = random_safe_prime(bits);
    proof {
        lemma_pow2_strictly_increases(1, (bits - 1) as nat);
        lemma2_to64();
    }
    let r = Natural::from_limbs(v);
    r
}

/// A random number in `[low, high)`.
fn random_below(low: &Natural, high: &Natural) -> (r: Natural)
    requires
        low@ < high@,
    ensures
        low@ <= r@ < high@,
{
    Natural::from_limbs(random_in_range(low.limbs(), high.limbs()))
}

/// The multiplicative group modulo `n` with a chosen generator `g`, and
/// optionally the order `totient` used to reduce exponents.
#[derive(Debug)]
pub struct RsaGroup {
    n: Natural,
    g: Natural,
    totient: Option<Natural>,
}

impl Clone for RsaGroup {
    fn clone(&self) -> (r: Self)
        ensures
            r.modulus() == self.modulus(),
            r.generator_value() == self.generator_value(),
            r.totient_value() == self.totient_value(),
    {
        RsaGroup { n: self.n.copy(), g: self.g.copy(), totient: self.copy_totient() }
    }
}

/// The inverse of `a` modulo `n`, when it has one.
pub open spec fn inverse_mod(a: nat, n: nat) -> nat {
    if has_inverse_mod(a, n) {
        choose|x: nat| x < n && #[trigger] ((a * x) % n) == 1nat % n
    } else {
        0
    }
}

proof fn lemma_inverse_mod(a: nat, n: nat)
    requires
        n > 1,
        has_inverse_mod(a, n),
    ensures
        inverse_mod(a, n) < n,
        (a * inverse_mod(a, n)) % n == 1,
{
    let x = choose|x: nat| #[trigger] ((a * x) % n) == 1nat % n;
    let y = x % n;
    lemma_mul_mod_noop_right(a as int, x as int, n as int);
    lemma_small_mod(1, n);
    assert((a * y) % n == 1nat % n);
    assert(y < n);
}

/// `group` is what generation gives for the primes `p` and `q`: both of
/// `KEY_SIZE` bits, the modulus `p * q`, and the order `(p - 1) * (q - 1)` kept
/// exactly when `with_totient`.
pub open spec fn generated_from(group: RsaGroup, p: nat, q: nat, with_totient: bool) -> bool {
    &&& pow2((KEY_SIZE - 1) as nat) <= p < pow2(KEY_SIZE as nat)
    &&& pow2((KEY_SIZE - 1) as nat) <= q < pow2(KEY_SIZE as nat)
    &&& group.modulus() == p * q
    &&& group.totient_value() == if with_totient {
        Some(((p - 1) * (q - 1)) as nat)
    } else {
        None
    }
}

impl RsaGroup {
    /// The modulus `n`.
    pub closed spec fn modulus(&self) -> nat {
        self.n@
    }

    /// The group order used to reduce exponents, if known.
    pub closed spec fn totient_value(&self) -> Option<nat> {
        match self.totient {
            Some(t) => Some(t@),
            None => None,
        }
    }

    fn copy_totient(&self) -> (r: Option<Natural>)
        ensures
            match r {
                Some(t) => self.totient_value() == Some(t@),
                None => self.totient_value() is None,
            },
    {
        match &self.totient {
            Some(t) => Some(t.copy()),
            None => None,
        }
    }

    /// The group of integers modulo `n` with generator `g` and, if given, the
    /// group order `totient`.
    pub fn new(n: Natural, g: Natural, totient: Option<Natural>) -> (r: RsaGroup)
        requires
            n@ > 1,
            g@ < n@,
            totient matches Some(t) ==> t@ > 0,
        ensures
            r.well_formed(),
            r.modulus() == n@,
            r.generator_value() == g@,
            r.totient_value() == (match totient {
                Some(t) => Some(t@),
                None => None,
            }),
    {
        RsaGroup { n, g, totient }
    }

    /// The modulus `n`.
    pub fn n(&self) -> (r: Natural)
        ensures
            r@ == self.modulus(),
    {
        self.n.copy()
    }

    /// The group order used to reduce exponents, if known.
    pub fn totient(&self) -> (r: Option<Natural>)
        ensures
            match r {
                Some(t) => self.totient_value() == Some(t@),
                None => self.totient_value() is None,
            },
    {
        self.copy_totient()
    }

    /// A modulus of two random safe primes of `KEY_SIZE` bits, a random
    /// generator in `[1, n)`, and, when `with_totient`, the order
    /// `(p - 1) * (q - 1)`.
    pub fn generate(with_totient: bool) -> (r: RsaGroup)
        ensures
            r.well_formed(),
            1 <= r.generator_value() < r.modulus(),
            exists|p: nat, q: nat| #[trigger] generated_from(r, p, q, with_totient),
    {
        let p = safe_prime(KEY_SIZE);
        let q = safe_prime(KEY_SIZE);
        let n = p.mul(&q);
        let one = Natural::one();
        proof {
            assert(n@ >= 4) by (nonlinear_arith)
                requires
                    n@ == p@ * q@,
                    p@ >= 2,
                    q@ >= 2,
            ;
        }
        let g = random_below(&one, &n);
        let totient = if with_totient {
            let pm = p.sub(&one);
            let qm = q.sub(&one);
            let t = pm.mul(&qm);
            proof {
                assert(t@ >= 1) by (nonlinear_arith)
                    requires
                        t@ == pm@ * qm@,
                        pm@ >= 1,
                        qm@ >= 1,
                ;
            }
            Some(t)
        } else {
            None
        };
        let r = RsaGroup::new(n, g, totient);
        proof {
            assert(generated_from(r, p@, q@, with_totient));
        }
        r
    }

    /// `base` raised to a signed exponent: `base^e` for `e >= 0`, and the inverse
    /// of `base^(-e)` for `e < 0`, which needs `base` to be invertible.
    pub fn signed_exp(&self, base: &Natural, e: &Integer) -> (r: Natural)
        requires
            self.well_formed(),
            e@ < 0 ==> self.invertible(base@),
        ensures
            r@ == self.signed_power_of(base@, e@),
    {
        let m = e.magnitude();
        let pos = self.exp(base, &m);
        if e.is_negative() {
            proof {
                self.lemma_invertible_closed(base@, base@, m@);
            }
            self.inv(&pos)
        } else {
            pos
        }
    }

    /// Whether `a` is an invertible element: below the modulus and coprime to it.
    pub fn is_invertible(&self, a: &Natural) -> (r: bool)
        requires
            self.well_formed(),
        ensures
            r == self.invertible(a@),
    {
        if !a.less_than(&self.n) {
            return false;
        }
        match a.modinv(&self.n) {
            Some(_) => true,
            None => false,
        }
    }

    /// `a` raised to a signed exponent.
    pub open spec fn signed_power_of(&self, a: nat, e: int) -> nat {
        if e >= 0 {
            self.power_of(a, e as nat)
        } else {
            self.inverse_of(self.power_of(a, (-e) as nat))
        }
    }
}

// ---------------------------------------------------------------------------
// Signed exponents
// ---------------------------------------------------------------------------

impl RsaGroup {
    /// The inverse of `u^m` is `inv(u)^m`.
    pub proof fn lemma_inverse_of_power(&self, u: nat, m: nat)
        requires
            self.well_formed(),
            self.invertible(u),
        ensures
            self.inverse_of(self.power_of(u, m)) == self.power_of(self.inverse_of(u), m),
    {
        let n = self.modulus();
        lemma_inverse_mod(u, n);
        let v = inverse_mod(u, n);
        lemma_pow_nonneg(u, m);
        lemma_pow_nonneg(v, m);
        let w = pow(u as int, m) as nat % n;
        let z = pow(v as int, m) as nat % n;
        lemma_mod_bound(pow(u as int, m), n as int);
        lemma_mod_bound(pow(v as int, m), n as int);
        lemma_mul_mod_noop(pow(u as int, m), pow(v as int, m), n as int);
        lemma_pow_distributes(u as int, v as int, m);
        lemma_pow_mod_noop((u * v) as int, m, n as int);
        lemma1_pow(m);
        lemma_small_mod(1, n);
        assert((w * z) % n == 1);
        assert(has_inverse_mod(w, n)) by {
            assert((w * z) % n == 1nat % n);
        }
        lemma_inverse_mod(w, n);
        lemma_inverse_unique(w, z, inverse_mod(w, n), n);
    }

    /// A negative power of `u` is a power of the inverse of `u`.
    pub proof fn lemma_signed_power_negative(&self, u: nat, e: int)
        requires
            self.well_formed(),
            self.invertible(u),
            e < 0,
        ensures
            self.signed_power_of(u, e) == self.power_of(self.inverse_of(u), (-e) as nat),
    {
        self.lemma_inverse_of_power(u, (-e) as nat);
    }

    /// `u^a * inv(u)^b` is `u^(a - b)` when `a >= b`.
    proof fn lemma_power_times_inverse_power(&self, u: nat, a: nat, b: nat)
        requires
            self.well_formed(),
            self.invertible(u),
            a >= b,
        ensures
            self.product_of(self.power_of(u, a), self.power_of(self.inverse_of(u), b))
                == self.power_of(u, (a - b) as nat),
    {
        let n = self.modulus();
        lemma_inverse_mod(u, n);
        let v = inverse_mod(u, n);
        let d = (a - b) as nat;
        lemma_pow_nonneg(u, a);
        lemma_pow_nonneg(u, b);
        lemma_pow_nonneg(u, d);
        lemma_pow_nonneg(v, b);
        lemma_pow_nonneg((u * v) as nat, b);
        lemma_pow_adds(u as int, d, b);
        // u^a * v^b == u^d * (u^b * v^b) == u^d * (u v)^b
        lemma_mul_mod_noop(pow(u as int, a), pow(v as int, b), n as int);
        lemma_pow_distributes(u as int, v as int, b);
        lemma_mul_is_associative(pow(u as int, d), pow(u as int, b), pow(v as int, b));
        // (u v)^b % n == 1
        lemma_pow_mod_noop((u * v) as int, b, n as int);
        lemma1_pow(b);
        lemma_small_mod(1, n);
        lemma_mul_mod_noop_right(pow(u as int, d), pow((u * v) as int, b), n as int);
        assert(pow(u as int, a) * pow(v as int, b) == pow(u as int, d) * pow((u * v) as int, b));
        assert((pow(u as int, d) * (pow((u * v) as int, b) % (n as int))) % (n as int) == pow(
            u as int,
            d,
        ) % (n as int));
    }

    /// Signed powers add: `u^k1 * u^k2 == u^(k1 + k2)`.
    pub proof fn lemma_signed_power_adds(&self, u: nat, k1: int, k2: int)
        requires
            self.well_formed(),
            self.invertible(u),
        ensures
            self.product_of(self.signed_power_of(u, k1), self.signed_power_of(u, k2))
                == self.signed_power_of(u, k1 + k2),
    {
        let n = self.modulus();
        lemma_inverse_mod(u, n);
        let v = inverse_mod(u, n);
        assert(self.invertible(v)) by {
            self.lemma_invertible_closed(u, u, 0);
        }
        assert(self.inverse_of(v) == u) by {
            lemma_inverse_mod(v, n);
            lemma_mul_is_commutative(u as int, v as int);
            lemma_inverse_unique(v, u, inverse_mod(v, n), n);
        }
        if k1 >= 0 && k2 >= 0 {
            lemma_pow_mod_adds(u, k1 as nat, k2 as nat, n);
        } else if k1 < 0 && k2 < 0 {
            self.lemma_signed_power_negative(u, k1);
            self.lemma_signed_power_negative(u, k2);
            self.lemma_signed_power_negative(u, k1 + k2);
            lemma_pow_mod_adds(v, (-k1) as nat, (-k2) as nat, n);
        } else if k1 >= 0 {
            // k2 < 0
            self.lemma_signed_power_negative(u, k2);
            if k1 + k2 >= 0 {
                self.lemma_power_times_inverse_power(u, k1 as nat, (-k2) as nat);
            } else {
                self.lemma_signed_power_negative(u, k1 + k2);
                // u^k1 * v^(-k2) == v^(-k2) * inv(v)^k1 == v^(-k2 - k1)
                self.lemma_commutative(self.power_of(u, k1 as nat), self.power_of(v, (-k2) as nat));
                self.lemma_power_times_inverse_power(v, (-k2) as nat, k1 as nat);
            }
        } else {
            // k1 < 0 <= k2
            self.lemma_signed_power_negative(u, k1);
            self.lemma_commutative(self.power_of(v, (-k1) as nat), self.power_of(u, k2 as nat));
            if k1 + k2 >= 0 {
                self.lemma_power_times_inverse_power(u, k2 as nat, (-k1) as nat);
            } else {
                self.lemma_signed_power_negative(u, k1 + k2);
                self.lemma_commutative(self.power_of(u, k2 as nat), self.power_of(v, (-k1) as nat));
                self.lemma_power_times_inverse_power(v, (-k1) as nat, k2 as nat);
            }
        }
    }

    /// The inverse of the identity is the identity.
    proof fn lemma_inverse_of_one(&self)
        requires
            self.well_formed(),
        ensures
            self.inverse_of(1) == 1,
    {
        let n = self.modulus();
        lemma_small_mod(1, n);
        assert(has_inverse_mod(1, n)) by {
            assert((1nat * 1nat) % n == 1nat % n);
        }
        lemma_inverse_mod(1, n);
        lemma_inverse_unique(1, 1, inverse_mod(1, n), n);
    }

    /// `(u^s)^a == u^(s * a)` for a signed `a`.
    pub proof fn lemma_signed_power_of_power(&self, u: nat, s: nat, a: int)
        requires
            self.well_formed(),
            self.invertible(u),
        ensures
            self.signed_power_of(self.power_of(u, s), a) == self.signed_power_of(u, s * a),
    {
        let n = self.modulus();
        if a >= 0 {
            self.lemma_power_power(u, s, a as nat);
        } else {
            self.lemma_power_power(u, s, (-a) as nat);
            assert(s * (-a) == -(s * a)) by (nonlinear_arith);
            if s * a == 0 {
                lemma_pow0(u as int);
                lemma_small_mod(1, n);
                self.lemma_inverse_of_one();
            } else {
                assert(s * a < 0) by (nonlinear_arith)
                    requires
                        a < 0,
                        s * a != 0,
                ;
            }
        }
    }

    /// `(u^b)^t == u^(b * t)` for a signed `b`.
    pub proof fn lemma_power_of_signed_power(&self, u: nat, b: int, t: nat)
        requires
            self.well_formed(),
            self.invertible(u),
        ensures
            self.power_of(self.signed_power_of(u, b), t) == self.signed_power_of(u, b * t),
    {
        let n = self.modulus();
        if b >= 0 {
            self.lemma_power_power(u, b as nat, t);
        } else {
            lemma_inverse_mod(u, n);
            let v = inverse_mod(u, n);
            self.lemma_signed_power_negative(u, b);
            self.lemma_power_power(v, (-b) as nat, t);
            assert((-b) * t == -(b * t)) by (nonlinear_arith);
            if b * t == 0 {
                lemma_pow0(u as int);
                lemma_pow0(v as int);
            } else {
                assert(b * t < 0) by (nonlinear_arith)
                    requires
                        b < 0,
                        b * t != 0,
                ;
                self.lemma_signed_power_negative(u, b * t);
            }
        }
    }

    /// With `u^T == 1`, exponents can be reduced modulo `T`.
    pub proof fn lemma_power_mod_order(&self, u: nat, t: nat, e: nat)
        requires
            self.well_formed(),
            t > 0,
            self.power_of(u, t) == self.identity_value(),
        ensures
            self.power_of(u, e) == self.power_of(u, e % t),
    {
        let n = self.modulus();
        let q = e / t;
        let r = e % t;
        lemma_fundamental_div_mod(e as int, t as int);
        lemma_mul_is_commutative(t as int, q as int);
        assert(e == t * q + r);
        lemma_pow_mod_adds(u, t * q, r, n);
        self.lemma_power_power(u, t, q);
        lemma_small_mod(1, n);
        assert(self.power_of(u, t) == 1);
        lemma1_pow(q);
        assert(self.power_of(1, q) == 1);
        assert(pow(u as int, t * q) as nat % n == 1);
        lemma_pow_nonneg(u, r);
        lemma_mod_bound(pow(u as int, r), n as int);
        let pr = pow(u as int, r) as nat % n;
        lemma_small_mod(pr, n);
        lemma_mul_basics(pr as int);
        assert(pow(u as int, e) as nat % n == (1 * pr) % n);
        lemma_small_mod(pow(u as int, r) as nat % n, n);
    }
}

impl Group for RsaGroup {
    type Element = Natural;

    type Exponent = Natural;

    open spec fn element_value(e: Natural) -> nat {
        e@
    }

    open spec fn exponent_value(e: Natural) -> nat {
        e@
    }

    open spec fn well_formed(&self) -> bool {
        &&& self.modulus() > 1
        &&& self.generator_value() < self.modulus()
        &&& self.totient_value() matches Some(t) ==> t > 0
    }

    open spec fn contains(&self, a: nat) -> bool {
        a < self.modulus()
    }

    open spec fn invertible(&self, a: nat) -> bool {
        a < self.modulus() && has_inverse_mod(a, self.modulus())
    }

    closed spec fn generator_value(&self) -> nat {
        self.g@
    }

    open spec fn identity_value(&self) -> nat {
        1nat % self.modulus()
    }

    open spec fn product_of(&self, a: nat, b: nat) -> nat {
        (a * b) % self.modulus()
    }

    open spec fn inverse_of(&self, a: nat) -> nat {
        inverse_mod(a, self.modulus())
    }

    open spec fn power_of(&self, a: nat, x: nat) -> nat {
        pow(a as int, x) as nat % self.modulus()
    }

    open spec fn exponent_one() -> nat {
        1
    }

    open spec fn exponent_product(x: nat, y: nat) -> nat {
        x * y
    }

    open spec fn hashed_exponent(&self, data: Seq<u8>) -> nat {
        hashed_prime(data)
    }

    open spec fn exponent_text(x: nat) -> Seq<char> {
        decimal_string(x)
    }

    proof fn lemma_associative(&self, a: nat, b: nat, c: nat) {
        lemma_mul_mod_assoc(a, b, c, self.modulus());
    }

    proof fn lemma_commutative(&self, a: nat, b: nat) {
        lemma_mul_is_commutative(a as int, b as int);
    }

    proof fn lemma_identity(&self, a: nat) {
        lemma_small_mod(1, self.modulus());
        lemma_small_mod(a, self.modulus());
    }

    proof fn lemma_inverse(&self, a: nat) {
        let n = self.modulus();
        lemma_inverse_mod(a, n);
        lemma_small_mod(1, n);
        lemma_mul_is_commutative(a as int, inverse_mod(a, n) as int);
    }

    proof fn lemma_closed(&self, a: nat, b: nat, x: nat) {
        let n = self.modulus();
        lemma_mod_bound((a * b) as int, n as int);
        lemma_pow_nonneg(a, x);
        lemma_mod_bound(pow(a as int, x), n as int);
        if has_inverse_mod(a, n) {
            lemma_inverse_mod(a, n);
        }
        lemma_small_mod(1, n);
    }

    proof fn lemma_invertible_closed(&self, a: nat, b: nat, x: nat) {
        let n = self.modulus();
        lemma_small_mod(1, n);
        // the product a * b has inverse inv(b) * inv(a)
        lemma_inverse_mod(a, n);
        lemma_inverse_mod(b, n);
        let va = inverse_mod(a, n);
        let vb = inverse_mod(b, n);
        lemma_mod_bound((a * b) as int, n as int);
        assert(has_inverse_mod((a * b) % n, n)) by {
            let ab = (a * b) % n;
            lemma_mul_mod_noop_left((a * b) as int, (vb * va) as int, n as int);
            assert((a * b) * (vb * va) == (a * va) * (b * vb)) by (nonlinear_arith);
            lemma_mul_mod_noop((a * va) as int, (b * vb) as int, n as int);
            assert((ab * (vb * va)) % n == 1nat % n);
        }
        // the power a^x has inverse inv(a)^x
        lemma_pow_nonneg(a, x);
        lemma_pow_nonneg(va, x);
        lemma_mod_bound(pow(a as int, x), n as int);
        assert(has_inverse_mod(pow(a as int, x) as nat % n, n)) by {
            let ax = pow(a as int, x) as nat % n;
            let w = pow(va as int, x) as nat;
            lemma_mul_mod_noop_left(pow(a as int, x), w as int, n as int);
            lemma_pow_distributes(a as int, va as int, x);
            lemma_pow_mod_noop((a * va) as int, x, n as int);
            lemma1_pow(x);
            assert((ax * w) % n == 1nat % n);
        }
        // the inverse of a has inverse a
        assert(has_inverse_mod(va, n)) by {
            lemma_mul_is_commutative(a as int, va as int);
            assert((va * a) % n == 1nat % n);
        }
        // the identity is its own inverse
        assert(has_inverse_mod(1nat % n, n)) by {
            assert((1nat * 1nat) % n == 1nat % n);
        }
    }

    proof fn lemma_power_one(&self, a: nat) {
        lemma_pow_one_mod(a, self.modulus());
    }

    proof fn lemma_power_power(&self, a: nat, x: nat, y: nat) {
        lemma_pow_mod_pow(a, x, y, self.modulus());
    }

    proof fn lemma_exponent_monoid(x: nat, y: nat, z: nat) {
        lemma_mul_is_commutative(x as int, y as int);
        lemma_mul_is_associative(x as int, y as int, z as int);
    }

    /// A group of two random safe primes of `KEY_SIZE` bits, a random generator,
    /// with the order `(p - 1) * (q - 1)` kept.
    fn setup() -> (r: Self)
        ensures
            1 <= r.generator_value() < r.modulus(),
            exists|p: nat, q: nat| #[trigger] generated_from(r, p, q, true),
    {
        RsaGroup::generate(true)
    }

    fn g(&self) -> (r: Natural) {
        self.g.copy()
    }

    fn id(&self) -> (r: Natural) {
        proof {
            lemma_small_mod(1, self.modulus());
        }
        Natural::one()
    }

    fn mul(&self, a: &Natural, b: &Natural) -> (r: Natural) {
        a.mul(b).rem(&self.n)
    }

    fn inv(&self, element: &Natural) -> (r: Natural) {
        let x = element.modinv(&self.n).unwrap();
        proof {
            let n = self.modulus();
            lemma_inverse_mod(element@, n);
            lemma_small_mod(1, n);
            lemma_inverse_unique(element@, x@, inverse_mod(element@, n), n);
        }
        x
    }

    fn exp(&self, base: &Natural, exponent: &Natural) -> (r: Natural) {
        base.modpow(exponent, &self.n)
    }

    fn exp_id() -> (r: Natural) {
        Natural::one()
    }

    fn exp_mul(a: &Natural, b: &Natural) -> (r: Natural) {
        a.mul(b)
    }

    fn hash_to_prime(&self, data: &[u8]) -> (r: Natural) {
        hash_bytes_to_prime(data)
    }

    fn element_eq(a: &Natural, b: &Natural) -> (r: bool) {
        a.equals(b)
    }

    fn element_clone(a: &Natural) -> (r: Natural) {
        a.copy()
    }

    fn exponent_eq(a: &Natural, b: &Natural) -> (r: bool) {
        a.equals(b)
    }

    fn exponent_clone(a: &Natural) -> (r: Natural) {
        a.copy()
    }

    fn exponent_to_string(a: &Natural) -> (r: String) {
        a.to_decimal()
    }
}

} // verus!
