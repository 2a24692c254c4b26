//! Number-theoretic definitions and lemmas: divisibility, gcd, primes,
//! modular inverses and modular exponentiation.
use vstd::prelude::*;
use vstd::arithmetic::div_mod::*;
use vstd::arithmetic::mul::*;
use vstd::arithmetic::power::*;

verus! {

/// The greatest common divisor, by Euclid's algorithm.
pub open spec fn gcd(a: nat, b: nat) -> nat
    decreases b,
{
    if b == 0 {
        a
    } else {
        gcd(b, a % b)
    }
}

/// `n` is prime.
pub open spec fn is_prime(n: nat) -> bool {
    &&& n >= 2
    &&& forall|d: nat| 2 <= d < n ==> #[trigger] (n % d) != 0
}

/// `a` has an inverse modulo `m`.
pub open spec fn has_inverse_mod(a: nat, m: nat) -> bool {
    exists|x: nat| #[trigger] ((a * x) % m) == 1nat % m
}

/// `n!`
pub open spec fn factorial(n: nat) -> nat
    decreases n,
{
    if n == 0 {
        1
    } else {
        n * factorial((n - 1) as nat)
    }
}

pub proof fn lemma_inverse_witness(a: nat, m: nat, x: nat)
    requires
        (a * x) % m == 1nat % m,
    ensures
        has_inverse_mod(a, m),
{
    assert((a * x) % m == 1nat % m);
}

/// For `k` not divisible by `m`, `(-k) % m == m - k % m`.
pub proof fn lemma_neg_mod(k: int, m: int)
    requires
        m > 0,
        k >= 0,
        k % m != 0,
    ensures
        (-k) % m == m - k % m,
{
    lemma_fundamental_div_mod(k, m);
    let q = k / m;
    let r = k % m;
    assert(-k == m * (-q - 1) + (m - r)) by (nonlinear_arith)
        requires
            k == m * q + r,
    ;
    lemma_fundamental_div_mod_converse(-k, m, -q - 1, m - r);
}

/// For `k` divisible by `m`, `(-k) % m == 0`.
pub proof fn lemma_neg_mod_zero(k: int, m: int)
    requires
        m > 0,
        k % m == 0,
    ensures
        (-k) % m == 0,
{
    lemma_fundamental_div_mod(k, m);
    let q = k / m;
    assert(-k == m * (-q) + 0) by (nonlinear_arith)
        requires
            k == m * q + 0,
    ;
    lemma_fundamental_div_mod_converse(-k, m, -q, 0);
}

/// Divisibility is transitive.
proof fn lemma_divides_trans(m: nat, d: nat, p: nat)
    requires
        d > 0,
        p > 0,
        m % d == 0,
        d % p == 0,
    ensures
        m % p == 0,
{
    lemma_fundamental_div_mod(m as int, d as int);
    lemma_fundamental_div_mod(d as int, p as int);
    let k = m / d;
    let j = d / p;
    assert(m == p * (j * k)) by (nonlinear_arith)
        requires
            m == d * k,
            d == p * j,
    ;
    lemma_mod_multiples_basic((j * k) as int, p as int);
    lemma_mul_is_commutative(p as int, (j * k) as int);
}

/// Every number at least 2 has a prime divisor.
proof fn lemma_prime_divisor(m: nat) -> (p: nat)
    requires
        m >= 2,
    ensures
        is_prime(p),
        m % p == 0,
    decreases m,
{
    if is_prime(m) {
        lemma_mod_self_0(m as int);
        m
    } else {
        let d = choose|d: nat| 2 <= d < m && #[trigger] (m % d) == 0;
        let p = lemma_prime_divisor(d);
        lemma_divides_trans(m, d, p);
        p
    }
}

/// Every `d` with `1 <= d <= n` divides `n!`.
proof fn lemma_factorial_divisible(n: nat, d: nat)
    requires
        1 <= d <= n,
    ensures
        factorial(n) % d == 0,
        factorial(n) >= 1,
    decreases n,
{
    let f = factorial((n - 1) as nat);
    if d == n {
        if n > 1 {
            lemma_factorial_divisible((n - 1) as nat, 1);
        } else {
            assert(factorial(0) == 1);
        }
        assert(factorial(n) == n * f);
        lemma_mod_multiples_basic(f as int, n as int);
        lemma_mul_is_commutative(n as int, f as int);
        assert(n * f >= 1) by (nonlinear_arith)
            requires
                n >= 1,
                f >= 1,
        ;
    } else {
        lemma_factorial_divisible((n - 1) as nat, d);
        assert(factorial(n) == n * f);
        lemma_mod_multiples_basic(n as int, f as int);
        lemma_divides_trans(factorial(n), f, d);
        assert(n * f >= 1) by (nonlinear_arith)
            requires
                n >= 1,
                f >= 1,
        ;
    }
}

/// There is a prime larger than any given number.
pub proof fn lemma_prime_above(n: nat) -> (p: nat)
    ensures
        is_prime(p),
        p > n,
{
    let f = factorial(n);
    if n >= 1 {
        lemma_factorial_divisible(n, 1);
    }
    assert(f >= 1);
    let p = lemma_prime_divisor(f + 1);
    if p <= n {
        lemma_factorial_divisible(n, p);
        lemma_fundamental_div_mod(f as int, p as int);
        let q = f / p;
        assert(f + 1 == p * q + 1);
        lemma_fundamental_div_mod_converse((f + 1) as int, p as int, q as int, 1);
        assert(false);
    }
    p
}

/// There is an odd prime at least as large as any given number.
pub proof fn lemma_odd_prime_at_least(c: nat) -> (p: nat)
    ensures
        is_prime(p),
        p % 2 == 1,
        p >= c,
{
    let p = lemma_prime_above(c + 2);
    if p % 2 == 0 {
        assert(p % 2 != 0);
    }
    p
}

// ---------------------------------------------------------------------------
// Modular arithmetic
// ---------------------------------------------------------------------------

/// `((a * b) % n * c) % n == (a * (b * c) % n) % n`: multiplication modulo `n`
/// is associative.
pub proof fn lemma_mul_mod_assoc(a: nat, b: nat, c: nat, n: nat)
    requires
        n > 0,
    ensures
        (((a * b) % n) * c) % n == (a * ((b * c) % n)) % n,
{
    lemma_mul_mod_noop_left((a * b) as int, c as int, n as int);
    lemma_mul_mod_noop_right(a as int, (b * c) as int, n as int);
    lemma_mul_is_associative(a as int, b as int, c as int);
}

/// `(a^x % n)^y % n == a^(x*y) % n`.
pub proof fn lemma_pow_mod_pow(a: nat, x: nat, y: nat, n: nat)
    requires
        n > 0,
    ensures
        pow((pow(a as int, x) as nat % n) as int, y) as nat % n == pow(a as int, x * y) as nat % n,
        x * y >= 0,
{
    lemma_pow_nonneg(a, x);
    lemma_pow_nonneg(a, x * y);
    lemma_pow_mod_noop(pow(a as int, x), y, n as int);
    lemma_pow_multiplies(a as int, x, y);
    lemma_pow_nonneg((pow(a as int, x) as nat % n), y);
}

/// `a^x` of a natural is a natural.
pub proof fn lemma_pow_nonneg(a: nat, x: nat)
    ensures
        pow(a as int, x) >= 0,
{
    if a > 0 {
        lemma_pow_positive(a as int, x);
    } else if x == 0 {
        lemma_pow0(0);
    } else {
        lemma0_pow(x);
    }
}

/// `a^1 % n == a` for `a < n`.
pub proof fn lemma_pow_one_mod(a: nat, n: nat)
    requires
        a < n,
    ensures
        pow(a as int, 1) as nat % n == a,
{
    lemma_pow1(a as int);
    lemma_small_mod(a, n);
}

/// `a^(x+y) % n == (a^x % n * a^y % n) % n`.
pub proof fn lemma_pow_mod_adds(a: nat, x: nat, y: nat, n: nat)
    requires
        n > 0,
    ensures
        pow(a as int, x + y) as nat % n == ((pow(a as int, x) as nat % n) * (pow(a as int, y) as nat
            % n)) % n,
{
    lemma_pow_nonneg(a, x);
    lemma_pow_nonneg(a, y);
    lemma_pow_adds(a as int, x, y);
    lemma_mul_mod_noop(pow(a as int, x), pow(a as int, y), n as int);
}

/// Modular inverses are unique: two inverses of `a` below `n` are equal.
pub proof fn lemma_inverse_unique(a: nat, v1: nat, v2: nat, n: nat)
    requires
        n > 1,
        v1 < n,
        v2 < n,
        (a * v1) % n == 1,
        (a * v2) % n == 1,
    ensures
        v1 == v2,
{
    // v1 = v1 * (a * v2) = (v1 * a) * v2 = v2 (mod n)
    lemma_mul_mod_noop_right(v1 as int, (a * v2) as int, n as int);
    lemma_mul_mod_noop_left((v1 * a) as int, v2 as int, n as int);
    lemma_mul_is_associative(v1 as int, a as int, v2 as int);
    lemma_mul_is_commutative(v1 as int, a as int);
    lemma_small_mod(v1, n);
    lemma_small_mod(v2, n);
    assert(v1 * 1 == v1);
    assert(1 * v2 == v2);
}


proof fn lemma_euclid_below(p: nat, a: nat, b: nat)
    requires
        is_prime(p),
        0 < a < p,
        (a * b) % p == 0,
    ensures
        b % p == 0,
    decreases a,
{
    if a == 1 {
        assert(a * b == b) by (nonlinear_arith)
            requires
                a == 1,
        ;
    } else {
        let k = p / a;
        let r = p % a;
        lemma_fundamental_div_mod(p as int, a as int);
        assert(r != 0) by {
            assert(p % a != 0);
        }
        let m = (a * b) / p;
        lemma_fundamental_div_mod((a * b) as int, p as int);
        assert(r * b == (b - k * m) * p) by (nonlinear_arith)
            requires
                p == a * k + r,
                a * b == p * m,
        ;
        lemma_mod_multiples_basic(b - k * m, p as int);
        lemma_euclid_below(p, r, b);
    }
}

/// Euclid's lemma: a prime that divides a product divides one of the factors.
pub proof fn lemma_euclid(p: nat, a: nat, b: nat)
    requires
        is_prime(p),
        (a * b) % p == 0,
    ensures
        a % p == 0 || b % p == 0,
{
    if a % p != 0 {
        let r = a % p;
        let k = a / p;
        lemma_fundamental_div_mod(a as int, p as int);
        let m = (a * b) / p;
        lemma_fundamental_div_mod((a * b) as int, p as int);
        assert(r * b == (m - k * b) * p) by (nonlinear_arith)
            requires
                a == p * k + r,
                a * b == p * m,
        ;
        lemma_mod_multiples_basic(m - k * b, p as int);
        lemma_euclid_below(p, r, b);
    }
}


/// The gcd divides both numbers, and is zero only for two zeros.
pub proof fn lemma_gcd_divides(a: nat, b: nat)
    ensures
        gcd(a, b) == 0 ==> a == 0 && b == 0,
        gcd(a, b) > 0 ==> a % gcd(a, b) == 0 && b % gcd(a, b) == 0,
    decreases b,
{
    if b == 0 {
        if a > 0 {
            lemma_mod_self_0(a as int);
            lemma_small_mod(0, a);
        }
    } else {
        let r = a % b;
        lemma_gcd_divides(b, r);
        let g = gcd(b, r);
        assert(g == gcd(a, b));
        let k1 = b / g;
        let k2 = r / g;
        lemma_fundamental_div_mod(b as int, g as int);
        lemma_fundamental_div_mod(r as int, g as int);
        lemma_fundamental_div_mod(a as int, b as int);
        let qb = a / b;
        assert(a == (qb * k1 + k2) * g) by (nonlinear_arith)
            requires
                a == b * qb + r,
                b == g * k1,
                r == g * k2,
        ;
        lemma_mod_multiples_basic((qb * k1 + k2) as int, g as int);
    }
}

/// Bézout's identity: `gcd(a, b)` is an integer combination of `a` and `b`.
pub proof fn lemma_bezout(a: nat, b: nat) -> (r: (int, int))
    ensures
        r.0 * a + r.1 * b == gcd(a, b),
    decreases b,
{
    if b == 0 {
        (1, 0)
    } else {
        let r = a % b;
        let (x, y) = lemma_bezout(b, r);
        let qb = a / b;
        lemma_fundamental_div_mod(a as int, b as int);
        assert(y * a + (x - y * qb) * b == x * b + y * r) by (nonlinear_arith)
            requires
                a == b * qb + r,
        ;
        (y, x - y * qb)
    }
}

/// A number that shares no factor with `t` nor with `q` shares none with `t * q`.
pub proof fn lemma_coprime_product(s: nat, t: nat, q: nat)
    requires
        gcd(s, t) == 1,
        gcd(q, s) == 1,
    ensures
        gcd(s, t * q) == 1,
{
    let g = gcd(s, t * q);
    lemma_gcd_divides(s, t * q);
    if g == 0 {
        reveal_with_fuel(gcd, 3);
        assert(s == 0);
        assert(t == 1);
        assert(q == 1);
        assert(t * q == 1);
    } else {
        let gi = g as int;
        let (x1, y1) = lemma_bezout(s, t);
        let (x2, y2) = lemma_bezout(q, s);
        let a1 = s / g;
        let a2 = (t * q) / g;
        lemma_fundamental_div_mod(s as int, gi);
        lemma_fundamental_div_mod((t * q) as int, gi);
        let c = x1 * a1 * q + y1 * a2;
        assert(q == c * gi) by (nonlinear_arith)
            requires
                x1 * s + y1 * t == 1,
                s == gi * a1,
                t * q == gi * a2,
                c == x1 * a1 * q + y1 * a2,
        ;
        let d = x2 * c + y2 * a1;
        assert(1 == d * gi) by (nonlinear_arith)
            requires
                x2 * q + y2 * s == 1,
                q == c * gi,
                s == gi * a1,
                d == x2 * c + y2 * a1,
        ;
        assert(gi == 1) by (nonlinear_arith)
            requires
                1 == d * gi,
                gi >= 1,
        ;
    }
}

} // verus!
