//! The order of the RSA group: Fermat's little theorem, and Euler's theorem for
//! a modulus that is the product of two distinct primes.
use vstd::prelude::*;
use vstd::arithmetic::div_mod::*;
use vstd::arithmetic::power::*;
use vstd::seq_lib::seq_to_set_is_finite;
use vstd::set_lib::lemma_subset_equality;

use crate::groups::rsa_group::RsaGroup;
use crate::number_theory::{is_prime, has_inverse_mod, lemma_euclid};
use crate::rsa_accumulator::{exponents_product, lemma_product_order_independent};
use crate::traits::Group;

verus! {

/// The numbers `1, 2, ..., k`.
spec fn first_naturals(k: nat) -> Seq<nat> {
    Seq::new(k, |i: int| (i + 1) as nat)
}

/// The residues `a * 1, a * 2, ..., a * k`, each modulo `p`.
spec fn residue_multiples(a: nat, p: nat, k: nat) -> Seq<nat> {
    Seq::new(k, |i: int| ((a * (i + 1)) % (p as int)) as nat)
}

/// The product of integers (the product of exponents in the RSA group).
spec fn product(s: Seq<nat>) -> nat {
    exponents_product::<RsaGroup>(s)
}

/// Multiplying each of `1..k` by `a` multiplies their product by `a^k`, modulo `p`.
proof fn lemma_multiples_product(a: nat, p: nat, k: nat)
    requires
        p > 0,
    ensures
        (product(residue_multiples(a, p, k)) as int) % (p as int) == (pow(a as int, k) * product(
            first_naturals(k),
        )) % (p as int),
    decreases k,
{
    let pi = p as int;
    if k == 0 {
        lemma_pow0(a as int);
    } else {
        let km = (k - 1) as nat;
        lemma_multiples_product(a, p, km);
        let m = residue_multiples(a, p, k);
        let f = first_naturals(k);
        assert(m.drop_last() =~= residue_multiples(a, p, km));
        assert(f.drop_last() =~= first_naturals(km));
        let x = product(residue_multiples(a, p, km)) as int;
        let fx = product(first_naturals(km)) as int;
        let y = pow(a as int, km) * fx;
        let ak = (a * k) as int;
        assert(m.last() == (ak % pi) as nat);
        assert(f.last() == k);
        assert(product(m) == x * (ak % pi));
        assert(product(f) == fx * k);
        lemma_mul_mod_noop_right(x, ak, pi);
        lemma_mul_mod_noop_left(x, ak, pi);
        lemma_mul_mod_noop_left(y, ak, pi);
        lemma_pow_adds(a as int, km, 1);
        lemma_pow1(a as int);
        assert(pow(a as int, k) * (fx * k) == y * ak) by (nonlinear_arith)
            requires
                pow(a as int, k) == pow(a as int, km) * a,
                y == pow(a as int, km) * fx,
                ak == a * k,
        ;
    }
}

/// A prime `p` does not divide the product of `1..k` for `k < p`.
proof fn lemma_first_naturals_not_divisible(p: nat, k: nat)
    requires
        is_prime(p),
        k < p,
    ensures
        product(first_naturals(k)) % p != 0,
    decreases k,
{
    if k == 0 {
        lemma_small_mod(1, p);
    } else {
        let km = (k - 1) as nat;
        lemma_first_naturals_not_divisible(p, km);
        let f = first_naturals(k);
        assert(f.drop_last() =~= first_naturals(km));
        let x = product(first_naturals(km));
        assert(product(f) == x * k);
        if (x * k) % p == 0 {
            lemma_euclid(p, x, k);
            lemma_small_mod(k, p);
        }
    }
}

/// For a prime `p` that does not divide `a`, the residues of `a, 2a, ..., (p-1)a`
/// are `1, ..., p - 1` in another order.
proof fn lemma_multiples_permute(a: nat, p: nat)
    requires
        is_prime(p),
        a % p != 0,
    ensures
        residue_multiples(a, p, (p - 1) as nat).no_duplicates(),
        first_naturals((p - 1) as nat).no_duplicates(),
        forall|x: nat|
            #![trigger residue_multiples(a, p, (p - 1) as nat).contains(x)]
            #![trigger first_naturals((p - 1) as nat).contains(x)]
            residue_multiples(a, p, (p - 1) as nat).contains(x) <==> first_naturals(
                (p - 1) as nat,
            ).contains(x),
{
    let k = (p - 1) as nat;
    let m = residue_multiples(a, p, k);
    let f = first_naturals(k);
    assert forall|x: nat| f.contains(x) <==> 1 <= x <= k by {
        if 1 <= x <= k {
            assert(f[x - 1] == x);
        }
    }
    assert forall|i: int| 0 <= i < k implies 1 <= #[trigger] m[i] <= k by {
        let j = (i + 1) as nat;
        if (a * j) % p == 0 {
            lemma_euclid(p, a, j);
            lemma_small_mod(j, p);
        }
    }
    assert forall|i: int, j: int| 0 <= i < k && 0 <= j < k && i != j implies m[i] != m[j] by {
        let lo = if i < j { i } else { j };
        let hi = if i < j { j } else { i };
        let l = (lo + 1) as nat;
        let h = (hi + 1) as nat;
        if m[lo] == m[hi] {
            lemma_sub_mod_noop((a * h) as int, (a * l) as int, p as int);
            lemma_small_mod(0, p);
            let d = (h - l) as nat;
            assert(a * h - a * l == a * d) by (nonlinear_arith)
                requires
                    d == h - l,
            ;
            lemma_euclid(p, a, d);
            lemma_small_mod(d, p);
        }
    }
    assert forall|i: int, j: int| 0 <= i < k && 0 <= j < k && i != j implies f[i] != f[j] by {}
    m.unique_seq_to_set();
    f.unique_seq_to_set();
    seq_to_set_is_finite(m);
    seq_to_set_is_finite(f);
    assert(m.to_set().subset_of(f.to_set())) by {
        assert forall|x: nat| m.to_set().contains(x) implies f.to_set().contains(x) by {
            let i = choose|i: int| 0 <= i < m.len() && m[i] == x;
            assert(1 <= m[i] <= k);
        }
    }
    lemma_subset_equality(m.to_set(), f.to_set());
    assert forall|x: nat| m.contains(x) <==> f.contains(x) by {
        assert(m.to_set().contains(x) == f.to_set().contains(x));
    }
}

/// Fermat's little theorem: `a^(p-1) mod p == 1` for a prime `p` that does not
/// divide `a`.
pub proof fn lemma_fermat(a: nat, p: nat)
    requires
        is_prime(p),
        a % p != 0,
    ensures
        pow(a as int, (p - 1) as nat) % (p as int) == 1,
{
    let k = (p - 1) as nat;
    let pi = p as int;
    lemma_multiples_permute(a, p);
    let m = residue_multiples(a, p, k);
    let f = first_naturals(k);
    lemma_product_order_independent::<RsaGroup>(m, f);
    lemma_multiples_product(a, p, k);
    lemma_first_naturals_not_divisible(p, k);
    let pf = product(f) as int;
    let x = pow(a as int, k);
    assert(a > 0) by {
        if a == 0 {
            lemma_small_mod(0, p);
        }
    }
    lemma_pow_positive(a as int, k);
    lemma_sub_mod_noop(x * pf, pf, pi);
    lemma_small_mod(0, p);
    assert(x * pf - pf == (x - 1) * pf) by (nonlinear_arith);
    let x1 = (x - 1) as nat;
    assert(((x1 * product(f)) as int) % pi == 0);
    lemma_euclid(p, x1, product(f));
    let c = (x - 1) / pi;
    lemma_fundamental_div_mod(x - 1, pi);
    lemma_mod_multiples_vanish(c, 1, pi);
    lemma_small_mod(1, p);
}

/// `a^e mod p == 1` when `a mod p == 1`.
proof fn lemma_pow_of_one_mod(a: int, e: nat, p: int)
    requires
        p > 1,
        a % p == 1,
    ensures
        pow(a, e) % p == 1,
{
    lemma_pow_mod_noop(a, e, p);
    lemma1_pow(e);
    lemma_small_mod(1, p as nat);
}

/// Euler's theorem for the product of two distinct primes: `a^((p-1)(q-1))`
/// is 1 modulo `p * q` for every `a` that neither prime divides.
pub proof fn lemma_euler_two_primes(a: nat, p: nat, q: nat)
    requires
        is_prime(p),
        is_prime(q),
        p != q,
        a % p != 0,
        a % q != 0,
    ensures
        pow(a as int, ((p - 1) * (q - 1)) as nat) % ((p * q) as int) == 1,
{
    let t = ((p - 1) * (q - 1)) as nat;
    let pi = p as int;
    let qi = q as int;
    lemma_fermat(a, p);
    lemma_fermat(a, q);
    let big = pow(a as int, t);
    lemma_pow_multiplies(a as int, (p - 1) as nat, (q - 1) as nat);
    lemma_pow_multiplies(a as int, (q - 1) as nat, (p - 1) as nat);
    assert((q - 1) * (p - 1) == (p - 1) * (q - 1)) by (nonlinear_arith);
    lemma_pow_of_one_mod(pow(a as int, (p - 1) as nat), (q - 1) as nat, pi);
    lemma_pow_of_one_mod(pow(a as int, (q - 1) as nat), (p - 1) as nat, qi);
    assert(big % pi == 1);
    assert(big % qi == 1);
    assert(a > 0) by {
        if a == 0 {
            lemma_small_mod(0, p);
        }
    }
    lemma_pow_positive(a as int, t);
    lemma_sub_mod_noop(big, 1, pi);
    lemma_sub_mod_noop(big, 1, qi);
    lemma_small_mod(1, p);
    lemma_small_mod(1, q);
    lemma_small_mod(0, p);
    lemma_small_mod(0, q);
    let u = (big - 1) / pi;
    lemma_fundamental_div_mod(big - 1, pi);
    assert(big - 1 == pi * u);
    assert(u >= 0) by (nonlinear_arith)
        requires
            big - 1 == pi * u,
            big >= 1,
            pi > 0,
    ;
    let un = u as nat;
    assert(((p * un) as int) % qi == 0);
    assert(p % q != 0) by {
        if q < p {
        } else {
            lemma_small_mod(p, q);
        }
    }
    lemma_euclid(q, p, un);
    let v = u / qi;
    lemma_fundamental_div_mod(u, qi);
    let n = (p * q) as int;
    assert(big == n * v + 1) by (nonlinear_arith)
        requires
            big - 1 == pi * u,
            u == qi * v,
            n == pi * qi,
    ;
    assert(n > 1) by (nonlinear_arith)
        requires
            n == pi * qi,
            pi >= 2,
            qi >= 2,
    ;
    lemma_mod_multiples_vanish(v, 1, n);
    lemma_small_mod(1, n as nat);
}

/// In the group of integers modulo the product of two distinct primes `p` and
/// `q`, every invertible element raised to `(p - 1) * (q - 1)` is the identity.
pub proof fn lemma_order_annihilates(group: RsaGroup, p: nat, q: nat, a: nat)
    requires
        group.well_formed(),
        is_prime(p),
        is_prime(q),
        p != q,
        group.modulus() == p * q,
        group.invertible(a),
    ensures
        group.power_of(a, ((p - 1) * (q - 1)) as nat) == group.identity_value(),
{
    let n = p * q;
    assert(a % p != 0 && a % q != 0) by {
        lemma_not_divisible_when_invertible(a, p, q);
        assert(q * p == p * q) by (nonlinear_arith);
        lemma_not_divisible_when_invertible(a, q, p);
    }
    let t = ((p - 1) * (q - 1)) as nat;
    lemma_euler_two_primes(a, p, q);
    assert(a > 0) by {
        if a == 0 {
            lemma_small_mod(0, p);
        }
    }
    lemma_pow_positive(a as int, t);
    assert(n > 1) by (nonlinear_arith)
        requires
            n == p * q,
            p >= 2,
            q >= 2,
    ;
    lemma_small_mod(1, n);
    assert(group.power_of(a, t) == (pow(a as int, t) as nat) % n);
}

/// An element invertible modulo `p * q` is not divisible by the prime `p`.
proof fn lemma_not_divisible_when_invertible(a: nat, p: nat, q: nat)
    requires
        is_prime(p),
        q >= 1,
        has_inverse_mod(a, p * q),
    ensures
        a % p != 0,
{
    let n = p * q;
    let x = choose|x: nat| #[trigger] ((a * x) % n) == 1nat % n;
    assert(n >= 2) by (nonlinear_arith)
        requires
            n == p * q,
            p >= 2,
            q >= 1,
    ;
    lemma_small_mod(1, n);
    if a % p == 0 {
        let c = a / p;
        lemma_fundamental_div_mod(a as int, p as int);
        let w = (a * x) / n;
        lemma_fundamental_div_mod((a * x) as int, n as int);
        // a * x == p * (c * x) and a * x == n * w + 1
        assert(1 == p * (c * x - q * w)) by (nonlinear_arith)
            requires
                a == p * c,
                a * x == n * w + 1,
                n == p * q,
        ;
        assert(false) by (nonlinear_arith)
            requires
                1 == p * (c * x - q * w),
                p >= 2,
        ;
    }
}

} // verus!
