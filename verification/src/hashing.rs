//! Hashing byte strings to primes.
//!
//! The data is hashed with SHA-256, the hex digest is read as a number, made
//! odd, and then increased by two until it passes a primality test.
use vstd::prelude::*;
use rand::SeedableRng;
use rand::rngs::StdRng;
use num_bigint::BigUint;

use crate::natural::{Natural, limbs_value, hex_value, is_hex_digit, is_hex_string};
use crate::number_theory::{is_prime, lemma_odd_prime_at_least};

verus! {

/// The lower-case hexadecimal SHA-256 digest of `data`.
pub uninterp spec fn sha256_hex(data: Seq<u8>) -> Seq<char>;

/// `sha256::digest`: the SHA-256 digest of `data`, hex-encoded (64 lower-case
/// hexadecimal digits).
#[verifier::external_body]
fn sha256_digest(data: &[u8]) -> (r: String)
    ensures
        r@ == sha256_hex(data@),
        r@.len() == 64,
        forall|i: int| 0 <= i < r@.len() ==> is_hex_digit(#[trigger] r@[i]),
{
    sha256::digest(data)
}

/// Whether the number passes `glass_pumpkin`'s primality test (trial division,
/// a Fermat test and Miller-Rabin rounds) when its random bases are drawn from
/// a `StdRng` seeded with `seed`.
pub uninterp spec fn passes_prime_test(n: nat, seed: u64) -> bool;

/// `glass_pumpkin::prime::check_with`, with the random bases drawn from a
/// `StdRng` seeded with `seed`, so that the outcome depends on `n` and `seed`
/// alone.  Every prime passes (trial division only rejects proper multiples of
/// small primes, and the Fermat and Miller-Rabin tests never reject a prime);
/// 0, 1 and even numbers other than 2 do not.  That a passing number is prime
/// is not stated: the test is probabilistic.
#[verifier::external_body]
fn prime_test(n: &Vec<u32>, seed: u64) -> (r: bool)
    ensures
        r == passes_prime_test(limbs_value(n@), seed),
        is_prime(limbs_value(n@)) ==> r,
        r ==> limbs_value(n@) >= 2,
{
    glass_pumpkin::prime::check_with(&BigUint::from_slice(n), &mut StdRng::seed_from_u64(seed))
}

/// The seed of the primality test's random bases.
pub const PRIME_TEST_SEED: u64 = 0x0dd_5eed;

/// The odd number at which the search for a prime starts: `h`, or `h + 1` when
/// `h` is even.
pub open spec fn odd_start(h: nat) -> nat {
    if h % 2 == 0 {
        h + 1
    } else {
        h
    }
}

/// `p` is the least odd number at or above `start` that passes the primality test.
pub open spec fn is_first_passing_odd(start: nat, p: nat) -> bool {
    &&& p >= start
    &&& p % 2 == 1
    &&& passes_prime_test(p, PRIME_TEST_SEED)
    &&& forall|q: nat|
        start <= q < p && q % 2 == 1 ==> !#[trigger] passes_prime_test(q, PRIME_TEST_SEED)
}

/// The number that SHA-256 of `data` is hashed to before the prime search.
pub open spec fn digest_value(data: Seq<u8>) -> nat {
    hex_value(sha256_hex(data))
}

/// The prime that `data` hashes to: the least odd number at or above the
/// digest's value that passes the primality test.
pub open spec fn hashed_prime(data: Seq<u8>) -> nat {
    choose|p: nat| is_first_passing_odd(odd_start(digest_value(data)), p)
}

proof fn lemma_first_passing_unique(start: nat, p1: nat, p2: nat)
    requires
        is_first_passing_odd(start, p1),
        is_first_passing_odd(start, p2),
    ensures
        p1 == p2,
{
    if p1 < p2 {
        assert(!passes_prime_test(p1, PRIME_TEST_SEED));
    } else if p2 < p1 {
        assert(!passes_prime_test(p2, PRIME_TEST_SEED));
    }
}

/// Hashes `data` to a prime: the SHA-256 digest, read as a number, made odd, then
/// increased by two until it passes the primality test.  Every prime passes the
/// test and there are odd primes above every number, so the search ends.
pub fn hash_bytes_to_prime(data: &[u8]) -> (r: Natural)
    ensures
        r@ == hashed_prime(data@),
        is_first_passing_odd(odd_start(digest_value(data@)), r@),
        r@ >= 2,
        forall|q: nat|
            odd_start(digest_value(data@)) <= q < r@ && q % 2 == 1 ==> !#[trigger] is_prime(q),
{
    let hex = sha256_digest(data);
    proof {
        assert(is_hex_string(hex@));
    }
    let parsed = Natural::from_hex(hex.as_str());
    let h = parsed.unwrap();
    let ghost start = odd_start(digest_value(data@));
    assert(h@ == digest_value(data@));
    let two = Natural::from_u64(2);
    let mut candidate = if h.is_even() {
        h.add(&Natural::one())
    } else {
        h
    };
    let ghost bound = lemma_odd_prime_at_least(start);
    while !prime_test(candidate.limbs(), PRIME_TEST_SEED)
        invariant
            two@ == 2,
            candidate@ % 2 == 1,
            start <= candidate@ <= bound,
            is_prime(bound),
            bound % 2 == 1,
            forall|q: nat|
                start <= q < candidate@ && q % 2 == 1 ==> !#[trigger] passes_prime_test(q, PRIME_TEST_SEED),
            forall|q: nat| start <= q < candidate@ && q % 2 == 1 ==> !#[trigger] is_prime(q),
        decreases bound - candidate@,
    {
        proof {
            // the bound passes the test, so the candidate is below it
            assert(candidate@ != bound);
        }
        let ghost old_candidate = candidate@;
        candidate = candidate.add(&two);
        proof {
            assert forall|q: nat|
                start <= q < candidate@ && q % 2 == 1 implies !#[trigger] passes_prime_test(q, PRIME_TEST_SEED) by {
                if q >= old_candidate {
                    assert(q == old_candidate);
                }
            }
            assert forall|q: nat| start <= q < candidate@ && q % 2 == 1 implies !#[trigger] is_prime(q) by {
                if q >= old_candidate {
                    assert(q == old_candidate);
                }
            }
        }
    }
    proof {
        assert(is_first_passing_odd(start, candidate@));
        lemma_first_passing_unique(start, candidate@, hashed_prime(data@));
    }
    candidate
}

} // verus!
