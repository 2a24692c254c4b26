use num_bigint::BigUint;
use privacy_preserving_accumulators::hashing::hash_bytes_to_prime;
use privacy_preserving_accumulators::natural::{Integer, Natural};

fn n(x: u64) -> Natural {
    Natural::from_u64(x)
}

#[test]
fn natural_from_u64_and_decimal() {
    assert_eq!(n(0).to_decimal(), "0");
    assert_eq!(n(7).to_decimal(), "7");
    assert_eq!(n(u64::MAX).to_decimal(), "18446744073709551615");
    assert!(n(0).is_zero());
    assert!(!n(4294967296).is_zero());
}

#[test]
fn natural_from_bytes_be() {
    assert_eq!(Natural::from_bytes_be(b"A"), n(65));
    assert_eq!(Natural::from_bytes_be(b"AB"), n(16706));
    assert_eq!(
        Natural::from_bytes_be(b"Hello world!").to_decimal(),
        "22405534230753963835153736737"
    );
    assert_eq!(Natural::from_bytes_be(b""), n(0));
    assert_eq!(Natural::from_bytes_be(&[0, 0, 1]), n(1));
}

#[test]
fn natural_from_hex() {
    assert_eq!(Natural::from_hex("ff"), Some(n(255)));
    assert_eq!(Natural::from_hex("0"), Some(n(0)));
    assert_eq!(Natural::from_hex("100000000"), Some(n(4294967296)));
    assert_eq!(Natural::from_hex("xyz"), None);
}

#[test]
fn natural_arithmetic() {
    let big = n(u64::MAX);
    assert_eq!(
        big.mul(&big).to_decimal(),
        "340282366920938463426481119284349108225"
    );
    assert_eq!(n(2).mul(&n(3)), n(6));
    assert_eq!(n(40).add(&n(2)), n(42));
    assert_eq!(big.add(&n(1)).to_decimal(), "18446744073709551616");
    assert_eq!(n(100).sub(&n(1)), n(99));
    assert_eq!(big.add(&n(1)).sub(&n(1)), big);
    assert_eq!(n(100).rem(&n(7)), n(2));
    assert_eq!(n(6).rem(&n(7)), n(6));
    assert!(n(3).less_than(&n(4)));
    assert!(!n(4).less_than(&n(4)));
    assert!(n(4).equals(&n(4)));
    assert!(!n(4).equals(&n(5)));
    assert!(n(4).is_even());
    assert!(!n(5).is_even());
    assert_eq!(big.copy(), big);
}

#[test]
fn natural_modpow() {
    assert_eq!(n(4).modpow(&n(13), &n(497)), n(445));
    assert_eq!(n(5).modpow(&n(0), &n(7)), n(1));
    assert_eq!(n(5).modpow(&n(3), &n(1)), n(0));
    assert_eq!(n(3).modpow(&n(4), &n(10)), n(1));
}

#[test]
fn natural_modinv() {
    assert_eq!(n(271).modinv(&n(383)), Some(n(106)));
    assert_eq!(n(0).modinv(&n(383)), None);
    assert_eq!(n(6).modinv(&n(9)), None);
    assert_eq!(n(1).modinv(&n(383)), Some(n(1)));
    assert_eq!(n(2).modinv(&n(77)), Some(n(39)));
}

#[test]
fn natural_gcd_and_extended_gcd() {
    assert_eq!(n(12).gcd(&n(18)), n(6));
    assert_eq!(n(7).gcd(&n(0)), n(7));
    let (g, x, y) = n(240).extended_gcd(&n(46));
    assert_eq!(g, n(2));
    assert_eq!(x, Integer::from_i64(-9));
    assert_eq!(y, Integer::from_i64(47));
    let (g, x, y) = n(3).extended_gcd(&n(5));
    assert_eq!(g, n(1));
    assert_eq!(x, Integer::from_i64(2));
    assert_eq!(y, Integer::from_i64(-1));
}

#[test]
fn integer_operations() {
    let m = n(3);
    assert_eq!(Integer::from_i64(-7).rem_euclid(&m), n(2));
    assert_eq!(Integer::from_i64(-9).rem_euclid(&m), n(0));
    assert_eq!(Integer::from_i64(7).rem_euclid(&m), n(1));
    assert!(Integer::from_i64(-1).is_negative());
    assert!(!Integer::from_i64(0).is_negative());
    assert_eq!(Integer::from_i64(-5).magnitude(), n(5));
    assert_eq!(Integer::from_i64(i64::MIN).magnitude().to_decimal(), "9223372036854775808");
    assert_eq!(Integer::from_i64(-5).mul_natural(&n(3)), Integer::from_i64(-15));
    assert_eq!(Integer::from_natural(&n(8)), Integer::from_i64(8));
}

#[test]
fn hashing_to_prime_is_deterministic_and_near_the_digest() {
    let p1 = hash_bytes_to_prime(b"x");
    let p2 = hash_bytes_to_prime(b"x");
    assert_eq!(p1, p2);
    let digest = BigUint::parse_bytes(sha256::digest(b"x".as_slice()).as_bytes(), 16).unwrap();
    let p = BigUint::parse_bytes(p1.to_decimal().as_bytes(), 10).unwrap();
    assert!(p >= digest);
    assert!(&p - &digest < BigUint::from(100000u32));
    assert!(!p1.is_even());
    assert!(glass_pumpkin::prime::strong_check(&p));
    assert_ne!(hash_bytes_to_prime(b"y"), p1);
}

#[test]
fn hashing_to_prime_skips_no_odd_prime() {
    for data in [b"x".as_slice(), b"alice".as_slice(), b"".as_slice()] {
        let digest = BigUint::parse_bytes(sha256::digest(data).as_bytes(), 16).unwrap();
        let p = BigUint::parse_bytes(hash_bytes_to_prime(data).to_decimal().as_bytes(), 10).unwrap();
        let mut q = &digest | BigUint::from(1u32);
        while q < p {
            assert!(!glass_pumpkin::prime::strong_check(&q));
            q += 2u32;
        }
        assert_eq!(q, p);
    }
}

#[test]
fn invertible_elements_raised_to_the_order_give_one() {
    // 253 = 11 * 23, order (11 - 1) * (23 - 1) = 220
    for a in 1u64..253 {
        if a % 11 != 0 && a % 23 != 0 {
            assert_eq!(n(a).modpow(&n(220), &n(253)), n(1));
        } else {
            assert_ne!(n(a).modpow(&n(220), &n(253)), n(1));
        }
    }
    // Fermat: a^(p - 1) == 1 mod p
    for a in 1u64..101 {
        assert_eq!(n(a).modpow(&n(100), &n(101)), n(1));
    }
}

#[test]
fn coprime_to_both_factors_is_coprime_to_the_product() {
    let s = n(2 * 3 * 5 * 7);
    for t in [11u64, 13, 17] {
        for q in [19u64, 23, 29] {
            assert_eq!(s.gcd(&n(t)), n(1));
            assert_eq!(s.gcd(&n(q)), n(1));
            assert_eq!(s.gcd(&n(t * q)), n(1));
        }
    }
    assert_ne!(s.gcd(&n(11 * 21)), n(1));
}
