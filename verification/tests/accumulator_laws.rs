use privacy_preserving_accumulators::groups::rsa_group::RsaGroup;
use privacy_preserving_accumulators::natural::{Integer, Natural};
use privacy_preserving_accumulators::traits::PrivatelyDelegatableAccumulator;
use privacy_preserving_accumulators::rsa_accumulator::non_membership_coefficients;
use privacy_preserving_accumulators::{Accumulator, GenericAccumulator, Group, RsaAccumulator};

fn n(x: u64) -> Natural {
    Natural::from_u64(x)
}

/// The group modulo 253 = 11 * 23 (two safe primes) with generator 4.
fn small_group(with_order: bool) -> RsaGroup {
    let order = if with_order { Some(n(220)) } else { None };
    RsaGroup::new(n(253), n(4), order)
}

fn small_acc(with_order: bool) -> RsaAccumulator {
    GenericAccumulator::new(small_group(with_order))
}

#[test]
fn new_accumulator_holds_the_generator() {
    let acc = small_acc(true);
    assert_eq!(acc.value(), &n(4));
    assert_eq!(acc.calculate_product(), n(1));
}

#[test]
fn add_raises_the_value_to_the_prime() {
    let mut acc = small_acc(true);
    let p = acc.add("alice");
    assert_eq!(p, acc.group.hash_to_prime(b"alice"));
    assert_eq!(acc.acc, n(4).modpow(&p, &n(253)));
    assert_eq!(acc.calculate_product(), p);
}

#[test]
fn adding_twice_changes_nothing() {
    let mut acc = small_acc(true);
    let p1 = acc.add("alice");
    let value = acc.acc.clone();
    let p2 = acc.add("alice");
    assert_eq!(p1, p2);
    assert_eq!(acc.acc, value);
    assert_eq!(acc.calculate_product(), p1);
}

#[test]
fn add_then_del_restores_the_value() {
    let mut acc = small_acc(true);
    acc.add("bob");
    acc.add("carol");
    let before = acc.acc.clone();
    let product_before = acc.calculate_product();
    acc.add("dave");
    assert_ne!(acc.calculate_product(), product_before);
    acc.del("dave");
    assert_eq!(acc.acc, before);
    assert_eq!(acc.calculate_product(), product_before);
}

#[test]
fn deleting_a_non_member_changes_nothing() {
    let mut acc = small_acc(true);
    acc.add("bob");
    let before = acc.acc.clone();
    acc.del("mallory");
    assert_eq!(acc.acc, before);
}

#[test]
fn del_recomputes_from_the_remaining_primes() {
    let mut acc = small_acc(true);
    let pb = acc.add("bob");
    let pc = acc.add("carol");
    acc.del("bob");
    assert_eq!(acc.acc, n(4).modpow(&pc, &n(253)));
    assert_eq!(acc.calculate_product(), pc);
    assert_ne!(pb, pc);
}

#[test]
fn membership_proofs_verify() {
    let mut acc = small_acc(true);
    let pa = acc.add("alice");
    let pb = acc.add("bob");
    let pc = acc.add("carol");
    for p in [&pa, &pb, &pc] {
        let proof = acc.mem_proof_create(p);
        assert!(acc.mem_ver(&proof, p));
    }
    // the witness of alice is g raised to the other two primes
    let expected = n(4).modpow(&pb.mul(&pc), &n(253));
    assert_eq!(acc.mem_proof_create(&pa), expected);
}

#[test]
fn membership_proof_of_a_non_member_fails() {
    let mut acc = RsaAccumulator::setup();
    acc.add("alice");
    let pm = acc.group.hash_to_prime(b"mallory");
    let proof = acc.mem_proof_create(&pm);
    assert!(!acc.mem_ver(&proof, &pm));
}

#[test]
fn unblinding_undoes_blinding() {
    let mut acc = small_acc(true);
    let pa = acc.add("alice");
    acc.add("bob");
    let proof = acc.mem_proof_create(&pa);
    let (blinded, st) = acc.blind_mem_proof_with_seed(&proof, b"seed");
    assert_eq!(st, acc.group.hash_to_prime(b"seed"));
    let mask = n(4).modpow(&st, &n(253));
    assert_eq!(blinded, proof.mul(&mask).rem(&n(253)));
    assert_eq!(acc.unblind_mem_proof(&blinded, &st), proof);
}

#[test]
fn non_membership_proofs_verify_with_and_without_the_order() {
    for with_order in [true, false] {
        let mut acc = small_acc(with_order);
        acc.add(&n(2).to_decimal());
        acc.add(&n(3).to_decimal());
        let non_member = n(5);
        let proof = acc.try_non_mem_proof_create(&non_member).unwrap();
        assert_eq!(proof, acc.non_mem_proof_create(&non_member));
        assert!(acc.non_mem_ver(&proof, &non_member));
        if with_order {
            assert!(!proof.0.is_negative());
            assert!(proof.0.magnitude().less_than(&n(220)));
        }
    }
}

#[test]
fn no_non_membership_proof_for_a_member() {
    let mut acc = small_acc(true);
    acc.add(&n(2).to_decimal());
    assert_eq!(acc.try_non_mem_proof_create(&n(2)), None);
}

#[test]
fn non_membership_proof_of_a_member_fails_to_verify() {
    let mut acc = RsaAccumulator::setup();
    acc.add(&n(3).to_decimal());
    let proof = acc.non_mem_proof_create(&n(5));
    acc.add(&n(5).to_decimal());
    assert!(!acc.non_mem_ver(&proof, &n(5)));
}

#[test]
fn blinding_a_member_gives_the_trivial_claim() {
    let mut acc = small_acc(true);
    acc.add(&n(2).to_decimal());
    assert_eq!(acc.blind_non_mem_proof(&n(2)), Some((n(0), n(1))));
    assert_eq!(acc.blind_non_mem_proof_with_seed(&n(2), b"seed"), Some((n(0), n(1))));
}

#[test]
fn blinded_non_membership_round_trip() {
    let mut acc = small_acc(false);
    acc.add(&n(2).to_decimal());
    let (blinded, q) = acc.blind_non_mem_proof_with_seed(&n(7), b"seed").unwrap();
    let t = acc.group.hash_to_prime(n(7).to_decimal().as_bytes());
    assert_eq!(blinded, t.mul(&q));
    acc.add(&n(11).to_decimal());
    let acc_now = acc.acc.clone();
    let upd = acc.try_blind_non_mem_proof_upd(&blinded).unwrap();
    assert!(acc.ver_blind_non_mem_proof_upd(&acc_now, &blinded, &upd));
    let proof = acc.unblind_non_mem_proof(&q, &upd);
    assert_eq!(proof.0, upd.0);
    assert!(acc.non_mem_ver(&proof, &n(7)));
}

#[test]
fn delegated_membership_update_verifies() {
    let mut acc = small_acc(true);
    let pa = acc.add("alice");
    let acc_t = acc.acc.clone();
    let proof = acc.mem_proof_create(&pa);
    let (blinded, _st) = acc.blind_mem_proof_with_seed(&proof, b"seed");
    let added = vec![acc.add("bob"), acc.add("carol")];
    let (upd, delta, current) =
        PrivatelyDelegatableAccumulator::blind_mem_proof_upd(&acc, added.clone(), vec![], &acc_t, &blinded);
    assert_eq!(delta, added[0].mul(&added[1]));
    assert_eq!(current, acc.acc);
    assert!(acc.ver_blind_mem_proof_upd(&acc_t, &blinded, &upd, &delta));
    let wrong = vec![added[0].clone()];
    let (upd2, delta2, _) =
        PrivatelyDelegatableAccumulator::blind_mem_proof_upd(&acc, wrong, vec![], &acc_t, &blinded);
    assert!(!acc.ver_blind_mem_proof_upd(&acc_t, &blinded, &upd2, &delta2));
}

#[test]
fn accumulator_trait_adds_by_text() {
    let mut acc = small_acc(true);
    let element = n(42);
    let p = Accumulator::add(&mut acc, &element);
    assert_eq!(p, acc.group.hash_to_prime(b"42"));
    let proof = Accumulator::mem_proof_create(&acc, &p);
    assert!(Accumulator::mem_ver(&acc, &proof, &p));
    Accumulator::del(&mut acc, &element);
    assert_eq!(acc.acc, n(4));
}

#[test]
fn rsa_group_operations() {
    let group = small_group(true);
    assert_eq!(group.g(), n(4));
    assert_eq!(group.generator(), n(4));
    assert_eq!(group.id(), n(1));
    assert_eq!(group.identity(), n(1));
    assert_eq!(group.mul(&n(10), &n(30)), n(47));
    assert_eq!(group.op(&n(10), &n(30)), n(47));
    assert_eq!(group.inv(&n(2)), n(127));
    assert_eq!(group.inverse(&n(2)), n(127));
    assert_eq!(group.div(&n(10), &n(2)), n(5));
    assert_eq!(group.exp(&n(2), &n(10)), n(1024 % 253));
    assert_eq!(group.act(&n(2), &n(10)), n(1024 % 253));
    assert_eq!(RsaGroup::exp_id(), n(1));
    assert_eq!(RsaGroup::exp_mul(&n(6), &n(7)), n(42));
    assert_eq!(group.totient(), Some(n(220)));
    assert_eq!(group.n(), n(253));
    assert!(group.is_invertible(&n(4)));
    assert!(!group.is_invertible(&n(11)));
    assert!(!group.is_invertible(&n(300)));
    assert_eq!(group.signed_exp(&n(2), &Integer::from_i64(-1)), n(127));
    assert_eq!(group.signed_exp(&n(2), &Integer::from_i64(3)), n(8));
    assert_eq!(n(4).modpow(&n(220), &n(253)), n(1));
}

#[test]
fn setup_gives_working_groups() {
    let acc = RsaAccumulator::setup();
    assert!(acc.group.totient().is_some());
    assert!(acc.group.g().less_than(&acc.group.n()));
    let acc = RsaAccumulator::setup_trapdoorless();
    assert!(acc.group.totient().is_none());
    assert_eq!(acc.acc, acc.group.g());
}

#[test]
fn insertion_order_does_not_matter() {
    let mut a = small_acc(true);
    a.add("alice");
    a.add("bob");
    a.add("carol");
    let mut b = small_acc(true);
    b.add("carol");
    b.add("dave");
    b.add("alice");
    b.add("bob");
    b.del("dave");
    assert_eq!(a.calculate_product(), b.calculate_product());
    assert_eq!(a.acc, b.acc);
}

#[test]
fn hashed_membership_update_raises_by_the_hashed_primes() {
    let acc = small_acc(true);
    let blinded = n(10);
    let elems = vec![n(5), n(8)];
    let ((a, b), acc_t) = acc.blind_mem_proof_upd_hashed(&elems, &vec![n(9)], &n(7), &blinded);
    assert_eq!(acc_t, n(7));
    let p5 = acc.group.hash_to_prime(b"5");
    let p8 = acc.group.hash_to_prime(b"8");
    let d = p5.mul(&p8);
    assert_eq!(a, n(10).modpow(&d, &n(253)));
    assert_eq!(b, n(4).modpow(&d, &n(253)));
    assert_ne!(a, blinded);
    let ((a0, b0), _) = acc.blind_mem_proof_upd_hashed(&vec![], &vec![], &n(7), &blinded);
    assert_eq!(a0, blinded);
    assert_eq!(b0, n(4));
}

#[test]
fn setup_modulus_is_a_product_of_two_key_size_numbers() {
    let acc = RsaAccumulator::setup();
    let modulus = acc.group.n();
    let order = acc.group.totient().unwrap();
    // n - (p - 1)(q - 1) + 1 == p + q, which lies in [2^256, 2^257)
    let sum = modulus.sub(&order).add(&n(1));
    let low = Natural::from_hex(&format!("1{}", "0".repeat(64))).unwrap();
    let high = Natural::from_hex(&format!("2{}", "0".repeat(64))).unwrap();
    assert!(!sum.less_than(&low));
    assert!(sum.less_than(&high));
    assert!(!acc.group.g().is_zero());
    assert!(acc.group.g().less_than(&modulus));
    let acc = RsaAccumulator::setup_trapdoorless();
    assert!(acc.group.totient().is_none());
    // p, q >= 2^255, so n >= 2^510
    let n_low = Natural::from_hex(&format!("4{}", "0".repeat(127))).unwrap();
    assert!(!acc.group.n().less_than(&n_low));
}

#[test]
fn blinding_with_no_members_always_succeeds() {
    let acc = small_acc(true);
    for x in [1u64, 2, 3, 42] {
        let (claim, q) = acc.blind_non_mem_proof(&n(x)).unwrap();
        let t = acc.group.hash_to_prime(n(x).to_decimal().as_bytes());
        assert_eq!(claim, t.mul(&q));
    }
}

#[test]
fn non_membership_coefficients_satisfy_bezout() {
    let members = vec![n(3), n(5), n(7)];
    let (a, b) = non_membership_coefficients(&members, &n(11)).unwrap();
    // a * 105 + b * 11 == 1, so a * 105 == 1 (mod 11) and b * 11 == 1 (mod 105)
    assert_eq!(a.rem_euclid(&n(11)).mul(&n(105)).rem(&n(11)), n(1));
    assert_eq!(b.rem_euclid(&n(105)).mul(&n(11)).rem(&n(105)), n(1));
    assert_eq!(non_membership_coefficients(&members, &n(21)), None);
    assert!(non_membership_coefficients(&vec![], &n(4)).is_some());
}
