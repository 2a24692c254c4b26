use privacy_preserving_accumulators::natural::Natural;
use privacy_preserving_accumulators::RsaAccumulator;

#[test]
fn rsa_accumulator_test_acc_add_del_no_change() {
    let mut acc = RsaAccumulator::setup();
    let initial_acc = acc.acc.clone();
    let element = Natural::from_bytes_be(b"test_element");

    acc.add(&element.to_decimal());
    acc.del(&element.to_decimal());

    assert_eq!(
        acc.acc, initial_acc,
        "Accumulator value should be unchanged after add and remove of the same element"
    );
}

#[test]
fn test_gen_mem_proof() {
    let mut acc = RsaAccumulator::setup();
    let element = Natural::from_u64(7);
    let ep = acc.add(&element.to_decimal());

    for i in 2..5 {
        acc.add(&Natural::from_u64(i as u64).to_decimal());
    }

    let proof = acc.mem_proof_create(&ep);

    assert!(acc.mem_ver(&proof, &ep));
}

#[test]
fn rsa_accumulator_test_non_mem_proof() {
    let mut acc = RsaAccumulator::setup();

    acc.add(&Natural::from_u64(2).to_decimal());
    acc.add(&Natural::from_u64(3).to_decimal());
    acc.add(&Natural::from_u64(7).to_decimal());

    let non_member = Natural::from_u64(5);

    let proof = acc.non_mem_proof_create(&non_member);
    assert!(
        acc.non_mem_ver(&proof, &non_member),
        "Non-membership proof should verify"
    );
}

#[test]
fn rsa_accumulator_test_blind_unblind_mem() {
    let mut acc = RsaAccumulator::setup();

    let element = Natural::from_u64(7);
    let ep: Natural = acc.add(&element.to_decimal());

    for i in 2..5 {
        acc.add(&Natural::from_u64(i as u64).to_decimal());
    }

    let proof = acc.mem_proof_create(&ep);
    let blinded_proof = acc.blind_mem_proof(&proof);

    assert!(
        blinded_proof.0 != proof,
        "Proof is not blinded successfully"
    );

    let unblinded_proof = acc.unblind_mem_proof(&blinded_proof.0, &blinded_proof.1);
    assert!(
        unblinded_proof == proof,
        "Proof is not unblinded successfully"
    );
}

#[test]
fn rsa_accumulator_test_blind_unblind_non_mem() {
    let mut acc = RsaAccumulator::setup();

    for i in 2..5 {
        acc.add(&Natural::from_u64(i as u64).to_decimal());
    }

    let non_member = Natural::from_u64(7);

    let blinded_proof = acc.blind_non_mem_proof(&non_member).unwrap();

    for i in 10..12 {
        acc.add(&Natural::from_u64(i as u64).to_decimal());
    }

    let upd_blind_non_mem_proof = acc.blind_non_mem_proof_upd(&blinded_proof.0);

    let unblinded_proof = acc.unblind_non_mem_proof(&blinded_proof.1, &upd_blind_non_mem_proof);
    assert!(
        acc.non_mem_ver(&unblinded_proof, &non_member),
        "Non-membership proof should verify after unblinding"
    );
}

#[test]
fn rsa_accumulator_test_blind_non_mem_proof_upd_ver() {
    let mut acc = RsaAccumulator::setup();

    let non_member = Natural::from_u64(200003);

    let blinded_proof = acc.blind_non_mem_proof(&non_member).unwrap();

    let elements_in = vec![
        Natural::from_u64(65537),
        Natural::from_u64(100003),
        Natural::from_u64(104729),
        Natural::from_u64(1299709),
        Natural::from_u64(15485863),
    ];

    for elem in &elements_in {
        acc.add(&elem.to_decimal());
    }

    let acctprime = acc.acc.clone();

    let upd_blind_proof = acc.blind_non_mem_proof_upd(&blinded_proof.0);

    assert!(
        acc.ver_blind_non_mem_proof_upd(&acctprime, &blinded_proof.0, &upd_blind_proof),
        "Couldnt verify"
    );
}

#[test]
fn rsa_accumulator_test_blind_mem_proof_upd_ver() {
    let mut acc = RsaAccumulator::setup();

    let ep = acc.add(&Natural::from_u64(200003).to_decimal());

    let acct = acc.acc.clone();

    let proof = acc.mem_proof_create(&ep);

    let blinded_proof = acc.blind_mem_proof(&proof);

    let elements_in: Vec<Natural> = [65537u64, 100003, 104729, 1299709, 15485863]
        .iter()
        .map(|x| Natural::from_u64(*x))
        .collect();

    let elements_out = vec![];
    for elem in &elements_in {
        acc.add(&elem.to_decimal());
    }

    let upd_blind_proof =
        acc.blind_mem_proof_upd_hashed(&elements_in, &elements_out, &acct, &blinded_proof.0);

    // the updated blinded proof (a, b) = (blinded^d, g^d) checks against the new
    // value: a^ep == acc * b^(st * ep)
    let modulus = acc.group.n();
    let (a, b) = &upd_blind_proof.0;
    let lhs = a.modpow(&ep, &modulus);
    let rhs = acc.acc.mul(&b.modpow(&blinded_proof.1.mul(&ep), &modulus)).rem(&modulus);
    assert!(lhs == rhs);
    assert!(upd_blind_proof.1 == acct);
}
