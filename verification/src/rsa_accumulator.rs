//! The accumulator: a set of prime exponents and the generator raised to their
//! product, with membership proofs and their blinding.
use vstd::prelude::*;
use num_bigint::RandBigInt;
use vstd::string::StringSliceAdditionalSpecFns;

use vstd::utf8::encode_utf8;
use vstd::seq_lib::seq_to_set_is_finite;
use vstd::set_lib::lemma_len_subset;
use crate::natural::{Natural, Integer, decimal_string, bezout_coefficients};
use crate::number_theory::{gcd, is_prime, lemma_coprime_product};
use crate::groups::rsa_order::lemma_order_annihilates;
use crate::groups::rsa_group::{RsaGroup, generated_from};
use crate::traits::{
    Group,
    Accumulator,
    NonMembershipAccumulator,
    PrivatelyDelegatableAccumulator,
    PrivatelyDelegatableNonMembershipAccumulator,
};

verus! {

// ---------------------------------------------------------------------------
// The abstract model
// ---------------------------------------------------------------------------

/// The product of exponents, folded from the left starting at the identity
/// exponent.
pub open spec fn exponents_product<G: Group>(s: Seq<nat>) -> nat
    decreases s.len(),
{
    if s.len() == 0 {
        G::exponent_one()
    } else {
        G::exponent_product(exponents_product::<G>(s.drop_last()), s.last())
    }
}

/// `s` with every occurrence of `x` left out.
pub open spec fn without(s: Seq<nat>, x: nat) -> Seq<nat>
    decreases s.len(),
{
    if s.len() == 0 {
        s
    } else if s.last() == x {
        without(s.drop_last(), x)
    } else {
        without(s.drop_last(), x).push(s.last())
    }
}

/// The values of a sequence of exponents.
pub open spec fn exponent_values<G: Group>(s: Seq<G::Exponent>) -> Seq<nat> {
    s.map_values(|e: G::Exponent| G::exponent_value(e))
}

/// An accumulator value is consistent with its members: the members are distinct
/// and the value is the generator raised to their product.
pub open spec fn consistent<G: Group>(group: G, value: nat, members: Seq<nat>) -> bool {
    &&& members.no_duplicates()
    &&& value == group.power_of(group.generator_value(), exponents_product::<G>(members))
}

/// The members after adding the prime `h`.
pub open spec fn members_after_add(members: Seq<nat>, h: nat) -> Seq<nat> {
    if members.contains(h) {
        members
    } else {
        members.push(h)
    }
}

/// The value after adding the prime `h`: raised to `h` unless `h` was a member.
pub open spec fn value_after_add<G: Group>(group: G, value: nat, members: Seq<nat>, h: nat) -> nat {
    if members.contains(h) {
        value
    } else {
        group.power_of(value, h)
    }
}

/// The members after deleting the prime `h`.
pub open spec fn members_after_del(members: Seq<nat>, h: nat) -> Seq<nat> {
    members.remove_value(h)
}

/// The value after deleting the prime `h`: if `h` was a member, the generator
/// raised to the product of the remaining members.
pub open spec fn value_after_del<G: Group>(group: G, value: nat, members: Seq<nat>, h: nat) -> nat {
    if members.contains(h) {
        group.power_of(group.generator_value(), exponents_product::<G>(members.remove_value(h)))
    } else {
        value
    }
}

/// The membership witness for `x`: the generator raised to the product of the
/// members other than `x`.
pub open spec fn membership_witness<G: Group>(group: G, members: Seq<nat>, x: nat) -> nat {
    group.power_of(group.generator_value(), exponents_product::<G>(without(members, x)))
}

/// A membership proof `w` for `x` verifies against the value: `w^x == value`.
pub open spec fn membership_verifies<G: Group>(group: G, value: nat, w: nat, x: nat) -> bool {
    group.power_of(w, x) == value
}

/// A membership proof blinded by the mask `g^st`.
pub open spec fn blinded_proof<G: Group>(group: G, w: nat, st: nat) -> nat {
    group.product_of(w, group.power_of(group.generator_value(), st))
}

/// A blinded proof with the mask `g^st` removed again.
pub open spec fn unblinded_proof<G: Group>(group: G, b: nat, st: nat) -> nat {
    group.product_of(b, group.inverse_of(group.power_of(group.generator_value(), st)))
}

// ---------------------------------------------------------------------------
// Lemmas about products
// ---------------------------------------------------------------------------

proof fn lemma_without_absent(s: Seq<nat>, x: nat)
    requires
        !s.contains(x),
    ensures
        without(s, x) == s,
    decreases s.len(),
{
    if s.len() > 0 {
        assert(!s.drop_last().contains(x)) by {
            if s.drop_last().contains(x) {
                let i = choose|i: int| 0 <= i < s.drop_last().len() && s.drop_last()[i] == x;
                assert(s[i] == x);
            }
        }
        lemma_without_absent(s.drop_last(), x);
        assert(s.drop_last().push(s.last()) =~= s);
    }
}

/// Taking a member out of the product: `prod(s) == prod(s without x) * x`.
proof fn lemma_product_without<G: Group>(s: Seq<nat>, x: nat)
    requires
        s.no_duplicates(),
        s.contains(x),
    ensures
        exponents_product::<G>(s) == G::exponent_product(exponents_product::<G>(without(s, x)), x),
    decreases s.len(),
{
    let d = s.drop_last();
    assert(d.no_duplicates());
    if s.last() == x {
        assert(!d.contains(x)) by {
            if d.contains(x) {
                let i = choose|i: int| 0 <= i < d.len() && d[i] == x;
                assert(s[i] == s[s.len() - 1]);
            }
        }
        lemma_without_absent(d, x);
    } else {
        let i = choose|i: int| 0 <= i < s.len() && s[i] == x;
        assert(d[i] == x);
        lemma_product_without::<G>(d, x);
        let p = exponents_product::<G>(without(d, x));
        G::lemma_exponent_monoid(p, x, s.last());
        G::lemma_exponent_monoid(p, s.last(), x);
        G::lemma_exponent_monoid(x, s.last(), p);
        assert(without(s, x).drop_last() =~= without(d, x));
    }
}

proof fn lemma_without_contains(s: Seq<nat>, x: nat, y: nat)
    ensures
        without(s, x).contains(y) <==> (s.contains(y) && y != x),
    decreases s.len(),
{
    if s.len() > 0 {
        let d = s.drop_last();
        lemma_without_contains(d, x, y);
        assert(s =~= d.push(s.last()));
        if s.contains(y) && y != s.last() {
            let i = choose|i: int| 0 <= i < s.len() && s[i] == y;
            assert(d[i] == y);
        }
        if d.contains(y) {
            let i = choose|i: int| 0 <= i < d.len() && d[i] == y;
            assert(s[i] == y);
        }
        if s.last() != x {
            let w = without(d, x);
            assert(without(s, x) == w.push(s.last()));
            if w.push(s.last()).contains(y) && y != s.last() {
                let i = choose|i: int| 0 <= i < w.len() + 1 && w.push(s.last())[i] == y;
                assert(w[i] == y);
            }
            if w.contains(y) {
                let i = choose|i: int| 0 <= i < w.len() && w[i] == y;
                assert(w.push(s.last())[i] == y);
            }
            assert(w.push(s.last())[w.len() as int] == s.last());
            assert(s[s.len() - 1] == s.last());
        }
    }
}

proof fn lemma_without_no_duplicates(s: Seq<nat>, x: nat)
    requires
        s.no_duplicates(),
    ensures
        without(s, x).no_duplicates(),
    decreases s.len(),
{
    if s.len() > 0 {
        let d = s.drop_last();
        assert(d.no_duplicates());
        lemma_without_no_duplicates(d, x);
        if s.last() != x {
            let w = without(d, x);
            assert(!w.contains(s.last())) by {
                lemma_without_contains(d, x, s.last());
                if d.contains(s.last()) {
                    let i = choose|i: int| 0 <= i < d.len() && d[i] == s.last();
                    assert(s[i] == s[s.len() - 1]);
                }
            }
            let v = w.push(s.last());
            assert forall|i: int, j: int| 0 <= i < v.len() && 0 <= j < v.len() && i != j implies v[i] != v[j] by {
                if i < w.len() && j < w.len() {
                } else if i < w.len() {
                    assert(w.contains(w[i]));
                } else {
                    assert(w.contains(w[j]));
                }
            }
        }
    }
}

/// The product of the members does not depend on the order in which they were
/// accumulated: two sequences of distinct exponents that hold the same values
/// have the same product.
pub proof fn lemma_product_order_independent<G: Group>(a: Seq<nat>, b: Seq<nat>)
    requires
        a.no_duplicates(),
        b.no_duplicates(),
        forall|x: nat| a.contains(x) <==> b.contains(x),
    ensures
        exponents_product::<G>(a) == exponents_product::<G>(b),
    decreases a.len(),
{
    if a.len() == 0 {
        if b.len() > 0 {
            assert(b.contains(b[0]));
        }
    } else {
        let x = a.last();
        let d = a.drop_last();
        assert(a.contains(x)) by {
            assert(a[a.len() - 1] == x);
        }
        assert(d.no_duplicates());
        assert(!d.contains(x)) by {
            if d.contains(x) {
                let i = choose|i: int| 0 <= i < d.len() && d[i] == x;
                assert(a[i] == a[a.len() - 1]);
            }
        }
        lemma_product_without::<G>(b, x);
        lemma_without_no_duplicates(b, x);
        let w = without(b, x);
        assert forall|y: nat| d.contains(y) <==> w.contains(y) by {
            lemma_without_contains(b, x, y);
            if d.contains(y) {
                let i = choose|i: int| 0 <= i < d.len() && d[i] == y;
                assert(a[i] == y);
            }
            if a.contains(y) && y != x {
                let i = choose|i: int| 0 <= i < a.len() && a[i] == y;
                assert(i != a.len() - 1);
                assert(d[i] == y);
            }
        }
        lemma_product_order_independent::<G>(d, w);
    }
}

// ---------------------------------------------------------------------------
// The accumulator
// ---------------------------------------------------------------------------

/// An accumulator over the group `G`: the accumulated value `acc` is the
/// generator raised to the product of the prime exponents in `set`.
#[derive(Debug)]
pub struct GenericAccumulator<G: Group> {
    pub group: G,
    pub acc: G::Element,
    pub set: Vec<G::Exponent>,
}

/// The accumulator over the RSA group.
pub type RsaAccumulator = GenericAccumulator<RsaGroup>;

impl<G: Group> GenericAccumulator<G> {
    /// The values of the accumulated exponents, in insertion order.
    pub open spec fn members(&self) -> Seq<nat> {
        exponent_values::<G>(self.set@)
    }

    /// The value of the accumulator.
    pub open spec fn value_of(&self) -> nat {
        G::element_value(self.acc)
    }

    /// The accumulator's invariant: a well-formed group, distinct members, and
    /// the value equal to the generator raised to the members' product.
    pub open spec fn valid(&self) -> bool {
        &&& self.group.well_formed()
        &&& consistent::<G>(self.group, self.value_of(), self.members())
    }

    /// A new accumulator over `group`, holding no element: its value is the
    /// generator.
    pub fn new(group: G) -> (r: Self)
        requires
            group.well_formed(),
        ensures
            r.group == group,
            r.members() == Seq::<nat>::empty(),
            r.value_of() == group.generator_value(),
            r.valid(),
    {
        let acc = group.g();
        proof {
            group.lemma_closed(0, 0, 0);
            group.lemma_power_one(group.generator_value());
        }
        let r = GenericAccumulator { group, acc, set: Vec::new() };
        proof {
            assert(r.members() =~= Seq::<nat>::empty());
        }
        r
    }

    /// The current accumulator value.
    pub fn value(&self) -> (r: &G::Element)
        ensures
            r == &self.acc,
    {
        &self.acc
    }

    /// The index of the first accumulated exponent equal to `x`, if any.
    fn find_exponent(&self, x: &G::Exponent) -> (r: Option<usize>)
        ensures
            match r {
                Some(i) => {
                    &&& i < self.members().len()
                    &&& self.members()[i as int] == G::exponent_value(*x)
                    &&& self.members().index_of_first(G::exponent_value(*x)) == Some(i as int)
                },
                None => !self.members().contains(G::exponent_value(*x)),
            },
    {
        let ghost m = self.members();
        let ghost xv = G::exponent_value(*x);
        let n = self.set.len();
        for i in 0..n
            invariant
                n == self.set@.len(),
                m == self.members(),
                m.len() == n,
                xv == G::exponent_value(*x),
                forall|j: int| 0 <= j < i ==> m[j] != xv,
        {
            if G::exponent_eq(&self.set[i], x) {
                proof {
                    assert(m[i as int] == xv);
                    m.index_of_first_ensures(xv);
                    let k = m.index_of_first(xv).unwrap();
                    assert(k == i as int);
                }
                return Some(i);
            }
        }
        proof {
            m.index_of_first_ensures(xv);
        }
        None
    }

    /// Whether the prime `x` is accumulated.
    fn contains(&self, x: &G::Exponent) -> (r: bool)
        ensures
            r == self.members().contains(G::exponent_value(*x)),
    {
        match self.find_exponent(x) {
            Some(_) => true,
            None => false,
        }
    }

    /// Adds an element: hashes its text `x` to a prime and, unless that prime is
    /// already accumulated, accumulates it by raising the value to it.  Returns
    /// the prime.
    pub fn add(&mut self, x: &str) -> (r: G::Exponent)
        requires
            old(self).group.well_formed(),
        ensures
            final(self).group == old(self).group,
            G::exponent_value(r) == old(self).group.hashed_exponent(x.spec_bytes()),
            final(self).members() == members_after_add(old(self).members(), G::exponent_value(r)),
            final(self).value_of() == value_after_add::<G>(
                old(self).group,
                old(self).value_of(),
                old(self).members(),
                G::exponent_value(r),
            ),
            old(self).valid() ==> final(self).valid(),
    {
        let x_prime = self.group.hash_to_prime(x.as_bytes());
        let ghost h = G::exponent_value(x_prime);
        let ghost old_members = self.members();
        let ghost old_value = self.value_of();
        if !self.contains(&x_prime) {
            let e = G::exponent_clone(&x_prime);
            self.set.push(e);
            self.acc = self.group.exp(&self.acc, &x_prime);
            proof {
                assert(self.members() =~= old_members.push(h));
                assert(self.members().drop_last() =~= old_members);
                let g = self.group.generator_value();
                self.group.lemma_power_power(g, exponents_product::<G>(old_members), h);
                if consistent::<G>(self.group, old_value, old_members) {
                    assert(self.members().no_duplicates()) by {
                        assert forall|i: int, j: int|
                            0 <= i < self.members().len() && 0 <= j < self.members().len() && i != j
                            implies self.members()[i] != self.members()[j] by {
                            if i < old_members.len() && j < old_members.len() {
                            } else if i < old_members.len() {
                                assert(old_members[i] != h);
                            } else {
                                assert(old_members[j] != h);
                            }
                        }
                    }
                }
            }
        }
        x_prime
    }

    /// Deletes an element: hashes its text `x` to a prime and, if that prime is
    /// accumulated, removes it and recomputes the value as the generator raised to
    /// the product of the remaining primes.
    pub fn del(&mut self, x: &str)
        requires
            old(self).group.well_formed(),
        ensures
            final(self).group == old(self).group,
            final(self).members() == members_after_del(
                old(self).members(),
                old(self).group.hashed_exponent(x.spec_bytes()),
            ),
            final(self).value_of() == value_after_del::<G>(
                old(self).group,
                old(self).value_of(),
                old(self).members(),
                old(self).group.hashed_exponent(x.spec_bytes()),
            ),
            old(self).valid() ==> final(self).valid(),
    {
        let x_prime = self.group.hash_to_prime(x.as_bytes());
        let ghost h = G::exponent_value(x_prime);
        let ghost old_members = self.members();
        match self.find_exponent(&x_prime) {
            Some(i) => {
                self.set.remove(i);
                proof {
                    old_members.index_of_first_ensures(h);
                    assert(self.members() =~= old_members.remove(i as int));
                    assert(old_members.remove_value(h) == old_members.remove(i as int));
                    if old_members.no_duplicates() {
                        assert(self.members().no_duplicates()) by {
                            assert forall|a: int, b: int|
                                0 <= a < self.members().len() && 0 <= b < self.members().len() && a
                                    != b implies self.members()[a] != self.members()[b] by {
                                let a2 = if a < i { a } else { a + 1 };
                                let b2 = if b < i { b } else { b + 1 };
                                assert(self.members()[a] == old_members[a2]);
                                assert(self.members()[b] == old_members[b2]);
                            }
                        }
                    }
                }
                let product = self.calculate_product();
                let g = self.group.g();
                self.acc = self.group.exp(&g, &product);
            },
            None => {
                proof {
                    old_members.index_of_first_ensures(h);
                }
            },
        }
    }

    /// The product of all accumulated primes.
    pub fn calculate_product(&self) -> (r: G::Exponent)
        ensures
            G::exponent_value(r) == exponents_product::<G>(self.members()),
    {
        Self::product_of_exponents(&self.set)
    }

    /// The product of the given exponents, folded in their order.
    fn product_of_exponents(elems: &Vec<G::Exponent>) -> (r: G::Exponent)
        ensures
            G::exponent_value(r) == exponents_product::<G>(exponent_values::<G>(elems@)),
    {
        let ghost m = exponent_values::<G>(elems@);
        let mut acc = G::exp_id();
        let n = elems.len();
        for i in 0..n
            invariant
                n == elems@.len(),
                m == exponent_values::<G>(elems@),
                m.len() == n,
                G::exponent_value(acc) == exponents_product::<G>(m.subrange(0, i as int)),
        {
            acc = G::exp_mul(&acc, &elems[i]);
            proof {
                assert(m.subrange(0, i + 1).drop_last() =~= m.subrange(0, i as int));
            }
        }
        proof {
            assert(m.subrange(0, n as int) =~= m);
        }
        acc
    }

    /// The product of the accumulated primes other than `x`.
    fn product_without(&self, x: &G::Exponent) -> (r: G::Exponent)
        ensures
            G::exponent_value(r) == exponents_product::<G>(
                without(self.members(), G::exponent_value(*x)),
            ),
    {
        let ghost m = self.members();
        let ghost xv = G::exponent_value(*x);
        let mut acc = G::exp_id();
        let n = self.set.len();
        for i in 0..n
            invariant
                n == self.set@.len(),
                m == self.members(),
                m.len() == n,
                xv == G::exponent_value(*x),
                G::exponent_value(acc) == exponents_product::<G>(without(m.subrange(0, i as int), xv)),
        {
            let ghost s1 = m.subrange(0, i + 1);
            proof {
                assert(s1.drop_last() =~= m.subrange(0, i as int));
                assert(s1.last() == m[i as int]);
                assert(m[i as int] == G::exponent_value(self.set@[i as int]));
            }
            if !G::exponent_eq(&self.set[i], x) {
                acc = G::exp_mul(&acc, &self.set[i]);
                proof {
                    assert(without(s1, xv) == without(m.subrange(0, i as int), xv).push(m[i as int]));
                    assert(without(s1, xv).drop_last() =~= without(m.subrange(0, i as int), xv));
                }
            } else {
                proof {
                    assert(without(s1, xv) == without(m.subrange(0, i as int), xv));
                }
            }
        }
        proof {
            assert(m.subrange(0, n as int) =~= m);
        }
        acc
    }

    /// A membership proof for the prime `x`: the generator raised to the product of
    /// the accumulated primes other than `x`.
    pub fn mem_proof_create(&self, x: &G::Exponent) -> (r: G::Element)
        requires
            self.group.well_formed(),
        ensures
            G::element_value(r) == membership_witness::<G>(
                self.group,
                self.members(),
                G::exponent_value(*x),
            ),
    {
        let prod = self.product_without(x);
        let g = self.group.g();
        self.group.exp(&g, &prod)
    }

    /// Verifies a membership proof: `proof^x` equals the accumulator value.
    pub fn mem_ver(&self, proof: &G::Element, x: &G::Exponent) -> (r: bool)
        requires
            self.group.well_formed(),
        ensures
            r == membership_verifies::<G>(
                self.group,
                self.value_of(),
                G::element_value(*proof),
                G::exponent_value(*x),
            ),
    {
        let lhs = self.group.exp(proof, x);
        G::element_eq(&lhs, &self.acc)
    }

    /// Blinds a membership proof with a mask `g^st`, where `st` is the prime that
    /// `seed` hashes to.  Returns the blinded proof and `st`.
    pub fn blind_mem_proof_with_seed(&self, mem_proof: &G::Element, seed: &[u8]) -> (r: (G::Element, G::Exponent))
        requires
            self.group.well_formed(),
        ensures
            G::exponent_value(r.1) == self.group.hashed_exponent(seed@),
            G::element_value(r.0) == blinded_proof::<G>(
                self.group,
                G::element_value(*mem_proof),
                G::exponent_value(r.1),
            ),
    {
        let st = self.group.hash_to_prime(seed);
        let g = self.group.g();
        let mask = self.group.exp(&g, &st);
        let blinded_proof = self.group.mul(mem_proof, &mask);
        (blinded_proof, st)
    }

    /// Blinds a membership proof with a mask `g^st`, where `st` is the prime that
    /// 128 random bits hash to.  Returns the blinded proof and `st`.
    pub fn blind_mem_proof(&self, mem_proof: &G::Element) -> (r: (G::Element, G::Exponent))
        requires
            self.group.well_formed(),
        ensures
            exists|seed: Seq<u8>|
                1 <= seed.len() <= 16 && G::exponent_value(r.1) == #[trigger] self.group.hashed_exponent(seed),
            G::element_value(r.0) == blinded_proof::<G>(
                self.group,
                G::element_value(*mem_proof),
                G::exponent_value(r.1),
            ),
    {
        let seed = random_seed(SEED_BITS);
        self.blind_mem_proof_with_seed(mem_proof, seed.as_slice())
    }

    /// Removes the mask `g^st` from a blinded membership proof.
    pub fn unblind_mem_proof(&self, blinded_proof: &G::Element, st: &G::Exponent) -> (r: G::Element)
        requires
            self.group.well_formed(),
            self.group.invertible(
                self.group.power_of(self.group.generator_value(), G::exponent_value(*st)),
            ),
        ensures
            G::element_value(r) == unblinded_proof::<G>(
                self.group,
                G::element_value(*blinded_proof),
                G::exponent_value(*st),
            ),
    {
        let g = self.group.g();
        let st_mask = self.group.exp(&g, st);
        let st_inv = self.group.inv(&st_mask);
        self.group.mul(blinded_proof, &st_inv)
    }
}

/// Two valid accumulators over the same group that hold the same members, however
/// they were added and deleted, have the same product and the same value.
pub proof fn lemma_same_members_same_value<G: Group>(a: GenericAccumulator<G>, b: GenericAccumulator<G>)
    requires
        a.valid(),
        b.valid(),
        a.group == b.group,
        a.members().to_set() == b.members().to_set(),
    ensures
        exponents_product::<G>(a.members()) == exponents_product::<G>(b.members()),
        a.value_of() == b.value_of(),
{
    assert forall|x: nat| a.members().contains(x) <==> b.members().contains(x) by {
        assert(a.members().to_set().contains(x) == a.members().contains(x));
        assert(b.members().to_set().contains(x) == b.members().contains(x));
    }
    lemma_product_order_independent::<G>(a.members(), b.members());
}

/// The Bézout coefficients `(a, b)` with `a * s + b * x == 1` of the product `s`
/// of `members` and the prime `x`, from which a non-membership proof for `x` is
/// built in any group; `None` when `x` shares a factor with `s`.
pub fn non_membership_coefficients(members: &Vec<Natural>, x: &Natural) -> (r: Option<(Integer, Integer)>)
    ensures
        ({
            let s = exponents_product::<RsaGroup>(exponent_values::<RsaGroup>(members@));
            &&& r is Some <==> gcd(s, x@) == 1
            &&& r matches Some(c) ==> (c.0@, c.1@) == bezout_coefficients(s, x@) && c.0@ * s + c.1@
                * x@ == 1
        }),
{
    let s = GenericAccumulator::<RsaGroup>::product_of_exponents(members);
    let (g, a, b) = s.extended_gcd(x);
    if g.equals(&Natural::one()) {
        Some((a, b))
    } else {
        None
    }
}

/// The byte strings held in a list of byte vectors.
pub open spec fn seed_views(v: Seq<Vec<u8>>) -> Seq<Seq<u8>> {
    Seq::new(v.len(), |i: int| v[i]@)
}

/// Pigeonhole: a sequence of distinct items that all occur in `small` is no longer
/// than `small`.
proof fn lemma_pigeonhole<A>(big: Seq<A>, small: Seq<A>)
    requires
        big.no_duplicates(),
        forall|i: int| 0 <= i < big.len() ==> small.contains(#[trigger] big[i]),
    ensures
        big.len() <= small.len(),
{
    big.unique_seq_to_set();
    small.lemma_cardinality_of_set();
    seq_to_set_is_finite(small);
    assert(big.to_set().subset_of(small.to_set())) by {
        assert forall|x: A| big.to_set().contains(x) implies small.to_set().contains(x) by {
            let i = choose|i: int| 0 <= i < big.len() && big[i] == x;
            assert(small.contains(big[i]));
        }
    }
    lemma_len_subset(big.to_set(), small.to_set());
}

/// The seed of the one byte `j`.
spec fn one_byte_seed(j: int) -> Seq<u8> {
    seq![j as u8]
}

/// Whether two byte vectors hold the same bytes.
fn same_bytes(a: &Vec<u8>, b: &Vec<u8>) -> (r: bool)
    ensures
        r == (a@ == b@),
{
    if a.len() != b.len() {
        return false;
    }
    let n = a.len();
    for i in 0..n
        invariant
            n == a@.len(),
            n == b@.len(),
            forall|j: int| 0 <= j < i ==> a@[j] == b@[j],
    {
        if a[i] != b[i] {
            return false;
        }
    }
    assert(a@ =~= b@);
    true
}

/// Whether `seed` is one of the seeds in `tried`.
fn seed_tried(tried: &Vec<Vec<u8>>, seed: &Vec<u8>) -> (r: bool)
    ensures
        r == seed_views(tried@).contains(seed@),
{
    let n = tried.len();
    for i in 0..n
        invariant
            n == tried@.len(),
            forall|j: int| 0 <= j < i ==> seed_views(tried@)[j] != seed@,
    {
        if same_bytes(&tried[i], seed) {
            assert(seed_views(tried@)[i as int] == seed@);
            return true;
        }
    }
    false
}

/// A one-byte seed that is not among the seeds in `tried`: the first of
/// `[0], [1], ...` that was not tried, which exists as fewer than 255 were.
fn fresh_seed(tried: &Vec<Vec<u8>>) -> (r: Vec<u8>)
    requires
        tried@.len() < 255,
    ensures
        r@.len() == 1,
        !seed_views(tried@).contains(r@),
{
    let n = tried.len();
    let mut k: usize = 0;
    while k <= n
        invariant
            n == tried@.len(),
            n < 255,
            k <= n + 1,
            forall|j: int| 0 <= j < k ==> seed_views(tried@).contains(#[trigger] one_byte_seed(j)),
        decreases n + 1 - k,
    {
        let mut c: Vec<u8> = Vec::new();
        c.push(k as u8);
        proof {
            assert(c@ =~= one_byte_seed(k as int));
        }
        if !seed_tried(tried, &c) {
            return c;
        }
        k = k + 1;
    }
    proof {
        let cand = Seq::new((n + 1) as nat, |j: int| one_byte_seed(j));
        assert forall|i: int, j: int| 0 <= i < cand.len() && 0 <= j < cand.len() && i != j
            implies cand[i] != cand[j] by {
            assert(cand[i][0] == i as u8);
            assert(cand[j][0] == j as u8);
        }
        assert forall|i: int| 0 <= i < cand.len() implies seed_views(tried@).contains(#[trigger] cand[i]) by {
            assert(cand[i] == one_byte_seed(i));
        }
        lemma_pigeonhole(cand, seed_views(tried@));
    }
    Vec::new()
}

/// `blind_non_mem_proof` gives up only after `BLIND_ATTEMPTS` distinct seeds
/// whose primes all share a factor with the members' product.  So it gives up
/// only when at least `BLIND_ATTEMPTS` seeds fail: if every failing seed is
/// listed in `bad`, then `bad` has at least that many entries, and with fewer
/// failing seeds a claim is always returned.
pub proof fn lemma_blinding_fails_only_with_many_bad_seeds(
    group: RsaGroup,
    s: nat,
    seeds: Seq<Seq<u8>>,
    bad: Seq<Seq<u8>>,
)
    requires
        seeds.no_duplicates(),
        failed_blinding_seeds(group, s, seeds),
        forall|seed: Seq<u8>|
            1 <= seed.len() <= 16 && gcd(group.hashed_exponent(seed), s) != 1 ==> #[trigger] bad.contains(
                seed,
            ),
    ensures
        seeds.len() <= bad.len(),
{
    assert forall|i: int| 0 <= i < seeds.len() implies bad.contains(#[trigger] seeds[i]) by {
        assert(1 <= seeds[i].len() <= 16 && gcd(group.hashed_exponent(seeds[i]), s) != 1);
    }
    lemma_pigeonhole(seeds, bad);
}

// ---------------------------------------------------------------------------
// The RSA accumulator: setup and non-membership proofs
// ---------------------------------------------------------------------------

/// The number of random bits in a blinding seed.
pub const SEED_BITS: u64 = 128;

/// The number of random seeds `blind_non_mem_proof` tries.
pub const BLIND_ATTEMPTS: usize = 64;

/// The prime that the number `x` is hashed to: the hash of its decimal text.
pub open spec fn number_prime(group: RsaGroup, x: nat) -> nat {
    group.hashed_exponent(encode_utf8(decimal_string(x)))
}

/// The primes that the numbers `xs` hash to, in order.
pub open spec fn number_primes(group: RsaGroup, xs: Seq<Natural>) -> Seq<nat> {
    Seq::new(xs.len(), |i: int| number_prime(group, xs[i]@))
}

/// Each of `seeds` has one to sixteen bytes and hashes to a prime that shares a
/// factor with `s`.
pub open spec fn failed_blinding_seeds(group: RsaGroup, s: nat, seeds: Seq<Seq<u8>>) -> bool {
    forall|i: int|
        0 <= i < seeds.len() ==> 1 <= #[trigger] seeds[i].len() <= 16 && gcd(
            group.hashed_exponent(seeds[i]),
            s,
        ) != 1
}

/// The non-membership proof `(a, d)` built from Bézout coefficients `a0`, `b0`
/// (with `a0 * s + b0 * t == 1` for the members' product `s` and the prime
/// `t`): with a known group order `T`, `(a0 mod T, g^(b0 mod T))`; without it,
/// `(a0, g^b0)`.
pub open spec fn proof_from_coefficients(group: RsaGroup, a0: int, b0: int) -> (int, nat) {
    match group.totient_value() {
        Some(t) => (a0 % (t as int), group.power_of(group.generator_value(), (b0 % (t as int)) as nat)),
        None => (a0, group.signed_power_of(group.generator_value(), b0)),
    }
}

/// Building the proof from Bézout coefficients needs no inverse, or the
/// generator is invertible.
pub open spec fn proof_buildable(group: RsaGroup, b0: int) -> bool {
    group.totient_value() is None && b0 < 0 ==> group.invertible(group.generator_value())
}

/// A non-membership proof `(a, d)` for the prime `t` verifies against the value
/// `v`: `v^a * d^t == g`.
pub open spec fn non_membership_verifies(group: RsaGroup, v: nat, a: int, d: nat, t: nat) -> bool {
    group.product_of(group.signed_power_of(v, a), group.power_of(d, t)) == group.generator_value()
}

impl GenericAccumulator<RsaGroup> {
    /// A new accumulator over a fresh RSA group with two random safe primes of
    /// `KEY_SIZE` bits, a random generator and the group order kept.
    pub fn setup() -> (r: Self)
        ensures
            r.valid(),
            r.members() == Seq::<nat>::empty(),
            r.value_of() == r.group.generator_value(),
            1 <= r.group.generator_value() < r.group.modulus(),
            exists|p: nat, q: nat| #[trigger] generated_from(r.group, p, q, true),
    {
        Self::new(RsaGroup::generate(true))
    }

    /// A new accumulator over a fresh RSA group whose order is not kept.
    pub fn setup_trapdoorless() -> (r: Self)
        ensures
            r.valid(),
            r.members() == Seq::<nat>::empty(),
            r.value_of() == r.group.generator_value(),
            1 <= r.group.generator_value() < r.group.modulus(),
            exists|p: nat, q: nat| #[trigger] generated_from(r.group, p, q, false),
    {
        Self::new(RsaGroup::generate(false))
    }

    /// The product of the accumulated primes, as a number.
    fn calculate_product_unreduced(&self) -> (r: Natural)
        ensures
            r@ == exponents_product::<RsaGroup>(self.members()),
    {
        self.calculate_product()
    }

    /// The prime that the number `x` hashes to.
    fn prime_of_number(&self, x: &Natural) -> (r: Natural)
        requires
            self.group.well_formed(),
        ensures
            r@ == number_prime(self.group, x@),
    {
        let x_str = x.to_decimal();
        self.group.hash_to_prime(x_str.as_str().as_bytes())
    }

    /// The product of the primes that the numbers in `elems` hash to.
    fn product_of_number_primes(&self, elems: &Vec<Natural>) -> (r: Natural)
        requires
            self.group.well_formed(),
        ensures
            r@ == exponents_product::<RsaGroup>(number_primes(self.group, elems@)),
    {
        let ghost m = number_primes(self.group, elems@);
        let mut delta = Natural::one();
        let n = elems.len();
        for i in 0..n
            invariant
                n == elems@.len(),
                self.group.well_formed(),
                m == number_primes(self.group, elems@),
                m.len() == n,
                delta@ == exponents_product::<RsaGroup>(m.subrange(0, i as int)),
        {
            let x_prime = self.prime_of_number(&elems[i]);
            delta = delta.mul(&x_prime);
            proof {
                assert(m.subrange(0, i + 1).drop_last() =~= m.subrange(0, i as int));
                assert(m.subrange(0, i + 1).last() == m[i as int]);
            }
        }
        proof {
            assert(m.subrange(0, n as int) =~= m);
        }
        delta
    }

    /// Updates a blinded membership proof for the numbers `elem_in` added since the
    /// accumulator had the value `acc_t`: with `d` the product of the primes they
    /// hash to, the updated proof is `(blinded_proof^d, g^d)`, returned with
    /// `acc_t`.  Deleted numbers (`_elem_out`) play no part.
    pub fn blind_mem_proof_upd_hashed(
        &self,
        elem_in: &Vec<Natural>,
        _elem_out: &Vec<Natural>,
        acc_t: &Natural,
        blinded_proof: &Natural,
    ) -> (r: ((Natural, Natural), Natural))
        requires
            self.group.well_formed(),
        ensures
            ({
                let d = exponents_product::<RsaGroup>(number_primes(self.group, elem_in@));
                &&& r.0.0@ == self.group.power_of(blinded_proof@, d)
                &&& r.0.1@ == self.group.power_of(self.group.generator_value(), d)
                &&& r.1@ == acc_t@
            }),
    {
        let delta = self.product_of_number_primes(elem_in);
        let a = self.group.exp(blinded_proof, &delta);
        let g = self.group.g();
        let b = self.group.exp(&g, &delta);
        ((a, b), acc_t.copy())
    }

    /// The proof that a number with which `s` shares no factor is not a divisor
    /// of `s`: from the Bézout coefficients of `s` and `t`.  `None` when `s` and
    /// `t` share a factor, or when the proof needs the inverse of a generator
    /// that has none.
    fn coprime_proof(&self, s: &Natural, t: &Natural) -> (r: Option<(Integer, Natural)>)
        requires
            self.group.well_formed(),
        ensures
            r is Some <==> gcd(s@, t@) == 1 && proof_buildable(self.group, bezout_coefficients(s@, t@).1),
            r matches Some(p) ==> (p.0@, p.1@) == proof_from_coefficients(
                self.group,
                bezout_coefficients(s@, t@).0,
                bezout_coefficients(s@, t@).1,
            ),
            bezout_coefficients(s@, t@).0 * s@ + bezout_coefficients(s@, t@).1 * t@ == gcd(s@, t@),
    {
        let (gcd, x, y) = s.extended_gcd(t);
        if !gcd.equals(&Natural::one()) {
            return None;
        }
        let g = self.group.g();
        match self.group.totient() {
            Some(totient) => {
                let a = x.rem_euclid(&totient);
                let b = y.rem_euclid(&totient);
                let d = self.group.exp(&g, &b);
                Some((Integer::from_natural(&a), d))
            },
            None => {
                if y.is_negative() && !self.group.is_invertible(&g) {
                    return None;
                }
                let d = self.group.signed_exp(&g, &y);
                Some((x, d))
            },
        }
    }

    /// Whether `s` and `t` are coprime and the proof from their Bézout
    /// coefficients can be built.
    fn proof_possible(&self, s: &Natural, t: &Natural) -> (r: bool)
        requires
            self.group.well_formed(),
        ensures
            r == (gcd(s@, t@) == 1 && proof_buildable(self.group, bezout_coefficients(s@, t@).1)),
            bezout_coefficients(s@, t@).0 * s@ + bezout_coefficients(s@, t@).1 * t@ == gcd(s@, t@),
    {
        let (gcd, _x, y) = s.extended_gcd(t);
        if !gcd.equals(&Natural::one()) {
            return false;
        }
        match self.group.totient() {
            Some(_) => true,
            None => {
                let g = self.group.g();
                !y.is_negative() || self.group.is_invertible(&g)
            },
        }
    }

    /// A non-membership proof for the number `x`: from the Bézout coefficients of
    /// the members' product and `x`'s prime.  `None` when they share a factor (so
    /// `x` is accumulated), or when the proof needs the inverse of a generator
    /// that has none.
    pub fn try_non_mem_proof_create(&self, x: &Natural) -> (r: Option<(Integer, Natural)>)
        requires
            self.group.well_formed(),
        ensures
            ({
                let s = exponents_product::<RsaGroup>(self.members());
                let t = number_prime(self.group, x@);
                &&& r is Some <==> gcd(s, t) == 1 && proof_buildable(self.group, bezout_coefficients(s, t).1)
                &&& r matches Some(p) ==> (p.0@, p.1@) == proof_from_coefficients(
                    self.group,
                    bezout_coefficients(s, t).0,
                    bezout_coefficients(s, t).1,
                )
                &&& bezout_coefficients(s, t).0 * s + bezout_coefficients(s, t).1 * t == gcd(s, t)
            }),
    {
        let s = self.calculate_product_unreduced();
        let x_prime = self.prime_of_number(x);
        if self.proof_possible(&s, &x_prime) {
            Some(self.non_mem_proof_create(x))
        } else {
            None
        }
    }

    /// A non-membership proof for the number `x`: `(a, d)` from the Bézout
    /// coefficients `a0 * s + b0 * t == 1` of the members' product `s` and `x`'s
    /// prime `t` (reduced modulo the group order when it is known).
    pub fn non_mem_proof_create(&self, x: &Natural) -> (r: (Integer, Natural))
        requires
            self.group.well_formed(),
            ({
                let s = exponents_product::<RsaGroup>(self.members());
                let t = number_prime(self.group, x@);
                gcd(s, t) == 1 && proof_buildable(self.group, bezout_coefficients(s, t).1)
            }),
        ensures
            ({
                let s = exponents_product::<RsaGroup>(self.members());
                let t = number_prime(self.group, x@);
                &&& (r.0@, r.1@) == proof_from_coefficients(
                    self.group,
                    bezout_coefficients(s, t).0,
                    bezout_coefficients(s, t).1,
                )
                &&& bezout_coefficients(s, t).0 * s + bezout_coefficients(s, t).1 * t == 1
            }),
    {
        let s = self.calculate_product_unreduced();
        let x_prime = self.prime_of_number(x);
        self.coprime_proof(&s, &x_prime).unwrap()
    }

    /// Verifies a non-membership proof `(a, d)` for the number `x` with prime `t`:
    /// `acc^a * d^t == g`.  A negative `a` needs an invertible accumulator value.
    pub fn non_mem_ver(&self, proof: &(Integer, Natural), x: &Natural) -> (r: bool)
        requires
            self.group.well_formed(),
            proof.0@ < 0 ==> self.group.invertible(self.value_of()),
        ensures
            r == non_membership_verifies(
                self.group,
                self.value_of(),
                proof.0@,
                proof.1@,
                number_prime(self.group, x@),
            ),
    {
        let x_prime = self.prime_of_number(x);
        let lhs = self.group.signed_exp(&self.acc, &proof.0);
        let rhs = self.group.exp(&proof.1, &x_prime);
        let prod = self.group.mul(&lhs, &rhs);
        let g = self.group.g();
        prod.equals(&g)
    }

    /// Blinds a non-membership claim for the number `x` with the prime `q` that
    /// `seed` hashes to: `(t * q, q)` for `x`'s prime `t`, or `(0, 1)` when `t` is
    /// accumulated.  `None` when `q` shares a factor with the members' product.
    pub fn blind_non_mem_proof_with_seed(&self, x: &Natural, seed: &[u8]) -> (r: Option<(Natural, Natural)>)
        requires
            self.group.well_formed(),
        ensures
            ({
                let s = exponents_product::<RsaGroup>(self.members());
                let t = number_prime(self.group, x@);
                let q = self.group.hashed_exponent(seed@);
                if self.members().contains(t) {
                    r matches Some(p) && p.0@ == 0 && p.1@ == 1
                } else {
                    &&& r is Some <==> gcd(q, s) == 1
                    &&& r matches Some(p) ==> p.0@ == t * q && p.1@ == q
                }
            }),
    {
        let x_prime = self.prime_of_number(x);
        if self.contains(&x_prime) {
            Some((Natural::zero(), Natural::one()))
        } else {
            let s = self.calculate_product_unreduced();
            let q = self.group.hash_to_prime(seed);
            if q.gcd(&s).equals(&Natural::one()) {
                Some((x_prime.mul(&q), q))
            } else {
                None
            }
        }
    }

    /// Blinds a non-membership claim for the number `x` with a prime `q` that a
    /// random 128-bit seed hashes to, trying up to `BLIND_ATTEMPTS` seeds until
    /// `q` shares no factor with the members' product: `(t * q, q)` for `x`'s
    /// prime `t`, or `(0, 1)` when `t` is accumulated.  The seeds tried are
    /// pairwise distinct: a drawn seed that was already tried is replaced by the
    /// first one-byte seed not yet tried.  `None` only when `t` is not
    /// accumulated and `BLIND_ATTEMPTS` distinct seeds each gave a prime sharing a
    /// factor with the product, which cannot happen when the product is 1.
    pub fn blind_non_mem_proof(&self, x: &Natural) -> (r: Option<(Natural, Natural)>)
        requires
            self.group.well_formed(),
        ensures
            ({
                let s = exponents_product::<RsaGroup>(self.members());
                let t = number_prime(self.group, x@);
                &&& self.members().contains(t) ==> (r matches Some(p) && p.0@ == 0 && p.1@ == 1)
                &&& !self.members().contains(t) ==> (r matches Some(p) ==> exists|seed: Seq<u8>|
                    1 <= seed.len() <= 16 && p.1@ == #[trigger] self.group.hashed_exponent(seed)
                        && gcd(p.1@, s) == 1 && p.0@ == t * p.1@)
                &&& r is None ==> !self.members().contains(t) && exists|seeds: Seq<Seq<u8>>|
                    seeds.len() == BLIND_ATTEMPTS && seeds.no_duplicates()
                        && #[trigger] failed_blinding_seeds(self.group, s, seeds)
                &&& s == 1 ==> r is Some
            }),
    {
        let ghost s = exponents_product::<RsaGroup>(self.members());
        let mut tried: Vec<Vec<u8>> = Vec::new();
        let mut attempt: usize = 0;
        proof {
            assert(seed_views(tried@) =~= Seq::<Seq<u8>>::empty());
        }
        while attempt < BLIND_ATTEMPTS
            invariant
                self.group.well_formed(),
                s == exponents_product::<RsaGroup>(self.members()),
                attempt <= BLIND_ATTEMPTS,
                tried@.len() == attempt,
                seed_views(tried@).no_duplicates(),
                failed_blinding_seeds(self.group, s, seed_views(tried@)),
                attempt > 0 ==> !self.members().contains(number_prime(self.group, x@)),
            decreases BLIND_ATTEMPTS - attempt,
        {
            let drawn = random_seed(SEED_BITS);
            let seed = if seed_tried(&tried, &drawn) {
                fresh_seed(&tried)
            } else {
                drawn
            };
            let r = self.blind_non_mem_proof_with_seed(x, seed.as_slice());
            if r.is_some() {
                return r;
            }
            let ghost old_views = seed_views(tried@);
            let ghost seed_view = seed@;
            tried.push(seed);
            proof {
                let views = seed_views(tried@);
                assert(views =~= old_views.push(seed_view));
                assert forall|i: int| 0 <= i < views.len() implies 1 <= #[trigger] views[i].len() <= 16
                    && gcd(self.group.hashed_exponent(views[i]), s) != 1 by {
                    if i < old_views.len() {
                        assert(views[i] == old_views[i]);
                    }
                }
                assert forall|i: int, j: int| 0 <= i < views.len() && 0 <= j < views.len() && i != j
                    implies views[i] != views[j] by {
                    if i == old_views.len() as int {
                        assert(old_views.contains(old_views[j]));
                    } else if j == old_views.len() as int {
                        assert(old_views.contains(old_views[i]));
                    }
                }
            }
            attempt = attempt + 1;
        }
        let ghost tried = seed_views(tried@);
        proof {
            assert(failed_blinding_seeds(self.group, s, tried));
            if s == 1 {
                let q = self.group.hashed_exponent(tried[0]);
                assert(1 <= tried[0].len() <= 16 && gcd(q, s) != 1);
                assert(q % 1 == 0);
                assert(gcd(1, 0) == 1);
                assert(gcd(q, 1) == gcd(1, q % 1));
                assert(false);
            }
        }
        None
    }

    /// Updates a blinded non-membership claim `b` against the current members:
    /// from the Bézout coefficients of the members' product and `b`.  `None` when
    /// they share a factor, or when the proof needs the inverse of a generator
    /// that has none.
    pub fn try_blind_non_mem_proof_upd(&self, blinded_non_mem_proof: &Natural) -> (r: Option<(Integer, Natural)>)
        requires
            self.group.well_formed(),
        ensures
            ({
                let s = exponents_product::<RsaGroup>(self.members());
                let b = blinded_non_mem_proof@;
                &&& r is Some <==> gcd(s, b) == 1 && proof_buildable(self.group, bezout_coefficients(s, b).1)
                &&& r matches Some(p) ==> (p.0@, p.1@) == proof_from_coefficients(
                    self.group,
                    bezout_coefficients(s, b).0,
                    bezout_coefficients(s, b).1,
                )
                &&& bezout_coefficients(s, b).0 * s + bezout_coefficients(s, b).1 * b == gcd(s, b)
            }),
    {
        let s = self.calculate_product_unreduced();
        if self.proof_possible(&s, blinded_non_mem_proof) {
            Some(self.blind_non_mem_proof_upd(blinded_non_mem_proof))
        } else {
            None
        }
    }

    /// Updates a blinded non-membership claim `b` against the current members:
    /// `(a, d)` from the Bézout coefficients `a0 * s + b0 * b == 1` of the
    /// members' product `s` and `b`.
    pub fn blind_non_mem_proof_upd(&self, blinded_non_mem_proof: &Natural) -> (r: (Integer, Natural))
        requires
            self.group.well_formed(),
            ({
                let s = exponents_product::<RsaGroup>(self.members());
                let b = blinded_non_mem_proof@;
                gcd(s, b) == 1 && proof_buildable(self.group, bezout_coefficients(s, b).1)
            }),
        ensures
            ({
                let s = exponents_product::<RsaGroup>(self.members());
                let b = blinded_non_mem_proof@;
                &&& (r.0@, r.1@) == proof_from_coefficients(
                    self.group,
                    bezout_coefficients(s, b).0,
                    bezout_coefficients(s, b).1,
                )
                &&& bezout_coefficients(s, b).0 * s + bezout_coefficients(s, b).1 * b == 1
            }),
    {
        let s = self.calculate_product_unreduced();
        self.coprime_proof(&s, blinded_non_mem_proof).unwrap()
    }

    /// Verifies an updated blinded non-membership proof `(a, d)` for the blinded
    /// claim `b` against the value `acc_t_prime`: `acc_t_prime^a * d^b == g`.
    pub fn ver_blind_non_mem_proof_upd(
        &self,
        acc_t_prime: &Natural,
        blinded_non_mem_proof: &Natural,
        upd_blinded_non_mem_proof: &(Integer, Natural),
    ) -> (r: bool)
        requires
            self.group.well_formed(),
            upd_blinded_non_mem_proof.0@ < 0 ==> self.group.invertible(acc_t_prime@),
        ensures
            r == non_membership_verifies(
                self.group,
                acc_t_prime@,
                upd_blinded_non_mem_proof.0@,
                upd_blinded_non_mem_proof.1@,
                blinded_non_mem_proof@,
            ),
    {
        let lhs = self.group.signed_exp(acc_t_prime, &upd_blinded_non_mem_proof.0);
        let rhs = self.group.exp(&upd_blinded_non_mem_proof.1, blinded_non_mem_proof);
        let prod = self.group.mul(&lhs, &rhs);
        let g = self.group.g();
        prod.equals(&g)
    }

    /// Removes the blinding factor `st` from an updated blinded non-membership
    /// proof `(a, d)`: `(a, d^st)`.
    pub fn unblind_non_mem_proof(&self, st: &Natural, upd_blinded_non_mem_proof: &(Integer, Natural)) -> (r: (Integer, Natural))
        requires
            self.group.well_formed(),
        ensures
            r.0@ == upd_blinded_non_mem_proof.0@,
            r.1@ == self.group.power_of(upd_blinded_non_mem_proof.1@, st@),
    {
        let a = upd_blinded_non_mem_proof.0.copy();
        let b_prime = self.group.exp(&upd_blinded_non_mem_proof.1, st);
        (a, b_prime)
    }
}

// ---------------------------------------------------------------------------
// Laws of the accumulator
// ---------------------------------------------------------------------------

proof fn lemma_push_no_duplicates(m: Seq<nat>, h: nat)
    requires
        m.no_duplicates(),
        !m.contains(h),
    ensures
        m.push(h).no_duplicates(),
{
    let p = m.push(h);
    assert forall|i: int, j: int| 0 <= i < p.len() && 0 <= j < p.len() && i != j implies p[i] != p[j] by {
        if i < m.len() && j < m.len() {
        } else if i < m.len() {
            assert(m[i] != h);
        } else {
            assert(m[j] != h);
        }
    }
}

proof fn lemma_remove_no_duplicates(m: Seq<nat>, h: nat)
    requires
        m.no_duplicates(),
    ensures
        m.remove_value(h).no_duplicates(),
{
    m.index_of_first_ensures(h);
    if m.contains(h) {
        let i = m.index_of_first(h).unwrap();
        let r = m.remove(i);
        assert forall|a: int, b: int| 0 <= a < r.len() && 0 <= b < r.len() && a != b implies r[a] != r[b] by {
            let a2 = if a < i { a } else { a + 1 };
            let b2 = if b < i { b } else { b + 1 };
            assert(r[a] == m[a2]);
            assert(r[b] == m[b2]);
        }
    }
}

/// Adding and deleting keep an accumulator consistent: its members stay
/// distinct and its value stays the generator raised to their product.
pub proof fn lemma_updates_keep_consistency<G: Group>(group: G, value: nat, members: Seq<nat>, h: nat)
    requires
        group.well_formed(),
        consistent::<G>(group, value, members),
    ensures
        consistent::<G>(
            group,
            value_after_add::<G>(group, value, members, h),
            members_after_add(members, h),
        ),
        consistent::<G>(
            group,
            value_after_del::<G>(group, value, members, h),
            members_after_del(members, h),
        ),
{
    if !members.contains(h) {
        lemma_push_no_duplicates(members, h);
        assert(members.push(h).drop_last() =~= members);
        group.lemma_power_power(group.generator_value(), exponents_product::<G>(members), h);
    }
    lemma_remove_no_duplicates(members, h);
    members.index_of_first_ensures(h);
}

/// Adding an element that is not accumulated and then deleting it again gives
/// back the same members and the same accumulator value.
pub proof fn lemma_add_then_del_restores<G: Group>(group: G, value: nat, members: Seq<nat>, h: nat)
    requires
        group.well_formed(),
        consistent::<G>(group, value, members),
        !members.contains(h),
    ensures
        members_after_del(members_after_add(members, h), h) == members,
        value_after_del::<G>(
            group,
            value_after_add::<G>(group, value, members, h),
            members_after_add(members, h),
            h,
        ) == value,
{
    let p = members.push(h);
    assert(p.contains(h)) by {
        assert(p[members.len() as int] == h);
    }
    p.index_of_first_ensures(h);
    let i = p.index_of_first(h).unwrap();
    assert(i == members.len()) by {
        if i < members.len() {
            assert(members[i] == h);
        }
    }
    assert(p.remove(i) =~= members);
}

/// A membership proof made for an accumulated element verifies.
pub proof fn lemma_membership_proof_verifies<G: Group>(group: G, value: nat, members: Seq<nat>, x: nat)
    requires
        group.well_formed(),
        consistent::<G>(group, value, members),
        members.contains(x),
    ensures
        membership_verifies::<G>(group, value, membership_witness::<G>(group, members, x), x),
{
    lemma_product_without::<G>(members, x);
    group.lemma_power_power(
        group.generator_value(),
        exponents_product::<G>(without(members, x)),
        x,
    );
}

/// Unblinding a blinded membership proof gives back the proof, when the
/// generator is invertible.
pub proof fn lemma_unblind_undoes_blind<G: Group>(group: G, w: nat, st: nat)
    requires
        group.well_formed(),
        group.contains(w),
        group.invertible(group.generator_value()),
    ensures
        unblinded_proof::<G>(group, blinded_proof::<G>(group, w, st), st) == w,
{
    let g = group.generator_value();
    let m = group.power_of(g, st);
    group.lemma_invertible_closed(g, g, st);
    group.lemma_closed(g, m, st);
    group.lemma_closed(m, m, st);
    group.lemma_associative(w, m, group.inverse_of(m));
    group.lemma_inverse(m);
    group.lemma_identity(w);
}

/// A non-membership proof built from Bézout coefficients of `s` and `m * k`, with
/// its second part raised to `k`, verifies for `m` against `g^s`.
proof fn lemma_coefficient_proof_verifies(group: RsaGroup, s: nat, a0: int, b0: int, m: nat, k: nat)
    requires
        group.well_formed(),
        a0 * s + b0 * (m * k) == 1,
        group.totient_value() is None ==> group.invertible(group.generator_value()),
        group.totient_value() matches Some(t) ==> group.power_of(group.generator_value(), t)
            == group.identity_value(),
    ensures
        ({
            let (a, d) = proof_from_coefficients(group, a0, b0);
            let v = group.power_of(group.generator_value(), s);
            &&& a < 0 ==> group.invertible(v)
            &&& non_membership_verifies(group, v, a, group.power_of(d, k), m)
        }),
{
    let g = group.generator_value();
    let v = group.power_of(g, s);
    group.lemma_closed(g, g, 1);
    group.lemma_power_one(g);
    assert(s * a0 + b0 * k * m == 1) by (nonlinear_arith)
        requires
            a0 * s + b0 * (m * k) == 1,
    ;
    match group.totient_value() {
        None => {
            group.lemma_invertible_closed(g, g, s);
            group.lemma_signed_power_of_power(g, s, a0);
            group.lemma_power_of_signed_power(g, b0, k);
            group.lemma_power_of_signed_power(g, b0 * k, m);
            group.lemma_signed_power_adds(g, s * a0, b0 * k * m);
        },
        Some(t) => {
            let ti = t as int;
            let a = a0 % ti;
            let bt = (b0 % ti) as nat;
            let an = a as nat;
            let d = group.power_of(g, bt);
            group.lemma_power_power(g, s, an);
            group.lemma_power_power(g, bt, k);
            group.lemma_power_power(g, bt * k, m);
            let e = s * an + bt * k * m;
            crate::number_theory::lemma_pow_mod_adds(g, s * an, bt * k * m, group.modulus());
            // e == 1 (mod t)
            vstd::arithmetic::div_mod::lemma_mul_mod_noop_right(s as int, a0, ti);
            vstd::arithmetic::div_mod::lemma_mul_mod_noop_left(b0, (k * m) as int, ti);
            vstd::arithmetic::mul::lemma_mul_is_associative(bt as int, k as int, m as int);
            vstd::arithmetic::mul::lemma_mul_is_associative(b0, k as int, m as int);
            vstd::arithmetic::div_mod::lemma_add_mod_noop((s * an) as int, (bt * k * m) as int, ti);
            vstd::arithmetic::div_mod::lemma_add_mod_noop(s * a0, b0 * k * m, ti);
            assert(e as int % ti == 1int % ti);
            group.lemma_power_mod_order(g, t, e);
            group.lemma_power_mod_order(g, t, 1);
        },
    }
}

/// A non-membership proof built from Bézout coefficients `a0 * s + b0 * t == 1`
/// of the members' product `s` and a prime `t` verifies for `t`.  With a kept
/// group order `T` this needs `g^T == 1`; without it, an invertible generator.
pub proof fn lemma_non_membership_proof_verifies(
    group: RsaGroup,
    value: nat,
    members: Seq<nat>,
    t: nat,
    a0: int,
    b0: int,
)
    requires
        group.well_formed(),
        consistent::<RsaGroup>(group, value, members),
        a0 * exponents_product::<RsaGroup>(members) + b0 * t == 1,
        group.totient_value() is None ==> group.invertible(group.generator_value()),
        group.totient_value() matches Some(o) ==> group.power_of(group.generator_value(), o)
            == group.identity_value(),
    ensures
        ({
            let (a, d) = proof_from_coefficients(group, a0, b0);
            &&& a < 0 ==> group.invertible(value)
            &&& non_membership_verifies(group, value, a, d, t)
        }),
{
    let g = group.generator_value();
    let (a, d) = proof_from_coefficients(group, a0, b0);
    assert(t * 1 == t);
    lemma_coefficient_proof_verifies(group, exponents_product::<RsaGroup>(members), a0, b0, t, 1);
    // d is an element of the carrier set, so d^1 == d
    if group.totient_value() is None && b0 < 0 {
        group.lemma_closed(group.power_of(g, (-b0) as nat), g, 0);
    } else if group.totient_value() is None {
        group.lemma_closed(g, g, b0 as nat);
    } else {
        let o = group.totient_value()->0;
        group.lemma_closed(g, g, (b0 % (o as int)) as nat);
    }
    group.lemma_power_one(d);
}

proof fn lemma_product_divisible(members: Seq<nat>, t: nat)
    requires
        members.contains(t),
        t > 0,
    ensures
        exponents_product::<RsaGroup>(members) % t == 0,
    decreases members.len(),
{
    let d = members.drop_last();
    let pd = exponents_product::<RsaGroup>(d);
    if members.last() == t {
        vstd::arithmetic::div_mod::lemma_mod_multiples_basic(pd as int, t as int);
    } else {
        let i = choose|i: int| 0 <= i < members.len() && members[i] == t;
        assert(d[i] == t);
        lemma_product_divisible(d, t);
        vstd::arithmetic::div_mod::lemma_fundamental_div_mod(pd as int, t as int);
        let k = pd / t;
        assert(pd * members.last() == t * (k * members.last())) by (nonlinear_arith)
            requires
                pd == t * k,
        ;
        vstd::arithmetic::div_mod::lemma_mod_multiples_basic((k * members.last()) as int, t as int);
        vstd::arithmetic::mul::lemma_mul_is_commutative(t as int, (k * members.last()) as int);
    }
}

/// No non-membership proof can be made for an accumulated prime: it shares
/// itself as a factor with the members' product.
pub proof fn lemma_member_has_no_non_membership_proof(members: Seq<nat>, t: nat)
    requires
        members.contains(t),
        t >= 2,
    ensures
        gcd(exponents_product::<RsaGroup>(members), t) != 1,
{
    lemma_product_divisible(members, t);
    let s = exponents_product::<RsaGroup>(members);
    assert(gcd(t, s % t) == gcd(t, 0));
}

/// A blinded non-membership claim `t * q`, updated with Bézout coefficients
/// `a0 * s + b0 * (t * q) == 1` against the members' product `s` and unblinded
/// with `q`, verifies for `t`.
pub proof fn lemma_unblinded_non_membership_verifies(
    group: RsaGroup,
    value: nat,
    members: Seq<nat>,
    t: nat,
    q: nat,
    a0: int,
    b0: int,
)
    requires
        group.well_formed(),
        consistent::<RsaGroup>(group, value, members),
        a0 * exponents_product::<RsaGroup>(members) + b0 * (t * q) == 1,
        group.totient_value() is None ==> group.invertible(group.generator_value()),
        group.totient_value() matches Some(o) ==> group.power_of(group.generator_value(), o)
            == group.identity_value(),
    ensures
        ({
            let (a, d) = proof_from_coefficients(group, a0, b0);
            &&& a < 0 ==> group.invertible(value)
            &&& non_membership_verifies(group, value, a, group.power_of(d, q), t)
        }),
{
    lemma_coefficient_proof_verifies(group, exponents_product::<RsaGroup>(members), a0, b0, t, q);
}

/// When a number's prime `t` shares no factor with the members' product (so that
/// a non-membership proof for it can be made), its blinded claim `t * q`, for a
/// blinding prime `q` that shares no factor with the product either (as
/// `blind_non_mem_proof` checks), shares none with the product: the delegated
/// update of the claim finds its Bézout coefficients.
pub proof fn lemma_blinded_claim_coprime(members: Seq<nat>, t: nat, q: nat)
    requires
        gcd(exponents_product::<RsaGroup>(members), t) == 1,
        gcd(q, exponents_product::<RsaGroup>(members)) == 1,
    ensures
        gcd(exponents_product::<RsaGroup>(members), t * q) == 1,
{
    lemma_coprime_product(exponents_product::<RsaGroup>(members), t, q);
}

/// The RSA group modulo the product of two distinct primes `p` and `q`, with an
/// invertible generator and, if an order is kept, the order `(p - 1) * (q - 1)`.
pub open spec fn two_prime_group(group: RsaGroup, p: nat, q: nat) -> bool {
    &&& is_prime(p)
    &&& is_prime(q)
    &&& p != q
    &&& group.modulus() == p * q
    &&& group.invertible(group.generator_value())
    &&& group.totient_value() matches Some(o) ==> o == (p - 1) * (q - 1)
}

/// In a group modulo the product of two distinct primes with an invertible
/// generator, a non-membership proof built from Bézout coefficients
/// `a0 * s + b0 * t == 1` of the members' product `s` and a prime `t` verifies
/// for `t`, whether the group order is kept or not.
pub proof fn lemma_non_membership_proof_verifies_for_primes(
    group: RsaGroup,
    p: nat,
    q: nat,
    value: nat,
    members: Seq<nat>,
    t: nat,
    a0: int,
    b0: int,
)
    requires
        group.well_formed(),
        two_prime_group(group, p, q),
        consistent::<RsaGroup>(group, value, members),
        a0 * exponents_product::<RsaGroup>(members) + b0 * t == 1,
    ensures
        ({
            let (a, d) = proof_from_coefficients(group, a0, b0);
            &&& a < 0 ==> group.invertible(value)
            &&& non_membership_verifies(group, value, a, d, t)
        }),
{
    lemma_order_annihilates(group, p, q, group.generator_value());
    lemma_non_membership_proof_verifies(group, value, members, t, a0, b0);
}

/// In a group modulo the product of two distinct primes with an invertible
/// generator, a blinded non-membership claim `t * q0`, updated with Bézout
/// coefficients against the members' product and unblinded with `q0`, verifies
/// for `t`, whether the group order is kept or not.
pub proof fn lemma_unblinded_non_membership_verifies_for_primes(
    group: RsaGroup,
    p: nat,
    q: nat,
    value: nat,
    members: Seq<nat>,
    t: nat,
    q0: nat,
    a0: int,
    b0: int,
)
    requires
        group.well_formed(),
        two_prime_group(group, p, q),
        consistent::<RsaGroup>(group, value, members),
        a0 * exponents_product::<RsaGroup>(members) + b0 * (t * q0) == 1,
    ensures
        ({
            let (a, d) = proof_from_coefficients(group, a0, b0);
            &&& a < 0 ==> group.invertible(value)
            &&& non_membership_verifies(group, value, a, group.power_of(d, q0), t)
        }),
{
    lemma_order_annihilates(group, p, q, group.generator_value());
    lemma_unblinded_non_membership_verifies(group, value, members, t, q0, a0, b0);
}

/// The product of a concatenation is the product of the products.
proof fn lemma_product_concat<G: Group>(a: Seq<nat>, b: Seq<nat>)
    ensures
        exponents_product::<G>(a + b) == G::exponent_product(
            exponents_product::<G>(a),
            exponents_product::<G>(b),
        ),
    decreases b.len(),
{
    if b.len() == 0 {
        assert(a + b =~= a);
        G::lemma_exponent_monoid(exponents_product::<G>(a), 0, 0);
    } else {
        assert((a + b).drop_last() =~= a + b.drop_last());
        assert((a + b).last() == b.last());
        lemma_product_concat::<G>(a, b.drop_last());
        G::lemma_exponent_monoid(
            exponents_product::<G>(a),
            exponents_product::<G>(b.drop_last()),
            b.last(),
        );
    }
}

/// Once the elements `added` have been accumulated on top of an accumulator with
/// value `value_t`, raising `value_t` to their product gives the new value: the
/// check of an updated blinded membership proof succeeds.
pub proof fn lemma_delegated_update_verifies<G: Group>(
    group: G,
    value_t: nat,
    members_t: Seq<nat>,
    value: nat,
    added: Seq<nat>,
)
    requires
        group.well_formed(),
        consistent::<G>(group, value_t, members_t),
        consistent::<G>(group, value, members_t + added),
    ensures
        group.power_of(value_t, exponents_product::<G>(added)) == value,
{
    lemma_product_concat::<G>(members_t, added);
    group.lemma_power_power(
        group.generator_value(),
        exponents_product::<G>(members_t),
        exponents_product::<G>(added),
    );
}

impl<G: Group> Accumulator for GenericAccumulator<G> {
    type Group = G;

    type Element = G::Exponent;

    type MembershipProof = G::Element;

    open spec fn ready(&self) -> bool {
        self.group.well_formed()
    }

    /// The prime is the hash of the element's text, and the members and value
    /// change as `add` on that text changes them.
    open spec fn added(&self, before: Self, element: G::Exponent, r: G::Exponent) -> bool {
        &&& self.group == before.group
        &&& G::exponent_value(r) == before.group.hashed_exponent(
            encode_utf8(G::exponent_text(G::exponent_value(element))),
        )
        &&& self.members() == members_after_add(before.members(), G::exponent_value(r))
        &&& self.value_of() == value_after_add::<G>(
            before.group,
            before.value_of(),
            before.members(),
            G::exponent_value(r),
        )
        &&& before.valid() ==> self.valid()
    }

    open spec fn current_value(&self) -> G::Element {
        self.acc
    }

    /// The proof is the generator raised to the product of the other members.
    open spec fn is_membership_proof(&self, element: G::Exponent, proof: G::Element) -> bool {
        G::element_value(proof) == membership_witness::<G>(
            self.group,
            self.members(),
            G::exponent_value(element),
        )
    }

    /// The proof raised to the element is the accumulator value.
    open spec fn membership_check(&self, proof: G::Element, element: G::Exponent) -> bool {
        membership_verifies::<G>(
            self.group,
            self.value_of(),
            G::element_value(proof),
            G::exponent_value(element),
        )
    }

    fn new(group: G) -> Self {
        GenericAccumulator::<G>::new(group)
    }

    /// Adds the element given by its text.
    fn add(&mut self, element: &G::Exponent) -> G::Exponent {
        let text = G::exponent_to_string(element);
        GenericAccumulator::<G>::add(self, text.as_str())
    }

    /// Deletes the element given by its text.
    fn del(&mut self, element: &G::Exponent)
        ensures
            final(self).group == old(self).group,
            final(self).members() == members_after_del(
                old(self).members(),
                old(self).group.hashed_exponent(
                    encode_utf8(G::exponent_text(G::exponent_value(*element))),
                ),
            ),
            final(self).value_of() == value_after_del::<G>(
                old(self).group,
                old(self).value_of(),
                old(self).members(),
                old(self).group.hashed_exponent(
                    encode_utf8(G::exponent_text(G::exponent_value(*element))),
                ),
            ),
            old(self).valid() ==> final(self).valid(),
    {
        let text = G::exponent_to_string(element);
        GenericAccumulator::<G>::del(self, text.as_str())
    }

    fn value(&self) -> &G::Element {
        GenericAccumulator::<G>::value(self)
    }

    fn mem_proof_create(&self, element: &G::Exponent) -> G::Element {
        GenericAccumulator::<G>::mem_proof_create(self, element)
    }

    fn mem_ver(&self, proof: &G::Element, element: &G::Exponent) -> bool {
        GenericAccumulator::<G>::mem_ver(self, proof, element)
    }
}

impl<G: Group> PrivatelyDelegatableAccumulator for GenericAccumulator<G> {
    type BlindedMembershipProof = G::Element;

    type MembershipBlindingFactor = G::Exponent;

    type UpdatedBlindedMembershipProof = G::Element;

    type MembershipUpdateAux = G::Exponent;

    open spec fn unblindable(&self, st: &G::Exponent) -> bool {
        self.group.invertible(self.group.power_of(self.group.generator_value(), G::exponent_value(*st)))
    }

    /// The factor is the prime of a random seed of one to sixteen bytes, and the
    /// blinded proof is the proof times `g` raised to it.
    open spec fn is_blinding(&self, proof: G::Element, r: (G::Element, G::Exponent)) -> bool {
        &&& exists|seed: Seq<u8>|
            1 <= seed.len() <= 16 && G::exponent_value(r.1) == #[trigger] self.group.hashed_exponent(seed)
        &&& G::element_value(r.0) == blinded_proof::<G>(
            self.group,
            G::element_value(proof),
            G::exponent_value(r.1),
        )
    }

    /// The blinded proof times the inverse of `g^st`.
    open spec fn is_unblinding(&self, blinded_proof: G::Element, st: G::Exponent, r: G::Element) -> bool {
        G::element_value(r) == unblinded_proof::<G>(
            self.group,
            G::element_value(blinded_proof),
            G::exponent_value(st),
        )
    }

    fn blind_mem_proof(&self, proof: &G::Element) -> (G::Element, G::Exponent) {
        GenericAccumulator::<G>::blind_mem_proof(self, proof)
    }

    /// The update raises the blinded proof to the product `delta` of the
    /// elements added since, and returns it with `delta` and the current value.
    fn blind_mem_proof_upd(
        &self,
        elem_in: Vec<G::Exponent>,
        _elem_out: Vec<G::Exponent>,
        acc_t: &G::Element,
        blinded_proof: &G::Element,
    ) -> (r: (G::Element, G::Exponent, G::Element))
        ensures
            G::exponent_value(r.1) == exponents_product::<G>(exponent_values::<G>(elem_in@)),
            G::element_value(r.0) == self.group.power_of(
                G::element_value(*blinded_proof),
                G::exponent_value(r.1),
            ),
            G::element_value(r.2) == self.value_of(),
    {
        let delta = Self::product_of_exponents(&elem_in);
        let upd = self.group.exp(blinded_proof, &delta);
        let _ = acc_t;
        (upd, delta, G::element_clone(&self.acc))
    }

    /// The check: the blinded proof raised to `aux` is the update, and `acc_t`
    /// raised to `aux` is the current value.
    fn ver_blind_mem_proof_upd(
        &self,
        acc_t: &G::Element,
        blinded_proof: &G::Element,
        upd_blinded_proof: &G::Element,
        aux: &G::Exponent,
    ) -> (r: bool)
        ensures
            r == (self.group.power_of(G::element_value(*blinded_proof), G::exponent_value(*aux))
                == G::element_value(*upd_blinded_proof) && self.group.power_of(
                G::element_value(*acc_t),
                G::exponent_value(*aux),
            ) == self.value_of()),
    {
        let expected_upd = self.group.exp(blinded_proof, aux);
        let expected_acc = self.group.exp(acc_t, aux);
        G::element_eq(&expected_upd, upd_blinded_proof) && G::element_eq(&expected_acc, &self.acc)
    }

    fn unblind_mem_proof(&self, blinded_proof: &G::Element, st: &G::Exponent) -> G::Element {
        GenericAccumulator::<G>::unblind_mem_proof(self, blinded_proof, st)
    }
}

impl NonMembershipAccumulator for GenericAccumulator<RsaGroup> {
    type NonMembershipProof = (Integer, Natural);

    open spec fn non_mem_provable(&self, element: &Natural) -> bool {
        let s = exponents_product::<RsaGroup>(self.members());
        let t = number_prime(self.group, element@);
        gcd(s, t) == 1 && proof_buildable(self.group, bezout_coefficients(s, t).1)
    }

    open spec fn non_mem_checkable(&self, proof: &(Integer, Natural)) -> bool {
        proof.0@ < 0 ==> self.group.invertible(self.value_of())
    }

    /// The proof is built from the Bézout coefficients of the members' product
    /// and the element's prime, which satisfy Bézout's identity with gcd 1.
    open spec fn is_non_membership_proof(&self, element: Natural, proof: (Integer, Natural)) -> bool {
        let s = exponents_product::<RsaGroup>(self.members());
        let t = number_prime(self.group, element@);
        &&& (proof.0@, proof.1@) == proof_from_coefficients(
            self.group,
            bezout_coefficients(s, t).0,
            bezout_coefficients(s, t).1,
        )
        &&& bezout_coefficients(s, t).0 * s + bezout_coefficients(s, t).1 * t == 1
    }

    /// `acc^a * d^t == g` for the element's prime `t`.
    open spec fn non_membership_check(&self, proof: (Integer, Natural), element: Natural) -> bool {
        non_membership_verifies(
            self.group,
            self.value_of(),
            proof.0@,
            proof.1@,
            number_prime(self.group, element@),
        )
    }

    fn non_mem_proof_create(&self, element: &Natural) -> (Integer, Natural) {
        GenericAccumulator::<RsaGroup>::non_mem_proof_create(self, element)
    }

    fn non_mem_ver(&self, proof: &(Integer, Natural), element: &Natural) -> bool {
        GenericAccumulator::<RsaGroup>::non_mem_ver(self, proof, element)
    }
}

impl PrivatelyDelegatableNonMembershipAccumulator for GenericAccumulator<RsaGroup> {
    type BlindedNonMembershipProof = (Natural, Natural);

    type UpdatedBlindedNonMembershipProof = (Integer, Natural);

    open spec fn blinded_updatable(&self, blinded_non_mem_proof: &(Natural, Natural)) -> bool {
        let s = exponents_product::<RsaGroup>(self.members());
        let b = blinded_non_mem_proof.0@;
        gcd(s, b) == 1 && proof_buildable(self.group, bezout_coefficients(s, b).1)
    }

    open spec fn blinded_checkable(&self, acc_t_prime: &Natural, upd_blinded_non_mem_proof: &(Integer, Natural)) -> bool {
        upd_blinded_non_mem_proof.0@ < 0 ==> self.group.invertible(acc_t_prime@)
    }

    /// For a member's prime `t`, the trivial claim `(0, 1)`; otherwise
    /// `(t * q, q)` for the prime `q` of a random seed, coprime to the members'
    /// product, or nothing only after `BLIND_ATTEMPTS` seeds whose primes all
    /// share a factor with the product (never when the product is 1).
    open spec fn is_blinded_claim(&self, element: Natural, r: Option<(Natural, Natural)>) -> bool {
        let s = exponents_product::<RsaGroup>(self.members());
        let t = number_prime(self.group, element@);
        &&& self.members().contains(t) ==> (r matches Some(p) && p.0@ == 0 && p.1@ == 1)
        &&& !self.members().contains(t) ==> (r matches Some(p) ==> exists|seed: Seq<u8>|
            1 <= seed.len() <= 16 && p.1@ == #[trigger] self.group.hashed_exponent(seed)
                && gcd(p.1@, s) == 1 && p.0@ == t * p.1@)
        &&& r is None ==> !self.members().contains(t) && exists|seeds: Seq<Seq<u8>>|
            seeds.len() == BLIND_ATTEMPTS && seeds.no_duplicates()
                && #[trigger] failed_blinding_seeds(self.group, s, seeds)
        &&& s == 1 ==> r is Some
    }

    /// The proof from the Bézout coefficients of the members' product and the
    /// blinded claim, which satisfy Bézout's identity with gcd 1.
    open spec fn is_updated_blinded_proof(&self, blinded_non_mem_proof: (Natural, Natural), r: (Integer, Natural)) -> bool {
        let s = exponents_product::<RsaGroup>(self.members());
        let b = blinded_non_mem_proof.0@;
        &&& (r.0@, r.1@) == proof_from_coefficients(
            self.group,
            bezout_coefficients(s, b).0,
            bezout_coefficients(s, b).1,
        )
        &&& bezout_coefficients(s, b).0 * s + bezout_coefficients(s, b).1 * b == 1
    }

    /// `acc_t_prime^a * d^b == g` for the blinded claim `b`.
    open spec fn updated_blinded_check(
        &self,
        acc_t_prime: Natural,
        blinded_non_mem_proof: (Natural, Natural),
        upd_blinded_non_mem_proof: (Integer, Natural),
    ) -> bool {
        non_membership_verifies(
            self.group,
            acc_t_prime@,
            upd_blinded_non_mem_proof.0@,
            upd_blinded_non_mem_proof.1@,
            blinded_non_mem_proof.0@,
        )
    }

    /// `(a, d^st)` for the updated blinded proof `(a, d)`.
    open spec fn is_unblinded_non_membership_proof(
        &self,
        st: Natural,
        upd_blinded_non_mem_proof: (Integer, Natural),
        r: (Integer, Natural),
    ) -> bool {
        &&& r.0@ == upd_blinded_non_mem_proof.0@
        &&& r.1@ == self.group.power_of(upd_blinded_non_mem_proof.1@, st@)
    }

    fn blind_non_mem_proof(&self, element: &Natural) -> Option<(Natural, Natural)> {
        GenericAccumulator::<RsaGroup>::blind_non_mem_proof(self, element)
    }

    fn blind_non_mem_proof_upd(&self, blinded_non_mem_proof: &(Natural, Natural)) -> (Integer, Natural) {
        GenericAccumulator::<RsaGroup>::blind_non_mem_proof_upd(self, &blinded_non_mem_proof.0)
    }

    fn ver_blind_non_mem_proof_upd(
        &self,
        acc_t_prime: &Natural,
        blinded_non_mem_proof: &(Natural, Natural),
        upd_blinded_non_mem_proof: &(Integer, Natural),
    ) -> bool {
        GenericAccumulator::<RsaGroup>::ver_blind_non_mem_proof_upd(
            self,
            acc_t_prime,
            &blinded_non_mem_proof.0,
            upd_blinded_non_mem_proof,
        )
    }

    fn unblind_non_mem_proof(&self, st: &Natural, upd_blinded_non_mem_proof: &(Integer, Natural)) -> (Integer, Natural) {
        GenericAccumulator::<RsaGroup>::unblind_non_mem_proof(self, st, upd_blinded_non_mem_proof)
    }
}

/// `RandBigInt::gen_biguint(bits)` with the thread-local generator, as big-endian
/// bytes (`BigUint::to_bytes_be`): a number below `2^bits`, so at most
/// `ceil(bits / 8)` bytes, and at least one (zero is written as one byte).
#[verifier::external_body]
fn random_seed(bits: u64) -> (r: Vec<u8>)
    requires
        bits >= 1,
    ensures
        1 <= r@.len() <= (bits + 7) / 8,
{
    rand::thread_rng().gen_biguint(bits).to_bytes_be()
}

} // verus!
