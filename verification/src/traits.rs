//! The group abstraction that accumulators are built on, and the accumulator
//! interfaces.
use vstd::prelude::*;

verus! {

/// A finite commutative group used by an accumulator, with integer exponents.
///
/// Elements and exponents are described by natural numbers: an element by its
/// canonical representative, an exponent by its value.  Implementations prove
/// the group laws below for their operations.
pub trait Group: Sized {
    /// The element type in the group
    type Element;

    /// The exponent/scalar type
    type Exponent;

    /// The number that an element stands for.
    spec fn element_value(e: Self::Element) -> nat;

    /// The number that an exponent stands for.
    spec fn exponent_value(e: Self::Exponent) -> nat;

    /// The group's parameters are consistent.
    spec fn well_formed(&self) -> bool;

    /// `a` is the canonical representative of an element of the carrier set.
    spec fn contains(&self, a: nat) -> bool;

    /// `a` is an element that has an inverse.
    spec fn invertible(&self, a: nat) -> bool;

    /// The generator.
    spec fn generator_value(&self) -> nat;

    /// The identity element.
    spec fn identity_value(&self) -> nat;

    /// The group operation.
    spec fn product_of(&self, a: nat, b: nat) -> nat;

    /// The inverse of an invertible element.
    spec fn inverse_of(&self, a: nat) -> nat;

    /// `a` raised to the exponent `x`.
    spec fn power_of(&self, a: nat, x: nat) -> nat;

    /// The identity exponent.
    spec fn exponent_one() -> nat;

    /// The product of two exponents.
    spec fn exponent_product(x: nat, y: nat) -> nat;

    /// The prime exponent that `data` hashes to.
    spec fn hashed_exponent(&self, data: Seq<u8>) -> nat;

    /// The text of an exponent, as its `to_string` gives it.
    spec fn exponent_text(x: nat) -> Seq<char>;

    /// The group operation is associative.
    proof fn lemma_associative(&self, a: nat, b: nat, c: nat)
        requires
            self.well_formed(),
            self.contains(a),
            self.contains(b),
            self.contains(c),
        ensures
            self.product_of(self.product_of(a, b), c) == self.product_of(a, self.product_of(b, c)),
    ;

    /// The group operation is commutative.
    proof fn lemma_commutative(&self, a: nat, b: nat)
        requires
            self.well_formed(),
        ensures
            self.product_of(a, b) == self.product_of(b, a),
    ;

    /// The identity is neutral.
    proof fn lemma_identity(&self, a: nat)
        requires
            self.well_formed(),
            self.contains(a),
        ensures
            self.product_of(a, self.identity_value()) == a,
            self.product_of(self.identity_value(), a) == a,
    ;

    /// An invertible element times its inverse is the identity.
    proof fn lemma_inverse(&self, a: nat)
        requires
            self.well_formed(),
            self.invertible(a),
        ensures
            self.product_of(a, self.inverse_of(a)) == self.identity_value(),
            self.product_of(self.inverse_of(a), a) == self.identity_value(),
    ;

    /// The operations land in the carrier set.
    proof fn lemma_closed(&self, a: nat, b: nat, x: nat)
        requires
            self.well_formed(),
        ensures
            self.contains(self.product_of(a, b)),
            self.contains(self.power_of(a, x)),
            self.contains(self.inverse_of(a)),
            self.contains(self.generator_value()),
            self.contains(self.identity_value()),
    ;

    /// Invertible elements are closed under the operations.
    proof fn lemma_invertible_closed(&self, a: nat, b: nat, x: nat)
        requires
            self.well_formed(),
            self.invertible(a),
            self.invertible(b),
        ensures
            self.contains(a),
            self.invertible(self.product_of(a, b)),
            self.invertible(self.power_of(a, x)),
            self.invertible(self.inverse_of(a)),
            self.invertible(self.identity_value()),
    ;

    /// Raising to the identity exponent changes nothing.
    proof fn lemma_power_one(&self, a: nat)
        requires
            self.well_formed(),
            self.contains(a),
        ensures
            self.power_of(a, Self::exponent_one()) == a,
    ;

    /// Raising to `x` and then to `y` is raising to `x * y`.
    proof fn lemma_power_power(&self, a: nat, x: nat, y: nat)
        requires
            self.well_formed(),
        ensures
            self.power_of(self.power_of(a, x), y) == self.power_of(a, Self::exponent_product(x, y)),
    ;

    /// Exponents form a commutative monoid under their product.
    proof fn lemma_exponent_monoid(x: nat, y: nat, z: nat)
        ensures
            Self::exponent_product(x, y) == Self::exponent_product(y, x),
            Self::exponent_product(Self::exponent_product(x, y), z) == Self::exponent_product(
                x,
                Self::exponent_product(y, z),
            ),
            Self::exponent_product(x, Self::exponent_one()) == x,
    ;

    /// Setup/initialize the group with necessary parameters
    fn setup() -> (r: Self)
        ensures
            r.well_formed(),
    ;

    /// Get the generator element
    fn g(&self) -> (r: Self::Element)
        requires
            self.well_formed(),
        ensures
            Self::element_value(r) == self.generator_value(),
    ;

    /// Generic alias for the generator element.
    fn generator(&self) -> (r: Self::Element)
        requires
            self.well_formed(),
        ensures
            Self::element_value(r) == self.generator_value(),
    {
        self.g()
    }

    /// Identity element of the group
    fn id(&self) -> (r: Self::Element)
        requires
            self.well_formed(),
        ensures
            Self::element_value(r) == self.identity_value(),
    ;

    /// Generic alias for the identity element.
    fn identity(&self) -> (r: Self::Element)
        requires
            self.well_formed(),
        ensures
            Self::element_value(r) == self.identity_value(),
    {
        self.id()
    }

    /// Group operation: multiply two elements
    fn mul(&self, a: &Self::Element, b: &Self::Element) -> (r: Self::Element)
        requires
            self.well_formed(),
        ensures
            Self::element_value(r) == self.product_of(Self::element_value(*a), Self::element_value(*b)),
    ;

    /// Generic binary group operation (group-agnostic alias of `mul`).
    fn op(&self, a: &Self::Element, b: &Self::Element) -> (r: Self::Element)
        requires
            self.well_formed(),
        ensures
            Self::element_value(r) == self.product_of(Self::element_value(*a), Self::element_value(*b)),
    {
        self.mul(a, b)
    }

    /// Inverse of a group element
    fn inv(&self, element: &Self::Element) -> (r: Self::Element)
        requires
            self.well_formed(),
            self.invertible(Self::element_value(*element)),
        ensures
            Self::element_value(r) == self.inverse_of(Self::element_value(*element)),
    ;

    /// Generic alias for group inversion.
    fn inverse(&self, element: &Self::Element) -> (r: Self::Element)
        requires
            self.well_formed(),
            self.invertible(Self::element_value(*element)),
        ensures
            Self::element_value(r) == self.inverse_of(Self::element_value(*element)),
    {
        self.inv(element)
    }

    /// Derived group division operation: `a * b^{-1}`.
    fn div(&self, a: &Self::Element, b: &Self::Element) -> (r: Self::Element)
        requires
            self.well_formed(),
            self.invertible(Self::element_value(*b)),
        ensures
            Self::element_value(r) == self.product_of(
                Self::element_value(*a),
                self.inverse_of(Self::element_value(*b)),
            ),
    {
        let b_inv = self.inv(b);
        self.mul(a, &b_inv)
    }

    /// Exponentiation: base^exponent (derived operation)
    fn exp(&self, base: &Self::Element, exponent: &Self::Exponent) -> (r: Self::Element)
        requires
            self.well_formed(),
        ensures
            Self::element_value(r) == self.power_of(
                Self::element_value(*base),
                Self::exponent_value(*exponent),
            ),
    ;

    /// Generic group action alias of `exp`.
    fn act(&self, base: &Self::Element, scalar: &Self::Exponent) -> (r: Self::Element)
        requires
            self.well_formed(),
        ensures
            Self::element_value(r) == self.power_of(
                Self::element_value(*base),
                Self::exponent_value(*scalar),
            ),
    {
        self.exp(base, scalar)
    }

    /// Identity element for exponents (usually 1)
    fn exp_id() -> (r: Self::Exponent)
        ensures
            Self::exponent_value(r) == Self::exponent_one(),
    ;

    /// Multiply two exponents
    fn exp_mul(a: &Self::Exponent, b: &Self::Exponent) -> (r: Self::Exponent)
        ensures
            Self::exponent_value(r) == Self::exponent_product(
                Self::exponent_value(*a),
                Self::exponent_value(*b),
            ),
    ;

    /// Hash arbitrary data to a prime exponent
    fn hash_to_prime(&self, data: &[u8]) -> (r: Self::Exponent)
        requires
            self.well_formed(),
        ensures
            Self::exponent_value(r) == self.hashed_exponent(data@),
    ;

    /// Whether two elements are equal.
    fn element_eq(a: &Self::Element, b: &Self::Element) -> (r: bool)
        ensures
            r == (Self::element_value(*a) == Self::element_value(*b)),
    ;

    /// A copy of an element.
    fn element_clone(a: &Self::Element) -> (r: Self::Element)
        ensures
            Self::element_value(r) == Self::element_value(*a),
    ;

    /// Whether two exponents are equal.
    fn exponent_eq(a: &Self::Exponent, b: &Self::Exponent) -> (r: bool)
        ensures
            r == (Self::exponent_value(*a) == Self::exponent_value(*b)),
    ;

    /// A copy of an exponent.
    fn exponent_clone(a: &Self::Exponent) -> (r: Self::Exponent)
        ensures
            Self::exponent_value(r) == Self::exponent_value(*a),
    ;

    /// The text of an exponent (its `to_string`).
    fn exponent_to_string(a: &Self::Exponent) -> (r: String)
        ensures
            r@ == Self::exponent_text(Self::exponent_value(*a)),
    ;
}


/// Trait for accumulators with membership proofs
pub trait Accumulator: Sized {
    type Group: Group;

    type Element;

    type MembershipProof;

    /// The accumulator's group is well formed.
    spec fn ready(&self) -> bool;

    /// `self` is what adding `element` to `before` gives, with `r` the prime
    /// that `element` was hashed to.
    spec fn added(&self, before: Self, element: Self::Element, r: <Self::Group as Group>::Exponent) -> bool;

    /// The current accumulator value.
    spec fn current_value(&self) -> <Self::Group as Group>::Element;

    /// `proof` is the membership proof of `element` for this accumulator.
    spec fn is_membership_proof(&self, element: <Self::Group as Group>::Exponent, proof: Self::MembershipProof) -> bool;

    /// The outcome of checking `proof` as a membership proof of `element`.
    spec fn membership_check(&self, proof: Self::MembershipProof, element: <Self::Group as Group>::Exponent) -> bool;

    /// Create a new accumulator with the given group
    fn new(group: Self::Group) -> (r: Self)
        requires
            group.well_formed(),
        ensures
            r.ready(),
    ;

    /// Add an element to the accumulator
    fn add(&mut self, element: &Self::Element) -> (r: <Self::Group as Group>::Exponent)
        requires
            old(self).ready(),
        ensures
            final(self).ready(),
            final(self).added(*old(self), *element, r),
    ;

    /// Delete an element from the accumulator
    fn del(&mut self, element: &Self::Element)
        requires
            old(self).ready(),
        ensures
            final(self).ready(),
    ;

    /// Get the current accumulator value
    fn value(&self) -> (r: &<Self::Group as Group>::Element)
        ensures
            *r == self.current_value(),
    ;

    /// Create a membership proof for an element
    fn mem_proof_create(&self, element: &<Self::Group as Group>::Exponent) -> (r: Self::MembershipProof)
        requires
            self.ready(),
        ensures
            self.is_membership_proof(*element, r),
    ;

    /// Verify a membership proof
    fn mem_ver(&self, proof: &Self::MembershipProof, element: &<Self::Group as Group>::Exponent) -> (r: bool)
        requires
            self.ready(),
        ensures
            r == self.membership_check(*proof, *element),
    ;
}

/// Non-membership proofs extension trait for accumulators.
pub trait NonMembershipAccumulator: Accumulator {
    type NonMembershipProof;

    /// A non-membership proof can be made for `element`.
    spec fn non_mem_provable(&self, element: &Self::Element) -> bool;

    /// `proof` is of a form that can be checked.
    spec fn non_mem_checkable(&self, proof: &Self::NonMembershipProof) -> bool;

    /// `proof` is the non-membership proof of `element` for this accumulator.
    spec fn is_non_membership_proof(&self, element: Self::Element, proof: Self::NonMembershipProof) -> bool;

    /// The outcome of checking `proof` as a non-membership proof of `element`.
    spec fn non_membership_check(&self, proof: Self::NonMembershipProof, element: Self::Element) -> bool;

    /// Create a non-membership proof for an element
    fn non_mem_proof_create(&self, element: &Self::Element) -> (r: Self::NonMembershipProof)
        requires
            self.ready(),
            self.non_mem_provable(element),
        ensures
            self.is_non_membership_proof(*element, r),
    ;

    /// Verify a non-membership proof
    fn non_mem_ver(&self, proof: &Self::NonMembershipProof, element: &Self::Element) -> (r: bool)
        requires
            self.ready(),
            self.non_mem_checkable(proof),
        ensures
            r == self.non_membership_check(*proof, *element),
    ;
}

pub trait PrivatelyDelegatableAccumulator: Accumulator {
    type BlindedMembershipProof;

    type MembershipBlindingFactor;

    type UpdatedBlindedMembershipProof;

    type MembershipUpdateAux;

    /// The blinding factor `st` can be removed again.
    spec fn unblindable(&self, st: &Self::MembershipBlindingFactor) -> bool;

    /// `r` is a blinding of the membership proof `proof` together with its factor.
    spec fn is_blinding(
        &self,
        proof: Self::MembershipProof,
        r: (Self::BlindedMembershipProof, Self::MembershipBlindingFactor),
    ) -> bool;

    /// `r` is `blinded_proof` with the blinding factor `st` removed.
    spec fn is_unblinding(
        &self,
        blinded_proof: Self::BlindedMembershipProof,
        st: Self::MembershipBlindingFactor,
        r: Self::MembershipProof,
    ) -> bool;

    /// Blind a membership proof
    fn blind_mem_proof(&self, proof: &Self::MembershipProof) -> (r: (
        Self::BlindedMembershipProof,
        Self::MembershipBlindingFactor,
    ))
        requires
            self.ready(),
        ensures
            self.is_blinding(*proof, r),
    ;

    /// Update a blinded membership proof
    fn blind_mem_proof_upd(
        &self,
        elem_in: Vec<Self::Element>,
        elem_out: Vec<Self::Element>,
        acc_t: &<Self::Group as Group>::Element,
        blinded_proof: &Self::BlindedMembershipProof,
    ) -> (
        Self::UpdatedBlindedMembershipProof,
        Self::MembershipUpdateAux,
        <Self::Group as Group>::Element,
    )
        requires
            self.ready(),
    ;

    /// Verify an updated blinded membership proof
    fn ver_blind_mem_proof_upd(
        &self,
        acc_t: &<Self::Group as Group>::Element,
        blinded_proof: &Self::BlindedMembershipProof,
        upd_blinded_proof: &Self::UpdatedBlindedMembershipProof,
        aux: &Self::MembershipUpdateAux,
    ) -> bool
        requires
            self.ready(),
    ;

    /// Unblind a membership proof
    fn unblind_mem_proof(
        &self,
        blinded_proof: &Self::BlindedMembershipProof,
        st: &Self::MembershipBlindingFactor,
    ) -> (r: Self::MembershipProof)
        requires
            self.ready(),
            self.unblindable(st),
        ensures
            self.is_unblinding(*blinded_proof, *st, r),
    ;
}

pub trait PrivatelyDelegatableNonMembershipAccumulator: PrivatelyDelegatableAccumulator + NonMembershipAccumulator {
    type BlindedNonMembershipProof;

    type UpdatedBlindedNonMembershipProof;

    /// The blinded claim can be updated against the current members.
    spec fn blinded_updatable(&self, blinded_non_mem_proof: &Self::BlindedNonMembershipProof) -> bool;

    /// The updated blinded proof is of a form that can be checked against `acc_t_prime`.
    spec fn blinded_checkable(
        &self,
        acc_t_prime: &<Self::Group as Group>::Element,
        upd_blinded_non_mem_proof: &Self::UpdatedBlindedNonMembershipProof,
    ) -> bool;

    /// `r` is a blinded non-membership claim for `element`, or `None` when no
    /// blinding was found.
    spec fn is_blinded_claim(&self, element: Self::Element, r: Option<Self::BlindedNonMembershipProof>) -> bool;

    /// `r` is the blinded claim updated against the current members.
    spec fn is_updated_blinded_proof(
        &self,
        blinded_non_mem_proof: Self::BlindedNonMembershipProof,
        r: Self::UpdatedBlindedNonMembershipProof,
    ) -> bool;

    /// The outcome of checking an updated blinded proof against `acc_t_prime`.
    spec fn updated_blinded_check(
        &self,
        acc_t_prime: <Self::Group as Group>::Element,
        blinded_non_mem_proof: Self::BlindedNonMembershipProof,
        upd_blinded_non_mem_proof: Self::UpdatedBlindedNonMembershipProof,
    ) -> bool;

    /// `r` is the updated blinded proof with the blinding factor `st` removed.
    spec fn is_unblinded_non_membership_proof(
        &self,
        st: <Self::Group as Group>::Exponent,
        upd_blinded_non_mem_proof: Self::UpdatedBlindedNonMembershipProof,
        r: Self::NonMembershipProof,
    ) -> bool;

    /// Blind a non-membership proof; `None` when no blinding could be found.
    fn blind_non_mem_proof(&self, element: &Self::Element) -> (r: Option<Self::BlindedNonMembershipProof>)
        requires
            self.ready(),
        ensures
            self.is_blinded_claim(*element, r),
    ;

    fn blind_non_mem_proof_upd(
        &self,
        blinded_non_mem_proof: &Self::BlindedNonMembershipProof,
    ) -> (r: Self::UpdatedBlindedNonMembershipProof)
        requires
            self.ready(),
            self.blinded_updatable(blinded_non_mem_proof),
        ensures
            self.is_updated_blinded_proof(*blinded_non_mem_proof, r),
    ;

    fn ver_blind_non_mem_proof_upd(
        &self,
        acc_t_prime: &<Self::Group as Group>::Element,
        blinded_non_mem_proof: &Self::BlindedNonMembershipProof,
        upd_blinded_non_mem_proof: &Self::UpdatedBlindedNonMembershipProof,
    ) -> (r: bool)
        requires
            self.ready(),
            self.blinded_checkable(acc_t_prime, upd_blinded_non_mem_proof),
        ensures
            r == self.updated_blinded_check(*acc_t_prime, *blinded_non_mem_proof, *upd_blinded_non_mem_proof),
    ;

    fn unblind_non_mem_proof(
        &self,
        st: &<Self::Group as Group>::Exponent,
        upd_blinded_non_mem_proof: &Self::UpdatedBlindedNonMembershipProof,
    ) -> (r: Self::NonMembershipProof)
        requires
            self.ready(),
        ensures
            self.is_unblinded_non_membership_proof(*st, *upd_blinded_non_mem_proof, r),
    ;
}

} // verus!
