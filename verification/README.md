# privacy_preserving_accumulators

Cryptographic accumulators with membership and non-membership proofs,
verified with Verus.

An accumulator condenses a set of elements into a single group element. Each
element's text is hashed (SHA-256) to a prime, and the accumulator value is the
generator raised to the product of the accumulated primes. A membership proof
for a prime is the generator raised to the product of the other primes; a
non-membership proof comes from Bézout coefficients of the product and the
prime. Proofs can be blinded and updated by a third party.

Layout:

- `src/natural.rs`: arbitrary-precision naturals and integers; the arithmetic is
  done by `num-bigint` behind small trusted wrappers with exact contracts.
- `src/number_theory.rs`: gcd, primes (with a proof that odd primes exist above
  every bound), Euclid's lemma, modular arithmetic lemmas.
- `src/hashing.rs`: hashing byte strings to primes (the search is proved to end,
  and to skip no odd prime between the digest and its result).
- `src/traits.rs`: the `Group` trait with the group laws as proof obligations,
  and the accumulator traits.
- `src/groups/rsa_group.rs`: the RSA group modulo a product of two safe primes,
  with proofs of the group laws and of the laws of signed exponents.
- `src/groups/rsa_order.rs`: Fermat's little theorem and Euler's theorem for a
  product of two distinct primes: an invertible element raised to
  `(p - 1) * (q - 1)` is the identity.
- `src/rsa_accumulator.rs`: the generic accumulator, its abstract model, the
  RSA-specific non-membership proofs, and the laws: adding then deleting an
  element restores the value, the value does not depend on the order in which
  elements were added, membership proofs of honest provers verify, unblinding
  undoes blinding, delegated updates verify.

Non-membership proofs of honest provers are proved to verify when the generator
is invertible and, if the group order is kept, the generator raised to it is
the identity (`lemma_non_membership_proof_verifies`).  Euler's theorem
discharges that hypothesis when the modulus is the product of two distinct
primes and the kept order is `(p - 1) * (q - 1)`
(`lemma_non_membership_proof_verifies_for_primes`).  The moduli that `setup`
generates are products of two numbers that passed a probabilistic primality
test; that they are prime is not proved.
