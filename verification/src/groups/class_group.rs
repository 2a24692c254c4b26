//! Parameters of class groups of binary quadratic forms.
//!
//! The class-group arithmetic itself (composition, reduction, prime forms) is
//! done by the `class_group` crate; what is decided here is whether a
//! discriminant and a generator prime are acceptable parameters.
use vstd::prelude::*;

use crate::natural::{Integer, Natural};

verus! {

/// Why a discriminant or generator prime is not acceptable.
#[derive(Debug, PartialEq, Eq, Clone, Copy)]
pub enum ClassGroupParamError {
    /// The discriminant is not negative.
    DiscriminantNotNegative,
    /// The discriminant is not 1 modulo 4.
    DiscriminantNotOneModFour,
    /// The generator prime is not greater than 1.
    GeneratorPrimeTooSmall,
    /// The generator prime is even.
    GeneratorPrimeEven,
}

/// Checks class-group parameters in order: the discriminant must be negative and
/// 1 modulo 4, and the generator prime greater than 1 and odd.  The first
/// failing condition is reported.
pub fn check_class_group_params(discriminant: &Integer, generator_prime: &Integer) -> (r: Result<
    (),
    ClassGroupParamError,
>)
    ensures
        discriminant@ >= 0 ==> r == Err::<(), _>(ClassGroupParamError::DiscriminantNotNegative),
        discriminant@ < 0 && discriminant@ % 4 != 1 ==> r == Err::<(), _>(
            ClassGroupParamError::DiscriminantNotOneModFour,
        ),
        discriminant@ < 0 && discriminant@ % 4 == 1 && generator_prime@ <= 1 ==> r == Err::<(), _>(
            ClassGroupParamError::GeneratorPrimeTooSmall,
        ),
        discriminant@ < 0 && discriminant@ % 4 == 1 && generator_prime@ > 1 && generator_prime@ % 2
            != 1 ==> r == Err::<(), _>(ClassGroupParamError::GeneratorPrimeEven),
        r is Ok <==> (discriminant@ < 0 && discriminant@ % 4 == 1 && generator_prime@ > 1
            && generator_prime@ % 2 == 1),
{
    if !discriminant.is_negative() {
        return Err(ClassGroupParamError::DiscriminantNotNegative);
    }
    let four = Natural::from_u64(4);
    let one = Natural::one();
    if !discriminant.rem_euclid(&four).equals(&one) {
        return Err(ClassGroupParamError::DiscriminantNotOneModFour);
    }
    if generator_prime.is_negative() || !one.less_than(&generator_prime.magnitude()) {
        return Err(ClassGroupParamError::GeneratorPrimeTooSmall);
    }
    let two = Natural::from_u64(2);
    if !generator_prime.rem_euclid(&two).equals(&one) {
        return Err(ClassGroupParamError::GeneratorPrimeEven);
    }
    Ok(())
}

} // verus!
