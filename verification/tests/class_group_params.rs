use privacy_preserving_accumulators::groups::class_group::{
    check_class_group_params, ClassGroupParamError,
};
use privacy_preserving_accumulators::natural::Integer;

fn i(x: i64) -> Integer {
    Integer::from_i64(x)
}

#[test]
fn class_group_params_accepted() {
    assert_eq!(check_class_group_params(&i(-23), &i(3)), Ok(()));
    assert_eq!(check_class_group_params(&i(-3), &i(7)), Ok(()));
}

#[test]
fn class_group_params_rejected_in_order() {
    assert_eq!(
        check_class_group_params(&i(5), &i(4)),
        Err(ClassGroupParamError::DiscriminantNotNegative)
    );
    assert_eq!(
        check_class_group_params(&i(0), &i(3)),
        Err(ClassGroupParamError::DiscriminantNotNegative)
    );
    assert_eq!(
        check_class_group_params(&i(-4), &i(3)),
        Err(ClassGroupParamError::DiscriminantNotOneModFour)
    );
    assert_eq!(
        check_class_group_params(&i(-5), &i(3)),
        Err(ClassGroupParamError::DiscriminantNotOneModFour)
    );
    assert_eq!(
        check_class_group_params(&i(-23), &i(1)),
        Err(ClassGroupParamError::GeneratorPrimeTooSmall)
    );
    assert_eq!(
        check_class_group_params(&i(-23), &i(-3)),
        Err(ClassGroupParamError::GeneratorPrimeTooSmall)
    );
    assert_eq!(
        check_class_group_params(&i(-23), &i(4)),
        Err(ClassGroupParamError::GeneratorPrimeEven)
    );
}
