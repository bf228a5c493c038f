use gameson::{
    NewIntTypeError, NewNumberTypeAttributesError, NumberType, NumberTypeAttributes,
    ValidateNumberTypeError,
};

#[test]
fn number_attributes_validate_bounds() {
    let a = NumberTypeAttributes::<u32>::builder().min(0).max(10).build().unwrap();
    assert_eq!(a.validate(0), Ok(()));
    assert_eq!(a.validate(10), Ok(()));
    assert_eq!(a.validate(11), Err(ValidateNumberTypeError::GreaterThanMax(11, 10)));
    let b = NumberTypeAttributes::<i32>::builder().min(-5).build().unwrap();
    assert_eq!(b.validate(-6), Err(ValidateNumberTypeError::LessThanMin(-6, -5)));
    assert_eq!(b.validate(i32::MAX), Ok(()));
}

#[test]
fn number_attributes_reject_inverted_range() {
    let r = NumberTypeAttributes::<i64>::builder().min(3).max(2).build();
    assert_eq!(r.unwrap_err(), NewNumberTypeAttributesError::InvalidRange(3, 2));
    assert!(NumberTypeAttributes::<u64>::builder().min(4).max(4).build().is_ok());
}

#[test]
fn number_attributes_default_is_unbounded() {
    let a: NumberTypeAttributes<u64> = Default::default();
    assert_eq!(a.validate(u64::MAX), Ok(()));
    assert_eq!(a.validate(0), Ok(()));
}

#[test]
fn number_type_builder() {
    let t = NumberType::<u32>::builder().min(0).max(10).build().unwrap();
    assert_eq!(t.min, Some(0));
    assert_eq!(t.max, Some(10));
    assert_eq!(
        NumberType::<i32>::builder().min(1).max(0).build().unwrap_err(),
        NewIntTypeError::InvalidRange(1, 0)
    );
    let d: NumberType<i64> = Default::default();
    assert_eq!(d.min, None);
}
