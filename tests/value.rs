use gameson::{
    ArrayTypeAttributes, DictionaryTypeAttributes, EnumTypeAttributes, NumberTypeAttributes,
    ParseErrorPathSegment, ParseImplError, TypeAttributes, TypeDefinition, TypeDefinitionRegistry,
    UntypedNumber, UntypedValue, ValidateNumberTypeError, Value, ValueData,
};

fn def(id: u64, name: &str, attributes: TypeAttributes) -> TypeDefinition {
    TypeDefinition {
        id,
        name: name.to_string(),
        description: None,
        attributes,
    }
}

fn integer(n: i128) -> UntypedValue {
    UntypedValue::Number(UntypedNumber::Integer(n))
}

fn text(s: &str) -> UntypedValue {
    UntypedValue::String(s.to_string())
}

fn registry() -> TypeDefinitionRegistry {
    let mut registry = TypeDefinitionRegistry::new();
    let colour = EnumTypeAttributes::builder()
        .with_value("red".to_string())
        .with_value_ext("crimson".to_string(), None, true)
        .with_alias("scarlet".to_string(), "red".to_string())
        .build()
        .unwrap();
    let (_, failed) = registry.register(vec![
        def(1, "Small", TypeAttributes::Int32(NumberTypeAttributes::builder().min(0).max(10).build().unwrap())),
        def(2, "Smalls", TypeAttributes::Array(ArrayTypeAttributes::new(1))),
        def(3, "Name", TypeAttributes::String(Default::default())),
        def(4, "Scores", TypeAttributes::Dictionary(DictionaryTypeAttributes::new(3, 1))),
        def(5, "Colour", TypeAttributes::Enum(colour)),
        def(6, "Palette", TypeAttributes::Dictionary(DictionaryTypeAttributes::new(5, 7))),
        def(7, "Flag", TypeAttributes::Boolean(Default::default())),
        def(8, "Int", TypeAttributes::Int32(Default::default())),
        def(9, "Ints", TypeAttributes::Array(ArrayTypeAttributes::new(8))),
        def(10, "Big", TypeAttributes::Uint64(NumberTypeAttributes::builder().min(0).max(10).build().unwrap())),
        def(11, "Real", TypeAttributes::Float64(Default::default())),
    ]);
    assert!(failed.is_empty());
    registry
}

#[test]
fn bounded_integer_round_trip() {
    let registry = registry();
    let small = registry.get_by_id(1).unwrap();
    let v = Value::parse_for(small.clone(), integer(5)).unwrap();
    assert_eq!(v.value(), &ValueData::Int32(5));
    assert_eq!(v.instance().id(), 1);
    let e = Value::parse_for(small.clone(), integer(11)).unwrap_err();
    assert_eq!(
        e.err(),
        &ParseImplError::InvalidInt32(ValidateNumberTypeError::GreaterThanMax(11, 10))
    );
    assert!(e.path().as_slice().is_empty());
    assert_eq!(e.instance().name(), "Small");
    let e = Value::parse_for(small.clone(), UntypedValue::Number(UntypedNumber::Float(11f64.to_bits()))).unwrap_err();
    assert_eq!(e.err(), &ParseImplError::InvalidInt32(ValidateNumberTypeError::InvalidValue));
    let e = Value::parse_for(small, integer(-1)).unwrap_err();
    assert_eq!(e.err(), &ParseImplError::InvalidInt32(ValidateNumberTypeError::LessThanMin(-1, 0)));
}

#[test]
fn unsigned_round_trip() {
    let registry = registry();
    let big = registry.get_by_id(10).unwrap();
    assert_eq!(Value::parse_for(big.clone(), integer(5)).unwrap().value(), &ValueData::Uint64(5));
    assert_eq!(
        Value::parse_for(big, integer(11)).unwrap_err().err(),
        &ParseImplError::InvalidUint64(ValidateNumberTypeError::GreaterThanMax(11, 10))
    );
}

#[test]
fn out_of_range_integer_is_invalid() {
    let registry = registry();
    let any = registry.get_by_id(8).unwrap();
    assert_eq!(
        Value::parse_for(any.clone(), integer(1 << 40)).unwrap_err().err(),
        &ParseImplError::InvalidInt32(ValidateNumberTypeError::InvalidValue)
    );
    assert_eq!(
        Value::parse_for(any, integer(i32::MIN as i128)).unwrap().value(),
        &ValueData::Int32(i32::MIN)
    );
}

#[test]
fn array_of_int32_parses_in_order() {
    let registry = registry();
    let ints = registry.get_by_id(9).unwrap();
    let v = Value::parse_for(ints.clone(), UntypedValue::Array(vec![integer(1), integer(2), integer(3)])).unwrap();
    assert_eq!(
        v.value(),
        &ValueData::Array(vec![ValueData::Int32(1), ValueData::Int32(2), ValueData::Int32(3)])
    );
    let e = Value::parse_for(ints, UntypedValue::Array(vec![integer(1), text("x"), integer(3)])).unwrap_err();
    assert_eq!(e.path().as_slice(), &[ParseErrorPathSegment::ArrayIndex(1)]);
    assert_eq!(e.err(), &ParseImplError::TypeMismatch);
}

#[test]
fn empty_array_parses() {
    let registry = registry();
    let smalls = registry.get_by_id(2).unwrap();
    assert_eq!(
        Value::parse_for(smalls, UntypedValue::Array(Vec::new())).unwrap().value(),
        &ValueData::Array(Vec::new())
    );
}

#[test]
fn dictionary_parses_keys_and_values() {
    let registry = registry();
    let scores = registry.get_by_id(4).unwrap();
    let v = Value::parse_for(
        scores.clone(),
        UntypedValue::Object(vec![("ann".to_string(), integer(3)), ("bob".to_string(), integer(10))]),
    )
    .unwrap();
    assert_eq!(
        v.value(),
        &ValueData::Dictionary(vec![
            (ValueData::String("ann".to_string()), ValueData::Int32(3)),
            (ValueData::String("bob".to_string()), ValueData::Int32(10)),
        ])
    );
    let e = Value::parse_for(
        scores,
        UntypedValue::Object(vec![("ann".to_string(), integer(3)), ("bob".to_string(), integer(12))]),
    )
    .unwrap_err();
    assert_eq!(e.path().as_slice(), &[ParseErrorPathSegment::DictionaryKey("bob".to_string())]);
    assert_eq!(e.path().to_display_string(), "[bob]");
    assert_eq!(
        e.err(),
        &ParseImplError::InvalidDictionaryValue(Box::new(ParseImplError::InvalidInt32(
            ValidateNumberTypeError::GreaterThanMax(12, 10)
        )))
    );
}

#[test]
fn dictionary_key_must_parse() {
    let registry = registry();
    let palette = registry.get_by_id(6).unwrap();
    let v = Value::parse_for(
        palette.clone(),
        UntypedValue::Object(vec![
            ("scarlet".to_string(), UntypedValue::Bool(true)),
            ("crimson".to_string(), UntypedValue::Bool(false)),
        ]),
    )
    .unwrap();
    assert_eq!(
        v.value(),
        &ValueData::Dictionary(vec![
            (ValueData::Enum("red".to_string()), ValueData::Boolean(true)),
            (ValueData::Enum("crimson".to_string()), ValueData::Boolean(false)),
        ])
    );
    let e = Value::parse_for(
        palette,
        UntypedValue::Object(vec![("blue".to_string(), UntypedValue::Bool(true))]),
    )
    .unwrap_err();
    assert_eq!(e.path().as_slice(), &[ParseErrorPathSegment::DictionaryKey("blue".to_string())]);
    assert_eq!(
        e.err(),
        &ParseImplError::InvalidDictionaryKey(Box::new(ParseImplError::UnknownEnumValue("blue".to_string())))
    );
}

#[test]
fn nested_error_path() {
    let mut registry = registry();
    let (_, failed) = registry.register(vec![def(
        20,
        "Grid",
        TypeAttributes::Array(ArrayTypeAttributes::new(2)),
    )]);
    assert!(failed.is_empty());
    let grid = registry.get_by_id(20).unwrap();
    let e = Value::parse_for(
        grid,
        UntypedValue::Array(vec![
            UntypedValue::Array(vec![integer(1)]),
            UntypedValue::Array(vec![integer(2), integer(3), UntypedValue::Null]),
        ]),
    )
    .unwrap_err();
    assert_eq!(
        e.path().as_slice(),
        &[ParseErrorPathSegment::ArrayIndex(1), ParseErrorPathSegment::ArrayIndex(2)]
    );
    assert_eq!(e.path().to_display_string(), "[1][2]");
    assert_eq!(e.err(), &ParseImplError::TypeMismatch);
}

#[test]
fn boolean_string_and_shape_mismatch() {
    let registry = registry();
    let flag = registry.get_by_id(7).unwrap();
    assert_eq!(
        Value::parse_for(flag.clone(), UntypedValue::Bool(true)).unwrap().value(),
        &ValueData::Boolean(true)
    );
    assert_eq!(
        Value::parse_for(flag, text("true")).unwrap_err().err(),
        &ParseImplError::TypeMismatch
    );
    let name = registry.get_by_id(3).unwrap();
    assert_eq!(
        Value::parse_for(name, text("hi")).unwrap().value(),
        &ValueData::String("hi".to_string())
    );
    let real = registry.get_by_id(11).unwrap();
    assert_eq!(
        Value::parse_for(real, integer(1)).unwrap_err().err(),
        &ParseImplError::UnsupportedKind
    );
}

#[test]
fn values_render_as_text() {
    let registry = registry();
    let ints = registry.get_by_id(9).unwrap();
    let v = Value::parse_for(ints, UntypedValue::Array(vec![integer(1), integer(-2), integer(3)])).unwrap();
    assert_eq!(v.to_display_string(), "[1, -2, 3]");
    let palette = registry.get_by_id(6).unwrap();
    let v = Value::parse_for(
        palette,
        UntypedValue::Object(vec![
            ("scarlet".to_string(), UntypedValue::Bool(true)),
            ("crimson".to_string(), UntypedValue::Bool(false)),
        ]),
    )
    .unwrap();
    assert_eq!(v.to_display_string(), "{Colour::red: true, Colour::crimson: false}");
    let scores = registry.get_by_id(4).unwrap();
    let v = Value::parse_for(scores, UntypedValue::Object(vec![("ann".to_string(), integer(3))])).unwrap();
    assert_eq!(v.to_display_string(), "{\"ann\": 3}");
    let empty = Value::parse_for(registry.get_by_id(2).unwrap(), UntypedValue::Array(Vec::new())).unwrap();
    assert_eq!(empty.to_display_string(), "[]");
}

#[test]
fn types_render_as_text() {
    let registry = registry();
    assert_eq!(registry.get_by_id(1).unwrap().to_display_string(), "Small(1): int32(0..10)");
    assert_eq!(
        registry.get_by_id(2).unwrap().attributes().to_display_string(),
        "array(Small(1): int32(0..10))"
    );
    assert_eq!(
        registry.get_by_id(5).unwrap().attributes().to_display_string(),
        "enum(crimson, red)"
    );
    assert_eq!(
        registry.get_by_id(6).unwrap().attributes().to_display_string(),
        "dictionary((Colour(5): enum(crimson, red), Flag(7): boolean))"
    );
    assert_eq!(registry.get_by_id(8).unwrap().attributes().to_display_string(), "int32(..)");
    assert_eq!(registry.get_by_id(3).unwrap().attributes().to_display_string(), "string()");
}
