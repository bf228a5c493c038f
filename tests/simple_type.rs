use gameson::{EnumTypeAttributes, SimpleType};

#[test]
fn test_has_default() {
    let t = SimpleType::Boolean { default: None };
    assert!(!t.has_default());

    let t = SimpleType::Boolean { default: Some(true) };
    assert!(t.has_default());

    let t = SimpleType::Int32 { default: None };
    assert!(!t.has_default());

    let t = SimpleType::Int32 { default: Some(42) };
    assert!(t.has_default());

    let t = SimpleType::Int64 { default: None };
    assert!(!t.has_default());

    let t = SimpleType::Int64 { default: Some(42) };
    assert!(t.has_default());

    let t = SimpleType::Uint32 { default: None };
    assert!(!t.has_default());

    let t = SimpleType::Uint32 { default: Some(42) };
    assert!(t.has_default());

    let t = SimpleType::Uint64 { default: None };
    assert!(!t.has_default());

    let t = SimpleType::Uint64 { default: Some(42) };
    assert!(t.has_default());

    let t = SimpleType::Float32 { default: None };
    assert!(!t.has_default());

    let t = SimpleType::Float32 { default: Some(42.0f32.to_bits()) };
    assert!(t.has_default());

    let t = SimpleType::Float64 { default: None };
    assert!(!t.has_default());

    let t = SimpleType::Float64 { default: Some(42.0f64.to_bits()) };
    assert!(t.has_default());

    let t = SimpleType::String { default: None };
    assert!(!t.has_default());

    let t = SimpleType::String { default: Some("Hello".to_string()) };
    assert!(t.has_default());
}

#[test]
fn enum_default_decides() {
    let e = EnumTypeAttributes::builder().with_value("a".to_string()).build().unwrap();
    assert!(!SimpleType::Enum(e).has_default());
    let e = EnumTypeAttributes::builder()
        .with_value("a".to_string())
        .with_default("a".to_string())
        .build()
        .unwrap();
    assert!(SimpleType::Enum(e).has_default());
    assert!(SimpleType::Uuid { default: Some(7) }.has_default());
}

#[test]
fn type_values_compare_by_content() {
    let a = gameson::Type::Array { items_type_id: 1 };
    assert_eq!(a.clone(), gameson::Type::Array { items_type_id: 1 });
    let n = gameson::NumberType::<i32>::builder().min(0).max(10).build().unwrap();
    assert_ne!(gameson::Type::Int32(n), gameson::Type::Boolean {});
}
