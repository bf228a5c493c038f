use gameson::{EnumTypeAttributes, EnumTypeValue, NewEnumTypeAttributesError};

fn value(name: &str) -> (String, EnumTypeValue) {
    (
        name.to_string(),
        EnumTypeValue {
            description: None,
            deprecated: false,
        },
    )
}

#[test]
fn test_validation() {
    EnumTypeAttributes::new(Vec::new(), Vec::new(), None).unwrap();

    assert_eq!(
        EnumTypeAttributes::new(Vec::new(), Vec::new(), Some("foo".to_string())).unwrap_err(),
        NewEnumTypeAttributesError::DefaultValueIsNotAValidEnumValue("foo".to_string())
    );

    EnumTypeAttributes::new(
        vec![value("foo")],
        vec![("bar".to_string(), "foo".to_string())],
        None,
    )
    .unwrap();

    assert_eq!(
        EnumTypeAttributes::new(
            vec![value("foo")],
            vec![("foo".to_string(), "bar".to_string())],
            None,
        )
        .unwrap_err(),
        NewEnumTypeAttributesError::EnumValueIsAlias("foo".to_string())
    );

    assert_eq!(
        EnumTypeAttributes::new(
            vec![value("foo")],
            vec![("bar".to_string(), "zoo".to_string())],
            None,
        )
        .unwrap_err(),
        NewEnumTypeAttributesError::EnumAliasPointsToNonExistantValue(
            "bar".to_string(),
            "zoo".to_string()
        )
    );
}

#[test]
fn enum_builder_accepts_default_and_alias() {
    let e = EnumTypeAttributes::builder()
        .with_value("alpha".to_string())
        .with_value_ext("beta".to_string(), Some("old".to_string()), true)
        .with_alias("a".to_string(), "alpha".to_string())
        .with_default("beta".to_string())
        .build()
        .unwrap();
    assert_eq!(e.resolve(&"a".to_string()), Some("alpha".to_string()));
    assert_eq!(e.resolve(&"beta".to_string()), Some("beta".to_string()));
    assert_eq!(e.resolve(&"gamma".to_string()), None);
}

#[test]
fn enum_builder_rejects_unknown_default() {
    let r = EnumTypeAttributes::builder()
        .with_value("alpha".to_string())
        .with_default("omega".to_string())
        .build();
    assert_eq!(
        r.unwrap_err(),
        NewEnumTypeAttributesError::DefaultValueIsNotAValidEnumValue("omega".to_string())
    );
}

#[test]
fn enum_value_given_twice_keeps_last_entry() {
    let e = EnumTypeAttributes::new(
        vec![
            value("foo"),
            (
                "foo".to_string(),
                EnumTypeValue {
                    description: Some("again".to_string()),
                    deprecated: true,
                },
            ),
        ],
        Vec::new(),
        Some("foo".to_string()),
    )
    .unwrap();
    assert_eq!(e.resolve(&"foo".to_string()), Some("foo".to_string()));
}

#[test]
fn enum_first_bad_alias_is_reported() {
    let r = EnumTypeAttributes::new(
        vec![value("foo")],
        vec![
            ("x".to_string(), "missing".to_string()),
            ("foo".to_string(), "foo".to_string()),
        ],
        None,
    );
    assert_eq!(
        r.unwrap_err(),
        NewEnumTypeAttributesError::EnumValueIsAlias("foo".to_string())
    );
}

#[test]
fn enum_entries_are_ordered_by_name() {
    let a = EnumTypeAttributes::builder()
        .with_value("beta".to_string())
        .with_value("alpha".to_string())
        .build()
        .unwrap();
    let b = EnumTypeAttributes::builder()
        .with_value("alpha".to_string())
        .with_value("beta".to_string())
        .build()
        .unwrap();
    assert_eq!(a, b);
    assert_eq!(a.value_name_list(), vec!["alpha".to_string(), "beta".to_string()]);
}
