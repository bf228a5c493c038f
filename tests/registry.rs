use gameson::{
    ArrayTypeAttributes, DictionaryTypeAttributes, EnumTypeAttributes, InstantiationError,
    RegistrationError, TypeAttributes, TypeDefinition, TypeDefinitionRegistry,
};

fn def(id: u64, name: &str, attributes: TypeAttributes) -> TypeDefinition {
    TypeDefinition {
        id,
        name: name.to_string(),
        description: None,
        attributes,
    }
}

fn ids(registered: &[std::sync::Arc<gameson::TypeDefinitionInstance>]) -> Vec<u64> {
    registered.iter().map(|td| td.id()).collect()
}

fn failures(failed: Vec<(TypeDefinition, RegistrationError)>) -> Vec<(u64, String, RegistrationError)> {
    failed.into_iter().map(|(td, err)| (td.id, td.name, err)).collect()
}

#[test]
fn test_type_definitions_registration() {
    let mut registry = TypeDefinitionRegistry::default();

    let my_int = def(1, "MyInt", TypeAttributes::Int32(Default::default()));
    let my_string = def(2, "MyString", TypeAttributes::String(Default::default()));
    let my_int_array = def(3, "MyIntArray", TypeAttributes::Array(ArrayTypeAttributes::new(my_int.id)));
    let my_string_array = def(
        4,
        "MyStringArray",
        TypeAttributes::Array(ArrayTypeAttributes::new(my_string.id)),
    );
    let my_int_dictionary = def(
        5,
        "MyIntDictionary",
        TypeAttributes::Dictionary(DictionaryTypeAttributes::new(my_string.id, my_int.id)),
    );
    let my_enum = def(
        6,
        "MyEnum",
        TypeAttributes::Enum(
            EnumTypeAttributes::builder()
                .with_value("alpha".to_string())
                .with_value("beta".to_string())
                .with_value("gamma".to_string())
                .build()
                .unwrap(),
        ),
    );

    // This one will be registered later.
    let my_enum_array = def(7, "MyEnumArray", TypeAttributes::Array(ArrayTypeAttributes::new(my_enum.id)));

    let (registered, errors) = registry.register(vec![
        my_int,
        my_string,
        my_int_array,
        my_string_array,
        my_int_dictionary,
        my_enum,
    ]);

    assert_eq!(ids(&registered), vec![1, 2, 6, 3, 4, 5]);
    assert!(errors.is_empty());

    let (registered, errors) = registry.register(vec![my_enum_array]);

    assert_eq!(ids(&registered), vec![7]);
    assert!(errors.is_empty());
}

#[test]
fn test_type_definitions_registration_broken_reference() {
    let mut registry = TypeDefinitionRegistry::default();

    let my_int = def(1, "MyInt", TypeAttributes::Int32(Default::default()));
    let my_string_array = def(
        4,
        "MyStringArray",
        TypeAttributes::Array(ArrayTypeAttributes::new(2 /* THIS DOES NOT EXIST */)),
    );

    let (registered, failed) = registry.register(vec![my_int, my_string_array]);

    assert_eq!(ids(&registered), vec![1]);
    assert_eq!(
        failures(failed),
        vec![(
            4,
            "MyStringArray".to_string(),
            RegistrationError::BrokenReference { referenced_id: 2 }
        )]
    );
}

#[test]
fn test_type_definitions_registration_duplicate_id() {
    let mut registry = TypeDefinitionRegistry::default();

    let my_int = def(1, "MyInt", TypeAttributes::Int32(Default::default()));
    let my_string_array = def(
        1,
        "MyStringArray",
        TypeAttributes::Array(ArrayTypeAttributes::new(2 /* THIS DOES NOT EXIST */)),
    );

    let (registered, failed) = registry.register(vec![my_int, my_string_array]);

    assert_eq!(ids(&registered), vec![1]);
    assert_eq!(
        failures(failed),
        vec![(
            1,
            "MyStringArray".to_string(),
            RegistrationError::DuplicateTypeDefinition {
                existing_name: "MyInt".to_string()
            }
        )]
    );
}

#[test]
fn test_type_definitions_registration_duplicate_name() {
    let mut registry = TypeDefinitionRegistry::default();

    let my_int = def(1, "MyInt", TypeAttributes::Int32(Default::default()));
    let my_string_array = def(
        2,
        "MyInt",
        TypeAttributes::Array(ArrayTypeAttributes::new(2 /* THIS DOES NOT EXIST */)),
    );

    let (registered, failed) = registry.register(vec![my_int, my_string_array]);

    assert_eq!(ids(&registered), vec![1]);
    assert_eq!(
        failures(failed),
        vec![(
            2,
            "MyInt".to_string(),
            RegistrationError::DuplicateTypeDefinitionName { existing_id: 1 }
        )]
    );
}

#[test]
fn test_type_definitions_registration_circular_reference() {
    let mut registry = TypeDefinitionRegistry::default();

    let my_int = def(1, "MyInt", TypeAttributes::Int32(Default::default()));
    let my_array_a = def(2, "MyArrayA", TypeAttributes::Array(ArrayTypeAttributes::new(3)));
    let my_array_b = def(3, "MyArrayB", TypeAttributes::Array(ArrayTypeAttributes::new(4)));
    let my_array_c = def(4, "MyArrayC", TypeAttributes::Array(ArrayTypeAttributes::new(5)));
    let my_array_d = def(5, "MyArrayD", TypeAttributes::Array(ArrayTypeAttributes::new(3)));

    let (registered, failed) =
        registry.register(vec![my_int, my_array_a, my_array_b, my_array_c, my_array_d]);

    let cycle = vec![
        (3, "MyArrayB".to_string()),
        (4, "MyArrayC".to_string()),
        (5, "MyArrayD".to_string()),
        (3, "MyArrayB".to_string()),
    ];
    assert_eq!(ids(&registered), vec![1]);
    assert_eq!(
        failures(failed),
        vec![
            (
                3,
                "MyArrayB".to_string(),
                RegistrationError::CircularReference { cycle: cycle.clone() }
            ),
            (
                4,
                "MyArrayC".to_string(),
                RegistrationError::CircularReference { cycle: cycle.clone() }
            ),
            (
                5,
                "MyArrayD".to_string(),
                RegistrationError::CircularReference { cycle: cycle.clone() }
            ),
            (2, "MyArrayA".to_string(), RegistrationError::BlockedReference),
        ]
    );
}

#[test]
fn fresh_declaration_is_visible_by_id_and_name() {
    let mut registry = TypeDefinitionRegistry::new();
    let (registered, failed) = registry.register(vec![def(9, "Flag", TypeAttributes::Boolean(Default::default()))]);
    assert_eq!(ids(&registered), vec![9]);
    assert!(failed.is_empty());
    assert_eq!(registry.get_by_id(9).unwrap().name(), "Flag");
    assert_eq!(registry.get_by_name(&"Flag".to_string()).unwrap().id(), 9);
    assert!(registry.get_by_id(10).is_none());
    assert!(registry.get_by_name(&"Other".to_string()).is_none());
}

#[test]
fn every_declaration_comes_back_once() {
    let mut registry = TypeDefinitionRegistry::new();
    let batch = vec![
        def(1, "A", TypeAttributes::Array(ArrayTypeAttributes::new(2))),
        def(2, "B", TypeAttributes::String(Default::default())),
        def(3, "C", TypeAttributes::Array(ArrayTypeAttributes::new(40))),
        def(2, "D", TypeAttributes::Boolean(Default::default())),
        def(5, "B", TypeAttributes::Boolean(Default::default())),
    ];
    let (registered, failed) = registry.register(batch);
    let mut all: Vec<u64> = ids(&registered);
    all.extend(failed.iter().map(|(td, _)| td.id));
    all.sort();
    assert_eq!(all, vec![1, 2, 2, 3, 5]);
    assert_eq!(ids(&registered), vec![2, 1]);
}

#[test]
fn dependency_is_registered_before_dependent() {
    let mut registry = TypeDefinitionRegistry::new();
    let (registered, failed) = registry.register(vec![
        def(10, "List", TypeAttributes::Array(ArrayTypeAttributes::new(11))),
        def(11, "Item", TypeAttributes::Uint64(Default::default())),
    ]);
    assert_eq!(ids(&registered), vec![11, 10]);
    assert!(failed.is_empty());
}

#[test]
fn dictionary_with_non_key_type_fails_instantiation() {
    let mut registry = TypeDefinitionRegistry::new();
    let (_, failed) = registry.register(vec![
        def(1, "Count", TypeAttributes::Int32(Default::default())),
        def(2, "Name", TypeAttributes::String(Default::default())),
        def(3, "ByCount", TypeAttributes::Dictionary(DictionaryTypeAttributes::new(1, 2))),
        def(4, "ByName", TypeAttributes::Dictionary(DictionaryTypeAttributes::new(2, 1))),
        def(5, "ByTable", TypeAttributes::Dictionary(DictionaryTypeAttributes::new(4, 1))),
    ]);
    assert_eq!(
        failures(failed),
        vec![
            (
                3,
                "ByCount".to_string(),
                RegistrationError::InstantiationError(InstantiationError::InappropriateKeyType {
                    key_type_id: 1,
                    key_type_name: "Count".to_string(),
                    key_type_str: "int32(..)".to_string(),
                })
            ),
            (
                5,
                "ByTable".to_string(),
                RegistrationError::InstantiationError(InstantiationError::InappropriateKeyType {
                    key_type_id: 4,
                    key_type_name: "ByName".to_string(),
                    key_type_str: "dictionary((Name(2): string(), Count(1): int32(..)))".to_string(),
                })
            ),
        ]
    );
    assert_eq!(registry.get_by_id(4).unwrap().name(), "ByName");
}

#[test]
fn dictionary_with_enum_key_instantiates() {
    let mut registry = TypeDefinitionRegistry::new();
    let colour = EnumTypeAttributes::builder().with_value("red".to_string()).build().unwrap();
    let (registered, failed) = registry.register(vec![
        def(1, "Colour", TypeAttributes::Enum(colour)),
        def(2, "Weight", TypeAttributes::Int32(Default::default())),
        def(3, "Weights", TypeAttributes::Dictionary(DictionaryTypeAttributes::new(1, 2))),
    ]);
    assert_eq!(ids(&registered), vec![1, 2, 3]);
    assert!(failed.is_empty());
}

#[test]
fn reregistering_fails_and_keeps_the_original() {
    let mut registry = TypeDefinitionRegistry::new();
    registry.register(vec![def(1, "MyInt", TypeAttributes::Int32(Default::default()))]);
    let (registered, failed) = registry.register(vec![
        def(1, "MyInt", TypeAttributes::Int32(Default::default())),
        def(1, "Other", TypeAttributes::Boolean(Default::default())),
        def(2, "MyInt", TypeAttributes::Boolean(Default::default())),
    ]);
    assert!(registered.is_empty());
    assert_eq!(
        failures(failed),
        vec![
            (
                1,
                "MyInt".to_string(),
                RegistrationError::DuplicateTypeDefinition { existing_name: "MyInt".to_string() }
            ),
            (
                1,
                "Other".to_string(),
                RegistrationError::DuplicateTypeDefinition { existing_name: "MyInt".to_string() }
            ),
            (
                2,
                "MyInt".to_string(),
                RegistrationError::DuplicateTypeDefinitionName { existing_id: 1 }
            ),
        ]
    );
    assert!(registry.get_by_id(2).is_none());
    assert_eq!(registry.get_by_name(&"MyInt".to_string()).unwrap().id(), 1);
}

#[test]
fn dictionary_with_two_unknown_references_names_the_first() {
    let mut registry = TypeDefinitionRegistry::new();
    let (_, failed) = registry.register(vec![def(
        1,
        "Map",
        TypeAttributes::Dictionary(DictionaryTypeAttributes::new(7, 8)),
    )]);
    assert_eq!(
        failures(failed),
        vec![(1, "Map".to_string(), RegistrationError::BrokenReference { referenced_id: 7 })]
    );
}

#[test]
fn pure_cycle_members_share_one_cycle() {
    let mut registry = TypeDefinitionRegistry::new();
    let (registered, failed) = registry.register(vec![
        def(30, "C", TypeAttributes::Array(ArrayTypeAttributes::new(10))),
        def(10, "A", TypeAttributes::Array(ArrayTypeAttributes::new(20))),
        def(20, "B", TypeAttributes::Array(ArrayTypeAttributes::new(30))),
    ]);
    assert!(registered.is_empty());
    let cycle = vec![
        (10, "A".to_string()),
        (20, "B".to_string()),
        (30, "C".to_string()),
        (10, "A".to_string()),
    ];
    for (_, err) in &failed {
        assert_eq!(err, &RegistrationError::CircularReference { cycle: cycle.clone() });
    }
    assert_eq!(failed.len(), 3);
}

#[test]
fn self_reference_is_a_cycle_of_one() {
    let mut registry = TypeDefinitionRegistry::new();
    let (_, failed) = registry.register(vec![def(4, "Loop", TypeAttributes::Array(ArrayTypeAttributes::new(4)))]);
    assert_eq!(
        failures(failed),
        vec![(
            4,
            "Loop".to_string(),
            RegistrationError::CircularReference {
                cycle: vec![(4, "Loop".to_string()), (4, "Loop".to_string())]
            }
        )]
    );
}

#[test]
fn empty_batch_changes_nothing() {
    let mut registry = TypeDefinitionRegistry::default();
    let (registered, failed) = registry.register(Vec::new());
    assert!(registered.is_empty());
    assert!(failed.is_empty());
    assert!(registry.get_by_id(0).is_none());
}
