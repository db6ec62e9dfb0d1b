use resource_auth::sbor_path::{SborPath, SchemaFields, SchemaType};

/// A struct schema: { count: U32, a: Vec<U32>, flag: Bool }.
fn schema_with_a() -> SchemaType {
    SchemaType::Struct {
        name: String::from("State"),
        fields: SchemaFields::Named {
            named: vec![
                (String::from("count"), SchemaType::U32),
                (
                    String::from("a"),
                    SchemaType::Vec { element: Box::new(SchemaType::U32) },
                ),
                (String::from("flag"), SchemaType::Bool),
            ],
        },
    }
}

/// A struct schema without the field "a".
fn schema_without_a() -> SchemaType {
    SchemaType::Struct {
        name: String::from("State"),
        fields: SchemaFields::Named {
            named: vec![(String::from("count"), SchemaType::U32)],
        },
    }
}

#[test]
fn field_then_index_resolves_to_position_and_index() {
    let path = SborPath::new().field("a").index(2);
    let r = path.rel_path(&schema_with_a());
    assert_eq!(r, Some(vec![1, 2]));
}

#[test]
fn missing_field_yields_no_match() {
    let path = SborPath::new().field("a").index(2);
    assert_eq!(path.rel_path(&schema_without_a()), None);
}

#[test]
fn empty_path_resolves_to_empty_index_path() {
    let path = SborPath::new();
    assert_eq!(path.rel_path(&schema_with_a()), Some(vec![]));
}

#[test]
fn index_step_needs_a_sequence_type() {
    let path = SborPath::new().field("count").index(0);
    assert_eq!(path.rel_path(&schema_with_a()), None);
    let path = SborPath::new().index(0);
    assert_eq!(path.rel_path(&schema_with_a()), None);
}

#[test]
fn field_step_needs_named_fields() {
    let unnamed = SchemaType::Struct {
        name: String::from("Pair"),
        fields: SchemaFields::Unnamed {
            unnamed: vec![SchemaType::U32, SchemaType::U32],
        },
    };
    let path = SborPath::new().field("a");
    assert_eq!(path.rel_path(&unnamed), None);
    let path = SborPath::new().field("a");
    assert_eq!(path.rel_path(&SchemaType::U64), None);
}

#[test]
fn nested_paths_resolve_through_arrays_and_structs() {
    // { rows: Array<{ cell: Vec<U32> }, 4> }
    let inner = SchemaType::Struct {
        name: String::from("Row"),
        fields: SchemaFields::Named {
            named: vec![(
                String::from("cell"),
                SchemaType::Vec { element: Box::new(SchemaType::U32) },
            )],
        },
    };
    let schema = SchemaType::Struct {
        name: String::from("Grid"),
        fields: SchemaFields::Named {
            named: vec![(
                String::from("rows"),
                SchemaType::Array { element: Box::new(inner), length: 4 },
            )],
        },
    };
    let path = SborPath::new().field("rows").index(3).field("cell").index(1);
    assert_eq!(path.rel_path(&schema), Some(vec![0, 3, 0, 1]));
}

#[test]
fn first_matching_field_wins() {
    let schema = SchemaType::Struct {
        name: String::from("S"),
        fields: SchemaFields::Named {
            named: vec![
                (String::from("x"), SchemaType::U32),
                (String::from("a"), SchemaType::U64),
                (String::from("a"), SchemaType::Bool),
            ],
        },
    };
    let path = SborPath::new().field("a");
    assert_eq!(path.rel_path(&schema), Some(vec![1]));
}
