use schema_wizard::error::SchemaError;
use schema_wizard::resolve::parse_top;
use schema_wizard::schema;
use schema_wizard::schema::{IntegerSchema, ObjectSchema, Ref, Schema, TopLevel};
use schema_wizard::sorter::DefsSorter;

fn integer_schema() -> schema::Type {
    schema::Type::Schema(Schema::Integer(IntegerSchema {
        const_value: None,
        enum_values: None,
    }))
}

fn simple_content() -> Schema {
    Schema::Object(ObjectSchema {
        properties: vec![("hello".to_string(), integer_schema())],
        additional_properties: false,
        required: vec!["hello".to_string()],
    })
}

fn object_with_ref(target: &str) -> Schema {
    Schema::Object(ObjectSchema {
        properties: vec![(
            "link".to_string(),
            schema::Type::Ref(Ref {
                ref_id: format!("#/$defs/{}", target),
            }),
        )],
        additional_properties: false,
        required: Vec::new(),
    })
}

fn top_with_defs(defs: Vec<(String, Schema)>) -> TopLevel {
    TopLevel {
        title: "test".to_string(),
        defs,
        id: "http://localhost:8080/schema.json".to_string(),
        metaschema: "https://json-schema.org/draft/2020-12/schema".to_string(),
        description: "A test encoding".to_string(),
        content: simple_content(),
    }
}

#[test]
fn dependency_comes_first() {
    let top = top_with_defs(vec![
        ("a".to_string(), object_with_ref("b")),
        (
            "b".to_string(),
            Schema::Integer(IntegerSchema {
                const_value: None,
                enum_values: None,
            }),
        ),
    ]);
    let (defs, _root) = parse_top("top", &top).unwrap();
    let order = DefsSorter::compute_order(&defs).unwrap();
    assert_eq!(order, vec!["DefB".to_string(), "DefA".to_string()]);
}

#[test]
fn sort_is_deterministic() {
    let top = top_with_defs(vec![
        ("a".to_string(), object_with_ref("b")),
        (
            "b".to_string(),
            Schema::Integer(IntegerSchema {
                const_value: None,
                enum_values: None,
            }),
        ),
        (
            "c".to_string(),
            Schema::Integer(IntegerSchema {
                const_value: None,
                enum_values: None,
            }),
        ),
    ]);
    let (defs, _root) = parse_top("top", &top).unwrap();
    let first = DefsSorter::compute_order(&defs).unwrap();
    let second = DefsSorter::compute_order(&defs).unwrap();
    assert_eq!(first, second);
}

#[test]
fn cyclic_definitions_are_an_error() {
    let top = top_with_defs(vec![
        ("a".to_string(), object_with_ref("b")),
        ("b".to_string(), object_with_ref("a")),
    ]);
    let (defs, _root) = parse_top("top", &top).unwrap();
    assert_eq!(
        DefsSorter::compute_order(&defs),
        Err(SchemaError::CyclicDefinitions)
    );
}

#[test]
fn dangling_reference_is_an_error() {
    let top = top_with_defs(vec![("a".to_string(), object_with_ref("missing"))]);
    let (defs, _root) = parse_top("top", &top).unwrap();
    assert_eq!(
        DefsSorter::compute_order(&defs),
        Err(SchemaError::DanglingReference)
    );
}

#[test]
fn self_reference_is_a_cycle() {
    let top = top_with_defs(vec![("a".to_string(), object_with_ref("a"))]);
    let (defs, _root) = parse_top("top", &top).unwrap();
    assert_eq!(
        DefsSorter::compute_order(&defs),
        Err(SchemaError::CyclicDefinitions)
    );
}
