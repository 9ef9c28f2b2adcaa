use schema_wizard::dataclass::{Dataclass, Field, Type};
use schema_wizard::error::SchemaError;
use schema_wizard::resolve::{parse_dataclass, parse_top};
use schema_wizard::schema;
use schema_wizard::schema::{
    AnyOf, ArraySchema, BooleanSchema, IntegerSchema, ObjectSchema, Ref, Schema, StringSchema,
    TopLevel,
};

fn integer_schema() -> schema::Type {
    schema::Type::Schema(Schema::Integer(IntegerSchema {
        const_value: None,
        enum_values: None,
    }))
}

fn string_schema() -> schema::Type {
    schema::Type::Schema(Schema::String(StringSchema {
        const_value: None,
        enum_values: None,
    }))
}

#[test]
fn integer_type() {
    let scm = integer_schema();
    let (defs, typ) = parse_dataclass("top", &scm).unwrap();
    assert_eq!(defs, Vec::new());
    assert_eq!(typ, Type::Integer);
}

#[test]
fn object_with_integer() {
    let scm = schema::Type::Schema(Schema::Object(ObjectSchema {
        properties: vec![("hello".to_string(), integer_schema())],
        additional_properties: false,
        required: vec!["hello".to_string()],
    }));
    let (defs, typ) = parse_dataclass("top", &scm).unwrap();
    assert_eq!(
        defs,
        vec![Dataclass {
            name: "Top".to_string(),
            subclasses: Vec::new(),
            fields: vec![Field::new("hello", Type::Integer, true)],
        }]
    );
    assert_eq!(typ, Type::TypeName("Top".to_string()));
}

#[test]
fn string_enum() {
    let scm = schema::Type::Schema(Schema::String(StringSchema {
        const_value: None,
        enum_values: Some(vec![
            "hi".to_string(),
            "hello".to_string(),
            "bye".to_string(),
        ]),
    }));
    let (defs, typ) = parse_dataclass("top", &scm).unwrap();
    assert_eq!(defs, Vec::new());
    assert_eq!(
        typ,
        Type::Union(vec![
            Type::StringLiteral("hi".to_string()),
            Type::StringLiteral("hello".to_string()),
            Type::StringLiteral("bye".to_string()),
        ])
    );
}

#[test]
fn string_const() {
    let scm = schema::Type::Schema(Schema::String(StringSchema {
        const_value: Some("hewo".to_string()),
        enum_values: None,
    }));
    let (defs, typ) = parse_dataclass("top", &scm).unwrap();
    assert_eq!(defs, Vec::new());
    assert_eq!(typ, Type::StringLiteral("hewo".to_string()));
}

#[test]
fn array() {
    let scm = schema::Type::Schema(Schema::Array(ArraySchema {
        items: Box::new(string_schema()),
    }));
    let (defs, typ) = parse_dataclass("top", &scm).unwrap();
    assert_eq!(defs, Vec::new());
    assert_eq!(typ, Type::List(Box::new(Type::String)));
}

#[test]
fn complex_array_object() {
    let inner_item = schema::Type::Schema(Schema::Object(ObjectSchema {
        properties: vec![
            ("word".to_string(), string_schema()),
            ("num".to_string(), integer_schema()),
        ],
        additional_properties: false,
        required: vec!["word".to_string()],
    }));
    let scm = schema::Type::Schema(Schema::Object(ObjectSchema {
        properties: vec![
            (
                "things".to_string(),
                schema::Type::Schema(Schema::Array(ArraySchema {
                    items: Box::new(inner_item),
                })),
            ),
            (
                "tag".to_string(),
                schema::Type::Schema(Schema::String(StringSchema {
                    const_value: None,
                    enum_values: Some(vec!["A".to_string(), "B".to_string()]),
                })),
            ),
        ],
        additional_properties: false,
        required: vec!["tag".to_string()],
    }));
    let (defs, typ) = parse_dataclass("top", &scm).unwrap();
    let inner_dataclass = Dataclass {
        name: "Thing".to_string(),
        subclasses: Vec::new(),
        fields: vec![
            Field::new("word", Type::String, true),
            Field::new("num", Type::Integer, false),
        ],
    };
    assert_eq!(
        defs,
        vec![Dataclass {
            name: "Top".to_string(),
            subclasses: vec![inner_dataclass],
            fields: vec![
                Field::new(
                    "things",
                    Type::List(Box::new(Type::TypeName("Thing".to_string()))),
                    false
                ),
                Field::new(
                    "tag",
                    Type::Union(vec![
                        Type::StringLiteral("A".to_string()),
                        Type::StringLiteral("B".to_string()),
                    ]),
                    true
                ),
            ],
        }]
    );
    assert_eq!(typ, Type::TypeName("Top".to_string()));
}

#[test]
fn boolean_const() {
    let scm = schema::Type::Schema(Schema::Boolean(BooleanSchema {
        const_value: Some(true),
        enum_values: None,
    }));
    let (defs, typ) = parse_dataclass("top", &scm).unwrap();
    assert_eq!(defs, Vec::new());
    assert_eq!(typ, Type::BooleanLiteral(true));
}

#[test]
fn integer_enum() {
    let scm = schema::Type::Schema(Schema::Integer(IntegerSchema {
        const_value: None,
        enum_values: Some(vec![5, 10, 15]),
    }));
    let (defs, typ) = parse_dataclass("top", &scm).unwrap();
    assert_eq!(defs, Vec::new());
    assert_eq!(
        typ,
        Type::Union(vec![
            Type::IntegerLiteral(5),
            Type::IntegerLiteral(10),
            Type::IntegerLiteral(15),
        ])
    );
}

#[test]
fn anyof_disjunction() {
    let scm = schema::Type::AnyOf(AnyOf {
        any_of: vec![integer_schema(), string_schema()],
    });
    let (defs, typ) = parse_dataclass("top", &scm).unwrap();
    assert_eq!(defs, Vec::new());
    assert_eq!(typ, Type::Union(vec![Type::Integer, Type::String]));
}

#[test]
fn reference_type() {
    let scm = schema::Type::Ref(Ref {
        ref_id: "#/$defs/thing".to_string(),
    });
    let (defs, typ) = parse_dataclass("top", &scm).unwrap();
    assert_eq!(defs, Vec::new());
    assert_eq!(typ, Type::TypeName("DefThing".to_string()));
}

#[test]
fn empty_enumeration_is_an_error() {
    let scm = schema::Type::Schema(Schema::Integer(IntegerSchema {
        const_value: None,
        enum_values: Some(Vec::new()),
    }));
    assert_eq!(
        parse_dataclass("top", &scm),
        Err(SchemaError::EmptyEnumeration)
    );
}

#[test]
fn open_object_is_an_error() {
    let scm = schema::Type::Schema(Schema::Object(ObjectSchema {
        properties: vec![("hello".to_string(), integer_schema())],
        additional_properties: true,
        required: Vec::new(),
    }));
    assert_eq!(
        parse_dataclass("top", &scm),
        Err(SchemaError::UnsupportedOpenObject)
    );
}

#[test]
fn colliding_record_names_are_an_error() {
    let object = |name: &str| {
        (
            name.to_string(),
            schema::Type::Schema(Schema::Object(ObjectSchema {
                properties: vec![("x".to_string(), integer_schema())],
                additional_properties: false,
                required: Vec::new(),
            })),
        )
    };
    let scm = schema::Type::Schema(Schema::Object(ObjectSchema {
        properties: vec![object("a-b"), object("a_b")],
        additional_properties: false,
        required: Vec::new(),
    }));
    assert_eq!(parse_dataclass("top", &scm), Err(SchemaError::NameCollision));
}

#[test]
fn non_object_root_is_an_error() {
    let top = TopLevel {
        title: "test".to_string(),
        defs: Vec::new(),
        id: "http://localhost:8080/schema.json".to_string(),
        metaschema: "https://json-schema.org/draft/2020-12/schema".to_string(),
        description: "A test encoding".to_string(),
        content: Schema::Integer(IntegerSchema {
            const_value: None,
            enum_values: None,
        }),
    };
    assert_eq!(parse_top("top", &top), Err(SchemaError::InconsistentRoot));
}

#[test]
fn resolve_is_deterministic() {
    let scm = schema::Type::Schema(Schema::Object(ObjectSchema {
        properties: vec![("hello".to_string(), integer_schema())],
        additional_properties: false,
        required: vec!["hello".to_string()],
    }));
    let first = parse_dataclass("top", &scm).unwrap();
    let second = parse_dataclass("top", &scm).unwrap();
    assert_eq!(first, second);
}

#[test]
fn top_level_document() {
    let top = TopLevel {
        title: "test".to_string(),
        defs: Vec::new(),
        id: "http://localhost:8080/schema.json".to_string(),
        metaschema: "https://json-schema.org/draft/2020-12/schema".to_string(),
        description: "A test encoding".to_string(),
        content: Schema::Object(ObjectSchema {
            properties: vec![("hello".to_string(), integer_schema())],
            additional_properties: false,
            required: vec!["hello".to_string()],
        }),
    };
    let (defs, root) = parse_top("top", &top).unwrap();
    assert_eq!(defs.entries, Vec::new());
    assert_eq!(
        root,
        Dataclass {
            name: "Top".to_string(),
            subclasses: Vec::new(),
            fields: vec![Field::new("hello", Type::Integer, true)],
        }
    );
}
