use schema_wizard::dataclass::{Dataclass, Defs, Field, Type};
use schema_wizard::error::SchemaError;
use schema_wizard::printer::SchemaPrinter;
use schema_wizard::resolve::parse_top;
use schema_wizard::schema;
use schema_wizard::schema::{IntegerSchema, ObjectSchema, Ref, Schema, StringSchema, TopLevel};

fn integer_schema() -> schema::Type {
    schema::Type::Schema(Schema::Integer(IntegerSchema {
        const_value: None,
        enum_values: None,
    }))
}

fn string_schema() -> schema::Type {
    schema::Type::Schema(Schema::String(StringSchema {
        const_value: None,
        enum_values: None,
    }))
}

const HEADER: &str = "from dataclasses import dataclass, field\n\
from datetime import date\n\
from enum import Enum\n\
from typing import *\n\
from dataclass_wizard import JSONWizard, json_field  # mypy: ignore";

#[test]
fn prints_a_simple_document() {
    let top = TopLevel {
        title: "test".to_string(),
        defs: Vec::new(),
        id: "http://localhost:8080/schema.json".to_string(),
        metaschema: "https://json-schema.org/draft/2020-12/schema".to_string(),
        description: "A test encoding".to_string(),
        content: Schema::Object(ObjectSchema {
            properties: vec![("hello".to_string(), integer_schema())],
            additional_properties: false,
            required: vec!["hello".to_string()],
        }),
    };
    let (defs, root) = parse_top("top", &top).unwrap();
    let text = SchemaPrinter::print(&defs, &root).unwrap();
    let expected = format!(
        "{}\n@dataclass\nclass Top(JSONWizard):\n  # required fields:\n  \
hello: int = json_field(['hello'])\n  # optional fields:",
        HEADER
    );
    assert_eq!(text, expected);
}

#[test]
fn required_fields_come_first_sorted_by_key() {
    let content = Schema::Object(ObjectSchema {
        properties: vec![
            ("zeta".to_string(), integer_schema()),
            ("beta".to_string(), string_schema()),
            ("alpha".to_string(), integer_schema()),
        ],
        additional_properties: false,
        required: vec!["zeta".to_string(), "alpha".to_string()],
    });
    let top = TopLevel {
        title: "test".to_string(),
        defs: Vec::new(),
        id: "x".to_string(),
        metaschema: "y".to_string(),
        description: "z".to_string(),
        content,
    };
    let (defs, root) = parse_top("top", &top).unwrap();
    let text = SchemaPrinter::print(&defs, &root).unwrap();
    let expected = format!(
        "{}\n@dataclass\nclass Top(JSONWizard):\n  # required fields:\n  \
alpha: int = json_field(['alpha'])\n  \
zeta: int = json_field(['zeta'])\n  # optional fields:\n  \
beta: Optional[str] = json_field(['beta'], default=None)",
        HEADER
    );
    assert_eq!(text, expected);
}

#[test]
fn empty_record_gets_a_pass_body() {
    let defs = Defs::new();
    let root = Dataclass {
        name: "Top".to_string(),
        subclasses: Vec::new(),
        fields: Vec::new(),
    };
    let text = SchemaPrinter::print(&defs, &root).unwrap();
    let expected = format!(
        "{}\n@dataclass\nclass Top(JSONWizard):\n  # required fields:\n  # optional fields:\n  pass",
        HEADER
    );
    assert_eq!(text, expected);
}

#[test]
fn alias_definitions_print_one_line() {
    let top = TopLevel {
        title: "test".to_string(),
        defs: vec![(
            "count".to_string(),
            Schema::Integer(IntegerSchema {
                const_value: None,
                enum_values: None,
            }),
        )],
        id: "x".to_string(),
        metaschema: "y".to_string(),
        description: "z".to_string(),
        content: Schema::Object(ObjectSchema {
            properties: vec![("hello".to_string(), integer_schema())],
            additional_properties: false,
            required: vec!["hello".to_string()],
        }),
    };
    let (defs, root) = parse_top("top", &top).unwrap();
    let text = SchemaPrinter::print(&defs, &root).unwrap();
    let expected = format!(
        "{}\nDefCount: TypeAlias = int\n@dataclass\nclass Top(JSONWizard):\n  \
# required fields:\n  hello: int = json_field(['hello'])\n  # optional fields:",
        HEADER
    );
    assert_eq!(text, expected);
}

#[test]
fn nested_records_print_indented_before_fields() {
    let inner = schema::Type::Schema(Schema::Object(ObjectSchema {
        properties: vec![("word".to_string(), string_schema())],
        additional_properties: false,
        required: vec!["word".to_string()],
    }));
    let top = TopLevel {
        title: "test".to_string(),
        defs: Vec::new(),
        id: "x".to_string(),
        metaschema: "y".to_string(),
        description: "z".to_string(),
        content: Schema::Object(ObjectSchema {
            properties: vec![("thing".to_string(), inner)],
            additional_properties: false,
            required: Vec::new(),
        }),
    };
    let (defs, root) = parse_top("top", &top).unwrap();
    let text = SchemaPrinter::print(&defs, &root).unwrap();
    let expected = format!(
        "{}\n@dataclass\nclass Top(JSONWizard):\n  @dataclass\n  class Thing(JSONWizard):\n    \
# required fields:\n    word: str = json_field(['word'])\n    # optional fields:\n  \
# required fields:\n  # optional fields:\n  \
thing: Optional['Thing'] = json_field(['thing'], default=None)",
        HEADER
    );
    assert_eq!(text, expected);
}

#[test]
fn type_names_render_like_the_target_language() {
    assert_eq!(Type::Integer.get_type_name(), "int");
    assert_eq!(Type::String.get_type_name(), "str");
    assert_eq!(Type::Boolean.get_type_name(), "bool");
    assert_eq!(
        Type::TypeName("Thing".to_string()).get_type_name(),
        "'Thing'"
    );
    assert_eq!(
        Type::List(Box::new(Type::Integer)).get_type_name(),
        "list[int]"
    );
    assert_eq!(
        Type::Union(vec![Type::Integer, Type::String, Type::Boolean]).get_type_name(),
        "Union[int, str, bool]"
    );
    assert_eq!(Type::IntegerLiteral(7).get_type_name(), "Literal[7]");
    assert_eq!(Type::IntegerLiteral(-35).get_type_name(), "Literal[-35]");
    assert_eq!(
        Type::StringLiteral("hi".to_string()).get_type_name(),
        "Literal['hi']"
    );
    assert_eq!(Type::BooleanLiteral(true).get_type_name(), "Literal[True]");
    assert_eq!(Type::BooleanLiteral(false).get_type_name(), "Literal[False]");
}

#[test]
fn fields_render_with_their_mapping() {
    let f = Field::new("someKey", Type::Integer, true);
    assert_eq!(f.render(), "some_key: int = json_field(['someKey'])");
    let g = Field::new("other", Type::String, false);
    assert_eq!(
        g.render(),
        "other: Optional[str] = json_field(['other'], default=None)"
    );
    let h = Field::new("global", Type::Integer, true);
    assert_eq!(h.render(), "global_: int = json_field(['global'])");
}

#[test]
fn record_definitions_print_in_dependency_order() {
    let top = TopLevel {
        title: "test".to_string(),
        defs: vec![
            (
                "a".to_string(),
                Schema::Object(ObjectSchema {
                    properties: vec![(
                        "link".to_string(),
                        schema::Type::Ref(Ref {
                            ref_id: "#/$defs/b".to_string(),
                        }),
                    )],
                    additional_properties: false,
                    required: Vec::new(),
                }),
            ),
            (
                "b".to_string(),
                Schema::Integer(IntegerSchema {
                    const_value: None,
                    enum_values: None,
                }),
            ),
        ],
        id: "x".to_string(),
        metaschema: "y".to_string(),
        description: "z".to_string(),
        content: Schema::Object(ObjectSchema {
            properties: vec![("hello".to_string(), integer_schema())],
            additional_properties: false,
            required: vec!["hello".to_string()],
        }),
    };
    let (defs, root) = parse_top("top", &top).unwrap();
    let text = SchemaPrinter::print(&defs, &root).unwrap();
    let expected = format!(
        "{}
DefB: TypeAlias = int
@dataclass
class DefA(JSONWizard):
  # required fields:
  # optional fields:
  link: Optional['DefB'] = json_field(['link'], default=None)
@dataclass
class Top(JSONWizard):
  # required fields:
  hello: int = json_field(['hello'])
  # optional fields:",
        HEADER
    );
    assert_eq!(text, expected);
}

#[test]
fn dangling_root_reference_is_an_error() {
    let defs = Defs::new();
    let root = Dataclass {
        name: "Top".to_string(),
        subclasses: Vec::new(),
        fields: vec![Field::new(
            "link",
            Type::TypeName("DefMissing".to_string()),
            true,
        )],
    };
    assert_eq!(
        SchemaPrinter::print(&defs, &root),
        Err(SchemaError::DanglingReference)
    );
}

#[test]
fn dangling_root_reference_from_a_document_is_an_error() {
    let top = TopLevel {
        title: "test".to_string(),
        defs: Vec::new(),
        id: "x".to_string(),
        metaschema: "y".to_string(),
        description: "z".to_string(),
        content: Schema::Object(ObjectSchema {
            properties: vec![(
                "link".to_string(),
                schema::Type::Ref(Ref {
                    ref_id: "#/$defs/nope".to_string(),
                }),
            )],
            additional_properties: false,
            required: Vec::new(),
        }),
    };
    let (defs, root) = parse_top("top", &top).unwrap();
    assert_eq!(
        SchemaPrinter::print(&defs, &root),
        Err(SchemaError::DanglingReference)
    );
}
