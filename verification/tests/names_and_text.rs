use schema_wizard::names::{
    check_ref_wellformed, i32_to_string, resolve_ref, singularize_name, u64_to_string,
};
use schema_wizard::schema::{IntegerSchema, SingleValueSchema, StringSchema};
use schema_wizard::strutil::{str_eq, str_le};

#[test]
fn singularization_strips_at_most_one_s() {
    assert_eq!(singularize_name("things"), "thing");
    assert_eq!(singularize_name("busses"), "busse");
    assert_eq!(singularize_name("word"), "word");
    assert_eq!(singularize_name("s"), "");
    assert_eq!(singularize_name(""), "");
}

#[test]
fn references_name_the_third_segment() {
    assert_eq!(resolve_ref("#/$defs/foo"), "def-foo");
    assert_eq!(resolve_ref("#/$defs/foo/bar"), "def-foo");
    assert_eq!(resolve_ref("a//b"), "def-b");
    assert!(check_ref_wellformed("#/$defs/foo"));
    assert!(!check_ref_wellformed("idk"));
    assert!(!check_ref_wellformed("#/$defs"));
}

#[test]
fn numbers_render_in_decimal() {
    assert_eq!(u64_to_string(0), "0");
    assert_eq!(u64_to_string(7), "7");
    assert_eq!(u64_to_string(90210), "90210");
    assert_eq!(i32_to_string(0), "0");
    assert_eq!(i32_to_string(42), "42");
    assert_eq!(i32_to_string(-1), "-1");
    assert_eq!(i32_to_string(i32::MIN), "-2147483648");
    assert_eq!(i32_to_string(i32::MAX), "2147483647");
}

#[test]
fn string_comparisons_are_exact() {
    assert!(str_eq("abc", "abc"));
    assert!(!str_eq("abc", "abd"));
    assert!(!str_eq("abc", "abcd"));
    assert!(str_le("abc", "abc"));
    assert!(str_le("abc", "abd"));
    assert!(str_le("ab", "abc"));
    assert!(!str_le("abd", "abc"));
    assert!(!str_le("b", "abc"));
}

#[test]
fn choices_prefer_the_constant() {
    let both = IntegerSchema {
        const_value: Some(5),
        enum_values: Some(vec![1, 2]),
    };
    assert_eq!(both.choices(), Some(vec![5]));
    let only_enum = StringSchema {
        const_value: None,
        enum_values: Some(vec!["a".to_string(), "b".to_string()]),
    };
    assert_eq!(
        only_enum.choices(),
        Some(vec!["a".to_string(), "b".to_string()])
    );
    let neither: SingleValueSchema<bool> = SingleValueSchema {
        const_value: None,
        enum_values: None,
    };
    assert_eq!(neither.choices(), None);
}
