use graphql_sort_ast::ast::{Definition, Selection, Value};
use graphql_sort_ast::{parse_document, print_document};

fn roundtrip(src: &str) -> String {
    print_document(&parse_document(src).unwrap())
}

fn first_field_arguments(src: &str) -> Vec<Value> {
    let doc = parse_document(src).unwrap();
    let Definition::Operation(op) = &doc.definitions[0] else {
        panic!("expected operation");
    };
    let Selection::Field(field) = &op.selection_set.selections[0] else {
        panic!("expected field");
    };
    field.arguments.iter().map(|a| clone_value(&a.value)).collect()
}

fn clone_value(v: &Value) -> Value {
    match v {
        Value::Variable(s) => Value::Variable(s.clone()),
        Value::Int(s) => Value::Int(s.clone()),
        Value::Float(s) => Value::Float(s.clone()),
        Value::String(s) => Value::String(s.clone()),
        Value::Boolean(b) => Value::Boolean(*b),
        Value::Null => Value::Null,
        Value::Enum(s) => Value::Enum(s.clone()),
        Value::List(items) => Value::List(items.iter().map(clone_value).collect()),
        Value::Object(fields) => Value::Object(
            fields.iter().map(|(n, v)| (n.clone(), clone_value(v))).collect(),
        ),
    }
}

#[test]
fn comments_and_commas_are_ignored() {
    let out = roundtrip("# leading comment\n{ a, b # trailing\n c }");
    assert_eq!(out, "{\n  a\n  b\n  c\n}\n");
}

#[test]
fn string_escapes_round_trip() {
    let doc = parse_document(r#"{ f(x: "a\tb\n\"c\"") }"#).unwrap();
    let Definition::Operation(op) = &doc.definitions[0] else {
        panic!("expected operation");
    };
    let Selection::Field(field) = &op.selection_set.selections[0] else {
        panic!("expected field");
    };
    assert_eq!(
        field.arguments[0].value,
        Value::String("a\tb\n\"c\"".into())
    );
}

#[test]
fn unicode_escape_decodes() {
    let doc = parse_document(r#"{ f(x: "A") }"#).unwrap();
    let Definition::Operation(op) = &doc.definitions[0] else {
        panic!("expected operation");
    };
    let Selection::Field(field) = &op.selection_set.selections[0] else {
        panic!("expected field");
    };
    assert_eq!(field.arguments[0].value, Value::String("A".into()));
}

#[test]
fn block_string_dedents() {
    let src = "{ f(x: \"\"\"\n    hello\n    world\n  \"\"\") }";
    let doc = parse_document(src).unwrap();
    let Definition::Operation(op) = &doc.definitions[0] else {
        panic!("expected operation");
    };
    let Selection::Field(field) = &op.selection_set.selections[0] else {
        panic!("expected field");
    };
    assert_eq!(
        field.arguments[0].value,
        Value::String("hello\nworld".into())
    );
}

#[test]
fn integer_and_float_text_preserved() {
    let doc = parse_document("{ f(a: 007, b: 1.50e3, c: -2) }").unwrap();
    let Definition::Operation(op) = &doc.definitions[0] else {
        panic!("expected operation");
    };
    let Selection::Field(field) = &op.selection_set.selections[0] else {
        panic!("expected field");
    };
    assert_eq!(field.arguments[0].value, Value::Int("007".into()));
    assert_eq!(field.arguments[1].value, Value::Float("1.50e3".into()));
    assert_eq!(field.arguments[2].value, Value::Int("-2".into()));
}

#[test]
fn type_system_definition_is_rejected() {
    let err = parse_document("type Query { a: Int }").unwrap_err();
    assert!(err.message().contains("only executable"));
}

#[test]
fn empty_document_is_rejected() {
    assert!(parse_document("   ").is_err());
}

#[test]
fn nested_non_null_list_type_round_trips() {
    let out = roundtrip("query ($v: [Int!]!) { f }");
    assert_eq!(out, "query ($v: [Int!]!) {\n  f\n}\n");
}

// Further cases of the lexer and parser.

#[test]
fn four_digit_unicode_escape_decodes() {
    let values = first_field_arguments(r#"{ f(x: "\u0041\u00e9") }"#);
    assert_eq!(values[0], Value::String("A\u{e9}".into()));
}

#[test]
fn braced_unicode_escape_decodes() {
    let values = first_field_arguments(r#"{ f(x: "\u{1F600}", y: "\u{41}") }"#);
    assert_eq!(values[0], Value::String("\u{1F600}".into()));
    assert_eq!(values[1], Value::String("A".into()));
}

#[test]
fn invalid_unicode_escapes_are_rejected() {
    assert!(parse_document(r#"{ f(x: "\u{110000}") }"#).is_err());
    assert!(parse_document(r#"{ f(x: "\u{}") }"#).is_err());
    assert!(parse_document(r#"{ f(x: "\uD800") }"#).is_err());
    assert!(parse_document(r#"{ f(x: "\u12") }"#).is_err());
    assert!(parse_document(r#"{ f(x: "\q") }"#).is_err());
}

#[test]
fn unterminated_strings_are_rejected() {
    assert!(parse_document("{ f(x: \"abc) }").is_err());
    assert!(parse_document("{ f(x: \"a\nb\") }").is_err());
    assert!(parse_document("{ f(x: \"\"\"abc) }").is_err());
}

#[test]
fn block_string_keeps_nonbreaking_space_and_escaped_quotes() {
    let values = first_field_arguments("{ f(x: \"\"\"\n  \u{a0}a\n  \\\"\"\"b\n\"\"\") }");
    assert_eq!(values[0], Value::String("\u{a0}a\n\"\"\"b".into()));
}

#[test]
fn block_string_first_line_and_blank_lines() {
    let values = first_field_arguments("{ f(x: \"\"\"  first\n\n    a\r\n      b\n  \n\"\"\") }");
    assert_eq!(values[0], Value::String("  first\n\na\n  b".into()));
}

#[test]
fn byte_order_marks_are_ignored_anywhere() {
    let out = roundtrip("\u{feff}{ a \u{feff} b }");
    assert_eq!(out, "{\n  a\n  b\n}\n");
}

#[test]
fn fragment_named_on_is_rejected() {
    assert!(parse_document("fragment on on T { a }").is_err());
    assert!(parse_document("fragment F on T { a }").is_ok());
}

#[test]
fn variables_in_default_values_are_rejected() {
    assert!(parse_document("query ($a: Int = $b) { f }").is_err());
    assert!(parse_document("query ($a: [Int] = [1, $b]) { f }").is_err());
    assert!(parse_document("query ($a: In = {x: $b}) { f }").is_err());
    assert!(parse_document("query ($a: Int = 1) { f(x: $a) }").is_ok());
}

#[test]
fn trailing_input_and_unknown_characters_are_rejected() {
    assert!(parse_document("{ a } }").is_err());
    assert!(parse_document("{ a ? }").is_err());
    assert!(parse_document("{ a .. }").is_err());
}

#[test]
fn values_of_every_kind_round_trip() {
    let out = roundtrip(
        "{ f(a: $v, b: 1, c: 2.5, d: \"s\", e: true, g: false, h: null, i: RED, j: [1, [2]], k: {x: {y: 1}}) }",
    );
    assert_eq!(
        out,
        "{\n  f(a: $v, b: 1, c: 2.5, d: \"s\", e: true, g: false, h: null, i: RED, j: [1, [2]], k: { x: { y: 1 } })\n}\n"
    );
}

#[test]
fn aliases_spreads_and_inline_fragments_round_trip() {
    let out = roundtrip("query Q($id: ID = 4 @v) @op { me: user(id: $id) @skip { ...F ... on U @d { n } ... { m } } }");
    assert_eq!(
        out,
        "query Q($id: ID = 4) @op {\n  me: user(id: $id) @skip {\n    ...F\n    ... on U @d {\n      n\n    }\n    ... {\n      m\n    }\n  }\n}\n"
    );
}

#[test]
fn leaf_field_has_no_selection_set() {
    let doc = parse_document("{ a b { c } }").unwrap();
    let Definition::Operation(op) = &doc.definitions[0] else {
        panic!("expected operation");
    };
    let Selection::Field(a) = &op.selection_set.selections[0] else {
        panic!("expected field");
    };
    assert!(a.selection_set.is_none());
    let Selection::Field(b) = &op.selection_set.selections[1] else {
        panic!("expected field");
    };
    assert!(b.selection_set.is_some());
}

#[test]
fn string_values_print_escaped() {
    let out = roundtrip("{ f(x: \"q\\\"b\\\\n\\u0001\\t\\b\\f\\r\\n\") }");
    assert_eq!(out, "{\n  f(x: \"q\\\"b\\\\n\\u0001\\t\\b\\f\\r\\n\")\n}\n");
}

#[test]
fn block_string_dedent_only_strips_leading_blanks() {
    let values = first_field_arguments("{ f(x: \"\"\"\n \n\t\tx  y\r\n\t\t\ty\n \t\n\"\"\") }");
    assert_eq!(values[0], Value::String("x  y\n\ty".into()));
}
