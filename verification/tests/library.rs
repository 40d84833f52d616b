use graphql_sort_ast::ast::{
    Argument, Definition, Document, Field, OperationDefinition, OperationType, Selection,
    SelectionSet, Value,
};
use graphql_sort_ast::{parse_document, print_document, sort_ast};

fn sorted(src: &str) -> String {
    print_document(&sort_ast(parse_document(src).expect("valid document")))
}

fn leaf(name: &str) -> Selection {
    Selection::Field(Field {
        alias: None,
        name: name.to_string(),
        arguments: Vec::new(),
        directives: Vec::new(),
        selection_set: None,
    })
}

fn query_of(selections: Vec<Selection>) -> Document {
    Document {
        definitions: vec![Definition::Operation(OperationDefinition {
            operation: OperationType::Query,
            name: None,
            variable_definitions: Vec::new(),
            directives: Vec::new(),
            selection_set: SelectionSet { selections },
        })],
    }
}

#[test]
fn keyword_and_shorthand() {
    assert_eq!(OperationType::Query.keyword(), "query");
    assert_eq!(OperationType::Mutation.keyword(), "mutation");
    assert_eq!(OperationType::Subscription.keyword(), "subscription");
    let doc = parse_document("{ a } query { b } query Q { c }").unwrap();
    let shorthand: Vec<bool> = doc
        .definitions
        .iter()
        .map(|d| match d {
            Definition::Operation(op) => op.is_shorthand(),
            Definition::Fragment(_) => false,
        })
        .collect();
    assert_eq!(shorthand, vec![true, true, false]);
}

#[test]
fn names_compare_by_utf16_code_units() {
    // U+10000 encodes as D800 DC00, which ranks before U+FFFF in UTF-16
    // although it ranks after it as a scalar value.
    let doc = query_of(vec![leaf("\u{FFFF}"), leaf("\u{10000}"), leaf("a")]);
    let out = print_document(&sort_ast(doc));
    assert_eq!(out, "{\n  a\n  \u{10000}\n  \u{FFFF}\n}\n");
}

#[test]
fn reordered_documents_sort_to_the_same_document() {
    let a = "query Q($b: Int, $a: Int) { z(y: 1, x: 2) ...S @b @a x { q p } } fragment S on T @d(b: 1, a: 2) { k j }";
    let b = "fragment S on T @d(a: 2, b: 1) { j k } query Q($a: Int, $b: Int) { x { p q } z(x: 2, y: 1) ...S @a @b }";
    assert_eq!(sorted(a), sorted(b));
    assert_eq!(sort_ast(parse_document(a).unwrap()), sort_ast(parse_document(b).unwrap()));
}

#[test]
fn equal_keys_in_another_order_sort_differently() {
    // Siblings with equal keys keep their source order, so swapping them
    // changes the result.
    let a = sorted("{ a { x } a { y } }");
    let b = sorted("{ a { y } a { x } }");
    assert_ne!(a, b);
    assert_eq!(a, "{\n  a {\n    x\n  }\n  a {\n    y\n  }\n}\n");
}

#[test]
fn sorting_twice_is_sorting_once() {
    let doc = parse_document("query B { c b { z y } ...F a } fragment F on T { n m } { x }").unwrap();
    let once = sort_ast(doc);
    let printed = print_document(&once);
    let twice = sort_ast(once);
    assert_eq!(printed, print_document(&twice));
    assert_eq!(
        printed,
        "fragment F on T {\n  m\n  n\n}\n\nquery B {\n  a\n  b {\n    y\n    z\n  }\n  c\n  ...F\n}\n\n{\n  x\n}\n"
    );
}

#[test]
fn variable_definition_directives_keep_order_and_sort_arguments() {
    let doc = sort_ast(
        parse_document("query ($b: Int @z(q: 1, p: 2) @y, $a: [String!] = [\"x\"]) { f }").unwrap(),
    );
    // The printer leaves variable-definition directives out.
    assert_eq!(print_document(&doc), "query ($a: [String!] = [\"x\"], $b: Int) {\n  f\n}\n");
    let Definition::Operation(op) = &doc.definitions[0] else {
        panic!("expected operation");
    };
    let b = &op.variable_definitions[1];
    assert_eq!(b.name, "b");
    let names: Vec<&str> = b.directives.iter().map(|d| d.name.as_str()).collect();
    assert_eq!(names, vec!["z", "y"]);
    let args: Vec<&str> = b.directives[0].arguments.iter().map(|a| a.name.as_str()).collect();
    assert_eq!(args, vec!["p", "q"]);
}

#[test]
fn operation_headers_print_canonically() {
    assert_eq!(sorted("mutation { a }"), "mutation {\n  a\n}\n");
    assert_eq!(sorted("query @d { a }"), "query @d {\n  a\n}\n");
    assert_eq!(sorted("subscription S($v: Int) { a }"), "subscription S($v: Int) {\n  a\n}\n");
}

#[test]
fn not_executable_definition_message_names_the_keyword() {
    let err = parse_document("{ a } schema { query: Q }").unwrap_err();
    assert_eq!(
        err.message(),
        "unexpected keyword \"schema\"; only executable definitions are supported"
    );
}

#[test]
fn empty_selection_sets_are_rejected() {
    for src in ["{ }", "{ f {} }", "query Q { f { g {} } }", "{ ... on T { } }", "fragment F on T {}"] {
        assert_eq!(parse_document(src).unwrap_err().message(), "empty selection set");
    }
    // A field built with an empty selection set prints as a leaf.
    let doc = query_of(vec![Selection::Field(Field {
        alias: None,
        name: "f".to_string(),
        arguments: Vec::new(),
        directives: Vec::new(),
        selection_set: Some(SelectionSet { selections: Vec::new() }),
    })]);
    assert_eq!(print_document(&doc), "{\n  f\n}\n");
}

#[test]
fn printed_document_parses_back_to_itself() {
    let src = "query Q($id: ID! = \"a\\\"b\\\\c\\n\\u0001\", $xs: [[Int]!] = [1, -2, [3]], \
        $o: In = { k: 1.5e3, s: \"\u{e9}\", l: [] , e: {} }) @live(if: true) { \
        al: f(a: $id, b: null, c: RED, d: -0.5) @skip(if: $o) { g ...F } \
        ... on T @x { h } ... { i } } \
        fragment F($v: Int = 3) on T @d(z: [{ a: \"q\" }]) { j } \
        mutation { m(n: 1E+2) } subscription S { s }";
    let doc = parse_document(src).expect("valid document");
    let printed = print_document(&doc);
    let reparsed = parse_document(&printed).expect("printed output parses");
    assert_eq!(reparsed, doc);
    assert_eq!(print_document(&reparsed), printed);
}

#[test]
fn sorted_output_parses_back_to_itself() {
    let doc = parse_document("query B($z: [Int] = [2, 1], $a: S) { c(y: \"\\t\", x: 1) b { z y } ...F a } fragment F on T { n m }")
        .expect("valid document");
    let sorted_doc = sort_ast(doc);
    let printed = print_document(&sorted_doc);
    let reparsed = parse_document(&printed).expect("printed output parses");
    assert_eq!(reparsed, sorted_doc);
}

#[test]
fn documents_outside_the_printable_ones_do_not_read_back() {
    // An empty selection set prints nothing and reads back as none.
    let doc = query_of(vec![Selection::Field(Field {
        alias: None,
        name: "f".to_string(),
        arguments: Vec::new(),
        directives: Vec::new(),
        selection_set: Some(SelectionSet { selections: Vec::new() }),
    })]);
    let reparsed = parse_document(&print_document(&doc)).unwrap();
    assert_ne!(reparsed, doc);
    // An enum value spelled `true` reads back as a boolean.
    let doc = query_of(vec![Selection::Field(Field {
        alias: None,
        name: "f".to_string(),
        arguments: vec![Argument {
            name: "a".to_string(),
            value: Value::Enum("true".to_string()),
        }],
        directives: Vec::new(),
        selection_set: None,
    })]);
    let reparsed = parse_document(&print_document(&doc)).unwrap();
    assert_ne!(reparsed, doc);
}

#[test]
fn copies_are_equal() {
    let doc = parse_document(
        "query Q($v: [Int!] = [1]) @d(a: { b: [\"c\"] }) { a: f(x: $v) { ... on T { g } ...F } } fragment F on T { h }",
    )
    .unwrap();
    let copy = doc.clone();
    assert_eq!(copy, doc);
    assert_eq!(print_document(&copy), print_document(&doc));
    let err = parse_document("{").unwrap_err();
    assert_eq!(err.clone(), err);
}

#[test]
fn error_messages_name_what_was_found() {
    let message = |src: &str| parse_document(src).unwrap_err().message().to_string();
    assert_eq!(message("{ a(b: ) }"), "unexpected value token Punct(')')");
    assert_eq!(message("{ a"), "expected name, found Eof");
    assert_eq!(message("fragment F T { a }"), "expected 'on', found Name(\"T\")");
    assert_eq!(message("query ($a Int) { b }"), "expected ':', found Name(\"Int\")");
    assert_eq!(message("{ a } %"), "unexpected character '%'");
    assert_eq!(message("{ a(b: \"\\q\") }"), "invalid escape sequence \\q");
    assert_eq!(message("[ a ]"), "unexpected token Punct('[') at definition");
    assert_eq!(message("{ a(b: \"x\" c) }"), "expected ':', found Punct(')')");
    assert_eq!(message("%"), "document has no definitions");
}

#[test]
fn lexical_and_grammar_error_messages() {
    let message = |src: &str| parse_document(src).unwrap_err().message().to_string();
    assert_eq!(message("{ f(x: \"abc) }"), "unterminated string");
    assert_eq!(message("{ f(x: \"a\nb\") }"), "unterminated string");
    assert_eq!(message("{ f(x: \"\"\"abc) }"), "unterminated block string");
    assert_eq!(message("{ f(x: \"\\u12\") }"), "invalid unicode escape");
    assert_eq!(message("{ f(x: \"\\u1"), "incomplete unicode escape");
    assert_eq!(message("{ f(x: \"\\uD800\") }"), "invalid unicode code point");
    assert_eq!(message("{ f(x: \"\\u{}\") }"), "empty unicode escape");
    assert_eq!(message("{ f(x: \"\\u{110000}\") }"), "invalid unicode code point");
    assert_eq!(message("{ f(x: \"\\u{41\") }"), "invalid unicode escape");
    assert_eq!(message("{ f(x: \"\\u{41"), "unterminated unicode escape");
    assert_eq!(message("{ f(x: \"\\"), "unterminated escape");
    assert_eq!(message("{ a .. }"), "expected '...'");
    assert_eq!(message("query ($a: [Int] = [1, $b]) { f }"), "variables are not allowed in default values");
    assert_eq!(message("fragment on on T { a }"), "a fragment cannot be named 'on'");
    assert_eq!(message("{ a } }"), "unexpected token Punct('}') at definition");
}

#[test]
fn numbers_and_escapes_are_strict() {
    let message = |src: &str| parse_document(src).unwrap_err().message().to_string();
    assert_eq!(message("{ f(a: -) }"), "expected a digit after '-'");
    assert_eq!(message("{ f(a: -.5) }"), "expected a digit after '-'");
    assert_eq!(message("{ f(a: \"\\u+041\") }"), "invalid unicode escape");
    assert!(parse_document("{ f(a: -5) }").is_ok());
}

#[test]
fn non_ascii_input_is_quoted_by_its_first_utf8_byte() {
    let message = |src: &str| parse_document(src).unwrap_err().message().to_string();
    assert_eq!(message("{ a } \u{e9}"), "unexpected character '\u{c3}'");
    assert_eq!(message("{ a } \u{1f600}"), "unexpected character '\u{f0}'");
    assert_eq!(message("{ a(b: \"\\\u{e9}\") }"), "invalid escape sequence \\\u{c3}");
    assert_eq!(message("{ f(x: \"\\u123\u{e9}\") }"), "incomplete unicode escape");
    assert_eq!(message("{ f(x: \"\\u12\u{e9}\") }"), "invalid unicode escape");
    assert!(parse_document("{ f(x: \"\u{e9}\") }").is_ok());
}

#[test]
fn a_token_that_cannot_start_a_value_is_rejected_before_the_next_is_read() {
    let message = |src: &str| parse_document(src).unwrap_err().message().to_string();
    assert_eq!(message("{ f(a: ) ? }"), "unexpected value token Punct(')')");
    assert_eq!(message("{ f(a: ...) }"), "unexpected value token Spread");
}
