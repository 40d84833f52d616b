use graphql_sort_ast::{parse_document, print_document, sort_ast};

// Equal-key siblings keep source order. Inline fragments have no name and
// equal kind, so they must stay put.
#[test]
fn stability_inline_fragments() {
    let doc = parse_document("{ ... on Z { z } ... on A { a } ... on M { m } }").unwrap();
    let sorted = print_document(&sort_ast(doc));
    let z = sorted.find("on Z").unwrap();
    let a = sorted.find("on A").unwrap();
    let m = sorted.find("on M").unwrap();
    assert!(z < a && a < m, "inline fragments must keep source order");
}
