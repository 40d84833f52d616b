# graphql_sort_ast

Normalizes executable GraphQL documents into a canonical, sorted form for
stable cache keys and signatures. The library is verified by Verus; the few
std calls that Verus has no specification for stand behind trusted items in
`src/lexer.rs` and `src/text.rs`.

```rust
use graphql_sort_ast::{parse_document, print_document, sort_ast};

let a = sort_ast(parse_document("{ user(id: 1, name: \"x\") { name id } }").unwrap());
let b = sort_ast(parse_document("{ user(name: \"x\", id: 1) { id name } }").unwrap());
assert_eq!(print_document(&a), print_document(&b));
```

## Layout

- `src/ast.rs`: the AST types and their views (`@`), over which every contract
  is stated.
- `src/lexer.rs`, `src/dedent.rs`, `src/parse.rs`: the lexer, block-string
  dedent (proved to take only spaces and tabs off the start of lines, apart
  from dropping blank lines at the edges) and recursive-descent parser; `parse_document` returns exactly the
  document that `parse_document_spec` describes, or an error when it describes
  one.
- `src/print.rs`: the canonical printer; `print_document` returns
  `print_document_spec` of its input.
- `src/order.rs`, `src/stable.rs`, `src/sort.rs`: sort keys (UTF-16 code
  units, missing names last), a stable sort, and `sort_ast`, which returns
  `sorted_document` of its input.
- `src/sort_laws.rs`: sorting only rearranges sibling lists and keeps equal
  keys in order; its result is in key order; sorting twice is sorting once;
  documents that differ only in sibling order sort to the same document.
- `src/reparse.rs`: printed output parses back to what it was printed from:
  every printable document (in particular its sorted form), every printable
  value, and every string literal.
- `app/lib.rs`: an error type with `Display` and `std::error::Error`.
- `tests/`: scenario tests.
