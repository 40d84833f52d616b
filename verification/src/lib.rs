//! Normalize GraphQL queries into a canonical, sorted form for stable cache
//! keys and signatures.
//!
//! [`sort_ast`] reorders the order-insensitive sibling lists of an executable
//! GraphQL document into a canonical order. Documents that differ only in the
//! order of fields, arguments, definitions, or variable definitions normalize
//! to the same document and print to the same string. Sorting never reorders
//! values: list and object literals keep their authored order.
//!
//! [`parse_document`] reads an executable document, [`print_document`]
//! renders one canonically. Each is specified by a spec function over the
//! views of the AST types: `parse_document_spec`, `sorted_document` and
//! `print_document_spec`; `sort_laws` states what sorting promises of every
//! document, and `reparse` that printed output parses back to the document
//! it was printed from.
pub mod ast;
pub mod dedent;
pub mod lexer;
pub mod order;
pub mod parse;
pub mod print;
pub mod reparse;
pub mod sort;
pub mod sort_laws;
pub mod stable;
pub mod text;

pub use ast::Document;
pub use parse::{parse_document, ParseError};
pub use print::print_document;
pub use sort::sort_ast;
