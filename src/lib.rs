//! A recursive-descent parser for JSON documents, verified with Verus.
//!
//! `parser::parse_json` turns a text into a `value::JsonValue` tree or a
//! `value::ParseError`. Its contract gives the result exactly, as the
//! spec-level grammar of `grammar` reads the text's characters.
//!
//! - `lexical`: character classes (whitespace, digits, hex digits).
//! - `value`: the tree, its model, and the error kinds.
//! - `grammar`: the grammar as spec functions, with what they guarantee.
//! - `finite`: a numeric literal's value in integers, and the overflow limit.
//! - `number`: the check of a numeric literal's form and finiteness.
//! - `parser`: the cursor, the sub-parsers and `parse_json`.
//! - `shift`, `extend`: reading after a prefix and before a whitespace suffix.
//! - `laws`: properties of the parser as a whole.
use vstd::prelude::*;

pub mod lexical;
pub mod value;
pub mod grammar;
pub mod finite;
pub mod number;
pub mod parser;
pub mod shift;
pub mod extend;
pub mod laws;

verus! {

} // verus!
