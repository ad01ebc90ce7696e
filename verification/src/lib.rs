//! A small boolean-logic toolkit: a tokenizer and recursive-descent parser
//! that turn textual boolean expressions into an abstract syntax tree, a
//! substitution and short-circuit simplification engine that reduces a tree
//! under an optional variable assignment, and a renderer that prints a tree
//! back in canonical fully-parenthesized form.

pub mod alg;
pub mod parse;
