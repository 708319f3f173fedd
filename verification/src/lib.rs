//! A tokenizer and expression parser that produces a lossless concrete
//! syntax tree (CST) for infix arithmetic expressions.
//!
//! Every byte of the input — whitespace and malformed fragments included —
//! is preserved in the tree in source order, so an in-order traversal of
//! the leaves reconstructs the consumed input exactly. Binary operators
//! are parsed left-associatively with `*`/`/` binding tighter than
//! `+`/`-`; a token found where a value was expected is embedded under an
//! error node rather than aborting the parse.

pub mod builder;
pub mod parser;
pub mod props;
pub mod syntax;
pub mod tokenizer;
pub mod tree;
