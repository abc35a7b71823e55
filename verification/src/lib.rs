//! A reader for a small schema-definition language.
//!
//! Source text is matched against a fixed grammar, which yields a tree of
//! matched syntax spans, and that tree is reduced to an abstract syntax tree
//! of schemas, attributes and methods.
//!
//! - [`text`]: bytes, whitespace, identifier characters, positions, spans.
//! - [`syntax`]: the matched-syntax tree, failures and syntax errors.
//! - [`grammar`]: what matching each rule yields.
//! - [`matcher`]: the functions that compute it.
//! - [`derivation`]: the trees of each rule, described by their shape; the
//!   matcher yields exactly these.
//! - [`ast`]: the abstract syntax tree.
//! - [`builder`]: the reduction of matched syntax to the abstract syntax tree.
//! - [`reader`]: matching and reduction in one call.
//! - [`laws`]: what holds of matching and reduction together.
//! - [`prefix`]: what a syntax error says of the text before it.

pub mod syntax;
pub mod text;
pub mod grammar;
pub mod matcher;
pub mod derivation;
pub mod ast;
pub mod builder;
pub mod laws;
pub mod prefix;
pub mod reader;
