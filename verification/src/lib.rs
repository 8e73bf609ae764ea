//! Parser for a structured-object notation: documents consist of zero or
//! more `#![enable(...)]` attributes followed by one expression (unit,
//! booleans, integers, decimals, strings with escapes, lists, tuples, maps,
//! and named or anonymous structs), with whitespace, line comments and
//! nested block comments allowed between any two tokens.
//!
//! The parse either yields a [`ast::Ron`] document whose nodes carry
//! source spans, or an [`error::ErrorTree`] that records what was expected
//! and where.

pub mod ast;
pub mod basic;
pub mod char_categories;
pub mod error;
pub mod expr;
pub mod input;
pub mod laws;
pub mod number;
pub mod strings;
pub mod util;

pub use ast::{
    Attribute, Decimal, Expr, Extension, Ident, Integer, KeyValue, List, Ron, RonMap, Sign,
    SignedInteger, Spanned, Struct, UnsignedInteger,
};
pub use error::{BaseErrorKind, ErrorTree, Expectation, InputParseErr};
pub use expr::{attribute, expr, ron, ExprClass};
pub use input::Input;
