//! A reader for a small language of symbolic expressions: symbols and
//! parenthesized lists of expressions, nested to any depth.
//!
//! [`expr`] reads one expression from the start of a text and hands back the
//! text behind it. The rules are built from a few combinators over string
//! slices; [`syntax`] says what each rule yields, and [`laws`] what holds of
//! them on every text.

pub mod chars;
pub mod combinator;
pub mod cursor;
pub mod grammar;
pub mod laws;
pub mod syntax;

pub use grammar::{expr, expr_list, sexpr, symbol};
pub use syntax::Expr;
