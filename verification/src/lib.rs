//! Lexical analysis for a small functional language.
//!
//! A [`lexer::Lexer`] turns source text into tokens. Every token carries a
//! [`context::Context`], the span of source that it was read from, which
//! resolves to a line, a column and a printable excerpt. Identifiers are
//! interned in a [`util::Interner`], so that equal names share one
//! [`util::Symbol`].
//!
//! What a scan computes is defined in [`scan`] as a function on characters;
//! [`laws`] holds what is proved of every scan.

pub mod context;
pub mod laws;
pub mod lexer;
pub mod scan;
pub mod text;
pub mod util;
