//! A parser for AsciiDoc-style lightweight-markup documents, in two stages.
//!
//! The preprocessor ([`source`]) amalgamates a root document with its
//! includes and conditional directives into one flat text; its behaviour is
//! pinned to the machine `pp_run`, a pushdown automaton over line sources.
//! The parser ([`parser`]) turns that text into the syntax tree of [`ast`],
//! tracking source locations through [`Span`]; every production is pinned to
//! a specification function over character sequences. The laws the two
//! stages obey stand in [`source_props`] and [`parser_props`].

use vstd::prelude::*;

mod span;
mod text;
pub mod ast;
pub mod attributes;
pub mod directive;
pub mod parser;
pub mod parser_props;
pub mod source;
pub mod source_props;

pub use span::Span;
