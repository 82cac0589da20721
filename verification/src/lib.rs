//! Pretty printer for the flat, loosely spaced schema text that a code
//! generator emits for database table declarations.
//!
//! The formatter makes a single left-to-right pass over the characters,
//! re-deriving line breaks and indentation from the structural delimiters
//! `{ } , ( ) < > : !`, and then applies a small whole-string cleanup.
//! The intended behaviour of the pass is written down as a mathematical
//! model in [`model`]; the executable formatter in [`formatter`] is proved
//! to produce exactly the modelled output, and [`laws`] proves the general
//! properties of that model.

pub mod formatter;
pub mod laws;
pub mod model;

pub use formatter::format_chars;
pub use formatter::format_schema;
