//! Front end of a small expression-oriented language.
//!
//! The crate turns raw source text into a stream of positioned tokens
//! (module [`tokenizer`]) and then into a single expression tree by
//! precedence climbing (module [`parser`]).  Both passes are specified
//! against mathematical models of the scan and of the parse, and the
//! laws that the parser obeys (precedence, container transparency,
//! comma lists) are proved in module [`laws`].

pub mod chars;
pub mod laws;
pub mod literals;
pub mod parser;
pub mod tokenizer;
