//! A lexical analyzer for a tiny subset of C: the keywords `int`, `void` and
//! `return`, identifiers, decimal integer constants, and the punctuation
//! characters `(` `)` `{` `}` `;`.
//!
//! The scanner splits a source text into raw lexemes, the classifier assigns
//! each lexeme exactly one category, and the report module renders the
//! classified tokens as a human-readable listing, one line per token.

pub mod report;
pub mod scanner;
pub mod token;

pub use report::lex;
pub use report::lex_report;
pub use token::classify;
pub use token::ClassifiedToken;
pub use token::KeywordKind;
pub use token::TokenCategory;
