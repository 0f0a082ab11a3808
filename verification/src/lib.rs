//! Batscript: a scanner, error reporting and syntax highlighting for the Batscript language.
pub mod error;
pub mod grammar;
pub mod highlight;
pub mod listing;
pub mod numeral;
pub mod scanner;
pub mod style;
pub mod syntax;
pub mod text;
