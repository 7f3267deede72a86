//! The TOML grammar, as functions over the characters of a document.

pub mod trivia;
pub mod strings;
pub mod numbers;
pub mod datetime;
pub mod key;
pub mod value;
pub mod edit;
pub mod errors;
pub mod document;
