//! Format-preserving parsing, editing and writing of TOML documents.

pub mod text;
pub mod write;
pub mod string;
pub mod integer;
pub mod parser;
pub mod datetime;
pub mod rfc3339;
pub mod repr;
pub mod encode;
pub mod key;
pub mod value;
pub mod array;
pub mod inline_table;
pub mod array_of_tables;
pub mod convert;
pub mod index;
pub mod sort;
pub mod table;
pub mod document;
pub mod display;
pub mod roundtrip;
