//! The grammar: from bytes to decorated values, lines and documents.

pub mod array;
pub mod document;
pub mod lines;
pub mod lossless;
pub mod numbers;
pub mod strings;
pub mod trivia;
pub mod value;
