//! A lossless editor for TOML documents.
//!
//! A document is read into a tree whose every node remembers the whitespace
//! and comments that surround it, so that writing an unmodified tree back
//! gives the bytes that were read. Text is carried as bytes (`Vec<u8>` in
//! code, `Seq<u8>` in contracts); the syntax is ASCII and every other byte is
//! passed through untouched.
//!
//! * [`decor`], [`key`], [`value`], [`array`], [`inline_table`]: the values
//!   of a document and the text around them. An array holds values of one
//!   kind; an inline table binds each name once.
//! * [`table`], [`document`]: the tables of a document. A table does not hold
//!   its header; its path is read off the entries that lead to it, so two
//!   tables can change places without any text being touched.
//! * [`parser`]: the grammar, as functions on bytes, each with the rule it
//!   reads stated beside it.
//! * [`builder`]: from the lines of a text to the tree.
//! * [`writer`]: the two ways of writing a document, in the order in which
//!   the headers were written and in canonical order.
//! * [`edit`], [`removal`], [`encode`]: changing a document and making new
//!   keys and values.
//! * [`validate`]: telling at run time whether a document is in order.
//! * [`laws`], [`encode_laws`]: what holds of all this together: reading and
//!   writing give the text back, layout is idempotent, arrays stay of one
//!   kind, tables change places without a change of text, and what is
//!   written anew reads back as itself.
//! * [`document_proofs`], [`builder_laws`], [`parser::lossless`]: the proofs
//!   that the laws rest on.
//!
//! Three things are not kept: the whitespace inside a header and the
//! spelling of a key that was written differently before (the first
//! spelling is used); the place of a table that was written before its
//! parent; and the places of the tables of an array of tables that do not
//! stand together. The last two are kept by
//! [`Document::to_bytes_in_original_order`].

pub mod array;
pub mod builder;
pub mod builder_laws;
pub mod decor;
pub mod document;
pub mod document_proofs;
pub mod edit;
pub mod encode;
pub mod encode_laws;
pub mod errors;
pub mod inline_table;
pub mod key;
pub mod laws;
pub mod parser;
pub mod removal;
pub mod table;
pub mod text;
pub mod validate;
pub mod value;
pub mod writer;

pub use decor::Decor;
pub use document::Document;
pub use errors::{CustomError, Expected, Failure, TomlError};
pub use key::{Key, KeyStyle};
pub use table::{Entry, Item, Table, TableKind};
pub use value::{Array, InlineEntry, InlineTable, Value, ValueKind};
