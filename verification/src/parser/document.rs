//! Documents: the lines of a text, made into a tree.

use crate::builder::{lemma_normalized_exact, spec_build, written_headers};
use crate::document::{Document, DocumentView};
use crate::errors::{error_of, report, TomlError, TomlErrorView};
use crate::laws::law_canonical_is_original;
use crate::parser::lines::{lines_view, parse_lines, spec_lines};
use vstd::prelude::*;
use vstd::string::StringSliceAdditionalSpecFns;

verus! {

/// The document that a text stands for, or why it stands for none: the text
/// is read as lines, and the lines are made into a tree.
pub open spec fn spec_parse(s: Seq<u8>) -> Result<DocumentView, TomlErrorView> {
    match spec_lines(s, 0, Seq::empty()) {
        Err(f) => Err(error_of(s, f)),
        Ok(((lines, trailing), _)) => match spec_build(lines, trailing) {
            Err(e) => Err(TomlErrorView::Custom(e)),
            Ok(d) => Ok(d),
        },
    }
}

/// The headers of a text as they are written there, from the first bracket
/// to the last, in order.
pub open spec fn headers_of(s: Seq<u8>) -> Seq<Seq<u8>> {
    match spec_lines(s, 0, Seq::empty()) {
        Err(_) => Seq::empty(),
        Ok(((lines, _), _)) => written_headers(lines),
    }
}

impl Document {
    /// Reads a document. A text that breaks the grammar or a rule of the tree
    /// gives an error and no document.
    ///
    /// The document keeps every byte of the text but the inside of the
    /// headers, which it writes from the keys of the tables: a key as it was
    /// written first, no whitespace, dots between the keys. Where the text
    /// has its headers in that form, writing the document in the original
    /// order gives the text back; so does writing it in canonical order where
    /// the headers stand in that order in the text.
    pub fn parse(input: &[u8]) -> (r: Result<Document, TomlError>)
        ensures
            match r {
                Ok(doc) => {
                    &&& spec_parse(input@) == Ok::<DocumentView, TomlErrorView>(doc@)
                    &&& doc@.wf()
                    &&& doc@.headers() == headers_of(input@) ==> doc@.original_text() == input@
                    &&& doc@.headers() == headers_of(input@) && doc@.in_canonical_order()
                        ==> doc@.canonical_text() == input@
                },
                Err(e) => spec_parse(input@) == Err::<DocumentView, TomlErrorView>(e@),
            },
    {
        match parse_lines(input) {
            Err(f) => Err(report(input, f)),
            Ok((lines, trailing)) => {
                let ghost ls = lines_view(lines@);
                match Document::from_lines(lines, trailing) {
                    Err(e) => Err(TomlError::Custom(e)),
                    Ok(doc) => {
                        proof {
                            lemma_normalized_exact(ls);
                            if doc@.in_canonical_order() {
                                law_canonical_is_original(doc@);
                            }
                        }
                        Ok(doc)
                    },
                }
            },
        }
    }

    /// Reads a document from a string, by its bytes.
    pub fn parse_text(text: &str) -> (r: Result<Document, TomlError>)
        ensures
            match r {
                Ok(doc) => {
                    &&& spec_parse(text.spec_bytes()) == Ok::<DocumentView, TomlErrorView>(doc@)
                    &&& doc@.wf()
                    &&& doc@.headers() == headers_of(text.spec_bytes()) ==> doc@.original_text()
                        == text.spec_bytes()
                    &&& doc@.headers() == headers_of(text.spec_bytes()) && doc@.in_canonical_order()
                        ==> doc@.canonical_text() == text.spec_bytes()
                },
                Err(e) => spec_parse(text.spec_bytes()) == Err::<DocumentView, TomlErrorView>(e@),
            },
    {
        Document::parse(text.as_bytes())
    }
}

} // verus!
