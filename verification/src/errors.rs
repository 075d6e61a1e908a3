//! What parsing and editing can fail with.

use crate::text::LF;
use crate::value::ValueKind;
use vstd::prelude::*;

verus! {

/// A violation of a rule of the tree, found in text that is well formed.
#[derive(Debug, PartialEq, Eq)]
pub enum CustomError {
    /// An array would hold values of two kinds: `expected` is the kind of the
    /// elements already there, `got` the kind of the offending one.
    MixedArrayType { got: ValueKind, expected: ValueKind },
    /// A key is bound twice in one table.
    DuplicateKey { key: Vec<u8> },
}

/// A tree-rule violation as plain values.
pub enum CustomErrorView {
    MixedArrayType { got: ValueKind, expected: ValueKind },
    DuplicateKey { key: Seq<u8> },
}

impl View for CustomError {
    type V = CustomErrorView;

    open spec fn view(&self) -> CustomErrorView {
        match self {
            CustomError::MixedArrayType { got, expected } => CustomErrorView::MixedArrayType {
                got: *got,
                expected: *expected,
            },
            CustomError::DuplicateKey { key } => CustomErrorView::DuplicateKey { key: key@ },
        }
    }
}

/// What the grammar looked for where it gave up.
#[derive(Debug, Clone, Copy, PartialEq, Eq, Structural)]
pub enum Expected {
    /// A value: a string, a number, a boolean, a date-time, `[` or `{`.
    Value,
    /// A key, bare or quoted.
    Key,
    /// The `=` between a key and its value.
    Equals,
    /// The `]` that closes an array.
    ArrayClose,
    /// The `,` between two entries of an inline table, or the `}` that closes
    /// it.
    InlineTableClose,
    /// The `.` between two keys of a table header, or the `]` or `]]` that
    /// closes it.
    HeaderClose,
    /// The end of the line.
    LineEnd,
}

impl Expected {
    /// What was looked for, in words.
    pub open spec fn description(self) -> Seq<char> {
        match self {
            Expected::Value => "a value"@,
            Expected::Key => "a key"@,
            Expected::Equals => "`=`"@,
            Expected::ArrayClose => "`]`"@,
            Expected::InlineTableClose => "`,` or `}`"@,
            Expected::HeaderClose => "`.`, `]` or `]]`"@,
            Expected::LineEnd => "the end of the line"@,
        }
    }

    /// Says in words what was looked for.
    pub fn describe(self) -> (r: &'static str)
        ensures
            r@ == self.description(),
    {
        match self {
            Expected::Value => "a value",
            Expected::Key => "a key",
            Expected::Equals => "`=`",
            Expected::ArrayClose => "`]`",
            Expected::InlineTableClose => "`,` or `}`",
            Expected::HeaderClose => "`.`, `]` or `]]`",
            Expected::LineEnd => "the end of the line",
        }
    }
}

/// Why a rule of the grammar did not yield a value.
#[derive(Debug, PartialEq, Eq)]
pub enum Failure {
    /// The text at `at` is not what the rule asks for.
    NoMatch { at: usize, expected: Expected },
    /// The text is well formed but breaks a rule of the tree.
    Abort { error: CustomError },
}

/// A failure as plain values.
pub enum FailureView {
    NoMatch { at: int, expected: Expected },
    Abort { error: CustomErrorView },
}

impl View for Failure {
    type V = FailureView;

    open spec fn view(&self) -> FailureView {
        match self {
            Failure::NoMatch { at, expected } => FailureView::NoMatch {
                at: *at as int,
                expected: *expected,
            },
            Failure::Abort { error } => FailureView::Abort { error: error@ },
        }
    }
}

/// Why a text is not a document.
#[derive(Debug, PartialEq, Eq)]
pub enum TomlError {
    /// The text does not follow the grammar: at this line and column, both
    /// counted from 1, `expected` was looked for and not found.
    Syntax { line: usize, column: usize, expected: Expected },
    /// The text follows the grammar but breaks a rule of the tree.
    Custom(CustomError),
}

/// An error as plain values.
pub enum TomlErrorView {
    Syntax { line: int, column: int, expected: Expected },
    Custom(CustomErrorView),
}

impl View for TomlError {
    type V = TomlErrorView;

    open spec fn view(&self) -> TomlErrorView {
        match self {
            TomlError::Syntax { line, column, expected } => TomlErrorView::Syntax {
                line: *line as int,
                column: *column as int,
                expected: *expected,
            },
            TomlError::Custom(e) => TomlErrorView::Custom(e@),
        }
    }
}

/// The number of the line that holds the byte at `at`: one more than the
/// number of line feeds before it.
pub open spec fn line_of(s: Seq<u8>, at: int) -> int
    decreases at,
{
    if at <= 0 {
        1
    } else if at > s.len() {
        line_of(s, s.len() as int)
    } else if s[at - 1] == LF {
        line_of(s, at - 1) + 1
    } else {
        line_of(s, at - 1)
    }
}

/// The number of the column of the byte at `at`: one more than the number of
/// bytes between it and the start of its line.
pub open spec fn column_of(s: Seq<u8>, at: int) -> int
    decreases at,
{
    if at <= 0 {
        1
    } else if at > s.len() {
        column_of(s, s.len() as int)
    } else if s[at - 1] == LF {
        1
    } else {
        column_of(s, at - 1) + 1
    }
}

/// The number `n`, or the largest `usize` where `n` is beyond it.
pub open spec fn clipped(n: int) -> int {
    if n > usize::MAX {
        usize::MAX as int
    } else {
        n
    }
}

/// The error that a failure of the grammar is reported as.
pub open spec fn error_of(s: Seq<u8>, f: FailureView) -> TomlErrorView {
    match f {
        FailureView::NoMatch { at, expected } => TomlErrorView::Syntax {
            line: clipped(line_of(s, at)),
            column: clipped(column_of(s, at)),
            expected,
        },
        FailureView::Abort { error } => TomlErrorView::Custom(error),
    }
}

/// Finds the line and the column of the byte at `at`.
pub fn locate(input: &[u8], at: usize) -> (r: (usize, usize))
    ensures
        r.0 == clipped(line_of(input@, at as int)),
        r.1 == clipped(column_of(input@, at as int)),
{
    let stop = if at < input.len() {
        at
    } else {
        input.len()
    };
    let mut line: usize = 1;
    let mut column: usize = 1;
    let mut i: usize = 0;
    while i < stop
        invariant
            0 <= i <= stop <= input@.len(),
            line == clipped(line_of(input@, i as int)),
            column == clipped(column_of(input@, i as int)),
        decreases stop - i,
    {
        if input[i] == LF {
            if line < usize::MAX {
                line += 1;
            }
            column = 1;
        } else if column < usize::MAX {
            column += 1;
        }
        i += 1;
    }
    (line, column)
}

/// Turns a failure of the grammar into the error that is reported.
pub fn report(input: &[u8], f: Failure) -> (e: TomlError)
    ensures
        e@ == error_of(input@, f@),
{
    match f {
        Failure::NoMatch { at, expected } => {
            let (line, column) = locate(input, at);
            TomlError::Syntax { line, column, expected }
        },
        Failure::Abort { error } => TomlError::Custom(error),
    }
}

} // verus!
