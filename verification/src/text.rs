//! Bytes of the syntax and small helpers on byte strings.

use vstd::prelude::*;
use vstd::slice::{slice_subrange, slice_to_vec};

verus! {

pub const TAB: u8 = 0x09;

pub const LF: u8 = 0x0A;

pub const CR: u8 = 0x0D;

pub const SPACE: u8 = 0x20;

pub const QUOTE: u8 = 0x22;

pub const HASH: u8 = 0x23;

pub const APOSTROPHE: u8 = 0x27;

pub const PLUS: u8 = 0x2B;

pub const COMMA: u8 = 0x2C;

pub const MINUS: u8 = 0x2D;

pub const DOT: u8 = 0x2E;

pub const COLON: u8 = 0x3A;

pub const EQUALS: u8 = 0x3D;

pub const BRACKET_OPEN: u8 = 0x5B;

pub const BACKSLASH: u8 = 0x5C;

pub const BRACKET_CLOSE: u8 = 0x5D;

pub const UNDERSCORE: u8 = 0x5F;

pub const BRACE_OPEN: u8 = 0x7B;

pub const BRACE_CLOSE: u8 = 0x7D;

pub const DIGIT_0: u8 = 0x30;

pub const DIGIT_1: u8 = 0x31;

pub const DIGIT_7: u8 = 0x37;

pub const DIGIT_9: u8 = 0x39;

pub const UPPER_A: u8 = 0x41;

pub const UPPER_E: u8 = 0x45;

pub const UPPER_F: u8 = 0x46;

pub const UPPER_T: u8 = 0x54;

pub const UPPER_U: u8 = 0x55;

pub const UPPER_Z: u8 = 0x5A;

pub const LOWER_A: u8 = 0x61;

pub const LOWER_B: u8 = 0x62;

pub const LOWER_E: u8 = 0x65;

pub const LOWER_F: u8 = 0x66;

pub const LOWER_I: u8 = 0x69;

pub const LOWER_L: u8 = 0x6C;

pub const LOWER_N: u8 = 0x6E;

pub const LOWER_O: u8 = 0x6F;

pub const LOWER_R: u8 = 0x72;

pub const LOWER_S: u8 = 0x73;

pub const LOWER_T: u8 = 0x74;

pub const LOWER_U: u8 = 0x75;

pub const LOWER_X: u8 = 0x78;

pub const LOWER_Z: u8 = 0x7A;

pub const DEL: u8 = 0x7F;

/// The brackets that open and close a header.
pub open spec fn brackets(array: bool, open: bool) -> Seq<u8> {
    let b = if open {
        BRACKET_OPEN
    } else {
        BRACKET_CLOSE
    };
    if array {
        seq![b, b]
    } else {
        seq![b]
    }
}

/// Whether `s` holds a line feed.
pub open spec fn has_newline(s: Seq<u8>) -> bool {
    exists|i: int| 0 <= i < s.len() && s[i] == LF
}

/// Tells whether a byte string holds a line feed.
pub fn contains_newline(s: &[u8]) -> (found: bool)
    ensures
        found == has_newline(s@),
{
    let mut i: usize = 0;
    while i < s.len()
        invariant
            0 <= i <= s.len(),
            forall|j: int| 0 <= j < i ==> s@[j] != LF,
        decreases s.len() - i,
    {
        if s[i] == LF {
            return true;
        }
        i += 1;
    }
    false
}

/// Copies the bytes `input[start..end]` into a vector of their own.
pub fn copy_range(input: &[u8], start: usize, end: usize) -> (out: Vec<u8>)
    requires
        start <= end <= input@.len(),
    ensures
        out@ == input@.subrange(start as int, end as int),
{
    slice_to_vec(slice_subrange(input, start, end))
}

/// Copies a byte string into a vector of its own.
pub fn copy_bytes(input: &[u8]) -> (out: Vec<u8>)
    ensures
        out@ == input@,
{
    slice_to_vec(input)
}

/// Tells whether two byte strings hold the same bytes.
pub fn bytes_eq(a: &[u8], b: &[u8]) -> (same: bool)
    ensures
        same == (a@ == b@),
{
    if a.len() != b.len() {
        return false;
    }
    let mut i: usize = 0;
    while i < a.len()
        invariant
            0 <= i <= a.len(),
            a@.len() == b@.len(),
            forall|j: int| 0 <= j < i ==> a@[j] == b@[j],
        decreases a.len() - i,
    {
        if a[i] != b[i] {
            return false;
        }
        i += 1;
    }
    assert(a@ =~= b@);
    true
}

} // verus!
