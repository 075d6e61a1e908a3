//! Keys of tables and inline tables.

use crate::decor::{Decor, DecorView};
use vstd::prelude::*;

verus! {

/// How a key was written.
#[derive(Debug, Clone, Copy, PartialEq, Eq, Structural)]
pub enum KeyStyle {
    /// Letters, digits, `_` and `-`, without quotes.
    Bare,
    /// Between apostrophes, taken literally.
    Literal,
    /// Between double quotes, with escapes.
    Basic,
}

/// A key: the name it stands for, the text it was written as, and the
/// whitespace around it.
#[derive(Debug, PartialEq, Eq)]
pub struct Key {
    pub decor: Decor,
    pub raw: Vec<u8>,
    pub name: Vec<u8>,
    pub style: KeyStyle,
}

/// A key as plain values.
pub struct KeyView {
    pub decor: DecorView,
    pub raw: Seq<u8>,
    pub name: Seq<u8>,
    pub style: KeyStyle,
}

impl KeyView {
    /// The text of the key with its decoration.
    pub open spec fn render(self) -> Seq<u8> {
        self.decor.prefix + self.raw + self.decor.suffix
    }
}

impl View for Key {
    type V = KeyView;

    open spec fn view(&self) -> KeyView {
        KeyView { decor: self.decor@, raw: self.raw@, name: self.name@, style: self.style }
    }
}

impl Key {
    /// The name the key stands for, quotes and escapes resolved.
    pub fn name(&self) -> (n: &[u8])
        ensures
            n@ == self@.name,
    {
        self.name.as_slice()
    }

    /// The key as it is written, quotes included.
    pub fn raw(&self) -> (r: &[u8])
        ensures
            r@ == self@.raw,
    {
        self.raw.as_slice()
    }

    /// How the key is quoted.
    pub fn style(&self) -> (s: KeyStyle)
        ensures
            s == self@.style,
    {
        self.style
    }

    /// A copy of this key.
    pub fn duplicate(&self) -> (k: Key)
        ensures
            k@ == self@,
    {
        Key {
            decor: self.decor.duplicate(),
            raw: crate::text::copy_bytes(self.raw.as_slice()),
            name: crate::text::copy_bytes(self.name.as_slice()),
            style: self.style,
        }
    }

    /// Appends the key with its decoration to `out`.
    pub fn write_to(&self, out: &mut Vec<u8>)
        ensures
            final(out)@ == old(out)@ + self@.render(),
    {
        out.extend_from_slice(self.decor.prefix.as_slice());
        out.extend_from_slice(self.raw.as_slice());
        out.extend_from_slice(self.decor.suffix.as_slice());
    }
}

} // verus!
