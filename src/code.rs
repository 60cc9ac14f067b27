//! Code values and the two widths of code space.
use vstd::prelude::*;

verus! {

/// A code value of a [`crate::Dict`]. In a dictionary of [`Mode::Byte`] it
/// ranges over `[1, 255]`, in one of [`Mode::Word`] over `[1, 65535]`.
#[derive(Copy, Clone, PartialEq, Eq, Structural, PartialOrd, Ord, Debug)]
pub struct Code(pub u16);

impl Code {
    /// True iff the code is exact: it stands for one value rather than an
    /// open interval of values. Exact codes are the even ones.
    pub fn is_exact(&self) -> (r: bool)
        ensures
            r == (self.0 % 2 == 0),
    {
        let x: u16 = self.0;
        assert((x & 1) == 0 <==> x % 2 == 0) by (bit_vector);
        (x & 1) == 0
    }
}

/// The width of a dictionary's code space.
#[derive(Copy, Clone, PartialEq, Eq, Structural, PartialOrd, Ord, Debug)]
pub enum Mode {
    /// Up to 255 codes over `[1, 255]`: suits sketches that elide small
    /// storage blocks such as cache lines.
    Byte,
    /// Up to 65535 codes over `[1, 65535]`: suits sketches that elide larger
    /// storage blocks such as pages.
    Word,
}

impl Mode {
    pub open spec fn exact_count(self) -> nat {
        match self {
            Mode::Byte => 127,
            Mode::Word => 32767,
        }
    }

    /// The largest inexact code: twice the count of exact codes, plus one.
    pub open spec fn top_code(self) -> nat {
        2 * self.exact_count() + 1
    }

    /// The number of exact codes: `127` for `Byte`, `32767` for `Word`.
    pub fn num_exact_codes(&self) -> (r: usize)
        ensures
            r == self.exact_count(),
    {
        match self {
            Mode::Byte => 127,
            Mode::Word => 32767,
        }
    }

    /// The largest exact code: `0xfe` for `Byte`, `0xfffe` for `Word`.
    pub fn max_exact_code(&self) -> (r: Code)
        ensures
            r.0 == 2 * self.exact_count(),
    {
        match self {
            Mode::Byte => Code(0xfe),
            Mode::Word => Code(0xfffe),
        }
    }

    /// The largest inexact code: `0xff` for `Byte`, `0xffff` for `Word`.
    pub fn max_inexact_code(&self) -> (r: Code)
        ensures
            r.0 == self.top_code(),
    {
        match self {
            Mode::Byte => Code(0xff),
            Mode::Word => Code(0xffff),
        }
    }
}

} // verus!
