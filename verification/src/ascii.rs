//! Byte classes that the field rules are built from.

use vstd::prelude::*;

verus! {

/// The separator between two fields of a line.
pub const SPACE: u8 = 0x20;

/// The byte that ends a line.
pub const NEWLINE: u8 = 0x0a;

/// The separator inside a date.
pub const DASH: u8 = 0x2d;

/// The separator inside a time.
pub const COLON: u8 = 0x3a;

/// `b` is one of `0`..`9`.
pub open spec fn is_digit(b: u8) -> bool {
    0x30 <= b <= 0x39
}

/// `b` is one of `A`..`Z` or `a`..`z`.
pub open spec fn is_alpha(b: u8) -> bool {
    (0x41 <= b <= 0x5a) || (0x61 <= b <= 0x7a)
}

/// `b` is a letter or a digit.
pub open spec fn is_alnum(b: u8) -> bool {
    is_digit(b) || is_alpha(b)
}

/// A class of bytes that a field's body may be made of.
#[derive(Clone, Copy, Debug, PartialEq, Eq, Structural)]
pub enum Class {
    /// `0`..`9`.
    Digit,
    /// `A`..`Z` and `a`..`z`.
    Alpha,
    /// Letters and digits.
    Alnum,
}

impl Class {
    /// Whether `b` belongs to this class.
    pub open spec fn holds(self, b: u8) -> bool {
        match self {
            Class::Digit => is_digit(b),
            Class::Alpha => is_alpha(b),
            Class::Alnum => is_alnum(b),
        }
    }

    /// Every byte of `t` belongs to this class.
    pub open spec fn all(self, t: Seq<u8>) -> bool {
        forall|i: int| 0 <= i < t.len() ==> self.holds(#[trigger] t[i])
    }

    /// Every byte of `s` from `from` up to, not including, `to` belongs to this class.
    pub open spec fn all_between(self, s: Seq<u8>, from: int, to: int) -> bool {
        forall|i: int| from <= i < to ==> self.holds(#[trigger] s[i])
    }

    /// Tests whether `b` belongs to this class.
    pub fn test(self, b: u8) -> (r: bool)
        ensures
            r == self.holds(b),
    {
        let digit = 0x30 <= b && b <= 0x39;
        let alpha = (0x41 <= b && b <= 0x5a) || (0x61 <= b && b <= 0x7a);
        match self {
            Class::Digit => digit,
            Class::Alpha => alpha,
            Class::Alnum => digit || alpha,
        }
    }

    /// A part of a text is of this class when the text's bytes at its places are.
    pub proof fn lemma_all_subrange(self, s: Seq<u8>, from: int, to: int)
        requires
            0 <= from <= to <= s.len(),
        ensures
            self.all(s.subrange(from, to)) <==> self.all_between(s, from, to),
    {
        let t = s.subrange(from, to);
        if self.all(t) {
            assert forall|i: int| from <= i < to implies self.holds(#[trigger] s[i]) by {
                assert(t[i - from] == s[i]);
            }
        }
        if self.all_between(s, from, to) {
            assert forall|i: int| 0 <= i < t.len() implies self.holds(#[trigger] t[i]) by {
                assert(t[i] == s[from + i]);
            }
        }
    }
}

/// The end of the longest run of bytes of `class` that starts at `from`.
pub fn run_end(s: &[u8], from: usize, class: Class) -> (end: usize)
    requires
        from <= s@.len(),
    ensures
        from <= end <= s@.len(),
        class.all_between(s@, from as int, end as int),
        end == s@.len() || !class.holds(s@[end as int]),
{
    let mut end: usize = from;
    while end < s.len() && class.test(s[end])
        invariant
            from <= end <= s@.len(),
            class.all_between(s@, from as int, end as int),
        decreases s@.len() - end,
    {
        end += 1;
    }
    end
}

} // verus!
