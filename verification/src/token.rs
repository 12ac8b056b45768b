//! The pieces that a successful parse hands out: a rule's name, the place of the matched
//! text in the line, and the text itself.

use vstd::prelude::*;
use vstd::string::*;
use vstd::utf8::*;
use crate::rule::Rule;

verus! {

/// A matched field as contracts speak of it: the rule, and the bytes of the line that it
/// covers, from `start` up to, not including, `end`.
pub struct Span {
    /// The rule that matched.
    pub rule: Rule,
    /// The offset of the first byte of the match.
    pub start: int,
    /// The offset behind the last byte of the match.
    pub end: int,
}

/// A matched field: the rule, the byte offsets of the match in the line, and the matched
/// text, borrowed from the line.
#[derive(Clone, Copy, Debug, PartialEq, Eq)]
pub struct Token<'a> {
    /// The rule that matched.
    pub rule: Rule,
    /// The byte offset of the start of the match in the line.
    pub start: usize,
    /// The byte offset of the end of the match in the line: that of the first byte behind it.
    pub end: usize,
    /// The matched text.
    pub text: &'a str,
}

impl<'a> View for Token<'a> {
    type V = Span;

    open spec fn view(&self) -> Span {
        Span { rule: self.rule, start: self.start as int, end: self.end as int }
    }
}

impl<'a> Token<'a> {
    /// The token's text is what the line `s` holds between the token's offsets.
    pub open spec fn cut_from(&self, s: Seq<u8>) -> bool {
        &&& self.start <= self.end <= s.len()
        &&& self.text.spec_bytes() == s.subrange(self.start as int, self.end as int)
    }

    /// The rule that the token was matched by.
    pub fn as_rule(&self) -> (rule: Rule)
        ensures
            rule == self.rule,
    {
        self.rule
    }

    /// The matched text.
    pub fn as_str(&self) -> (text: &'a str)
        ensures
            text == self.text,
    {
        self.text
    }
}

/// The spans of a sequence of tokens.
pub open spec fn spans_of(tokens: Seq<Token<'_>>) -> Seq<Span> {
    tokens.map_values(|t: Token<'_>| t@)
}

/// In valid UTF-8 a character starts wherever a byte below 0x80 stands.
pub proof fn lemma_boundary_at_ascii(bytes: Seq<u8>, at: int)
    requires
        valid_utf8(bytes),
        0 <= at < bytes.len(),
        bytes[at] < 0x80,
    ensures
        is_char_boundary(bytes, at),
{
    is_char_boundary_iff_not_is_continuation_byte(bytes, at);
}

/// In valid UTF-8 a character ends wherever a byte below 0x80 stands.
pub proof fn lemma_boundary_after_ascii(bytes: Seq<u8>, at: int)
    requires
        valid_utf8(bytes),
        0 < at <= bytes.len(),
        bytes[at - 1] < 0x80,
    ensures
        is_char_boundary(bytes, at),
{
    lemma_boundary_at_ascii(bytes, at - 1);
    valid_utf8_split(bytes, at - 1);
    let rest = bytes.subrange(at - 1, bytes.len() as int);
    assert(rest[0] == bytes[at - 1]);
    assert(length_of_first_scalar(rest) == 1);
    if at < bytes.len() {
        assert(is_char_boundary(rest, 1)) by {
            reveal_with_fuel(is_char_boundary, 2);
        }
        is_char_boundary_iff_not_is_continuation_byte(rest, 1);
        assert(rest[1] == bytes[at]);
        is_char_boundary_iff_not_is_continuation_byte(bytes, at);
    } else {
        is_char_boundary_start_end_of_seq(bytes);
    }
}

/// The part of `input` between two character boundaries.
pub(crate) fn slice<'a>(input: &'a str, start: usize, end: usize) -> (part: &'a str)
    requires
        start <= end <= input.spec_bytes().len(),
        is_char_boundary(input.spec_bytes(), start as int),
        is_char_boundary(input.spec_bytes(), end as int),
    ensures
        part.spec_bytes() == input.spec_bytes().subrange(start as int, end as int),
{
    let ghost bytes = input.spec_bytes();
    let (head, _) = input.split_at(end);
    proof {
        encode_utf8_valid_utf8(input@);
        encode_utf8_valid_utf8(head@);
        if start < end {
            is_char_boundary_iff_not_is_continuation_byte(bytes, start as int);
            assert(head.spec_bytes()[start as int] == bytes[start as int]);
            is_char_boundary_iff_not_is_continuation_byte(head.spec_bytes(), start as int);
        } else {
            is_char_boundary_start_end_of_seq(head.spec_bytes());
        }
    }
    let (_, part) = head.split_at(start);
    assert(part.spec_bytes() =~= bytes.subrange(start as int, end as int));
    part
}

} // verus!
