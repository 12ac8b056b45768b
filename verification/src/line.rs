//! The recognizer of a whole line: the fields in their fixed order, one space between each
//! two, the three optional fields tried in turn.

use vstd::prelude::*;
use vstd::string::*;
use vstd::utf8::*;
use crate::ascii::SPACE;
use crate::field::recognize;
use crate::rule::{error_of, LogParseError, Rule};
use crate::syntax::{field_at, field_end, lemma_field_end};
use crate::token::{
    lemma_boundary_after_ascii, lemma_boundary_at_ascii, slice, spans_of, Span, Token,
};

verus! {

/// A space stands in `s` at `at`.
pub open spec fn space_at(s: Seq<u8>, at: int) -> bool {
    0 <= at < s.len() && s[at] == SPACE
}

/// A field that the line must have: where it ends if it stands at `at` with a space behind
/// it. Without the field the error is the field's own, without the space it is
/// `ParsingError`.
pub open spec fn required(rule: Rule, s: Seq<u8>, at: int) -> Result<int, LogParseError> {
    match field_end(rule, s, at) {
        None => Err(rule.error()),
        Some(end) => if space_at(s, end) {
            Ok(end)
        } else {
            Err(LogParseError::ParsingError)
        },
    }
}

/// A field that the line may have: where it ends if it stands at `at` with a space behind
/// it. Without the space the field counts as absent.
pub open spec fn optional(rule: Rule, s: Seq<u8>, at: int) -> Option<int> {
    match field_end(rule, s, at) {
        None => None,
        Some(end) => if space_at(s, end) {
            Some(end)
        } else {
            None
        },
    }
}

/// The fields matched so far, and the place where the next one is looked for.
pub struct Cursor {
    pub spans: Seq<Span>,
    pub at: int,
}

/// The cursor after the optional field `rule` has been tried at it: behind the field and
/// its space if the field is there, unmoved if it is not.
pub open spec fn step_over(rule: Rule, s: Seq<u8>, c: Cursor) -> Cursor {
    match optional(rule, s, c.at) {
        Some(end) => Cursor { spans: c.spans.push(Span { rule, start: c.at, end }), at: end + 1 },
        None => c,
    }
}

/// The cursor behind the three fields that every line starts with, or the error of the
/// first of them that is missing.
pub open spec fn entry_head(s: Seq<u8>) -> Result<Cursor, LogParseError> {
    match required(Rule::date, s, 0) {
        Err(e) => Err(e),
        Ok(d) => match required(Rule::time, s, d + 1) {
            Err(e) => Err(e),
            Ok(t) => match required(Rule::level, s, t + 1) {
                Err(e) => Err(e),
                Ok(l) => Ok(
                    Cursor {
                        spans: seq![
                            Span { rule: Rule::date, start: 0, end: d },
                            Span { rule: Rule::time, start: d + 1, end: t },
                            Span { rule: Rule::level, start: t + 1, end: l },
                        ],
                        at: l + 1,
                    },
                ),
            },
        },
    }
}

/// The cursor behind the optional fields of a line whose head was matched up to `head`:
/// module, request identifier and error code, each tried once, in this order.
pub open spec fn entry_options(s: Seq<u8>, head: Cursor) -> Cursor {
    step_over(
        Rule::error_code,
        s,
        step_over(Rule::request_id, s, step_over(Rule::module, s, head)),
    )
}

/// What parsing the line `s` gives: the spans of its fields in order, the absent optional
/// fields left out, or the error of the place where the line first departs from the
/// grammar.
pub open spec fn entry_spans(s: Seq<u8>) -> Result<Seq<Span>, LogParseError> {
    match entry_head(s) {
        Err(e) => Err(e),
        Ok(head) => {
            let c = entry_options(s, head);
            match field_end(Rule::message, s, c.at) {
                Some(end) => Ok(c.spans.push(Span { rule: Rule::message, start: c.at, end })),
                None => Err(LogParseError::ParsingError),
            }
        },
    }
}

/// Where a field ends a character ends: the field's last byte, or the byte behind it, is
/// below 0x80, or the input is over.
pub proof fn lemma_field_boundary(rule: Rule, s: Seq<u8>, start: int, end: int)
    requires
        valid_utf8(s),
        field_at(rule, s, start, end),
    ensures
        is_char_boundary(s, end),
{
    if end == s.len() {
        is_char_boundary_start_end_of_seq(s);
    } else if s[end] < 0x80 {
        lemma_boundary_at_ascii(s, end);
    } else {
        let t = s.subrange(start, end);
        assert(t[t.len() - 1] == s[end - 1]);
        lemma_boundary_after_ascii(s, end);
    }
}

/// Recognizes the field `rule` in `input` at the byte offset `at` and cuts its text out.
/// A token is made of whole characters: at an offset inside a character nothing is
/// recognized.
pub fn field_token<'a>(rule: Rule, input: &'a str, at: usize) -> (r: Result<
    Token<'a>,
    LogParseError,
>)
    ensures
        match r {
            Ok(tok) => {
                &&& field_end(rule, input.spec_bytes(), at as int) == Some(tok.end as int)
                &&& tok@ == (Span { rule, start: at as int, end: tok.end as int })
                &&& tok.cut_from(input.spec_bytes())
                &&& is_char_boundary(input.spec_bytes(), at as int)
                &&& is_char_boundary(input.spec_bytes(), tok.end as int)
            },
            Err(e) => {
                &&& e == rule.error()
                &&& (field_end(rule, input.spec_bytes(), at as int) is None || !is_char_boundary(
                    input.spec_bytes(),
                    at as int,
                ))
            },
        },
{
    if !input.is_char_boundary(at) {
        return Err(error_of(rule));
    }
    let s = input.as_bytes();
    match recognize(rule, s, at) {
        Ok(end) => {
            proof {
                encode_utf8_valid_utf8(input@);
                lemma_field_end(rule, s@, at as int, end as int);
                lemma_field_boundary(rule, s@, at as int, end as int);
            }
            Ok(Token { rule, start: at, end, text: slice(input, at, end) })
        },
        Err(e) => Err(e),
    }
}

/// Recognizes a field that the line must have, and the space behind it.
fn required_token<'a>(rule: Rule, input: &'a str, at: usize) -> (r: Result<
    Token<'a>,
    LogParseError,
>)
    requires
        is_char_boundary(input.spec_bytes(), at as int),
    ensures
        match r {
            Ok(tok) => {
                &&& required(rule, input.spec_bytes(), at as int) == Ok::<int, LogParseError>(
                    tok.end as int,
                )
                &&& tok@ == (Span { rule, start: at as int, end: tok.end as int })
                &&& tok.cut_from(input.spec_bytes())
                &&& tok.end < input.spec_bytes().len() <= usize::MAX
                &&& is_char_boundary(input.spec_bytes(), tok.end + 1)
            },
            Err(e) => required(rule, input.spec_bytes(), at as int) == Err::<int, LogParseError>(e),
        },
{
    let s = input.as_bytes();
    match field_token(rule, input, at) {
        Ok(tok) => {
            if tok.end < s.len() && s[tok.end] == SPACE {
                proof {
                    encode_utf8_valid_utf8(input@);
                    lemma_boundary_after_ascii(s@, tok.end + 1);
                }
                Ok(tok)
            } else {
                Err(LogParseError::ParsingError)
            }
        },
        Err(e) => Err(e),
    }
}

/// Tries a field that the line may have: with the space behind it the field is there,
/// without it nothing is.
fn optional_token<'a>(rule: Rule, input: &'a str, at: usize) -> (r: Option<Token<'a>>)
    requires
        is_char_boundary(input.spec_bytes(), at as int),
    ensures
        match r {
            Some(tok) => {
                &&& optional(rule, input.spec_bytes(), at as int) == Some(tok.end as int)
                &&& tok@ == (Span { rule, start: at as int, end: tok.end as int })
                &&& tok.cut_from(input.spec_bytes())
                &&& tok.end < input.spec_bytes().len() <= usize::MAX
                &&& is_char_boundary(input.spec_bytes(), tok.end + 1)
            },
            None => optional(rule, input.spec_bytes(), at as int) is None,
        },
{
    match required_token(rule, input, at) {
        Ok(tok) => Some(tok),
        Err(_) => None,
    }
}

/// Parses one line: date, time and level, then the module, the request identifier and the
/// error code where they are there, then the message up to the end of the line. The tokens
/// come in the order of the fields; the line is accepted as a whole or not at all.
pub fn parse_entry<'a>(input: &'a str) -> (r: Result<Vec<Token<'a>>, LogParseError>)
    ensures
        match r {
            Ok(tokens) => {
                &&& entry_spans(input.spec_bytes()) == Ok::<Seq<Span>, LogParseError>(
                    spans_of(tokens@),
                )
                &&& forall|i: int|
                    0 <= i < tokens@.len() ==> (#[trigger] tokens@[i]).cut_from(
                        input.spec_bytes(),
                    )
            },
            Err(e) => entry_spans(input.spec_bytes()) == Err::<Seq<Span>, LogParseError>(e),
        },
{
    let ghost s = input.spec_bytes();
    proof {
        encode_utf8_valid_utf8(input@);
        is_char_boundary_start_end_of_seq(s);
    }
    let mut tokens: Vec<Token<'a>> = Vec::new();
    let date = match required_token(Rule::date, input, 0) {
        Ok(tok) => tok,
        Err(e) => {
            return Err(e);
        },
    };
    let time = match required_token(Rule::time, input, date.end + 1) {
        Ok(tok) => tok,
        Err(e) => {
            return Err(e);
        },
    };
    let level = match required_token(Rule::level, input, time.end + 1) {
        Ok(tok) => tok,
        Err(e) => {
            return Err(e);
        },
    };
    tokens.push(date);
    tokens.push(time);
    tokens.push(level);
    let mut at: usize = level.end + 1;
    let ghost head = entry_head(s).unwrap();
    assert(spans_of(tokens@) =~= head.spans);
    if let Some(tok) = optional_token(Rule::module, input, at) {
        tokens.push(tok);
        at = tok.end + 1;
    }
    let ghost c1 = step_over(Rule::module, s, head);
    assert(spans_of(tokens@) =~= c1.spans && at == c1.at);
    if let Some(tok) = optional_token(Rule::request_id, input, at) {
        tokens.push(tok);
        at = tok.end + 1;
    }
    let ghost c2 = step_over(Rule::request_id, s, c1);
    assert(spans_of(tokens@) =~= c2.spans && at == c2.at);
    if let Some(tok) = optional_token(Rule::error_code, input, at) {
        tokens.push(tok);
        at = tok.end + 1;
    }
    let ghost c3 = step_over(Rule::error_code, s, c2);
    assert(spans_of(tokens@) =~= c3.spans && at == c3.at);
    match field_token(Rule::message, input, at) {
        Ok(tok) => {
            tokens.push(tok);
            assert(spans_of(tokens@) =~= c3.spans.push(tok@));
            Ok(tokens)
        },
        Err(_) => Err(LogParseError::ParsingError),
    }
}

} // verus!
