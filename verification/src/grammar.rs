//! The entry point: one rule, one text, and the tokens or the error that come of them.

use vstd::prelude::*;
use vstd::string::*;
use vstd::utf8::*;
use crate::line::{entry_spans, field_token, parse_entry};
use crate::rule::{LogParseError, Rule};
use crate::syntax::field_end;
use crate::token::{spans_of, Span, Token};

verus! {

/// The grammar of structured log entries.
pub struct Grammar;

/// What parsing `s` by `rule` gives. A field is looked for at the start of `s` and gives
/// one span; a line gives the spans of its fields.
pub open spec fn parse_spans(rule: Rule, s: Seq<u8>) -> Result<Seq<Span>, LogParseError> {
    if rule == Rule::log_entry {
        entry_spans(s)
    } else {
        match field_end(rule, s, 0) {
            Some(end) => Ok(seq![Span { rule, start: 0, end }]),
            None => Err(rule.error()),
        }
    }
}

impl Grammar {
    /// Parses `input` by `rule`, from its first byte on. On success the tokens tell, in
    /// order, which rule matched which bytes; on failure nothing but the error is returned.
    pub fn parse<'a>(rule: Rule, input: &'a str) -> (r: Result<Vec<Token<'a>>, LogParseError>)
        ensures
            match r {
                Ok(tokens) => {
                    &&& parse_spans(rule, input.spec_bytes()) == Ok::<Seq<Span>, LogParseError>(
                        spans_of(tokens@),
                    )
                    &&& forall|i: int|
                        0 <= i < tokens@.len() ==> (#[trigger] tokens@[i]).cut_from(
                            input.spec_bytes(),
                        )
                },
                Err(e) => parse_spans(rule, input.spec_bytes()) == Err::<Seq<Span>, LogParseError>(
                    e,
                ),
            },
    {
        match rule {
            Rule::log_entry => parse_entry(input),
            _ => {
                proof {
                    encode_utf8_valid_utf8(input@);
                    is_char_boundary_start_end_of_seq(input.spec_bytes());
                }
                match field_token(rule, input, 0) {
                    Ok(tok) => {
                        let mut tokens: Vec<Token<'a>> = Vec::new();
                        tokens.push(tok);
                        assert(spans_of(tokens@) =~= seq![tok@]);
                        Ok(tokens)
                    },
                    Err(e) => Err(e),
                }
            },
        }
    }
}

} // verus!
