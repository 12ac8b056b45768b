//! What holds of every line: laws that relate the grammar's parts to each other, each
//! proved from the definitions.

use vstd::prelude::*;
use crate::ascii::{Class, NEWLINE, SPACE};
use crate::grammar::parse_spans;
use crate::line::{
    entry_head, entry_options, entry_spans, optional, required, space_at, step_over, Cursor,
};
use crate::rule::{LogParseError, Rule};
use crate::syntax::{
    at_line_end, field_at, field_end, is_date, is_level, is_message, is_text,
    is_time, lemma_field_end, lemma_words,
};
use crate::token::Span;

verus! {

/// No field is empty: a field that stands at a place ends behind it.
pub proof fn lemma_field_not_empty(rule: Rule, s: Seq<u8>, start: int, end: int)
    requires
        field_at(rule, s, start, end),
    ensures
        start < end,
{
    let t = s.subrange(start, end);
    assert(is_text(rule, t));
    if rule == Rule::level {
        lemma_words();
        assert(t.len() == 4 || t.len() == 5);
    }
}

/// A field is judged by what stands from its place on, not by what stands before it: it
/// stands in `s` at `from + start` exactly if it stands at `start` in what `s` holds from
/// `from` on.
pub proof fn lemma_field_moves(rule: Rule, s: Seq<u8>, from: int, start: int, end: int)
    requires
        0 <= from <= s.len(),
        0 <= start,
    ensures
        field_at(rule, s.subrange(from, s.len() as int), start, end) <==> field_at(
            rule,
            s,
            from + start,
            from + end,
        ),
{
    let rest = s.subrange(from, s.len() as int);
    if start <= end <= rest.len() {
        assert(rest.subrange(start, end) =~= s.subrange(from + start, from + end));
        if end < rest.len() {
            assert(rest[end] == s[from + end]);
        }
    }
}

/// The end of a field moves with the text, as the field does.
pub proof fn lemma_end_moves(rule: Rule, s: Seq<u8>, from: int)
    requires
        0 <= from <= s.len(),
    ensures
        field_end(rule, s, from) == match field_end(rule, s.subrange(from, s.len() as int), 0) {
            Some(end) => Some(from + end),
            None => None,
        },
        optional(rule, s, from) == match optional(rule, s.subrange(from, s.len() as int), 0) {
            Some(end) => Some(from + end),
            None => None,
        },
{
    let rest = s.subrange(from, s.len() as int);
    match field_end(rule, rest, 0) {
        Some(end) => {
            lemma_field_end(rule, rest, 0, end);
            lemma_field_moves(rule, s, from, 0, end);
            lemma_field_end(rule, s, from, from + end);
            assert(rest[end] == s[from + end] || end == rest.len());
        },
        None => {
            match field_end(rule, s, from) {
                Some(end) => {
                    lemma_field_end(rule, s, from, end);
                    lemma_field_moves(rule, s, from, 0, end - from);
                    lemma_field_end(rule, rest, 0, end - from);
                },
                None => {},
            }
        },
    }
}

/// The bytes that a span covers.
pub open spec fn text_of(s: Seq<u8>, span: Span) -> Seq<u8> {
    s.subrange(span.start, span.end)
}

/// The texts that the spans cover, in order, with one space between each two.
pub open spec fn joined(s: Seq<u8>, spans: Seq<Span>) -> Seq<u8>
    decreases spans.len(),
{
    if spans.len() == 0 {
        Seq::empty()
    } else if spans.len() == 1 {
        text_of(s, spans[0])
    } else {
        joined(s, spans.drop_last()) + seq![SPACE] + text_of(s, spans.last())
    }
}

/// The span covers a field of its rule in `s`.
pub open spec fn fits(s: Seq<u8>, span: Span) -> bool {
    field_at(span.rule, s, span.start, span.end)
}

/// The span at `i` starts behind the one space that follows the span before it.
pub open spec fn follows(s: Seq<u8>, spans: Seq<Span>, i: int) -> bool {
    space_at(s, spans[i - 1].end) && spans[i].start == spans[i - 1].end + 1
}

/// The spans cover `s` from its start without a gap: each is a field of its rule, the
/// first starts at 0, and each further one starts behind the one space that follows the
/// one before.
pub open spec fn in_a_row(s: Seq<u8>, spans: Seq<Span>) -> bool {
    &&& spans.len() > 0
    &&& spans[0].start == 0
    &&& forall|i: int| 0 <= i < spans.len() ==> fits(s, #[trigger] spans[i])
    &&& forall|i: int| 0 < i < spans.len() ==> #[trigger] follows(s, spans, i)
}

/// The cursor stands behind the space that follows the last of its spans, which are in a
/// row.
pub open spec fn in_step(s: Seq<u8>, c: Cursor) -> bool {
    &&& in_a_row(s, c.spans)
    &&& space_at(s, c.spans.last().end)
    &&& c.at == c.spans.last().end + 1
}

/// One more field in a row: a field that stands at the cursor may be added to its spans.
proof fn lemma_next_in_row(s: Seq<u8>, c: Cursor, rule: Rule, end: int)
    requires
        in_step(s, c),
        field_at(rule, s, c.at, end),
    ensures
        in_a_row(s, c.spans.push(Span { rule, start: c.at, end })),
{
    let next = c.spans.push(Span { rule, start: c.at, end });
    assert forall|i: int| 0 <= i < next.len() implies fits(s, #[trigger] next[i]) by {
        if i < c.spans.len() {
            assert(next[i] == c.spans[i]);
        }
    }
    assert forall|i: int| 0 < i < next.len() implies #[trigger] follows(s, next, i) by {
        assert(next[i - 1] == c.spans[i - 1]);
        if i < c.spans.len() {
            assert(next[i] == c.spans[i]);
            assert(follows(s, c.spans, i));
        }
    }
}

/// Trying an optional field keeps the cursor in step.
proof fn lemma_step_in_row(rule: Rule, s: Seq<u8>, c: Cursor)
    requires
        in_step(s, c),
    ensures
        in_step(s, step_over(rule, s, c)),
{
    match optional(rule, s, c.at) {
        Some(end) => {
            lemma_field_end(rule, s, c.at, end);
            lemma_next_in_row(s, c, rule, end);
        },
        None => {},
    }
}

/// Behind the head of a line the cursor is in step.
proof fn lemma_head_in_row(s: Seq<u8>)
    requires
        entry_head(s) is Ok,
    ensures
        in_step(s, entry_head(s).unwrap()),
{
    let d = required(Rule::date, s, 0).unwrap();
    let t = required(Rule::time, s, d + 1).unwrap();
    let l = required(Rule::level, s, t + 1).unwrap();
    lemma_field_end(Rule::date, s, 0, d);
    lemma_field_end(Rule::time, s, d + 1, t);
    lemma_field_end(Rule::level, s, t + 1, l);
    let spans = entry_head(s).unwrap().spans;
    assert forall|i: int| 0 < i < spans.len() implies #[trigger] follows(s, spans, i) by {
        assert(i == 1 || i == 2);
    }
}

/// The fields of an accepted line stand in a row from the start of the input to the end of
/// the line, and the last of them is the message.
pub proof fn lemma_fields_in_a_row(s: Seq<u8>)
    requires
        entry_spans(s) is Ok,
    ensures
        in_a_row(s, entry_spans(s).unwrap()),
        entry_spans(s).unwrap().last().rule == Rule::message,
        at_line_end(s, entry_spans(s).unwrap().last().end),
{
    let head = entry_head(s).unwrap();
    lemma_head_in_row(s);
    let c1 = step_over(Rule::module, s, head);
    lemma_step_in_row(Rule::module, s, head);
    let c2 = step_over(Rule::request_id, s, c1);
    lemma_step_in_row(Rule::request_id, s, c1);
    let c3 = step_over(Rule::error_code, s, c2);
    lemma_step_in_row(Rule::error_code, s, c2);
    let end = field_end(Rule::message, s, c3.at).unwrap();
    lemma_field_end(Rule::message, s, c3.at, end);
    lemma_next_in_row(s, c3, Rule::message, end);
}

/// Spans in a row, joined by spaces, give back what the input holds up to the end of the
/// last of them.
pub proof fn lemma_joined_row(s: Seq<u8>, spans: Seq<Span>)
    requires
        in_a_row(s, spans),
    ensures
        joined(s, spans) == s.subrange(0, spans.last().end),
    decreases spans.len(),
{
    let last = spans[spans.len() - 1];
    assert(fits(s, last));
    if spans.len() > 1 {
        let front = spans.drop_last();
        assert forall|i: int| 0 <= i < front.len() implies fits(s, #[trigger] front[i]) by {
            assert(front[i] == spans[i]);
        }
        assert forall|i: int| 0 < i < front.len() implies #[trigger] follows(s, front, i) by {
            assert(follows(s, spans, i));
        }
        assert(front[0] == spans[0]);
        lemma_joined_row(s, front);
        assert(follows(s, spans, spans.len() - 1));
        assert(front.last() == spans[spans.len() - 2]);
        assert(fits(s, front.last()));
        assert(joined(s, spans) =~= s.subrange(0, last.end));
    }
}

/// Round trip: the texts of the fields of an accepted line, joined by single spaces, are
/// the line. Where the input holds no line end, they are the whole input.
pub proof fn lemma_round_trip(s: Seq<u8>)
    requires
        entry_spans(s) is Ok,
    ensures
        joined(s, entry_spans(s).unwrap()) == s.subrange(0, entry_spans(s).unwrap().last().end),
        at_line_end(s, entry_spans(s).unwrap().last().end),
        !s.contains(NEWLINE) ==> joined(s, entry_spans(s).unwrap()) == s,
{
    let spans = entry_spans(s).unwrap();
    lemma_fields_in_a_row(s);
    lemma_joined_row(s, spans);
    let end = spans.last().end;
    if !s.contains(NEWLINE) {
        if end < s.len() {
            assert(s[end] == NEWLINE);
        }
        assert(s.subrange(0, end) =~= s);
    }
}

/// The line that is made of a date, a time, a level and a message and of nothing else.
pub open spec fn plain_line(date: Seq<u8>, time: Seq<u8>, level: Seq<u8>, message: Seq<u8>) -> Seq<
    u8,
> {
    date + seq![SPACE] + time + seq![SPACE] + level + seq![SPACE] + message
}

/// The text starts with a module tag, a request identifier or an error code, and a space
/// behind it: at the head of a message such a text is taken for the optional field.
pub open spec fn starts_with_option(text: Seq<u8>) -> bool {
    ||| optional(Rule::module, text, 0) is Some
    ||| optional(Rule::request_id, text, 0) is Some
    ||| optional(Rule::error_code, text, 0) is Some
}

/// A date, a time or a level that a space follows stands where the line holds its text.
proof fn lemma_required_text(rule: Rule, s: Seq<u8>, at: int, text: Seq<u8>)
    requires
        rule == Rule::date || rule == Rule::time || rule == Rule::level,
        is_text(rule, text),
        0 <= at,
        at + text.len() < s.len(),
        s.subrange(at, at + text.len()) == text,
        s[at + text.len()] == SPACE,
    ensures
        required(rule, s, at) == Ok::<int, LogParseError>(at + text.len()),
{
    lemma_field_end(rule, s, at, at + text.len());
}

/// A line of date, time, level and message is accepted, its message is all that follows
/// the level's space, and it has no optional field. The one condition: the message does
/// not itself start with a text that is taken for an optional field.
pub proof fn lemma_plain_line(date: Seq<u8>, time: Seq<u8>, level: Seq<u8>, message: Seq<u8>)
    requires
        is_date(date),
        is_time(time),
        is_level(level),
        is_message(message),
        !starts_with_option(message),
    ensures
        ({
            let s = plain_line(date, time, level, message);
            let t: int = date.len() as int + 1;
            let l: int = t + time.len() + 1;
            let m: int = l + level.len() + 1;
            &&& entry_spans(s) == Ok::<Seq<Span>, LogParseError>(
                seq![
                    Span { rule: Rule::date, start: 0, end: t - 1 },
                    Span { rule: Rule::time, start: t, end: l - 1 },
                    Span { rule: Rule::level, start: l, end: m - 1 },
                    Span { rule: Rule::message, start: m, end: s.len() as int },
                ],
            )
            &&& s.subrange(m, s.len() as int) == message
        }),
{
    let s = plain_line(date, time, level, message);
    let t: int = date.len() as int + 1;
    let l: int = t + time.len() + 1;
    let m: int = l + level.len() + 1;
    assert(s.subrange(0, t - 1) =~= date);
    assert(s.subrange(t, l - 1) =~= time);
    assert(s.subrange(l, m - 1) =~= level);
    assert(s.subrange(m, s.len() as int) =~= message);
    lemma_required_text(Rule::date, s, 0, date);
    lemma_required_text(Rule::time, s, t, time);
    lemma_required_text(Rule::level, s, l, level);
    let head = entry_head(s).unwrap();
    lemma_end_moves(Rule::module, s, m);
    lemma_end_moves(Rule::request_id, s, m);
    lemma_end_moves(Rule::error_code, s, m);
    assert(entry_options(s, head) == head);
    lemma_field_end(Rule::message, s, m, s.len() as int);
    assert(field_end(Rule::message, s, m) == Some(s.len() as int));
    assert(entry_spans(s) is Ok);
    assert(entry_spans(s).unwrap() =~= seq![
        Span { rule: Rule::date, start: 0, end: t - 1 },
        Span { rule: Rule::time, start: t, end: l - 1 },
        Span { rule: Rule::level, start: l, end: m - 1 },
        Span { rule: Rule::message, start: m, end: s.len() as int },
    ]);
}

/// No space and no line end stands in `word`.
pub open spec fn is_word(word: Seq<u8>) -> bool {
    forall|i: int| 0 <= i < word.len() ==> #[trigger] word[i] != SPACE && word[i] != NEWLINE
}

/// The names of the levels are made of letters.
pub proof fn lemma_level_letters(name: Seq<u8>)
    requires
        is_level(name),
    ensures
        4 <= name.len() <= 5,
        Class::Alpha.all(name),
{
    lemma_words();
}

/// A line whose date and time are valid and whose third word is none of the six level
/// names is refused with `LevelFormatError`, whatever follows the word.
pub proof fn lemma_unknown_level(date: Seq<u8>, time: Seq<u8>, word: Seq<u8>, tail: Seq<u8>)
    requires
        is_date(date),
        is_time(time),
        is_word(word),
        !is_level(word),
        tail.len() > 0 ==> tail[0] == SPACE || tail[0] == NEWLINE,
    ensures
        entry_spans(date + seq![SPACE] + time + seq![SPACE] + word + tail) == Err::<
            Seq<Span>,
            LogParseError,
        >(LogParseError::LevelFormatError),
{
    let s = date + seq![SPACE] + time + seq![SPACE] + word + tail;
    let t: int = date.len() as int + 1;
    let l: int = t + time.len() + 1;
    assert(s.subrange(0, t - 1) =~= date);
    assert(s.subrange(t, l - 1) =~= time);
    lemma_required_text(Rule::date, s, 0, date);
    lemma_required_text(Rule::time, s, t, time);
    assert forall|end: int| !field_at(Rule::level, s, l, end) by {
        if field_at(Rule::level, s, l, end) {
            let name = s.subrange(l, end);
            let n: int = end - l;
            lemma_level_letters(name);
            if n < word.len() {
                assert(s[end] == word[n]);
            } else if n == word.len() {
                assert(name =~= word);
            } else {
                assert(name[word.len() as int] == tail[0]);
            }
        }
    }
}

/// The place of a field's rule in the fixed order of a line.
pub open spec fn place(rule: Rule) -> int {
    match rule {
        Rule::date => 0,
        Rule::time => 1,
        Rule::level => 2,
        Rule::module => 3,
        Rule::request_id => 4,
        Rule::error_code => 5,
        Rule::message => 6,
        _ => -1,
    }
}

/// The fields of an accepted line come in the fixed order, each at most once: date, time
/// and level first, the message last, and between them those of module, request identifier
/// and error code that are there.
pub proof fn lemma_fixed_order(s: Seq<u8>)
    requires
        entry_spans(s) is Ok,
    ensures
        ({
            let spans = entry_spans(s).unwrap();
            &&& 4 <= spans.len() <= 7
            &&& spans[0].rule == Rule::date
            &&& spans[1].rule == Rule::time
            &&& spans[2].rule == Rule::level
            &&& spans.last().rule == Rule::message
            &&& forall|i: int, j: int|
                0 <= i < j < spans.len() ==> place(#[trigger] spans[i].rule) < place(
                    #[trigger] spans[j].rule,
                )
        }),
{
    let spans = entry_spans(s).unwrap();
    assert forall|i: int, j: int| 0 <= i < j < spans.len() implies place(
        #[trigger] spans[i].rule,
    ) < place(#[trigger] spans[j].rule) by {
        assert(0 <= place(spans[i].rule) <= 6);
    }
}

/// Whatever rule a text is parsed by, each span of the result covers a text of its own
/// rule, as the rule's predicate describes it.
pub proof fn lemma_parsed_fields_fit(rule: Rule, s: Seq<u8>)
    requires
        parse_spans(rule, s) is Ok,
    ensures
        forall|i: int|
            0 <= i < parse_spans(rule, s).unwrap().len() ==> {
                let span = #[trigger] parse_spans(rule, s).unwrap()[i];
                &&& 0 <= span.start < span.end <= s.len()
                &&& is_text(span.rule, text_of(s, span))
            },
{
    let spans = parse_spans(rule, s).unwrap();
    if rule == Rule::log_entry {
        lemma_fields_in_a_row(s);
    } else {
        lemma_field_end(rule, s, 0, spans[0].end);
    }
    assert forall|i: int| 0 <= i < spans.len() implies {
        let span = #[trigger] spans[i];
        &&& 0 <= span.start < span.end <= s.len()
        &&& is_text(span.rule, text_of(s, span))
    } by {
        let span = spans[i];
        assert(fits(s, span));
        lemma_field_not_empty(span.rule, s, span.start, span.end);
    }
}

} // verus!
