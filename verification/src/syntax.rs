//! What each field looks like, as predicates on texts, and what it means for a field to stand
//! at a place in a line.

use vstd::prelude::*;
use vstd::string::*;
use crate::ascii::{Class, is_digit, COLON, DASH, NEWLINE, SPACE};
use crate::rule::Rule;

verus! {

/// The number that a digit stands for.
pub open spec fn digit_value(b: u8) -> int {
    b - 0x30
}

/// The number that the first two digits of `t` stand for.
pub open spec fn two_digit_value(t: Seq<u8>) -> int {
    10 * digit_value(t[0]) + digit_value(t[1])
}

/// Four digits.
pub open spec fn is_year(t: Seq<u8>) -> bool {
    t.len() == 4 && Class::Digit.all(t)
}

/// Two digits that stand for a number from 1 to 12.
pub open spec fn is_month(t: Seq<u8>) -> bool {
    t.len() == 2 && Class::Digit.all(t) && 1 <= two_digit_value(t) <= 12
}

/// Two digits that stand for a number from 1 to 31, whatever the month.
pub open spec fn is_day(t: Seq<u8>) -> bool {
    t.len() == 2 && Class::Digit.all(t) && 1 <= two_digit_value(t) <= 31
}

/// A year, a month and a day, joined by dashes.
pub open spec fn is_date(t: Seq<u8>) -> bool {
    &&& t.len() == 10
    &&& is_year(t.subrange(0, 4))
    &&& t[4] == DASH
    &&& is_month(t.subrange(5, 7))
    &&& t[7] == DASH
    &&& is_day(t.subrange(8, 10))
}

/// Three groups of two digits, joined by colons. The numbers are not looked at.
pub open spec fn is_clock(t: Seq<u8>) -> bool {
    &&& t.len() == 8
    &&& Class::Digit.all(t.subrange(0, 2))
    &&& t[2] == COLON
    &&& Class::Digit.all(t.subrange(3, 5))
    &&& t[5] == COLON
    &&& Class::Digit.all(t.subrange(6, 8))
}

/// Three letters.
pub open spec fn is_zone(t: Seq<u8>) -> bool {
    t.len() == 3 && Class::Alpha.all(t)
}

/// A clock time, alone or with a time zone glued to it.
pub open spec fn is_time(t: Seq<u8>) -> bool {
    is_clock(t) || (t.len() == 11 && is_clock(t.subrange(0, 8)) && is_zone(t.subrange(8, 11)))
}

/// One of the six level names, in capitals.
pub open spec fn is_level(t: Seq<u8>) -> bool {
    ||| t == "INFO".spec_bytes()
    ||| t == "WARN".spec_bytes()
    ||| t == "ERROR".spec_bytes()
    ||| t == "DEBUG".spec_bytes()
    ||| t == "TRACE".spec_bytes()
    ||| t == "FATAL".spec_bytes()
}

/// `prefix`, then one or more bytes of `class`.
pub open spec fn is_tagged(t: Seq<u8>, prefix: Seq<u8>, class: Class) -> bool {
    &&& t.len() > prefix.len()
    &&& t.subrange(0, prefix.len() as int) == prefix
    &&& class.all(t.subrange(prefix.len() as int, t.len() as int))
}

/// `mod-`, then one or more letters.
pub open spec fn is_module(t: Seq<u8>) -> bool {
    is_tagged(t, "mod-".spec_bytes(), Class::Alpha)
}

/// `req-`, then one or more letters or digits.
pub open spec fn is_request_id(t: Seq<u8>) -> bool {
    is_tagged(t, "req-".spec_bytes(), Class::Alnum)
}

/// Three, four or five digits.
pub open spec fn is_error_code(t: Seq<u8>) -> bool {
    3 <= t.len() <= 5 && Class::Digit.all(t)
}

/// One or more bytes, none of them a line end.
pub open spec fn is_message(t: Seq<u8>) -> bool {
    t.len() >= 1 && forall|i: int| 0 <= i < t.len() ==> #[trigger] t[i] != NEWLINE
}

/// Whether `t` is, as a whole, a text of the field that `rule` names. A whole line is no
/// field: for `Rule::log_entry` this is false of every text.
pub open spec fn is_text(rule: Rule, t: Seq<u8>) -> bool {
    match rule {
        Rule::year => is_year(t),
        Rule::month => is_month(t),
        Rule::day => is_day(t),
        Rule::date => is_date(t),
        Rule::time => is_time(t),
        Rule::level => is_level(t),
        Rule::module => is_module(t),
        Rule::request_id => is_request_id(t),
        Rule::error_code => is_error_code(t),
        Rule::message => is_message(t),
        Rule::log_entry => false,
    }
}

/// The line `s` ends at `at`: there the input is over, or a line end stands.
pub open spec fn at_line_end(s: Seq<u8>, at: int) -> bool {
    at == s.len() || s[at] == NEWLINE
}

/// A field that is set off by spaces may end at `at`: there the line ends, or a space stands.
pub open spec fn at_field_end(s: Seq<u8>, at: int) -> bool {
    at_line_end(s, at) || s[at] == SPACE
}

/// A digit stands at `at`.
pub open spec fn digit_at(s: Seq<u8>, at: int) -> bool {
    0 <= at < s.len() && is_digit(s[at])
}

/// Whether a field of `rule` may end at `end`. A group of digits inside a date ends where
/// no further digit follows, a message at the end of the line, and each other field where
/// the line ends or a space follows, so that no field is a part of a longer word.
pub open spec fn ends_at(rule: Rule, s: Seq<u8>, end: int) -> bool {
    match rule {
        Rule::year | Rule::month | Rule::day => !digit_at(s, end),
        Rule::message => at_line_end(s, end),
        _ => at_field_end(s, end),
    }
}

/// The field that `rule` names stands in `s` from `start` up to, not including, `end`.
pub open spec fn field_at(rule: Rule, s: Seq<u8>, start: int, end: int) -> bool {
    &&& 0 <= start <= end <= s.len()
    &&& is_text(rule, s.subrange(start, end))
    &&& ends_at(rule, s, end)
}

/// Where the field that `rule` names ends if it stands in `s` at `start`, and `None` if it
/// does not stand there. By `lemma_one_end` at most one end is possible.
pub open spec fn field_end(rule: Rule, s: Seq<u8>, start: int) -> Option<int> {
    if exists|end: int| field_at(rule, s, start, end) {
        Some(choose|end: int| field_at(rule, s, start, end))
    } else {
        None
    }
}

/// Two digits stand in `s` at `at`, and the number they stand for is from `lo` to `hi`.
pub open spec fn number_at(s: Seq<u8>, at: int, lo: int, hi: int) -> bool {
    &&& 0 <= at
    &&& at + 2 <= s.len()
    &&& is_digit(s[at])
    &&& is_digit(s[at + 1])
    &&& lo <= 10 * digit_value(s[at]) + digit_value(s[at + 1]) <= hi
}

/// The bytes of `word` stand in `s` at `at`.
pub open spec fn word_at(s: Seq<u8>, at: int, word: Seq<u8>) -> bool {
    &&& 0 <= at
    &&& at + word.len() <= s.len()
    &&& s.subrange(at, at + word.len()) == word
}

/// From `from` to `end` stand one or more bytes of `class`, and a field may end at `end`.
pub open spec fn is_run(class: Class, s: Seq<u8>, from: int, end: int) -> bool {
    &&& 0 <= from < end <= s.len()
    &&& class.all_between(s, from, end)
    &&& at_field_end(s, end)
}

/// A clock time stands in `s` at `at`.
pub open spec fn clock_at(s: Seq<u8>, at: int) -> bool {
    &&& number_at(s, at, 0, 99)
    &&& at + 8 <= s.len()
    &&& s[at + 2] == COLON
    &&& number_at(s, at + 3, 0, 99)
    &&& s[at + 5] == COLON
    &&& number_at(s, at + 6, 0, 99)
}

/// Two digits always stand for a number from 0 to 99.
pub proof fn lemma_number_range(s: Seq<u8>, at: int)
    requires
        0 <= at,
        at + 2 <= s.len(),
    ensures
        number_at(s, at, 0, 99) <==> is_digit(s[at]) && is_digit(s[at + 1]),
        Class::Digit.all(s.subrange(at, at + 2)) <==> is_digit(s[at]) && is_digit(s[at + 1]),
        two_digit_value(s.subrange(at, at + 2)) == 10 * digit_value(s[at]) + digit_value(
            s[at + 1],
        ),
{
    let t = s.subrange(at, at + 2);
    assert(t[0] == s[at] && t[1] == s[at + 1]);
    Class::Digit.lemma_all_subrange(s, at, at + 2);
    if is_digit(s[at]) && is_digit(s[at + 1]) {
        assert forall|i: int| at <= i < at + 2 implies Class::Digit.holds(#[trigger] s[i]) by {
            assert(i == at || i == at + 1);
        }
    }
    if Class::Digit.all_between(s, at, at + 2) {
        assert(Class::Digit.holds(s[at]) && Class::Digit.holds(s[at + 1]));
    }
}

/// A year at `start`: four digits, and no fifth.
pub proof fn lemma_year_shape(s: Seq<u8>, start: int, end: int)
    ensures
        field_at(Rule::year, s, start, end) <==> {
            &&& 0 <= start
            &&& end == start + 4
            &&& end <= s.len()
            &&& Class::Digit.all_between(s, start, end)
            &&& !digit_at(s, end)
        },
{
    if 0 <= start <= end <= s.len() {
        Class::Digit.lemma_all_subrange(s, start, end);
    }
}

/// A month at `start`: two digits from 01 to 12, and no third.
pub proof fn lemma_month_shape(s: Seq<u8>, start: int, end: int)
    ensures
        field_at(Rule::month, s, start, end) <==> {
            &&& end == start + 2
            &&& number_at(s, start, 1, 12)
            &&& !digit_at(s, end)
        },
{
    if 0 <= start && start + 2 <= s.len() {
        lemma_number_range(s, start);
    }
}

/// A day at `start`: two digits from 01 to 31, and no third.
pub proof fn lemma_day_shape(s: Seq<u8>, start: int, end: int)
    ensures
        field_at(Rule::day, s, start, end) <==> {
            &&& end == start + 2
            &&& number_at(s, start, 1, 31)
            &&& !digit_at(s, end)
        },
{
    if 0 <= start && start + 2 <= s.len() {
        lemma_number_range(s, start);
    }
}

/// A date at `start`, byte by byte.
pub proof fn lemma_date_shape(s: Seq<u8>, start: int, end: int)
    ensures
        field_at(Rule::date, s, start, end) <==> {
            &&& 0 <= start
            &&& end == start + 10
            &&& end <= s.len()
            &&& Class::Digit.all_between(s, start, start + 4)
            &&& s[start + 4] == DASH
            &&& number_at(s, start + 5, 1, 12)
            &&& s[start + 7] == DASH
            &&& number_at(s, start + 8, 1, 31)
            &&& at_field_end(s, end)
        },
{
    if 0 <= start && end == start + 10 && end <= s.len() {
        let t = s.subrange(start, end);
        assert(t.subrange(0, 4) =~= s.subrange(start, start + 4));
        assert(t.subrange(5, 7) =~= s.subrange(start + 5, start + 7));
        assert(t.subrange(8, 10) =~= s.subrange(start + 8, start + 10));
        assert(t[4] == s[start + 4] && t[7] == s[start + 7]);
        Class::Digit.lemma_all_subrange(s, start, start + 4);
        lemma_number_range(s, start + 5);
        lemma_number_range(s, start + 8);
    }
}

/// A clock time as a text and at a place say the same.
pub proof fn lemma_clock_shape(s: Seq<u8>, start: int)
    requires
        0 <= start,
        start + 8 <= s.len(),
    ensures
        is_clock(s.subrange(start, start + 8)) <==> clock_at(s, start),
{
    let t = s.subrange(start, start + 8);
    assert(t.subrange(0, 2) =~= s.subrange(start, start + 2));
    assert(t.subrange(3, 5) =~= s.subrange(start + 3, start + 5));
    assert(t.subrange(6, 8) =~= s.subrange(start + 6, start + 8));
    assert(t[2] == s[start + 2] && t[5] == s[start + 5]);
    lemma_number_range(s, start);
    lemma_number_range(s, start + 3);
    lemma_number_range(s, start + 6);
}

/// A time at `start`: a clock time, then the field's end or three letters and the field's end.
pub proof fn lemma_time_shape(s: Seq<u8>, start: int, end: int)
    ensures
        field_at(Rule::time, s, start, end) <==> {
            &&& clock_at(s, start)
            &&& end <= s.len()
            &&& at_field_end(s, end)
            &&& (end == start + 8 || (end == start + 11 && Class::Alpha.all_between(
                s,
                start + 8,
                end,
            )))
        },
{
    if 0 <= start && start + 8 <= s.len() {
        lemma_clock_shape(s, start);
        if end == start + 11 && end <= s.len() {
            let t = s.subrange(start, end);
            assert(t.subrange(0, 8) =~= s.subrange(start, start + 8));
            assert(t.subrange(8, 11) =~= s.subrange(start + 8, end));
            Class::Alpha.lemma_all_subrange(s, start + 8, end);
        }
    }
}

/// A level at `start`: one of the six names, and then the field's end.
pub proof fn lemma_level_shape(s: Seq<u8>, start: int, end: int)
    ensures
        field_at(Rule::level, s, start, end) <==> {
            &&& at_field_end(s, end)
            &&& end <= s.len()
            &&& {
                ||| (word_at(s, start, "INFO".spec_bytes()) && end == start + 4)
                ||| (word_at(s, start, "WARN".spec_bytes()) && end == start + 4)
                ||| (word_at(s, start, "ERROR".spec_bytes()) && end == start + 5)
                ||| (word_at(s, start, "DEBUG".spec_bytes()) && end == start + 5)
                ||| (word_at(s, start, "TRACE".spec_bytes()) && end == start + 5)
                ||| (word_at(s, start, "FATAL".spec_bytes()) && end == start + 5)
            }
        },
{
    lemma_words();
}

/// A tagged field at `start`: the prefix, then a run of the class up to the field's end.
pub proof fn lemma_tagged_shape(s: Seq<u8>, start: int, end: int, prefix: Seq<u8>, class: Class)
    ensures
        (word_at(s, start, prefix) && is_run(class, s, start + prefix.len(), end)) <==> (0 <= start
            <= end <= s.len() && is_tagged(s.subrange(start, end), prefix, class) && at_field_end(
            s,
            end,
        )),
{
    let n = prefix.len() as int;
    if 0 <= start && start + n <= end <= s.len() {
        let t = s.subrange(start, end);
        assert(t.subrange(0, n) =~= s.subrange(start, start + n));
        assert(t.subrange(n, t.len() as int) =~= s.subrange(start + n, end));
        class.lemma_all_subrange(s, start + n, end);
    }
}

/// An error code at `start`: a run of three to five digits up to the field's end.
pub proof fn lemma_error_code_shape(s: Seq<u8>, start: int, end: int)
    ensures
        field_at(Rule::error_code, s, start, end) <==> (is_run(Class::Digit, s, start, end) && 3
            <= end - start <= 5),
{
    if 0 <= start <= end <= s.len() {
        Class::Digit.lemma_all_subrange(s, start, end);
    }
}

/// A message at `start`: one or more bytes up to the end of the line.
pub proof fn lemma_message_shape(s: Seq<u8>, start: int, end: int)
    ensures
        field_at(Rule::message, s, start, end) <==> {
            &&& 0 <= start < end <= s.len()
            &&& (forall|i: int| start <= i < end ==> #[trigger] s[i] != NEWLINE)
            &&& at_line_end(s, end)
        },
{
    if 0 <= start <= end <= s.len() {
        let t = s.subrange(start, end);
        if is_message(t) {
            assert forall|i: int| start <= i < end implies #[trigger] s[i] != NEWLINE by {
                assert(t[i - start] == s[i]);
            }
        }
        if forall|i: int| start <= i < end ==> #[trigger] s[i] != NEWLINE {
            assert forall|i: int| 0 <= i < t.len() implies #[trigger] t[i] != NEWLINE by {
                assert(t[i] == s[start + i]);
            }
        }
    }
}

/// A run of a class up to a field's end has one possible end: the bytes at which a field
/// may end belong to no class.
pub proof fn lemma_one_run(class: Class, s: Seq<u8>, from: int, end1: int, end2: int)
    requires
        is_run(class, s, from, end1),
        is_run(class, s, from, end2),
    ensures
        end1 == end2,
{
    if end1 < end2 {
        assert(class.holds(s[end1]));
    }
    if end2 < end1 {
        assert(class.holds(s[end2]));
    }
}

/// A field that stands at a place has one possible end.
pub proof fn lemma_one_end(rule: Rule, s: Seq<u8>, start: int, end1: int, end2: int)
    requires
        field_at(rule, s, start, end1),
        field_at(rule, s, start, end2),
    ensures
        end1 == end2,
{
    match rule {
        Rule::time => {
            lemma_time_shape(s, start, end1);
            lemma_time_shape(s, start, end2);
            if end1 == start + 8 && end2 == start + 11 {
                assert(Class::Alpha.holds(s[start + 8]));
            }
            if end2 == start + 8 && end1 == start + 11 {
                assert(Class::Alpha.holds(s[start + 8]));
            }
        },
        Rule::level => {
            lemma_level_shape(s, start, end1);
            lemma_level_shape(s, start, end2);
            lemma_words();
            if end1 < end2 {
                assert(s.subrange(start, start + 5)[4] == s[start + 4]);
            }
            if end2 < end1 {
                assert(s.subrange(start, start + 5)[4] == s[start + 4]);
            }
        },
        Rule::module => {
            lemma_tagged_shape(s, start, end1, "mod-".spec_bytes(), Class::Alpha);
            lemma_tagged_shape(s, start, end2, "mod-".spec_bytes(), Class::Alpha);
            lemma_one_run(Class::Alpha, s, start + "mod-".spec_bytes().len(), end1, end2);
        },
        Rule::request_id => {
            lemma_tagged_shape(s, start, end1, "req-".spec_bytes(), Class::Alnum);
            lemma_tagged_shape(s, start, end2, "req-".spec_bytes(), Class::Alnum);
            lemma_one_run(Class::Alnum, s, start + "req-".spec_bytes().len(), end1, end2);
        },
        Rule::error_code => {
            lemma_error_code_shape(s, start, end1);
            lemma_error_code_shape(s, start, end2);
            lemma_one_run(Class::Digit, s, start, end1, end2);
        },
        Rule::message => {
            lemma_message_shape(s, start, end1);
            lemma_message_shape(s, start, end2);
        },
        _ => {},
    }
}

/// The end that `field_end` gives is the one at which the field stands.
pub proof fn lemma_field_end(rule: Rule, s: Seq<u8>, start: int, end: int)
    ensures
        field_at(rule, s, start, end) <==> field_end(rule, s, start) == Some(end),
{
    if field_at(rule, s, start, end) {
        let chosen = choose|e: int| field_at(rule, s, start, e);
        lemma_one_end(rule, s, start, end, chosen);
    }
}

/// The bytes of the words that the grammar spells out.
pub proof fn lemma_words()
    ensures
        "INFO".spec_bytes() == seq![0x49u8, 0x4e, 0x46, 0x4f],
        "WARN".spec_bytes() == seq![0x57u8, 0x41, 0x52, 0x4e],
        "ERROR".spec_bytes() == seq![0x45u8, 0x52, 0x52, 0x4f, 0x52],
        "DEBUG".spec_bytes() == seq![0x44u8, 0x45, 0x42, 0x55, 0x47],
        "TRACE".spec_bytes() == seq![0x54u8, 0x52, 0x41, 0x43, 0x45],
        "FATAL".spec_bytes() == seq![0x46u8, 0x41, 0x54, 0x41, 0x4c],
        "mod-".spec_bytes() == seq![0x6du8, 0x6f, 0x64, 0x2d],
        "req-".spec_bytes() == seq![0x72u8, 0x65, 0x71, 0x2d],
{
    reveal_strlit("INFO");
    reveal_strlit("WARN");
    reveal_strlit("ERROR");
    reveal_strlit("DEBUG");
    reveal_strlit("TRACE");
    reveal_strlit("FATAL");
    reveal_strlit("mod-");
    reveal_strlit("req-");
    is_ascii_spec_bytes("INFO");
    is_ascii_spec_bytes("WARN");
    is_ascii_spec_bytes("ERROR");
    is_ascii_spec_bytes("DEBUG");
    is_ascii_spec_bytes("TRACE");
    is_ascii_spec_bytes("FATAL");
    is_ascii_spec_bytes("mod-");
    is_ascii_spec_bytes("req-");
    assert("INFO".spec_bytes() =~= seq![0x49u8, 0x4e, 0x46, 0x4f]);
    assert("WARN".spec_bytes() =~= seq![0x57u8, 0x41, 0x52, 0x4e]);
    assert("ERROR".spec_bytes() =~= seq![0x45u8, 0x52, 0x52, 0x4f, 0x52]);
    assert("DEBUG".spec_bytes() =~= seq![0x44u8, 0x45, 0x42, 0x55, 0x47]);
    assert("TRACE".spec_bytes() =~= seq![0x54u8, 0x52, 0x41, 0x43, 0x45]);
    assert("FATAL".spec_bytes() =~= seq![0x46u8, 0x41, 0x54, 0x41, 0x4c]);
    assert("mod-".spec_bytes() =~= seq![0x6du8, 0x6f, 0x64, 0x2d]);
    assert("req-".spec_bytes() =~= seq![0x72u8, 0x65, 0x71, 0x2d]);
}

} // verus!
