//! The recognizers of the single fields. Each looks at the bytes of a line from a given
//! place on, and either tells where the field that stands there ends or fails with the
//! field's own error.

use vstd::prelude::*;
use vstd::string::*;
use crate::ascii::{run_end, Class, COLON, DASH, NEWLINE, SPACE};
use crate::rule::{LogParseError, Rule};
use crate::syntax::{
    at_field_end, clock_at, digit_at, field_at, field_end, is_run, lemma_date_shape,
    lemma_day_shape, lemma_error_code_shape, lemma_field_end, lemma_level_shape,
    lemma_message_shape, lemma_month_shape, lemma_one_run, lemma_tagged_shape, lemma_time_shape,
    lemma_words, lemma_year_shape, number_at, word_at,
};

verus! {

/// What a recognizer of `rule` owes for the line `s` and the place `at`: the end of the
/// field if it stands there, and the rule's error if it does not.
pub open spec fn found(rule: Rule, s: Seq<u8>, at: int, r: Result<usize, LogParseError>) -> bool {
    match r {
        Ok(end) => field_end(rule, s, at) == Some(end as int),
        Err(e) => field_end(rule, s, at) is None && e == rule.error(),
    }
}

/// Tests whether the byte `b` stands in `s` at `at`.
fn byte_is(s: &[u8], at: usize, b: u8) -> (r: bool)
    ensures
        r == (at < s@.len() && s@[at as int] == b),
        r ==> at + 1 <= usize::MAX,
{
    at < s.len() && s[at] == b
}

/// Tests whether a digit stands in `s` at `at`.
fn digit_is(s: &[u8], at: usize) -> (r: bool)
    ensures
        r == digit_at(s@, at as int),
{
    at < s.len() && Class::Digit.test(s[at])
}

/// Tests whether a field may end at `at`.
fn field_ends(s: &[u8], at: usize) -> (r: bool)
    requires
        at <= s@.len(),
    ensures
        r == at_field_end(s@, at as int),
{
    at == s.len() || s[at] == NEWLINE || s[at] == SPACE
}

/// Tests whether two digits stand in `s` at `at` whose number is from `lo` to `hi`.
fn two_digits(s: &[u8], at: usize, lo: u8, hi: u8) -> (r: bool)
    ensures
        r == number_at(s@, at as int, lo as int, hi as int),
        r ==> at + 2 <= usize::MAX,
{
    if at > s.len() || s.len() - at < 2 {
        return false;
    }
    let tens: u8 = s[at];
    let ones: u8 = s[at + 1];
    if !Class::Digit.test(tens) || !Class::Digit.test(ones) {
        return false;
    }
    let n: u8 = 10 * (tens - 0x30) + (ones - 0x30);
    lo <= n && n <= hi
}

/// Recognizes a year: four digits, with no fifth behind them.
pub fn year(s: &[u8], at: usize) -> (r: Result<usize, LogParseError>)
    ensures
        found(Rule::year, s@, at as int, r),
{
    if at <= s.len() {
        let end = run_end(s, at, Class::Digit);
        if end - at == 4 {
            proof {
                lemma_year_shape(s@, at as int, end as int);
                lemma_field_end(Rule::year, s@, at as int, end as int);
            }
            return Ok(end);
        }
        assert forall|e: int| !field_at(Rule::year, s@, at as int, e) by {
            lemma_year_shape(s@, at as int, e);
            if field_at(Rule::year, s@, at as int, e) {
                if end < e {
                    assert(Class::Digit.holds(s@[end as int]));
                } else {
                    assert(Class::Digit.holds(s@[e]));
                }
            }
        }
    }
    Err(LogParseError::DateFormatError)
}

/// Recognizes a month: two digits from `01` to `12`, with no third behind them.
pub fn month(s: &[u8], at: usize) -> (r: Result<usize, LogParseError>)
    ensures
        found(Rule::month, s@, at as int, r),
{
    if two_digits(s, at, 1, 12) && !digit_is(s, at + 2) {
        proof {
            lemma_month_shape(s@, at as int, at + 2);
            lemma_field_end(Rule::month, s@, at as int, at + 2);
        }
        return Ok(at + 2);
    }
    assert forall|e: int| !field_at(Rule::month, s@, at as int, e) by {
        lemma_month_shape(s@, at as int, e);
    }
    Err(LogParseError::DateFormatError)
}

/// Recognizes a day: two digits from `01` to `31`, with no third behind them. Whether the
/// month has that many days is not looked at.
pub fn day(s: &[u8], at: usize) -> (r: Result<usize, LogParseError>)
    ensures
        found(Rule::day, s@, at as int, r),
{
    if two_digits(s, at, 1, 31) && !digit_is(s, at + 2) {
        proof {
            lemma_day_shape(s@, at as int, at + 2);
            lemma_field_end(Rule::day, s@, at as int, at + 2);
        }
        return Ok(at + 2);
    }
    assert forall|e: int| !field_at(Rule::day, s@, at as int, e) by {
        lemma_day_shape(s@, at as int, e);
    }
    Err(LogParseError::DateFormatError)
}

/// Recognizes a date: a year, a month and a day, joined by dashes, up to the field's end.
pub fn date(s: &[u8], at: usize) -> (r: Result<usize, LogParseError>)
    ensures
        found(Rule::date, s@, at as int, r),
{
    if let Ok(y) = year(s, at) {
        proof {
            lemma_field_end(Rule::year, s@, at as int, y as int);
            lemma_year_shape(s@, at as int, y as int);
        }
        if byte_is(s, y, DASH) {
            if let Ok(m) = month(s, y + 1) {
                proof {
                    lemma_field_end(Rule::month, s@, y + 1, m as int);
                    lemma_month_shape(s@, y + 1, m as int);
                }
                if byte_is(s, m, DASH) {
                    if let Ok(d) = day(s, m + 1) {
                        proof {
                            lemma_field_end(Rule::day, s@, m + 1, d as int);
                            lemma_day_shape(s@, m + 1, d as int);
                        }
                        if field_ends(s, d) {
                            proof {
                                lemma_date_shape(s@, at as int, d as int);
                                lemma_field_end(Rule::date, s@, at as int, d as int);
                            }
                            return Ok(d);
                        }
                    }
                }
            }
        }
    }
    assert forall|e: int| !field_at(Rule::date, s@, at as int, e) by {
        lemma_date_shape(s@, at as int, e);
        if field_at(Rule::date, s@, at as int, e) {
            lemma_year_shape(s@, at as int, at + 4);
            lemma_field_end(Rule::year, s@, at as int, at + 4);
            lemma_month_shape(s@, at + 5, at + 7);
            lemma_field_end(Rule::month, s@, at + 5, at + 7);
            lemma_day_shape(s@, at + 8, at + 10);
            lemma_field_end(Rule::day, s@, at + 8, at + 10);
        }
    }
    Err(LogParseError::DateFormatError)
}

/// Tests whether a clock time stands in `s` at `at`: three groups of two digits, joined by
/// colons.
fn clock(s: &[u8], at: usize) -> (r: bool)
    ensures
        r == clock_at(s@, at as int),
        r ==> at + 8 <= usize::MAX,
{
    if at > s.len() || s.len() - at < 8 {
        return false;
    }
    two_digits(s, at, 0, 99) && byte_is(s, at + 2, COLON) && two_digits(s, at + 3, 0, 99)
        && byte_is(s, at + 5, COLON) && two_digits(s, at + 6, 0, 99)
}

/// Recognizes a time: a clock time, then the field's end, or three letters and the field's
/// end. What the numbers are is not looked at.
pub fn time(s: &[u8], at: usize) -> (r: Result<usize, LogParseError>)
    ensures
        found(Rule::time, s@, at as int, r),
{
    if clock(s, at) {
        let bare: usize = at + 8;
        if field_ends(s, bare) {
            proof {
                lemma_time_shape(s@, at as int, bare as int);
                lemma_field_end(Rule::time, s@, at as int, bare as int);
            }
            return Ok(bare);
        }
        let zoned = run_end(s, bare, Class::Alpha);
        if zoned - bare == 3 && field_ends(s, zoned) {
            proof {
                lemma_time_shape(s@, at as int, zoned as int);
                lemma_field_end(Rule::time, s@, at as int, zoned as int);
            }
            return Ok(zoned);
        }
        assert forall|e: int| !field_at(Rule::time, s@, at as int, e) by {
            lemma_time_shape(s@, at as int, e);
            if field_at(Rule::time, s@, at as int, e) {
                if zoned < e {
                    assert(Class::Alpha.holds(s@[zoned as int]));
                } else if e < zoned {
                    assert(Class::Alpha.holds(s@[e]));
                }
            }
        }
    } else {
        assert forall|e: int| !field_at(Rule::time, s@, at as int, e) by {
            lemma_time_shape(s@, at as int, e);
        }
    }
    Err(LogParseError::TimeFormatError)
}

/// Tests whether the bytes of `word` stand in `s` at `at`, and tells where they end.
fn word_end(s: &[u8], at: usize, word: &str) -> (r: Option<usize>)
    ensures
        r is Some <==> word_at(s@, at as int, word.spec_bytes()),
        r is Some ==> r.unwrap() == at + word.spec_bytes().len(),
{
    let w = word.as_bytes();
    let n: usize = w.len();
    if at > s.len() || s.len() - at < n {
        return None;
    }
    let mut i: usize = 0;
    while i < n
        invariant
            i <= n,
            n == w@.len(),
            w@ == word.spec_bytes(),
            at + n <= s@.len() <= usize::MAX,
            forall|j: int| 0 <= j < i ==> s@[at + j] == #[trigger] w@[j],
        decreases n - i,
    {
        if s[at + i] != w[i] {
            assert(s@.subrange(at as int, at + n)[i as int] == s@[at + i]);
            return None;
        }
        i += 1;
    }
    assert(s@.subrange(at as int, at + n) =~= w@);
    Some(at + n)
}

/// Tests whether one or more bytes of `class` stand in `s` from `from` up to a place where
/// a field may end, and tells where that is.
fn body_end(s: &[u8], from: usize, class: Class) -> (r: Option<usize>)
    requires
        from <= s@.len(),
    ensures
        r is Some ==> is_run(class, s@, from as int, r.unwrap() as int),
        r is None ==> forall|e: int| !is_run(class, s@, from as int, e),
{
    let end = run_end(s, from, class);
    if end > from && field_ends(s, end) {
        return Some(end);
    }
    assert forall|e: int| !is_run(class, s@, from as int, e) by {
        if is_run(class, s@, from as int, e) {
            if e < end {
                assert(class.holds(s@[e]));
            } else if end < e {
                assert(class.holds(s@[end as int]));
            }
        }
    }
    None
}

/// Tests whether the level name `word` stands in `s` at `at`, up to the field's end.
fn level_name(s: &[u8], at: usize, word: &str) -> (r: Option<usize>)
    ensures
        r is Some <==> (word_at(s@, at as int, word.spec_bytes()) && at_field_end(
            s@,
            at + word.spec_bytes().len(),
        )),
        r is Some ==> r.unwrap() == at + word.spec_bytes().len(),
{
    match word_end(s, at, word) {
        Some(end) => if field_ends(s, end) {
            Some(end)
        } else {
            None
        },
        None => None,
    }
}

/// Recognizes a level: one of the six names in capitals, up to the field's end.
pub fn level(s: &[u8], at: usize) -> (r: Result<usize, LogParseError>)
    ensures
        found(Rule::level, s@, at as int, r),
{
    let mut hit: Option<usize> = level_name(s, at, "INFO");
    if hit.is_none() {
        hit = level_name(s, at, "WARN");
    }
    if hit.is_none() {
        hit = level_name(s, at, "ERROR");
    }
    if hit.is_none() {
        hit = level_name(s, at, "DEBUG");
    }
    if hit.is_none() {
        hit = level_name(s, at, "TRACE");
    }
    if hit.is_none() {
        hit = level_name(s, at, "FATAL");
    }
    proof {
        lemma_words();
    }
    match hit {
        Some(end) => {
            proof {
                lemma_level_shape(s@, at as int, end as int);
                lemma_field_end(Rule::level, s@, at as int, end as int);
            }
            Ok(end)
        },
        None => {
            assert forall|e: int| !field_at(Rule::level, s@, at as int, e) by {
                lemma_level_shape(s@, at as int, e);
            }
            Err(LogParseError::LevelFormatError)
        },
    }
}

/// Recognizes a module tag: `mod-`, then one or more letters up to the field's end.
pub fn module(s: &[u8], at: usize) -> (r: Result<usize, LogParseError>)
    ensures
        found(Rule::module, s@, at as int, r),
{
    let ghost prefix = "mod-".spec_bytes();
    if let Some(body) = word_end(s, at, "mod-") {
        if let Some(end) = body_end(s, body, Class::Alpha) {
            proof {
                lemma_tagged_shape(s@, at as int, end as int, prefix, Class::Alpha);
                lemma_field_end(Rule::module, s@, at as int, end as int);
            }
            return Ok(end);
        }
    }
    assert forall|e: int| !field_at(Rule::module, s@, at as int, e) by {
        lemma_tagged_shape(s@, at as int, e, prefix, Class::Alpha);
    }
    Err(LogParseError::ModuleFormatError)
}

/// Recognizes a request identifier: `req-`, then one or more letters or digits up to the
/// field's end.
pub fn request_id(s: &[u8], at: usize) -> (r: Result<usize, LogParseError>)
    ensures
        found(Rule::request_id, s@, at as int, r),
{
    let ghost prefix = "req-".spec_bytes();
    if let Some(body) = word_end(s, at, "req-") {
        if let Some(end) = body_end(s, body, Class::Alnum) {
            proof {
                lemma_tagged_shape(s@, at as int, end as int, prefix, Class::Alnum);
                lemma_field_end(Rule::request_id, s@, at as int, end as int);
            }
            return Ok(end);
        }
    }
    assert forall|e: int| !field_at(Rule::request_id, s@, at as int, e) by {
        lemma_tagged_shape(s@, at as int, e, prefix, Class::Alnum);
    }
    Err(LogParseError::RequestIDFormatError)
}

/// Recognizes an error code: three, four or five digits up to the field's end.
pub fn error_code(s: &[u8], at: usize) -> (r: Result<usize, LogParseError>)
    ensures
        found(Rule::error_code, s@, at as int, r),
{
    if at <= s.len() {
        if let Some(end) = body_end(s, at, Class::Digit) {
            if 3 <= end - at && end - at <= 5 {
                proof {
                    lemma_error_code_shape(s@, at as int, end as int);
                    lemma_field_end(Rule::error_code, s@, at as int, end as int);
                }
                return Ok(end);
            }
            assert forall|e: int| !field_at(Rule::error_code, s@, at as int, e) by {
                lemma_error_code_shape(s@, at as int, e);
                if is_run(Class::Digit, s@, at as int, e) {
                    lemma_one_run(Class::Digit, s@, at as int, e, end as int);
                }
            }
        }
    }
    assert forall|e: int| !field_at(Rule::error_code, s@, at as int, e) by {
        lemma_error_code_shape(s@, at as int, e);
    }
    Err(LogParseError::ErrorCodeFormatError)
}

/// Recognizes a message: every byte up to the end of the line, at least one.
pub fn message(s: &[u8], at: usize) -> (r: Result<usize, LogParseError>)
    ensures
        found(Rule::message, s@, at as int, r),
{
    if at < s.len() {
        let mut end: usize = at;
        while end < s.len() && s[end] != NEWLINE
            invariant
                at <= end <= s@.len(),
                forall|i: int| at <= i < end ==> #[trigger] s@[i] != NEWLINE,
            decreases s@.len() - end,
        {
            end += 1;
        }
        if end > at {
            proof {
                lemma_message_shape(s@, at as int, end as int);
                lemma_field_end(Rule::message, s@, at as int, end as int);
            }
            return Ok(end);
        }
    }
    assert forall|e: int| !field_at(Rule::message, s@, at as int, e) by {
        lemma_message_shape(s@, at as int, e);
    }
    Err(LogParseError::ParsingError)
}

/// Recognizes the field that `rule` names. A whole line is no field: for `Rule::log_entry`
/// nothing is recognized.
pub fn recognize(rule: Rule, s: &[u8], at: usize) -> (r: Result<usize, LogParseError>)
    ensures
        found(rule, s@, at as int, r),
{
    match rule {
        Rule::year => year(s, at),
        Rule::month => month(s, at),
        Rule::day => day(s, at),
        Rule::date => date(s, at),
        Rule::time => time(s, at),
        Rule::level => level(s, at),
        Rule::module => module(s, at),
        Rule::request_id => request_id(s, at),
        Rule::error_code => error_code(s, at),
        Rule::message => message(s, at),
        Rule::log_entry => Err(LogParseError::ParsingError),
    }
}

} // verus!
