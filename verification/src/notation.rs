//! The grammar written down as parsing expressions, one rule per constant, for people and
//! for messages. `~` joins what follows one another, `|` separates alternatives that are
//! tried in order, `?` marks what may be absent, `+` and `{n}` or `{m,n}` count
//! repetitions, `&` and `!` look ahead without consuming, and `EOI` is the end of the
//! input.

use vstd::prelude::*;

verus! {

/// Where a field that is set off by spaces may end: before a space or a line end, or at
/// the end of the input.
pub const FIELD_END: &'static str = "field_end = _{ \" \" | \"\\n\" | EOI }";

/// A year: four digits, for example `2024`.
pub const YEAR: &'static str = "year = { ASCII_DIGIT{4} ~ !ASCII_DIGIT }";

/// A month: `01` to `12`.
pub const MONTH: &'static str =
    "month = { (\"0\" ~ '1'..'9' | \"1\" ~ '0'..'2') ~ !ASCII_DIGIT }";

/// A day: `01` to `31`, whatever the month.
pub const DAY: &'static str =
    "day = { (\"0\" ~ '1'..'9' | '1'..'2' ~ ASCII_DIGIT | \"3\" ~ '0'..'1') ~ !ASCII_DIGIT }";

/// A date: `YYYY-MM-DD`, for example `2024-11-06`.
pub const DATE: &'static str = "date = { year ~ \"-\" ~ month ~ \"-\" ~ day ~ &field_end }";

/// A time with an optional time zone: `HH:MM:SS` or `HH:MM:SSTZ`, for example
/// `12:00:00UTC`.
pub const TIME: &'static str = "time = { ASCII_DIGIT{2} ~ \":\" ~ ASCII_DIGIT{2} ~ \":\" ~ ASCII_DIGIT{2} ~ (ASCII_ALPHA{3})? ~ &field_end }";

/// A level: one of six names, for example `INFO`.
pub const LEVEL: &'static str = "level = { (\"INFO\" | \"WARN\" | \"ERROR\" | \"DEBUG\" | \"TRACE\" | \"FATAL\") ~ &field_end }";

/// A module tag, for example `mod-network`.
pub const MODULE: &'static str = "module = { \"mod-\" ~ ASCII_ALPHA+ ~ &field_end }";

/// A request identifier, for example `req-12345`.
pub const REQUEST_ID: &'static str =
    "request_id = { \"req-\" ~ ASCII_ALPHANUMERIC+ ~ &field_end }";

/// An error code of three to five digits, for example `404` or `12345`.
pub const ERROR_CODE: &'static str = "error_code = { ASCII_DIGIT{3,5} ~ &field_end }";

/// The message: every character up to the end of the line, for example
/// `System started successfully`.
pub const MESSAGE: &'static str = "message = { (!\"\\n\" ~ ANY)+ }";

/// A whole line: `YYYY-MM-DD HH:MM:SS LEVEL [module] [request_id] [error_code] message`,
/// for example `2024-11-06 12:00:00UTC INFO System started successfully`.
pub const LOG_ENTRY: &'static str = "log_entry = { date ~ \" \" ~ time ~ \" \" ~ level ~ \" \" ~ (module ~ \" \")? ~ (request_id ~ \" \")? ~ (error_code ~ \" \")? ~ message }";

} // verus!
