//! A strict recognizer for single-line structured log entries.
//!
//! A line has the form `date time level [module] [request_id] [error_code] message`, with
//! one space between each two fields. [`Grammar::parse`] takes a rule and a text and
//! returns the matched fields as tokens, or the error of the first place where the text
//! departs from the rule; a line is accepted as a whole or not at all.

pub mod ascii;
pub mod field;
pub mod grammar;
pub mod laws;
pub mod line;
pub mod notation;
pub mod rule;
pub mod syntax;
pub mod token;

pub use grammar::Grammar;
pub use notation::{
    DATE, DAY, ERROR_CODE, FIELD_END, LEVEL, LOG_ENTRY, MESSAGE, MODULE, MONTH, REQUEST_ID, TIME,
    YEAR,
};
pub use rule::{LogParseError, Rule};
pub use token::Token;
