//! The names of the grammar's rules and the errors that a mismatch is reported with.

use vstd::prelude::*;

verus! {

/// The rules of the grammar: the ten fields and the whole line.
#[allow(non_camel_case_types)]
#[derive(Clone, Copy, Debug, PartialEq, Eq, Structural, Hash)]
pub enum Rule {
    /// Four digits.
    year,
    /// Two digits, `01` to `12`.
    month,
    /// Two digits, `01` to `31`.
    day,
    /// `YYYY-MM-DD`.
    date,
    /// `HH:MM:SS`, optionally followed at once by a three-letter time zone.
    time,
    /// One of `INFO`, `WARN`, `ERROR`, `DEBUG`, `TRACE`, `FATAL`.
    level,
    /// `mod-` and one or more letters.
    module,
    /// `req-` and one or more letters or digits.
    request_id,
    /// Three to five digits.
    error_code,
    /// The rest of the line, at least one byte.
    message,
    /// `date time level [module] [request_id] [error_code] message`, one space between each two.
    log_entry,
}

/// Why a text was not accepted.
#[derive(Clone, Copy, Debug, PartialEq, Eq, Structural)]
pub enum LogParseError {
    /// The line does not have the overall shape of an entry: a separator or the message is missing.
    ParsingError,
    /// No valid date stands where one is expected.
    DateFormatError,
    /// No valid time stands where one is expected.
    TimeFormatError,
    /// The level is none of the six known ones.
    LevelFormatError,
    /// The text is no module tag.
    ModuleFormatError,
    /// The text is no request identifier.
    RequestIDFormatError,
    /// The text is no error code.
    ErrorCodeFormatError,
}

impl Rule {
    /// The error that a mismatch of this rule is reported with.
    pub open spec fn error(self) -> LogParseError {
        match self {
            Rule::year | Rule::month | Rule::day | Rule::date => LogParseError::DateFormatError,
            Rule::time => LogParseError::TimeFormatError,
            Rule::level => LogParseError::LevelFormatError,
            Rule::module => LogParseError::ModuleFormatError,
            Rule::request_id => LogParseError::RequestIDFormatError,
            Rule::error_code => LogParseError::ErrorCodeFormatError,
            Rule::message | Rule::log_entry => LogParseError::ParsingError,
        }
    }

    /// Whether this rule describes a single field, not the whole line.
    pub open spec fn is_field(self) -> bool {
        self != Rule::log_entry
    }
}

/// The error that a mismatch of `rule` is reported with.
pub fn error_of(rule: Rule) -> (e: LogParseError)
    ensures
        e == rule.error(),
{
    match rule {
        Rule::year | Rule::month | Rule::day | Rule::date => LogParseError::DateFormatError,
        Rule::time => LogParseError::TimeFormatError,
        Rule::level => LogParseError::LevelFormatError,
        Rule::module => LogParseError::ModuleFormatError,
        Rule::request_id => LogParseError::RequestIDFormatError,
        Rule::error_code => LogParseError::ErrorCodeFormatError,
        Rule::message | Rule::log_entry => LogParseError::ParsingError,
    }
}

impl LogParseError {
    /// The text that `message` returns for each error.
    pub open spec fn message_text(self) -> Seq<char> {
        match self {
            LogParseError::ParsingError => "Failed to parse log entry"@,
            LogParseError::DateFormatError => "Invalid date format"@,
            LogParseError::TimeFormatError => "Invalid time format"@,
            LogParseError::LevelFormatError => "Invalid level format"@,
            LogParseError::ModuleFormatError => "Invalid module format"@,
            LogParseError::RequestIDFormatError => "Invalid request ID format"@,
            LogParseError::ErrorCodeFormatError => "Invalid error code format"@,
        }
    }

    /// A short description of the error, for people.
    pub fn message(&self) -> (text: String)
        ensures
            text@ == self.message_text(),
    {
        match self {
            LogParseError::ParsingError => "Failed to parse log entry".to_owned(),
            LogParseError::DateFormatError => "Invalid date format".to_owned(),
            LogParseError::TimeFormatError => "Invalid time format".to_owned(),
            LogParseError::LevelFormatError => "Invalid level format".to_owned(),
            LogParseError::ModuleFormatError => "Invalid module format".to_owned(),
            LogParseError::RequestIDFormatError => "Invalid request ID format".to_owned(),
            LogParseError::ErrorCodeFormatError => "Invalid error code format".to_owned(),
        }
    }
}

} // verus!
