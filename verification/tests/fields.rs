use log_parser::ascii::{run_end, Class};
use log_parser::field;
use log_parser::line::field_token;
use log_parser::{Grammar, LogParseError, Rule};

fn one(rule: Rule, text: &str) -> Result<(usize, usize, String), LogParseError> {
    let tokens = Grammar::parse(rule, text)?;
    assert_eq!(tokens.len(), 1);
    assert_eq!(tokens[0].as_rule(), rule);
    Ok((tokens[0].start, tokens[0].end, tokens[0].as_str().to_string()))
}

fn whole(rule: Rule, text: &str) -> bool {
    one(rule, text) == Ok((0, text.len(), text.to_string()))
}

#[test]
fn year_is_four_digits() {
    assert!(whole(Rule::year, "2024"));
    assert!(whole(Rule::year, "0000"));
    assert_eq!(one(Rule::year, "2024-11-06"), Ok((0, 4, "2024".to_string())));
    for bad in ["", "202", "20245", "20a4", "-2024", " 2024"] {
        assert_eq!(one(Rule::year, bad), Err(LogParseError::DateFormatError), "{}", bad);
    }
}

#[test]
fn month_is_01_to_12() {
    for good in ["01", "09", "10", "11", "12"] {
        assert!(whole(Rule::month, good), "{}", good);
    }
    assert_eq!(one(Rule::month, "11-06"), Ok((0, 2, "11".to_string())));
    for bad in ["00", "13", "20", "1", "1a", "011", "", "a1"] {
        assert_eq!(one(Rule::month, bad), Err(LogParseError::DateFormatError), "{}", bad);
    }
}

#[test]
fn day_is_01_to_31() {
    for good in ["01", "09", "10", "19", "20", "29", "30", "31"] {
        assert!(whole(Rule::day, good), "{}", good);
    }
    for bad in ["00", "32", "39", "40", "99", "3", "3x", "311", ""] {
        assert_eq!(one(Rule::day, bad), Err(LogParseError::DateFormatError), "{}", bad);
    }
}

#[test]
fn date_is_year_month_day() {
    assert!(whole(Rule::date, "2024-11-06"));
    assert!(whole(Rule::date, "2024-02-31"));
    assert_eq!(
        one(Rule::date, "2024-11-06 12:00:00"),
        Ok((0, 10, "2024-11-06".to_string()))
    );
    assert_eq!(
        one(Rule::date, "2024-11-06\n"),
        Ok((0, 10, "2024-11-06".to_string()))
    );
    for bad in [
        "2024-13-40",
        "2024-00-10",
        "2024-10-00",
        "2024-10-32",
        "2024/11/06",
        "2024-11-6",
        "2024-1-06",
        "024-11-06",
        "20241106",
        "2024-11-06T12:00:00",
        "2024-11-061",
        "2024-11-06x",
        "2024-11",
        "",
    ] {
        assert_eq!(one(Rule::date, bad), Err(LogParseError::DateFormatError), "{}", bad);
    }
}

#[test]
fn time_is_a_clock_with_an_optional_zone() {
    for good in ["12:00:00", "00:00:00", "25:61:61", "99:99:99", "12:00:00UTC", "12:00:00cet", "23:59:59Pst"] {
        assert!(whole(Rule::time, good), "{}", good);
    }
    assert_eq!(
        one(Rule::time, "12:00:00UTC INFO"),
        Ok((0, 11, "12:00:00UTC".to_string()))
    );
    assert_eq!(one(Rule::time, "12:00:00 INFO"), Ok((0, 8, "12:00:00".to_string())));
    for bad in [
        "2024-11-06 25:61:61UTC INFO Invalid time format",
        "12:00",
        "12:00:0",
        "1:00:00",
        "12:0:00",
        "120000",
        "12.00.00",
        "12:00:000",
        "12:00:00U",
        "12:00:00UT",
        "12:00:00UTCX",
        "12:00:",
        "12:00:00U1C",
        "12:00:00-UTC",
        "",
    ] {
        assert_eq!(one(Rule::time, bad), Err(LogParseError::TimeFormatError), "{}", bad);
    }
}

#[test]
fn level_is_one_of_six_names() {
    for good in ["INFO", "WARN", "ERROR", "DEBUG", "TRACE", "FATAL"] {
        assert!(whole(Rule::level, good), "{}", good);
    }
    assert_eq!(one(Rule::level, "ERROR 404"), Ok((0, 5, "ERROR".to_string())));
    for bad in [
        "2024-11-06 12:00:00UTC UNKNOWN_LEVEL Invalid level format",
        "info",
        "Info",
        "INFOS",
        "INF",
        "WARNING",
        "ERR",
        "FATAL!",
        "INFO-",
        " INFO",
        "",
    ] {
        assert_eq!(one(Rule::level, bad), Err(LogParseError::LevelFormatError), "{}", bad);
    }
}

#[test]
fn module_is_a_prefix_and_letters() {
    for good in ["mod-network", "mod-x", "mod-ABCxyz"] {
        assert!(whole(Rule::module, good), "{}", good);
    }
    assert_eq!(one(Rule::module, "mod-db rest"), Ok((0, 6, "mod-db".to_string())));
    for bad in ["mod-", "mod", "mod-1", "mod-net1", "mod-net-work", "MOD-x", "mod_x", "xmod-x", "mod- x", ""] {
        assert_eq!(one(Rule::module, bad), Err(LogParseError::ModuleFormatError), "{}", bad);
    }
}

#[test]
fn request_id_is_a_prefix_and_letters_or_digits() {
    for good in ["req-12345", "req-a", "req-0", "req-A1b2"] {
        assert!(whole(Rule::request_id, good), "{}", good);
    }
    assert_eq!(one(Rule::request_id, "req-7 rest"), Ok((0, 5, "req-7".to_string())));
    for bad in ["req-!@#", "req-", "req", "req-a!", "req-a-b", "REQ-1", "req_1", "req- 1", ""] {
        assert_eq!(
            one(Rule::request_id, bad),
            Err(LogParseError::RequestIDFormatError),
            "{}",
            bad
        );
    }
}

#[test]
fn error_code_is_three_to_five_digits() {
    for good in ["404", "1234", "12345", "000"] {
        assert!(whole(Rule::error_code, good), "{}", good);
    }
    assert_eq!(one(Rule::error_code, "500 oops"), Ok((0, 3, "500".to_string())));
    for bad in ["error_code_12345", "", "1", "12", "123456", "1234567", "12a", "404x", "-404", "40 4"] {
        assert_eq!(
            one(Rule::error_code, bad),
            Err(LogParseError::ErrorCodeFormatError),
            "{}",
            bad
        );
    }
}

#[test]
fn message_runs_to_the_end_of_the_line() {
    assert!(whole(Rule::message, "System started successfully"));
    assert!(whole(Rule::message, " "));
    assert!(whole(Rule::message, "ünïcödé ✓"));
    assert_eq!(one(Rule::message, "one\ntwo"), Ok((0, 3, "one".to_string())));
    assert_eq!(one(Rule::message, ""), Err(LogParseError::ParsingError));
    assert_eq!(one(Rule::message, "\nrest"), Err(LogParseError::ParsingError));
}

#[test]
fn recognizers_work_from_any_offset() {
    let line = b"2024-11-06 12:00:00UTC INFO mod-net req-a1 12345 disk is full";
    assert_eq!(field::year(line, 0), Ok(4));
    assert_eq!(field::month(line, 5), Ok(7));
    assert_eq!(field::day(line, 8), Ok(10));
    assert_eq!(field::date(line, 0), Ok(10));
    assert_eq!(field::time(line, 11), Ok(22));
    assert_eq!(field::level(line, 23), Ok(27));
    assert_eq!(field::module(line, 28), Ok(35));
    assert_eq!(field::request_id(line, 36), Ok(42));
    assert_eq!(field::error_code(line, 43), Ok(48));
    assert_eq!(field::message(line, 49), Ok(61));
    assert_eq!(field::message(line, 0), Ok(61));
    assert_eq!(field::recognize(Rule::time, line, 11), Ok(22));
}

#[test]
fn recognizers_fail_with_their_own_error() {
    let line = b"2024-11-06 12:00:00UTC INFO mod-net req-a1 12345 disk is full";
    assert_eq!(field::year(line, 1), Err(LogParseError::DateFormatError));
    assert_eq!(field::month(line, 0), Err(LogParseError::DateFormatError));
    assert_eq!(field::day(line, 0), Err(LogParseError::DateFormatError));
    assert_eq!(field::date(line, 11), Err(LogParseError::DateFormatError));
    assert_eq!(field::time(line, 0), Err(LogParseError::TimeFormatError));
    assert_eq!(field::level(line, 0), Err(LogParseError::LevelFormatError));
    assert_eq!(field::module(line, 0), Err(LogParseError::ModuleFormatError));
    assert_eq!(field::request_id(line, 0), Err(LogParseError::RequestIDFormatError));
    assert_eq!(field::error_code(line, 0), Err(LogParseError::ErrorCodeFormatError));
    assert_eq!(field::message(line, 61), Err(LogParseError::ParsingError));
    assert_eq!(
        field::recognize(Rule::log_entry, line, 0),
        Err(LogParseError::ParsingError)
    );
}

#[test]
fn recognizers_fail_behind_the_end_of_the_input() {
    let line = b"2024";
    for at in [4usize, 5, 100, usize::MAX] {
        assert_eq!(field::year(line, at), Err(LogParseError::DateFormatError));
        assert_eq!(field::month(line, at), Err(LogParseError::DateFormatError));
        assert_eq!(field::day(line, at), Err(LogParseError::DateFormatError));
        assert_eq!(field::date(line, at), Err(LogParseError::DateFormatError));
        assert_eq!(field::time(line, at), Err(LogParseError::TimeFormatError));
        assert_eq!(field::level(line, at), Err(LogParseError::LevelFormatError));
        assert_eq!(field::module(line, at), Err(LogParseError::ModuleFormatError));
        assert_eq!(field::request_id(line, at), Err(LogParseError::RequestIDFormatError));
        assert_eq!(field::error_code(line, at), Err(LogParseError::ErrorCodeFormatError));
        assert_eq!(field::message(line, at), Err(LogParseError::ParsingError));
    }
}

#[test]
fn no_field_is_empty() {
    let rules = [
        Rule::year,
        Rule::month,
        Rule::day,
        Rule::date,
        Rule::time,
        Rule::level,
        Rule::module,
        Rule::request_id,
        Rule::error_code,
        Rule::message,
    ];
    let texts = ["", " ", "\n", "2024", "12", "2024-11-06", "12:00:00", "INFO", "mod-a", "req-1", "404", "x"];
    for rule in rules {
        for text in texts {
            if let Ok(end) = field::recognize(rule, text.as_bytes(), 0) {
                assert!(end > 0, "{:?} on {:?}", rule, text);
            }
        }
    }
}

#[test]
fn a_field_does_not_depend_on_what_stands_before_it() {
    let rest = "mod-net and more";
    let line = format!("anything at all {}", rest);
    let shift = line.len() - rest.len();
    assert_eq!(field::module(rest.as_bytes(), 0), Ok(7));
    assert_eq!(field::module(line.as_bytes(), shift), Ok(shift + 7));
}

#[test]
fn field_token_cuts_the_text_out() {
    let line = "x 404 y";
    let tok = field_token(Rule::error_code, line, 2).unwrap();
    assert_eq!((tok.rule, tok.start, tok.end, tok.text), (Rule::error_code, 2, 5, "404"));
    assert_eq!(
        field_token(Rule::error_code, line, 0),
        Err(LogParseError::ErrorCodeFormatError)
    );
    assert_eq!(
        field_token(Rule::error_code, line, 100),
        Err(LogParseError::ErrorCodeFormatError)
    );
}

#[test]
fn field_token_starts_at_no_offset_inside_a_character() {
    let line = "é rest";
    assert_eq!(field::message(line.as_bytes(), 1), Ok(7));
    assert_eq!(field_token(Rule::message, line, 1), Err(LogParseError::ParsingError));
    let tok = field_token(Rule::message, line, 2).unwrap();
    assert_eq!((tok.start, tok.end, tok.text), (2, 7, " rest"));
    let tok = field_token(Rule::message, line, 0).unwrap();
    assert_eq!((tok.start, tok.end, tok.text), (0, 7, "é rest"));
}

#[test]
fn run_end_is_the_end_of_the_longest_run() {
    assert_eq!(run_end(b"123abc", 0, Class::Digit), 3);
    assert_eq!(run_end(b"123abc", 3, Class::Digit), 3);
    assert_eq!(run_end(b"123abc", 3, Class::Alpha), 6);
    assert_eq!(run_end(b"123abc!", 0, Class::Alnum), 6);
    assert_eq!(run_end(b"", 0, Class::Alnum), 0);
}

#[test]
fn classes_hold_their_bytes_and_no_others() {
    for b in 0u8..=255 {
        assert_eq!(Class::Digit.test(b), b.is_ascii_digit());
        assert_eq!(Class::Alpha.test(b), b.is_ascii_alphabetic());
        assert_eq!(Class::Alnum.test(b), b.is_ascii_alphanumeric());
    }
}

#[test]
fn each_error_has_its_message() {
    assert_eq!(LogParseError::ParsingError.message(), "Failed to parse log entry");
    assert_eq!(LogParseError::DateFormatError.message(), "Invalid date format");
    assert_eq!(LogParseError::TimeFormatError.message(), "Invalid time format");
    assert_eq!(LogParseError::LevelFormatError.message(), "Invalid level format");
    assert_eq!(LogParseError::ModuleFormatError.message(), "Invalid module format");
    assert_eq!(LogParseError::RequestIDFormatError.message(), "Invalid request ID format");
    assert_eq!(LogParseError::ErrorCodeFormatError.message(), "Invalid error code format");
}

#[test]
fn each_rule_is_written_down_under_its_name() {
    let notation = [
        (log_parser::YEAR, "year"),
        (log_parser::MONTH, "month"),
        (log_parser::DAY, "day"),
        (log_parser::DATE, "date"),
        (log_parser::TIME, "time"),
        (log_parser::LEVEL, "level"),
        (log_parser::MODULE, "module"),
        (log_parser::REQUEST_ID, "request_id"),
        (log_parser::ERROR_CODE, "error_code"),
        (log_parser::MESSAGE, "message"),
        (log_parser::LOG_ENTRY, "log_entry"),
        (log_parser::FIELD_END, "field_end"),
    ];
    for (text, name) in notation {
        assert!(text.starts_with(&format!("{} = ", name)), "{}", text);
        assert!(text.ends_with('}'), "{}", text);
    }
}
