use chrono::Datelike;
use destined::datetime::{CivilDate, CivilDateTime};
use destined::datetime::parse_date_time;
use destined::duration::{parse_duration, parse_duration_lowered};
use destined::task::{parse_repeat, parse_repeat_lowered, parse_tracking, parse_tracking_lowered};
use destined::{ParsingError, Task};

fn day() -> CivilDate {
    CivilDate { year: 2025, month: 3, day: 9 }
}

fn at(year: i32, month: u32, day: u32, hour: u32, minute: u32) -> CivilDateTime {
    CivilDateTime { year, month, day, hour, minute, second: 0 }
}

fn string_message(r: Result<Task, ParsingError>) -> String {
    match r {
        Err(ParsingError::String(m)) => m,
        other => panic!("expected a string error, got {:?}", other),
    }
}

#[test]
fn plain_line_body_is_words_joined() {
    let t = Task::from_string_on("-   buy  fresh milk  ", day()).unwrap();
    assert_eq!(t.body(), "buy  fresh milk");
    assert_eq!(t.goal(), None);
    assert!(t.due().is_none());
    assert!(t.timestamp().is_none());
    assert_eq!(t.tracking(), None);
    assert_eq!(t.duration_seconds(), None);
    assert_eq!(t.repeat(), None);
}

#[test]
fn leading_alphanumeric_run_is_dropped() {
    let t = Task::from_string_on("abc1 - write report", day()).unwrap();
    assert_eq!(t.body(), "write report");
}

#[test]
fn keywords_only_line_fails() {
    let m = string_message(Task::from_string_on("- _rd _t", day()));
    assert_eq!(m, "Task body should not be empty");
    let m = string_message(Task::from_string_on("-  _rd", day()));
    assert_eq!(m, "Task body should not be empty");
}

#[test]
fn due_token_sets_due() {
    let t = Task::from_string_on("- pay rent _due12jan2025", day()).unwrap();
    assert_eq!(t.due().unwrap().local, at(2025, 1, 12, 0, 0));
    assert!(t.timestamp().is_none());
    assert_eq!(t.body(), "pay rent");
}

#[test]
fn plain_date_token_sets_timestamp() {
    let t = Task::from_string_on("- pay rent _12jan2025", day()).unwrap();
    assert_eq!(t.timestamp().unwrap().local, at(2025, 1, 12, 0, 0));
    assert!(t.due().is_none());
}

#[test]
fn date_and_time_token() {
    let t = Task::from_string_on("- call _12JAN2020_10:23pm", day()).unwrap();
    assert_eq!(t.timestamp().unwrap().local, at(2020, 1, 12, 22, 23));
}

#[test]
fn time_only_token_falls_on_given_day() {
    let t = Task::from_string_on("- call _10:30am", day()).unwrap();
    assert_eq!(t.timestamp().unwrap().local, at(2025, 3, 9, 10, 30));
}

#[test]
fn hour_only_tokens() {
    let t = Task::from_string_on("- call _9pm", day()).unwrap();
    assert_eq!(t.timestamp().unwrap().local, at(2025, 3, 9, 21, 0));
    let t = Task::from_string_on("- call _due12jan2025_9am", day()).unwrap();
    assert_eq!(t.due().unwrap().local, at(2025, 1, 12, 9, 0));
}

#[test]
fn offset_lies_within_a_day() {
    let t = Task::from_string_on("- call _12jan2025", day()).unwrap();
    let off = t.timestamp().unwrap().offset_seconds;
    assert!(off > -86400 && off < 86400);
}

#[test]
fn time_only_token_today() {
    let t = Task::from_string("- call _10:30am").unwrap();
    let now = chrono::Local::now().date_naive();
    let ts = t.timestamp().unwrap().local;
    assert_eq!((ts.year, ts.month, ts.day), (now.year(), now.month(), now.day()));
    assert_eq!((ts.hour, ts.minute), (10, 30));
}

#[test]
fn durations_in_hours_and_minutes() {
    let t = Task::from_string_on("- work _for_2h", day()).unwrap();
    assert_eq!(t.duration_seconds(), Some(7200));
    let t = Task::from_string_on("- work _for_10m", day()).unwrap();
    assert_eq!(t.duration_seconds(), Some(600));
    let t = Task::from_string_on("- work _FOR_1.5H", day()).unwrap();
    assert_eq!(t.duration_seconds(), Some(5400));
}

#[test]
fn duration_reader() {
    assert_eq!(parse_duration("_for_0.7h"), Some(2520));
    assert_eq!(parse_duration("_for_.5m"), Some(30));
    assert_eq!(parse_duration("_for_-2m"), Some(-120));
    assert_eq!(parse_duration("_for_1h30m"), Some(60));
    assert_eq!(parse_duration("_for_2x"), None);
    assert_eq!(parse_duration("_for_h"), None);
    assert_eq!(parse_duration("_for"), None);
    assert_eq!(parse_duration("_for_2_h"), None);
    assert_eq!(parse_duration("_for_99999999999999999h"), None);
}

#[test]
fn repeat_codes_any_case() {
    for tok in ["_rD", "_rd", "_RD"] {
        assert_eq!(parse_repeat(tok), Some('d'));
        let t = Task::from_string_on(&format!("- water plants {}", tok), day()).unwrap();
        assert_eq!(t.repeat(), Some('d'));
    }
    assert_eq!(parse_repeat("_rw"), Some('w'));
    assert_eq!(parse_repeat("_rm"), Some('m'));
    assert_eq!(parse_repeat("_RY"), Some('y'));
    assert_eq!(parse_repeat("_rx"), None);
    assert_eq!(parse_repeat("_r"), None);
}

#[test]
fn unknown_repeat_fails_line() {
    let m = string_message(Task::from_string_on("- water plants _rx", day()));
    assert_eq!(m, "Error parsing keyword '_rx'");
}

#[test]
fn tracking_flag() {
    assert_eq!(parse_tracking("_T"), Some(true));
    assert_eq!(parse_tracking("_x"), None);
    let t = Task::from_string_on("- read _t", day()).unwrap();
    assert_eq!(t.tracking(), Some(true));
}

#[test]
fn all_keywords_on_one_line() {
    let t = Task::from_string_on("- task body words _due12jan2025 _for_2h _rd _t", day()).unwrap();
    assert_eq!(t.body(), "task body words");
    assert_eq!(t.due().unwrap().local, at(2025, 1, 12, 0, 0));
    assert_eq!(t.duration_seconds(), Some(7200));
    assert_eq!(t.repeat(), Some('d'));
    assert_eq!(t.tracking(), Some(true));
}

#[test]
fn set_goal_refuses_empty() {
    let mut t = Task::from_string_on("- x", day()).unwrap();
    assert!(!t.set_goal(String::new()));
    assert_eq!(t.goal(), None);
    assert!(t.set_goal("Work".to_string()));
    assert_eq!(t.goal(), Some("Work"));
}

#[test]
fn upper_case_due_token_sets_due() {
    let t = Task::from_string_on("- pay rent _DUE12JAN2025", day()).unwrap();
    assert_eq!(t.due().unwrap().local, at(2025, 1, 12, 0, 0));
    assert!(t.timestamp().is_none());
}

#[test]
fn date_time_failure_names_token_and_format() {
    for tok in ["_31feb2025", "_12foo2025"] {
        match parse_date_time(tok, day()) {
            Err(ParsingError::String(m)) => assert_eq!(
                m,
                format!("Error parsing string '{}' to date time with format '%d%b%Y'", tok)
            ),
            other => panic!("expected a string error, got {:?}", other),
        }
    }
    match parse_date_time("_25:99pm", day()) {
        Err(ParsingError::String(m)) => assert_eq!(
            m,
            "Error parsing string '_25:99pm' to date time with format '%I:%M%P'"
        ),
        other => panic!("expected a string error, got {:?}", other),
    }
}

#[test]
fn long_duration_numbers() {
    assert_eq!(
        parse_duration("_for_0.0000000000000000000000000000000000000001h"),
        Some(0)
    );
    assert_eq!(
        parse_duration("_for_0000000000000000000000000000000000000002h"),
        Some(7200)
    );
    assert_eq!(
        parse_duration("_for_0.99999999999999999999999999999999999999999m"),
        Some(59)
    );
    assert_eq!(parse_duration("_for_2562047788015h"), Some(9223372036854000));
    assert_eq!(parse_duration("_for_2562047788016h"), None);
}

#[test]
fn lowered_readers() {
    assert_eq!(parse_duration_lowered("_for_2h"), Some(7200));
    assert_eq!(parse_duration_lowered("_for_10m"), Some(600));
    assert_eq!(parse_duration_lowered("_FOR_2H"), None);
    assert_eq!(parse_repeat_lowered("_rd"), Some('d'));
    assert_eq!(parse_repeat_lowered("_RD"), None);
    assert_eq!(parse_tracking_lowered("_t"), Some(true));
    assert_eq!(parse_tracking_lowered("_T"), None);
}
