use destined::datetime::{CivilDate, CivilDateTime};
use destined::todo::parse_todo_lines;
use destined::{read_parse_todo_file, ParsingError};

fn lines(v: &[&str]) -> Vec<String> {
    v.iter().map(|s| s.to_string()).collect()
}

fn day() -> CivilDate {
    CivilDate { year: 2025, month: 3, day: 9 }
}

#[test]
fn errands_and_work_file() {
    let input = lines(&[
        "# Errands",
        "- buy milk _due12jan2025",
        "- walk dog",
        "# Work",
        "- write report _for_1h30m",
    ]);
    let tasks = parse_todo_lines(&input, day()).unwrap();
    assert_eq!(tasks.len(), 3);
    assert_eq!(tasks[0].body(), "buy milk");
    assert_eq!(tasks[0].goal(), Some("Errands"));
    assert_eq!(
        tasks[0].due().unwrap().local,
        CivilDateTime { year: 2025, month: 1, day: 12, hour: 0, minute: 0, second: 0 }
    );
    assert_eq!(tasks[1].body(), "walk dog");
    assert_eq!(tasks[1].goal(), Some("Errands"));
    assert!(tasks[1].due().is_none());
    assert_eq!(tasks[2].body(), "write report");
    assert_eq!(tasks[2].goal(), Some("Work"));
    // The number is read up to its first non-digit, and the last character
    // names the unit: `1h30m` is one minute.
    assert_eq!(tasks[2].duration_seconds(), Some(60));
}

#[test]
fn goals_scope_and_clearing() {
    let input = lines(&[
        "- early",
        "  #   Home  ",
        "- a",
        "ignored line",
        "- b",
        "#",
        "- c",
    ]);
    let tasks = read_parse_todo_file(&input).unwrap();
    assert_eq!(tasks.len(), 4);
    assert_eq!(tasks[0].goal(), None);
    assert_eq!(tasks[1].goal(), Some("Home"));
    assert_eq!(tasks[2].goal(), Some("Home"));
    assert_eq!(tasks[3].goal(), None);
}

#[test]
fn bad_task_line_aborts_with_line_number() {
    let input = lines(&["# G", "- ok", "- bad _zzz", "- never"]);
    match parse_todo_lines(&input, day()) {
        Err(ParsingError::File(m)) => assert_eq!(
            m,
            "Cannot parse todo on line 3: Error parsing string: Error parsing keyword '_zzz'"
        ),
        other => panic!("expected a file error, got {:?}", other),
    }
}

#[test]
fn empty_todo_file() {
    assert_eq!(parse_todo_lines(&vec![], day()).unwrap().len(), 0);
}
