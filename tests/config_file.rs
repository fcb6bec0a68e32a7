use destined::config::read_parse_config_file;
use destined::ParsingError;

fn lines(v: &[&str]) -> Vec<String> {
    v.iter().map(|s| s.to_string()).collect()
}

fn value_of<'a>(config: &'a [(String, String)], key: &str) -> Option<&'a str> {
    config.iter().find(|(k, _)| k == key).map(|(_, v)| v.as_str())
}

fn file_message(r: Result<Vec<(String, String)>, ParsingError>) -> String {
    match r {
        Err(ParsingError::File(m)) => m,
        other => panic!("expected a file error, got {:?}", other),
    }
}

#[test]
fn required_keys_kept_and_defaults_filled() {
    let input = lines(&["Todo_File = todo.txt", "history_file=History.TXT", "editor = vim"]);
    let config = read_parse_config_file(
        &input,
        &vec!["todo_file", "history_file", "editor"],
        &vec![("undo_dir", ".destined-undo")],
    )
    .unwrap();
    assert_eq!(config.len(), 4);
    assert_eq!(value_of(&config, "todo_file"), Some("todo.txt"));
    assert_eq!(value_of(&config, "history_file"), Some("History.TXT"));
    assert_eq!(value_of(&config, "editor"), Some("vim"));
    assert_eq!(value_of(&config, "undo_dir"), Some(".destined-undo"));
}

#[test]
fn declared_allowed_key_overrides_default() {
    let input = lines(&["todo_file = a", "UNDO_DIR = /tmp/undo"]);
    let config =
        read_parse_config_file(&input, &vec!["todo_file"], &vec![("undo_dir", "dflt")]).unwrap();
    assert_eq!(config.len(), 2);
    assert_eq!(value_of(&config, "undo_dir"), Some("/tmp/undo"));
}

#[test]
fn unknown_keys_are_dropped() {
    let input = lines(&["todo_file = a", "colour = blue"]);
    let config = read_parse_config_file(&input, &vec!["todo_file"], &vec![]).unwrap();
    assert_eq!(config, vec![("todo_file".to_string(), "a".to_string())]);
}

#[test]
fn later_line_overrides_earlier() {
    let input = lines(&["todo_file = a", "TODO_FILE = b"]);
    let config = read_parse_config_file(&input, &vec!["todo_file"], &vec![]).unwrap();
    assert_eq!(config, vec![("todo_file".to_string(), "b".to_string())]);
}

#[test]
fn line_without_equals_fails_with_line_number() {
    let input = lines(&["todo_file = a", "editor vim"]);
    let m = file_message(read_parse_config_file(&input, &vec!["todo_file"], &vec![]));
    assert_eq!(m, "Check config file syntax on line 2: 'editor vim'");
}

#[test]
fn line_with_two_equals_fails_with_line_number() {
    let input = lines(&["a = b = c"]);
    let m = file_message(read_parse_config_file(&input, &vec![], &vec![]));
    assert_eq!(m, "Check config file syntax on line 1: 'a = b = c'");
}

#[test]
fn blank_line_fails() {
    let input = lines(&["todo_file = a", "", "editor = vim"]);
    let m = file_message(read_parse_config_file(&input, &vec!["todo_file"], &vec![]));
    assert_eq!(m, "Check config file syntax on line 2: ''");
}

#[test]
fn missing_required_key_fails() {
    let input = lines(&["todo_file = a"]);
    let m = file_message(read_parse_config_file(
        &input,
        &vec!["todo_file", "editor"],
        &vec![],
    ));
    assert_eq!(m, "Config file must contain the key 'editor'");
}

#[test]
fn empty_file_with_only_defaults() {
    let config =
        read_parse_config_file(&vec![], &vec![], &vec![("undo_dir", "u"), ("undo_dir", "v")])
            .unwrap();
    assert_eq!(config, vec![("undo_dir".to_string(), "u".to_string())]);
}

#[test]
fn error_descriptions() {
    assert_eq!(
        ParsingError::File("x".to_string()).describe(),
        "Error parsing file: x"
    );
    assert_eq!(
        ParsingError::String("y".to_string()).describe(),
        "Error parsing string: y"
    );
    assert_eq!(ParsingError::String("y".to_string()).message(), "y");
}
