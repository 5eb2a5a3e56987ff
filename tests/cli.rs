use allgrep::cli::{parse_args, split_patterns, Invocation, Mode};

fn strings(list: &[&str]) -> Vec<String> {
    list.iter().map(|s| s.to_string()).collect()
}

#[test]
fn split_on_single_spaces() {
    assert_eq!(split_patterns("foo bar"), strings(&["foo", "bar"]));
    assert_eq!(split_patterns("a  b"), strings(&["a", "", "b"]));
    assert_eq!(split_patterns(""), strings(&[""]));
    assert_eq!(split_patterns(" é"), strings(&["", "é"]));
}

#[test]
fn default_invocation() {
    let inv = Invocation::default();
    assert_eq!(inv.mode, Mode::Default);
    assert!(inv.patterns.is_empty());
    assert_eq!(inv.path, ".");
}

#[test]
fn builders_set_fields() {
    let inv = Invocation::default()
        .with_mode(Mode::FilenameOnly)
        .with_patterns(strings(&["a"]))
        .with_path("src".to_string());
    assert_eq!(inv.mode, Mode::FilenameOnly);
    assert_eq!(inv.patterns, strings(&["a"]));
    assert_eq!(inv.path, "src");
}

#[test]
fn parse_patterns_only() {
    let inv = parse_args(&strings(&["foo bar"])).unwrap();
    assert_eq!(inv.mode, Mode::Default);
    assert_eq!(inv.patterns, strings(&["foo", "bar"]));
    assert_eq!(inv.path, ".");
}

#[test]
fn parse_patterns_and_path() {
    let inv = parse_args(&strings(&["foo", "dir"])).unwrap();
    assert_eq!(inv.mode, Mode::Default);
    assert_eq!(inv.patterns, strings(&["foo"]));
    assert_eq!(inv.path, "dir");
}

#[test]
fn parse_list_flag() {
    let inv = parse_args(&strings(&["-l", "a b"])).unwrap();
    assert_eq!(inv.mode, Mode::FilenameOnly);
    assert_eq!(inv.patterns, strings(&["a", "b"]));
    assert_eq!(inv.path, ".");
    let inv = parse_args(&strings(&["-l", "a", "dir"])).unwrap();
    assert_eq!(inv.mode, Mode::FilenameOnly);
    assert_eq!(inv.path, "dir");
}

#[test]
fn parse_rejects_other_shapes() {
    assert!(parse_args(&Vec::new()).is_none());
    assert!(parse_args(&strings(&["a", "b", "c"])).is_none());
    assert!(parse_args(&strings(&["-l", "a", "b", "c"])).is_none());
}

#[test]
fn lone_flag_is_a_pattern() {
    let inv = parse_args(&strings(&["-l"])).unwrap();
    assert_eq!(inv.mode, Mode::Default);
    assert_eq!(inv.patterns, strings(&["-l"]));
}
