use ccd::cli::{command_of, parse_flags, Command};

fn strings(v: &[&str]) -> Vec<String> {
    v.iter().map(|s| s.to_string()).collect()
}

#[test]
fn parse_flags_splits_positionals_and_options() {
    let args = strings(&["frag", "--cwd", "/d", "--list", "--x=1=2", "more", "--"]);
    let (pos, flags) = parse_flags(&args, &["cwd"]);
    assert_eq!(pos, vec!["frag", "more"]);
    assert_eq!(
        flags,
        vec![
            ("cwd".to_string(), "/d".to_string()),
            ("list".to_string(), String::new()),
            ("x".to_string(), "1=2".to_string()),
            (String::new(), String::new()),
        ]
    );
}

#[test]
fn parse_flags_valued_flag_at_end_has_no_value() {
    let args = strings(&["--cwd"]);
    let (pos, flags) = parse_flags(&args, &["cwd"]);
    assert!(pos.is_empty());
    assert_eq!(flags, vec![("cwd".to_string(), String::new())]);
    let args = strings(&["--dry-run", "x"]);
    let (pos, flags) = parse_flags(&args, &[]);
    assert_eq!(pos, vec!["x"]);
    assert_eq!(flags, vec![("dry-run".to_string(), String::new())]);
}

#[test]
fn command_names_select_subcommands() {
    assert_eq!(command_of("add"), Command::Add);
    assert_eq!(command_of("query"), Command::Query);
    assert_eq!(command_of("seed"), Command::Seed);
    assert_eq!(command_of("init"), Command::Init);
    assert_eq!(command_of("forget"), Command::Forget);
    assert_eq!(command_of("prune"), Command::Prune);
    assert_eq!(command_of("stats"), Command::Stats);
    assert_eq!(command_of("doctor"), Command::Doctor);
    assert_eq!(command_of(""), Command::Help);
    assert_eq!(command_of("-h"), Command::Help);
    assert_eq!(command_of("--help"), Command::Help);
    assert_eq!(command_of("help"), Command::Help);
    assert_eq!(command_of("adds"), Command::Unknown);
}

#[test]
fn flag_lookup_finds_the_first_match() {
    let args = strings(&["--cwd=/a", "--list", "--cwd", "/b"]);
    let (_, flags) = parse_flags(&args, &["cwd"]);
    assert_eq!(ccd::cli::flag_value(&flags, "cwd").map(|s| s.as_str()), Some("/a"));
    assert_eq!(ccd::cli::flag_value(&flags, "list").map(|s| s.as_str()), Some(""));
    assert_eq!(ccd::cli::flag_value(&flags, "dry-run"), None);
    assert!(ccd::cli::has_flag(&flags, "list"));
    assert!(!ccd::cli::has_flag(&flags, "complete"));
}
