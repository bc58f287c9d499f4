use ccd::history::{
    first_shell_word, parse_bash_history, parse_fish_history, parse_zsh_history, push_if_cd,
    strip_cd_invocation, CdEvent,
};

fn args(out: &[CdEvent]) -> Vec<(String, Option<u64>, usize)> {
    out.iter().map(|e| (e.arg.clone(), e.epoch, e.order)).collect()
}

#[test]
fn parses_quoted_cd_paths() {
    let mut out = Vec::new();
    push_if_cd("cd \"My Projects/app one\"", Some(10), &mut out);
    assert_eq!(out.len(), 1);
    assert_eq!(out[0].arg, "My Projects/app one");
    assert_eq!(out[0].epoch, Some(10));
}

#[test]
fn parses_builtin_and_escaped_paths() {
    let mut out = Vec::new();
    push_if_cd("builtin cd dev/my\\ app", None, &mut out);
    push_if_cd("command cd ~/Downloads", None, &mut out);
    assert_eq!(out[0].arg, "dev/my app");
    assert_eq!(out[1].arg, "~/Downloads");
}

#[test]
fn ignores_non_cd_and_empty_cd() {
    let mut out = Vec::new();
    push_if_cd("echo cd Downloads", None, &mut out);
    push_if_cd("cd", None, &mut out);
    assert!(out.is_empty());
}

#[test]
fn push_if_cd_numbers_events_in_order() {
    let mut out = Vec::new();
    push_if_cd("cd a", None, &mut out);
    push_if_cd("ls", None, &mut out);
    push_if_cd("  cd   -- -b ; ls", Some(3), &mut out);
    assert_eq!(
        args(&out),
        vec![("a".to_string(), None, 0), ("-b".to_string(), Some(3), 1)]
    );
}

#[test]
fn strip_cd_invocation_needs_whitespace_after_cd() {
    assert_eq!(strip_cd_invocation("  cd   foo bar"), Some("foo bar"));
    assert_eq!(strip_cd_invocation("builtin cd\tx"), Some("x"));
    assert_eq!(strip_cd_invocation("command cd y"), Some("y"));
    assert_eq!(strip_cd_invocation("cd "), Some(""));
    assert_eq!(strip_cd_invocation("cdx foo"), None);
    assert_eq!(strip_cd_invocation("cd"), None);
    assert_eq!(strip_cd_invocation("builtin cdx"), None);
}

#[test]
fn first_shell_word_handles_quotes_escapes_and_separators() {
    assert_eq!(first_shell_word("'a b' c").as_deref(), Some("a b"));
    assert_eq!(first_shell_word("a\\ b c").as_deref(), Some("a b"));
    assert_eq!(first_shell_word("foo;bar").as_deref(), Some("foo"));
    assert_eq!(first_shell_word("   x  y").as_deref(), Some("x"));
    assert_eq!(first_shell_word("\"it's\"").as_deref(), Some("it's"));
    assert_eq!(first_shell_word("\"unterminated").as_deref(), Some("unterminated"));
    assert_eq!(first_shell_word("abc\\").as_deref(), Some("abc\\"));
    assert_eq!(first_shell_word("a\"b c\"d e").as_deref(), Some("ab cd"));
    assert_eq!(first_shell_word("").as_deref(), None);
    assert_eq!(first_shell_word("  ;x").as_deref(), None);
    assert_eq!(first_shell_word("'  '").as_deref(), None);
}

#[test]
fn zsh_history_reads_extended_timestamps() {
    let mut out = Vec::new();
    parse_zsh_history(
        ": 1700000000:0;cd /tmp\ncd src\n: 12:0;ls\n: nope;cd x\r\n: 5:0 no semicolon cd y\n",
        &mut out,
    );
    assert_eq!(
        args(&out),
        vec![
            ("/tmp".to_string(), Some(1_700_000_000), 0),
            ("src".to_string(), None, 1),
            ("x".to_string(), None, 2),
        ]
    );
}

#[test]
fn zsh_history_splits_lines_like_str_lines() {
    let samples = [
        "cd a\ncd b",
        "cd a\r\ncd b\r\n",
        "cd a\r",
        "\n\ncd c\n\n",
        "cd 'x\ry'\ncd z\r",
        "",
    ];
    for text in samples {
        let mut got = Vec::new();
        parse_zsh_history(text, &mut got);
        let mut want = Vec::new();
        for line in text.lines() {
            push_if_cd(line, None, &mut want);
        }
        assert_eq!(args(&got), args(&want), "text {:?}", text);
    }
}

#[test]
fn bash_history_applies_timestamp_to_next_command() {
    let mut out = Vec::new();
    parse_bash_history("#1700\ncd a\ncd b\n#x\ncd c\n#  42 \nls\ncd d\n", &mut out);
    assert_eq!(
        args(&out),
        vec![
            ("a".to_string(), Some(1700), 0),
            ("b".to_string(), None, 1),
            ("c".to_string(), None, 2),
            ("d".to_string(), None, 3),
        ]
    );
}

#[test]
fn fish_history_dates_commands_with_when_lines() {
    let mut out = Vec::new();
    parse_fish_history(
        "- cmd: cd /a\n  when: 5\n- cmd: cd b\n- cmd: ls\n  when: 7\n  when: 9\n- cmd: cd c",
        &mut out,
    );
    assert_eq!(
        args(&out),
        vec![
            ("/a".to_string(), Some(5), 0),
            ("b".to_string(), None, 1),
            ("c".to_string(), None, 2),
        ]
    );
}

#[test]
fn timestamps_parse_like_u64_from_str() {
    for stamp in ["0", "+7", "18446744073709551615", "18446744073709551616", "-1", "1a", "+", ""] {
        let mut out = Vec::new();
        parse_bash_history(&format!("#{}\ncd a\n", stamp), &mut out);
        match stamp.parse::<u64>() {
            Ok(n) => assert_eq!(args(&out), vec![("a".to_string(), Some(n), 0)]),
            Err(_) => assert_eq!(args(&out), vec![("a".to_string(), None, 0)]),
        }
    }
}

#[test]
fn escaped_and_double_quoted_words_read_back_whole() {
    let w = "my dir;'x'";
    let escaped: String = w.chars().flat_map(|c| ['\\', c]).collect();
    assert_eq!(first_shell_word(&escaped).as_deref(), Some(w));
    assert_eq!(first_shell_word("\"my dir; x\"").as_deref(), Some("my dir; x"));
    assert_eq!(first_shell_word("\"a'b\"").as_deref(), Some("a'b"));
}
