use ccd::store::{
    db_path_from, lock_step, now, parse_db, unix_secs_or_zero, render_db, sort_rows, DbRow, LockAction, LockAttempt,
    LOCK_ATTEMPTS,
};

fn row(path: &str, score: &str, last: u64) -> DbRow {
    DbRow { path: path.to_string(), score: score.to_string(), last }
}

fn view(rows: &[DbRow]) -> Vec<(String, String, u64)> {
    rows.iter().map(|r| (r.path.clone(), r.score.clone(), r.last)).collect()
}

#[test]
fn render_writes_tab_separated_lines() {
    let rows = vec![row("/tmp/a", "2", 2), row("/tmp/z", "0.5", 1_700_000_000)];
    assert_eq!(render_db(&rows), "/tmp/a\t2\t2\n/tmp/z\t0.5\t1700000000\n");
    assert_eq!(render_db(&Vec::new()), "");
}

#[test]
fn parse_reads_rows_and_skips_bad_lines() {
    let text = "/tmp/a\t1.5\t10\nbad line\n/tmp/b\t2\tnot-a-number\n/tmp/c\t3\t7\textra\r\n\t0\t0";
    assert_eq!(
        view(&parse_db(text)),
        vec![
            ("/tmp/a".to_string(), "1.5".to_string(), 10),
            ("/tmp/c".to_string(), "3".to_string(), 7),
            ("".to_string(), "0".to_string(), 0),
        ]
    );
}

#[test]
fn save_and_load_round_trip_sorted_rows() {
    let mut rows = vec![row("/tmp/z", "1", 1), row("/tmp/a", "2", 2)];
    sort_rows(&mut rows);
    let raw = render_db(&rows);
    assert!(raw.starts_with("/tmp/a\t"));
    let loaded = parse_db(&raw);
    assert_eq!(loaded.len(), 2);
    assert!(loaded.iter().any(|r| r.path == "/tmp/z"));
    assert_eq!(view(&loaded), view(&rows));
}

#[test]
fn sort_rows_orders_by_path_like_str_ord() {
    let mut rows = vec![
        row("b", "1", 1),
        row("a/b", "1", 2),
        row("", "1", 3),
        row("a", "1", 4),
        row("\u{e9}", "1", 5),
        row("Z", "1", 6),
        row("a-b", "1", 7),
    ];
    let mut want: Vec<String> = rows.iter().map(|r| r.path.clone()).collect();
    want.sort();
    sort_rows(&mut rows);
    let got: Vec<String> = rows.iter().map(|r| r.path.clone()).collect();
    assert_eq!(got, want);
    assert_eq!(rows.len(), 7);
}

#[test]
fn db_path_prefers_ccd_db_then_xdg_then_home() {
    assert_eq!(db_path_from(Some("/x/db"), Some("/xdg"), Some("/h")), "/x/db");
    assert_eq!(db_path_from(Some(""), Some("/xdg"), Some("/h")), "/xdg/ccd/db.tsv");
    assert_eq!(db_path_from(None, Some("/xdg/"), Some("/h")), "/xdg/ccd/db.tsv");
    assert_eq!(db_path_from(None, Some(""), Some("/home/u")), "/home/u/.local/share/ccd/db.tsv");
    assert_eq!(db_path_from(None, None, None), "./.local/share/ccd/db.tsv");
    assert_eq!(db_path_from(None, None, Some("")), ".local/share/ccd/db.tsv");
}

#[test]
fn db_path_joins_like_path_join() {
    let cases = [
        (None, Some("/d"), Some("/h")),
        (None, None, Some("/h/")),
        (None, None, Some("rel")),
        (None, None, None),
    ];
    for (c, x, h) in cases {
        let base = match x {
            Some(x) if !x.is_empty() => std::path::PathBuf::from(x),
            _ => std::path::PathBuf::from(h.unwrap_or(".")).join(".local/share"),
        };
        let want = base.join("ccd").join("db.tsv");
        assert_eq!(db_path_from(c, x, h), want.to_string_lossy());
    }
}

#[test]
fn now_reads_the_clock() {
    let t = now();
    let sys = std::time::SystemTime::now()
        .duration_since(std::time::UNIX_EPOCH)
        .unwrap()
        .as_secs();
    assert!(t > 1_600_000_000);
    assert!(t <= sys && sys - t <= 5);
}

#[test]
fn sort_rows_keeps_equal_paths_in_order() {
    let mut rows = vec![row("b", "1", 1), row("a", "x", 2), row("b", "2", 3), row("a", "y", 4)];
    sort_rows(&mut rows);
    assert_eq!(
        view(&rows),
        vec![
            ("a".to_string(), "x".to_string(), 2),
            ("a".to_string(), "y".to_string(), 4),
            ("b".to_string(), "1".to_string(), 1),
            ("b".to_string(), "2".to_string(), 3),
        ]
    );
}

#[test]
fn lock_decisions_follow_the_attempt_budget() {
    assert_eq!(lock_step(1, LockAttempt::Created), LockAction::Acquired);
    assert_eq!(lock_step(1, LockAttempt::Failed), LockAction::GiveUp);
    assert_eq!(lock_step(1, LockAttempt::HeldStale), LockAction::RemoveStale { retry: true });
    assert_eq!(lock_step(99, LockAttempt::HeldFresh), LockAction::Wait { retry: true });
    assert_eq!(lock_step(LOCK_ATTEMPTS, LockAttempt::HeldFresh), LockAction::Wait { retry: false });
    assert_eq!(lock_step(LOCK_ATTEMPTS, LockAttempt::HeldStale), LockAction::RemoveStale { retry: false });
    assert_eq!(lock_step(LOCK_ATTEMPTS, LockAttempt::Created), LockAction::Acquired);
}

#[test]
fn clock_before_the_epoch_records_zero() {
    assert_eq!(unix_secs_or_zero(Some(1_700_000_000)), 1_700_000_000);
    assert_eq!(unix_secs_or_zero(None), 0);
}

#[test]
fn sort_rows_matches_a_stable_sort_on_many_rows() {
    let mut rows = Vec::new();
    let mut x: u64 = 7;
    for i in 0..500u64 {
        x = x.wrapping_mul(6364136223846793005).wrapping_add(1442695040888963407);
        let path = format!("/p/{}", (x >> 33) % 40);
        rows.push(row(&path, &i.to_string(), i));
    }
    let mut expected = view(&rows);
    expected.sort_by(|a, b| a.0.cmp(&b.0));
    sort_rows(&mut rows);
    assert_eq!(view(&rows), expected);
    let mut none: Vec<DbRow> = Vec::new();
    sort_rows(&mut none);
    assert!(none.is_empty());
}
