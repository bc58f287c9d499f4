use ccd::seeding::{
    depth_of, expand, plan_resolve, scan_descend, scan_enters, seed_report, shallowest, CrossRef, DirIndex, SeedReport, Target,
};

#[test]
fn expand_resolves_home_forms() {
    assert_eq!(expand("/abs/dir", "/home/u").as_deref(), Some("/abs/dir"));
    assert_eq!(expand("~/dev", "/home/u").as_deref(), Some("/home/u/dev"));
    assert_eq!(expand("~", "/home/u").as_deref(), Some("/home/u"));
    assert_eq!(expand("$HOME/x/y", "/home/u").as_deref(), Some("/home/u/x/y"));
    assert_eq!(expand("src", "/home/u"), None);
    assert_eq!(expand("~user", "/home/u"), None);
}

#[test]
fn depth_counts_slashes() {
    assert_eq!(depth_of("/home/u/dev"), 3);
    assert_eq!(depth_of("rel"), 0);
    assert_eq!(depth_of("/\u{e9}/"), 2);
}

#[test]
fn crossref_keeps_the_first_directory_per_name() {
    let mut cross = CrossRef::new();
    cross.note("/home/u/dev/app".to_string());
    cross.note("/srv/app".to_string());
    assert_eq!(cross.get("app").map(|s| s.as_str()), Some("/home/u/dev/app"));
    assert_eq!(cross.get("dev"), None);
}

#[test]
fn dir_index_keeps_paths_in_order_and_picks_the_shallowest() {
    let mut index = DirIndex::new();
    index.add("src".to_string(), "/h/a/b/src".to_string());
    index.add("src".to_string(), "/h/a/src".to_string());
    index.add("src".to_string(), "/h/c/src".to_string());
    let list = index.get("src").unwrap();
    assert_eq!(list.len(), 3);
    assert_eq!(shallowest(list), Some(1));
    assert_eq!(shallowest(&Vec::new()), None);
}

#[test]
fn plan_prefers_explicit_then_history_then_scan() {
    let mut cross = CrossRef::new();
    cross.note("/home/u/dev/web".to_string());
    let mut index = DirIndex::new();
    index.add("web".to_string(), "/home/u/other/web".to_string());
    index.add("api".to_string(), "/home/u/x/y/api".to_string());
    index.add("api".to_string(), "/home/u/z/api".to_string());
    let h = "/home/u";
    let show = |t: Option<Target>| match t {
        Some(Target::Known(p)) => Some((true, p)),
        Some(Target::Canonicalize(p)) => Some((false, p)),
        None => None,
    };
    assert_eq!(show(plan_resolve("~/web", h, &cross, &index)), Some((false, "/home/u/web".to_string())));
    assert_eq!(show(plan_resolve("proj/web", h, &cross, &index)), Some((true, "/home/u/dev/web".to_string())));
    assert_eq!(show(plan_resolve("api", h, &cross, &index)), Some((false, "/home/u/z/api".to_string())));
    assert_eq!(show(plan_resolve("nothing", h, &cross, &index)), None);
    assert_eq!(show(plan_resolve("..", h, &cross, &index)), None);
    assert_eq!(show(plan_resolve("../web", h, &cross, &index)), None);
    assert_eq!(show(plan_resolve("-", h, &cross, &index)), None);
    assert_eq!(show(plan_resolve(".", h, &cross, &index)), None);
}

#[test]
fn plan_uses_the_last_component_despite_trailing_slashes() {
    let mut cross = CrossRef::new();
    cross.note("/h/foo".to_string());
    let mut index = DirIndex::new();
    index.add("bar".to_string(), "/h/x/bar".to_string());
    let show = |t: Option<Target>| match t {
        Some(Target::Known(p)) => Some((true, p)),
        Some(Target::Canonicalize(p)) => Some((false, p)),
        None => None,
    };
    assert_eq!(show(plan_resolve("foo/", "/h", &cross, &index)), Some((true, "/h/foo".to_string())));
    assert_eq!(show(plan_resolve("a/foo//", "/h", &cross, &index)), Some((true, "/h/foo".to_string())));
    assert_eq!(show(plan_resolve("bar/", "/h", &cross, &index)), Some((false, "/h/x/bar".to_string())));
}

#[test]
fn scan_descends_above_the_depth_bound() {
    assert!(scan_descend(0));
    assert!(scan_descend(4));
    assert!(!scan_descend(5));
    assert!(!scan_descend(6));
}

#[test]
fn scan_skips_hidden_and_listed_directories() {
    assert!(scan_enters("dev"));
    assert!(scan_enters("src"));
    assert!(!scan_enters(".config"));
    assert!(!scan_enters("node_modules"));
    assert!(!scan_enters("Library"));
    assert!(!scan_enters("__pycache__"));
    assert!(!scan_enters("venv"));
    assert!(scan_enters("venv2"));
}

#[test]
fn seed_report_holds_counts() {
    let r = SeedReport { events: 3, resolved: 2, unique_dirs: 1, paths: vec!["/a".to_string()] };
    assert_eq!((r.events, r.resolved, r.unique_dirs, r.paths.len()), (3, 2, 1, 1));
}

#[test]
fn seed_report_counts_resolved_events_and_distinct_directories() {
    let rs = vec![
        Some("/h/b".to_string()),
        None,
        Some("/h/a".to_string()),
        Some("/h/b".to_string()),
        None,
        Some("/h/c".to_string()),
    ];
    let r = seed_report(7, &rs);
    assert_eq!((r.events, r.resolved, r.unique_dirs), (7, 4, 3));
    assert_eq!(r.paths, vec!["/h/a".to_string(), "/h/b".to_string(), "/h/c".to_string()]);
    let empty = seed_report(0, &Vec::new());
    assert_eq!((empty.events, empty.resolved, empty.unique_dirs, empty.paths.len()), (0, 0, 0, 0));
}
