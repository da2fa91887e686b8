use snaphound::envpaths::EnvPaths;
use snaphound::expand::expand_paths;
use snaphound::expand::resolve_spec;
use snaphound::expand::DirSnapshot;
use snaphound::expand::FsView;
use snaphound::text::contains_sub;
use snaphound::text::sort_dedup_strings;
use snaphound::text::sort_strings;

fn fs_with(dirs: Vec<(&str, Vec<&str>)>) -> FsView {
    FsView {
        dirs: dirs
            .into_iter()
            .map(|(p, subs)| DirSnapshot {
                path: p.to_string(),
                subdirs: subs.into_iter().map(|s| s.to_string()).collect(),
            })
            .collect(),
    }
}

#[test]
fn wildcard_spec_yields_root_and_each_subdir_once() {
    let fs = fs_with(vec![("/r", vec!["/r/b", "/r/a"])]);
    let specs = vec!["/r/*".to_string()];
    let out = expand_paths(&specs, None, &fs);
    assert_eq!(out, vec!["/r".to_string(), "/r/a".to_string(), "/r/b".to_string()]);
}

#[test]
fn nonexistent_path_is_dropped_without_error() {
    let fs = fs_with(vec![("/r", vec![])]);
    let specs = vec!["/nope".to_string(), "/r".to_string(), "/nope/*".to_string()];
    let out = expand_paths(&specs, None, &fs);
    assert_eq!(out, vec!["/r".to_string()]);
}

#[test]
fn duplicate_roots_collapse() {
    let fs = fs_with(vec![("/r", vec!["/r/a"])]);
    let specs = vec!["/r".to_string(), "/r".to_string(), "/r/*".to_string()];
    let out = expand_paths(&specs, None, &fs);
    assert_eq!(out, vec!["/r".to_string(), "/r/a".to_string()]);
}

#[test]
fn home_alias_resolves_against_home() {
    let home = "/home/u".to_string();
    let (p, rec) = resolve_spec("~/pics", Some(&home));
    assert_eq!(p, "/home/u/pics");
    assert!(!rec);
    let (p2, rec2) = resolve_spec("~/pics/*", Some(&home));
    assert_eq!(p2, "/home/u/pics");
    assert!(rec2);
}

#[test]
fn home_star_expands_home_itself() {
    let home = "/home/u".to_string();
    let (p, rec) = resolve_spec("~/*", Some(&home));
    assert_eq!(p, "/home/u");
    assert!(rec);
    let fs = fs_with(vec![("/home/u", vec!["/home/u/docs"])]);
    let specs = vec!["~/*".to_string()];
    let out = expand_paths(&specs, Some(&home), &fs);
    assert_eq!(out, vec!["/home/u".to_string(), "/home/u/docs".to_string()]);
}

#[test]
fn missing_home_keeps_literal_spec() {
    let (p, rec) = resolve_spec("~/pics/*", None);
    assert_eq!(p, "~/pics");
    assert!(rec);
    let (p2, _) = resolve_spec("~/*", None);
    assert_eq!(p2, "~");
}

#[test]
fn plain_spec_trims_wildcard_only() {
    let (p, rec) = resolve_spec("/data/*", None);
    assert_eq!(p, "/data");
    assert!(rec);
    let (p2, rec2) = resolve_spec("/data", None);
    assert_eq!(p2, "/data");
    assert!(!rec2);
}

#[test]
fn env_paths_layout() {
    let p = EnvPaths::new("/tmp");
    assert_eq!(p.temp_dir, "/tmp/snaphound");
    assert_eq!(p.python_binary, "/tmp/snaphound/venv/bin/python");
    assert_eq!(p.config_path, "/tmp/snaphound/config.json");
    assert_eq!(p.search_path, "/tmp/snaphound/search.py");
    assert_eq!(p.thumbnail_path, "/tmp/snaphound/thumbnail");
}

#[test]
fn sorting_is_lexicographic_and_dedup_drops_exact_copies() {
    let v = vec!["b".to_string(), "a".to_string(), "b".to_string(), "ab".to_string()];
    let sorted = sort_strings(&v);
    assert_eq!(sorted, vec!["a".to_string(), "ab".to_string(), "b".to_string(), "b".to_string()]);
    let deduped = sort_dedup_strings(&v);
    assert_eq!(deduped, vec!["a".to_string(), "ab".to_string(), "b".to_string()]);
}

#[test]
fn substring_search_matches_rust_contains() {
    assert!(contains_sub("abc searched_result xyz", "searched_result"));
    assert!(!contains_sub("abc", "searched_result"));
    assert!(contains_sub("anything", ""));
    assert!(!contains_sub("", "a"));
}
