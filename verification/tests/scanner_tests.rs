use bigdiff::cli::{build_options, Args, OptionsError};
use bigdiff::scanner::{is_ignored, is_pruned, scan_dir, EntryKind, ScanResult, WalkEntry};
use bigdiff::tree::{deleted_dir_heads, find_covering_head, path_covers, path_under};

fn patterns(list: &[&str]) -> Vec<String> {
    list.iter().map(|p| p.to_string()).collect()
}

fn entry(rel: &str, kind: EntryKind) -> WalkEntry {
    WalkEntry {
        rel: rel.to_string(),
        abs: format!("/base/{rel}"),
        kind,
        size: Some(3),
        content: match kind {
            EntryKind::File => Some(b"abc".to_vec()),
            _ => None,
        },
    }
}

fn file_rels(scan: &ScanResult) -> Vec<String> {
    let mut rels: Vec<String> = scan.files.iter().map(|f| f.rel.clone()).collect();
    rels.sort();
    rels
}

fn dir_rels(scan: &ScanResult) -> Vec<String> {
    let mut rels = scan.dirs.clone();
    rels.sort();
    rels
}

fn args(ignore: &[&str], size: &str) -> Args {
    Args {
        base_dir: "a".to_string(),
        target_dir: "b".to_string(),
        output_dir: "out".to_string(),
        ignore: patterns(ignore),
        normalize_eol: true,
        max_text_size: size.to_string(),
        dry_run: false,
    }
}

#[test]
fn default_names_are_ignored() {
    let none = patterns(&[]);
    assert!(is_ignored(".git", &none));
    assert!(is_ignored("sub/.git", &none));
    assert!(is_ignored("a/b/__pycache__", &none));
    assert!(is_ignored(".DS_Store", &none));
    assert!(is_ignored("pics/Thumbs.db", &none));
    assert!(!is_ignored("src/main.rs", &none));
    assert!(!is_ignored(".gitignore", &none));
    assert!(!is_ignored(".git/config", &none));
}

#[test]
fn patterns_match_the_path_or_the_bare_name() {
    let pats = patterns(&["*.log", "build/*.tmp"]);
    assert!(is_ignored("run.log", &pats));
    assert!(is_ignored("deep/down/run.log", &pats));
    assert!(is_ignored("build/x.tmp", &pats));
    assert!(!is_ignored("other/x.tmp", &pats));
    assert!(!is_ignored("run.txt", &pats));
    assert!(is_ignored("exact", &patterns(&["exact"])));
    assert!(is_ignored("a/exact", &patterns(&["exact"])));
    assert!(!is_ignored("inexact", &patterns(&["exact"])));
}

#[test]
fn backslashes_count_as_separators_for_patterns() {
    assert!(is_ignored("build\\x.tmp", &patterns(&["build/x.tmp"])));
}

#[test]
fn a_pattern_that_does_not_compile_matches_nothing() {
    assert!(!is_ignored("abc", &patterns(&["[a"])));
}

#[test]
fn entries_below_an_ignored_directory_are_pruned() {
    let pats = patterns(&["node_modules"]);
    assert!(is_pruned("node_modules", &pats));
    assert!(is_pruned("node_modules/x/y.js", &pats));
    assert!(is_pruned("web/node_modules/x.js", &pats));
    assert!(is_pruned(".git/config", &pats));
    assert!(!is_pruned("web/src/x.js", &pats));
    assert!(!is_pruned("node_modules_2/x.js", &pats));
    assert!(!is_pruned("", &pats));
}

#[test]
fn scan_keeps_files_and_directories_by_relative_path() {
    let entries = vec![
        entry("", EntryKind::Directory),
        entry("src", EntryKind::Directory),
        entry("src/main.rs", EntryKind::File),
        entry("README.md", EntryKind::File),
        entry("link", EntryKind::Other),
    ];
    let scan = scan_dir("/base", entries, &patterns(&[]));
    assert_eq!(scan.root, "/base");
    assert_eq!(file_rels(&scan), vec!["README.md", "src/main.rs"]);
    assert_eq!(dir_rels(&scan), vec!["src"]);
    let main = scan.files.iter().find(|f| f.rel == "src/main.rs").unwrap();
    assert_eq!(main.abs, "/base/src/main.rs");
    assert_eq!(main.size, Some(3));
    assert_eq!(main.content, Some(b"abc".to_vec()));
}

#[test]
fn scan_leaves_out_ignored_subtrees() {
    let entries = vec![
        entry(".git", EntryKind::Directory),
        entry(".git/config", EntryKind::File),
        entry("target", EntryKind::Directory),
        entry("target/debug", EntryKind::Directory),
        entry("target/debug/app", EntryKind::File),
        entry("src", EntryKind::Directory),
        entry("src/a.log", EntryKind::File),
        entry("src/a.rs", EntryKind::File),
    ];
    let scan = scan_dir("/base", entries, &patterns(&["target", "*.log"]));
    assert_eq!(file_rels(&scan), vec!["src/a.rs"]);
    assert_eq!(dir_rels(&scan), vec!["src"]);
}

#[test]
fn scan_holds_each_path_once() {
    let entries = vec![
        entry("a.txt", EntryKind::File),
        entry("a.txt", EntryKind::File),
        entry("d", EntryKind::Directory),
        entry("d", EntryKind::Directory),
    ];
    let scan = scan_dir("/base", entries, &patterns(&[]));
    assert_eq!(file_rels(&scan), vec!["a.txt"]);
    assert_eq!(dir_rels(&scan), vec!["d"]);
    assert!(scan.contains_file(&"a.txt".to_string()));
    assert!(!scan.contains_file(&"d".to_string()));
    assert!(scan.contains_dir(&"d".to_string()));
}

#[test]
fn options_from_valid_arguments() {
    let opts = build_options(&args(&["*.log", "build/**"], "64KiB")).unwrap();
    assert!(opts.normalize_eol);
    assert!(!opts.dry_run);
    assert_eq!(opts.max_text_size, 65536);
    assert_eq!(opts.ignore_patterns, vec!["*.log", "build/**"]);
}

#[test]
fn first_invalid_pattern_is_reported() {
    match build_options(&args(&["*.log", "[a", "a**b"], "5MB")) {
        Err(OptionsError::InvalidPattern { index, pattern }) => {
            assert_eq!(index, 1);
            assert_eq!(pattern, "[a");
        }
        Ok(_) => panic!("an invalid pattern was accepted"),
    }
    let err = build_options(&args(&["a**b"], "5MB")).unwrap_err();
    assert_eq!(err.message(), "Invalid glob pattern: a**b");
}

#[test]
fn unreadable_size_gives_the_default() {
    assert_eq!(build_options(&args(&[], "huge")).unwrap().max_text_size, 5_000_000);
}

#[test]
fn below_and_covered() {
    assert!(path_under("old/a.txt", "old"));
    assert!(path_under("old/sub/a.txt", "old"));
    assert!(!path_under("old", "old"));
    assert!(!path_under("older/a.txt", "old"));
    assert!(!path_under("ol", "old"));
    assert!(path_covers(&"old".to_string(), &"old".to_string()));
    assert!(path_covers(&"old".to_string(), &"old/x".to_string()));
    assert!(!path_covers(&"old/x".to_string(), &"old".to_string()));
}

#[test]
fn covering_head_is_found() {
    let heads = vec!["old".to_string(), "x/gone".to_string()];
    assert_eq!(find_covering_head(&heads, &"x/gone/f".to_string()), Some(1));
    assert_eq!(find_covering_head(&heads, &"old".to_string()), Some(0));
    assert_eq!(find_covering_head(&heads, &"x/kept/f".to_string()), None);
}

#[test]
fn nested_deleted_directories_collapse_to_their_head() {
    let base = scan_dir(
        "/a",
        vec![
            entry("old/sub/deep", EntryKind::Directory),
            entry("old", EntryKind::Directory),
            entry("old/sub", EntryKind::Directory),
            entry("keep", EntryKind::Directory),
            entry("keep/gone", EntryKind::Directory),
            entry("older", EntryKind::Directory),
        ],
        &patterns(&[]),
    );
    let target = scan_dir("/b", vec![entry("keep", EntryKind::Directory)], &patterns(&[]));
    let mut heads = deleted_dir_heads(&base, &target);
    heads.sort();
    assert_eq!(heads, vec!["keep/gone", "old", "older"]);
    assert!(deleted_dir_heads(&target, &base).is_empty());
}
