use bigdiff::cli::Options;
use bigdiff::comment::{comment_style_for, CommentStyle};
use bigdiff::diff::{
    annotate_text_diff, copy_deleted_tree, dry_run_summary, render_changes, run_bigdiff, Artifact,
    ChangeKind, Counters, LineChange, Payload, Plan,
};
use bigdiff::scanner::{scan_dir, EntryKind, ScanResult, WalkEntry};

fn file(rel: &str, root: &str, content: &[u8]) -> WalkEntry {
    WalkEntry {
        rel: rel.to_string(),
        abs: format!("{root}/{rel}"),
        kind: EntryKind::File,
        size: Some(content.len() as u64),
        content: Some(content.to_vec()),
    }
}

fn dir(rel: &str, root: &str) -> WalkEntry {
    WalkEntry {
        rel: rel.to_string(),
        abs: format!("{root}/{rel}"),
        kind: EntryKind::Directory,
        size: Some(0),
        content: None,
    }
}

fn scan(root: &str, entries: Vec<WalkEntry>) -> ScanResult {
    scan_dir(root, entries, &Vec::new())
}

fn options(max_text_size: u64) -> Options {
    Options { normalize_eol: false, max_text_size, ignore_patterns: Vec::new(), dry_run: false }
}

fn tallies(c: &Counters) -> [usize; 6] {
    [c.same, c.new_files, c.del_files, c.mod_text, c.mod_binary, c.del_dirs]
}

fn find<'a>(plan: &'a Plan, path: &str) -> &'a Artifact {
    let hits: Vec<&Artifact> = plan.artifacts.iter().filter(|a| a.path == path).collect();
    assert_eq!(hits.len(), 1);
    hits[0]
}

fn assert_copy(artifact: &Artifact, from: &str, best: bool) {
    match &artifact.payload {
        Payload::CopyOf { source, best_effort } => {
            assert_eq!(source, from);
            assert_eq!(*best_effort, best);
        }
        _ => panic!("expected a copy"),
    }
}

fn text_of(artifact: &Artifact) -> &str {
    match &artifact.payload {
        Payload::Text { content } => content,
        _ => panic!("expected a text"),
    }
}

fn note_of(artifact: &Artifact) -> &str {
    match &artifact.payload {
        Payload::Note { content } => content,
        _ => panic!("expected a note"),
    }
}

fn change(kind: ChangeKind, text: &str) -> LineChange {
    LineChange { kind, text: text.to_string() }
}

#[test]
fn renders_each_kind_of_change() {
    let style = comment_style_for("x.rs");
    let changes = vec![
        change(ChangeKind::Equal, "a\n"),
        change(ChangeKind::Delete, "b\n"),
        change(ChangeKind::Insert, "c\n"),
        change(ChangeKind::Equal, "d"),
    ];
    assert_eq!(render_changes(&changes, &style), "a\n// DELETED: b\nc // NEW\nd");
    assert_eq!(render_changes(&Vec::new(), &style), "");
}

#[test]
fn renders_with_a_block_style() {
    let style = CommentStyle::Block {
        open: "/*".to_string(),
        close: "*/".to_string(),
        new_block: "/* NEW */".to_string(),
    };
    let changes = vec![change(ChangeKind::Delete, "x"), change(ChangeKind::Insert, "y\n")];
    assert_eq!(render_changes(&changes, &style), "/* DELETED: x */y/* NEW */\n");
}

#[test]
fn annotates_an_added_line() {
    let style = comment_style_for("notes.txt");
    let out = annotate_text_diff(&b"hello\n".to_vec(), &b"hello\nworld\n".to_vec(), &style, false);
    assert_eq!(out, "hello\nworld # NEW\n");
}

#[test]
fn annotates_a_removed_and_a_replaced_line() {
    let style = comment_style_for("main.c");
    let out = annotate_text_diff(&b"a\nb\nc\n".to_vec(), &b"a\nc\n".to_vec(), &style, false);
    assert_eq!(out, "a\n// DELETED: b\nc\n");
    let out = annotate_text_diff(&b"a\nb\n".to_vec(), &b"a\nB\n".to_vec(), &style, false);
    assert_eq!(out, "a\n// DELETED: b\nB // NEW\n");
}

#[test]
fn annotation_keeps_a_missing_final_terminator() {
    let style = comment_style_for("notes.txt");
    let out = annotate_text_diff(&b"one\ntwo".to_vec(), &b"one\nthree".to_vec(), &style, false);
    assert_eq!(out, "one\n# DELETED: twothree # NEW");
}

#[test]
fn line_end_convention_alone_is_no_change_when_normalised() {
    let style = comment_style_for("notes.txt");
    let a = b"one\r\ntwo\r\n".to_vec();
    let b = b"one\ntwo\n".to_vec();
    assert_eq!(annotate_text_diff(&a, &b, &style, true), "one\ntwo\n");
    assert_ne!(annotate_text_diff(&a, &b, &style, false), "one\ntwo\n");
}

#[test]
fn stripping_the_markers_gives_both_texts_back() {
    let style = comment_style_for("notes.txt");
    let a = "keep\ngone\nalso keep\n";
    let b = "keep\nalso keep\nfresh\n";
    let out = annotate_text_diff(&a.as_bytes().to_vec(), &b.as_bytes().to_vec(), &style, false);
    let mut base = String::new();
    let mut target = String::new();
    for line in out.split_inclusive('\n') {
        if let Some(rest) = line.strip_prefix("# DELETED: ") {
            base.push_str(rest);
        } else if let Some(rest) = line.strip_suffix(" # NEW\n") {
            target.push_str(rest);
            target.push('\n');
        } else {
            base.push_str(line);
            target.push_str(line);
        }
    }
    assert_eq!(base, a);
    assert_eq!(target, b);
}

#[test]
fn counters_start_at_zero() {
    assert_eq!(tallies(&Counters::default()), [0, 0, 0, 0, 0, 0]);
}

#[test]
fn failed_best_effort_copy_is_taken_back() {
    let mut c = Counters::default();
    c.del_files = 2;
    c.del_dirs = 1;
    c.discount_failed_copy();
    assert_eq!(tallies(&c), [0, 0, 1, 0, 0, 1]);
    c.discount_failed_copy();
    c.discount_failed_copy();
    assert_eq!(tallies(&c), [0, 0, 0, 0, 0, 1]);
}

#[test]
fn identical_files_give_no_artifact() {
    let a = scan("/a", vec![file("same.txt", "/a", b"x\n"), file("b.bin", "/a", &[0, 1])]);
    let b = scan("/b", vec![file("same.txt", "/b", b"x\n"), file("b.bin", "/b", &[0, 1])]);
    let plan = run_bigdiff(&a, &b, &Vec::new(), Vec::new(), &options(1000));
    assert!(plan.artifacts.is_empty());
    assert!(!plan.aborted);
    assert_eq!(tallies(&plan.counters), [2, 0, 0, 0, 0, 0]);
}

#[test]
fn file_only_in_target_is_new() {
    let a = scan("/a", vec![]);
    let b = scan("/b", vec![file("sub/n.txt", "/b", b"n")]);
    let plan = run_bigdiff(&a, &b, &Vec::new(), Vec::new(), &options(1000));
    assert_eq!(plan.artifacts.len(), 1);
    assert_copy(find(&plan, "sub/n.txt.new"), "/b/sub/n.txt", false);
    assert_eq!(tallies(&plan.counters), [0, 1, 0, 0, 0, 0]);
}

#[test]
fn file_only_in_base_is_a_loose_deleted_file() {
    let a = scan("/a", vec![dir("sub", "/a"), file("sub/d.txt", "/a", b"d")]);
    let b = scan("/b", vec![dir("sub", "/b")]);
    let plan = run_bigdiff(&a, &b, &Vec::new(), Vec::new(), &options(1000));
    assert_eq!(plan.artifacts.len(), 1);
    assert_copy(find(&plan, "sub/d.txt.deleted"), "/a/sub/d.txt", false);
    assert_eq!(tallies(&plan.counters), [0, 0, 1, 0, 0, 0]);
}

#[test]
fn added_line_is_marked_in_the_modified_file() {
    let a = scan("/a", vec![file("notes.txt", "/a", b"hello\n")]);
    let b = scan("/b", vec![file("notes.txt", "/b", b"hello\nworld\n")]);
    let plan = run_bigdiff(&a, &b, &Vec::new(), Vec::new(), &options(5_000_000));
    assert_eq!(plan.artifacts.len(), 1);
    assert_eq!(text_of(find(&plan, "notes.txt.modified")), "hello\nworld # NEW\n");
    assert_eq!(tallies(&plan.counters), [0, 0, 0, 1, 0, 0]);
}

#[test]
fn deleted_directory_is_laid_out_as_a_unit() {
    let a = scan("/a", vec![dir("old", "/a"), file("old/a.txt", "/a", b"a")]);
    let b = scan("/b", vec![]);
    let on_disk = vec![dir("old", "/a"), file("old/a.txt", "/a", b"a")];
    let plan = run_bigdiff(&a, &b, &on_disk, Vec::new(), &options(1000));
    assert_eq!(plan.artifacts.len(), 2);
    assert!(matches!(find(&plan, "old.deleted").payload, Payload::Directory));
    assert_copy(find(&plan, "old.deleted/a.txt.deleted.deleted"), "/a/old/a.txt", true);
    assert_eq!(plan.counters.del_dirs, 1);
    assert_eq!(plan.counters.del_files, 1);
    assert_eq!(tallies(&plan.counters), [0, 0, 1, 0, 0, 1]);
}

#[test]
fn same_bytes_under_other_names_are_not_diffed() {
    let a = scan("/a", vec![file("data.txt", "/a", b"same bytes\n")]);
    let b = scan("/b", vec![file("data.md", "/b", b"same bytes\n")]);
    let plan = run_bigdiff(&a, &b, &Vec::new(), Vec::new(), &options(1000));
    assert_eq!(plan.artifacts.len(), 2);
    assert_copy(find(&plan, "data.txt.deleted"), "/a/data.txt", false);
    assert_copy(find(&plan, "data.md.new"), "/b/data.md", false);
    assert_eq!(tallies(&plan.counters), [0, 1, 1, 0, 0, 0]);
}

#[test]
fn oversized_file_is_copied_with_a_note() {
    let a = scan("/a", vec![file("img.png", "/a", b"old picture")]);
    let b = scan("/b", vec![file("img.png", "/b", b"a much larger new picture")]);
    let plan = run_bigdiff(&a, &b, &Vec::new(), Vec::new(), &options(10));
    assert_eq!(plan.artifacts.len(), 2);
    assert_copy(find(&plan, "img.png.modified"), "/b/img.png", false);
    assert_eq!(
        note_of(find(&plan, "img.png.modified.NOTE.txt")),
        "File treated as binary or too large for line diff.\n\
Base origin (A): \"/a/img.png\"\n\
Target origin (B): \"/b/img.png\"\n\
Size: 25 bytes\n\
Strategy: direct copy from target to '.modified'.\n"
    );
    assert_eq!(plan.counters.mod_binary, 1);
    assert_eq!(plan.counters.mod_text, 0);
}

#[test]
fn size_at_the_threshold_is_still_diffed() {
    let a = scan("/a", vec![file("t.txt", "/a", b"12345678\n")]);
    let b = scan("/b", vec![file("t.txt", "/b", b"123456789\n")]);
    let plan = run_bigdiff(&a, &b, &Vec::new(), Vec::new(), &options(10));
    assert_eq!(tallies(&plan.counters), [0, 0, 0, 1, 0, 0]);
    let plan = run_bigdiff(&a, &b, &Vec::new(), Vec::new(), &options(9));
    assert_eq!(tallies(&plan.counters), [0, 0, 0, 0, 1, 0]);
}

#[test]
fn binary_target_is_copied_with_a_note() {
    let a = scan("/a", vec![file("blob", "/a", b"text before")]);
    let b = scan("/b", vec![file("blob", "/b", &[1, 0, 2])]);
    let plan = run_bigdiff(&a, &b, &Vec::new(), Vec::new(), &options(1000));
    assert_copy(find(&plan, "blob.modified"), "/b/blob", false);
    assert!(note_of(find(&plan, "blob.modified.NOTE.txt")).contains("Size: 3 bytes"));
    assert_eq!(tallies(&plan.counters), [0, 0, 0, 0, 1, 0]);
}

#[test]
fn unreadable_target_is_treated_as_binary() {
    let a = scan("/a", vec![file("f.txt", "/a", b"x")]);
    let mut unreadable = file("f.txt", "/b", b"");
    unreadable.content = None;
    let b = scan("/b", vec![unreadable]);
    let plan = run_bigdiff(&a, &b, &Vec::new(), Vec::new(), &options(1000));
    assert_copy(find(&plan, "f.txt.modified"), "/b/f.txt", false);
    assert_eq!(tallies(&plan.counters), [0, 0, 0, 0, 1, 0]);
}

#[test]
fn unreadable_base_text_ends_the_run() {
    let mut unreadable = file("a.txt", "/a", b"");
    unreadable.content = None;
    let a = scan("/a", vec![unreadable]);
    let b = scan("/b", vec![file("a.txt", "/b", b"text\n")]);
    let plan = run_bigdiff(&a, &b, &Vec::new(), Vec::new(), &options(1000));
    assert!(plan.aborted);
    assert_eq!(plan.artifacts.len(), 1);
    let last = find(&plan, "a.txt.modified");
    assert!(matches!(&last.payload, Payload::Unreadable { source } if source == "/a/a.txt"));
    assert_eq!(tallies(&plan.counters), [0, 0, 0, 0, 0, 0]);
}

#[test]
fn target_of_unknown_size_ends_the_run() {
    let a = scan("/a", vec![file("f.txt", "/a", b"x\n")]);
    let mut sizeless = file("f.txt", "/b", b"y\n");
    sizeless.size = None;
    let b = scan("/b", vec![sizeless]);
    let plan = run_bigdiff(&a, &b, &Vec::new(), Vec::new(), &options(1000));
    assert!(plan.aborted);
    assert_eq!(plan.artifacts.len(), 1);
    let last = find(&plan, "f.txt.modified");
    assert!(matches!(&last.payload, Payload::Unreadable { source } if source == "/b/f.txt"));
    assert_eq!(tallies(&plan.counters), [0, 0, 0, 0, 0, 0]);
}

#[test]
fn unknown_size_does_not_matter_for_an_unchanged_file() {
    let mut left = file("f.txt", "/a", b"x\n");
    left.size = None;
    let mut right = file("f.txt", "/b", b"x\n");
    right.size = None;
    let plan =
        run_bigdiff(&scan("/a", vec![left]), &scan("/b", vec![right]), &Vec::new(), Vec::new(), &options(1000));
    assert!(!plan.aborted);
    assert_eq!(tallies(&plan.counters), [1, 0, 0, 0, 0, 0]);
}

#[test]
fn long_texts_are_diffed_line_by_line() {
    let mut a = String::new();
    let mut b = String::new();
    let mut expected = String::new();
    for n in 0..300 {
        a.push_str(&format!("line {n}\r\n"));
        if n % 7 == 3 {
            expected.push_str(&format!("# DELETED: line {n}\r\n"));
        } else {
            b.push_str(&format!("line {n}\r\n"));
            expected.push_str(&format!("line {n}\r\n"));
        }
    }
    b.push_str("tail");
    expected.push_str("tail # NEW");
    let style = comment_style_for("notes.txt");
    let out = annotate_text_diff(&a.into_bytes(), &b.into_bytes(), &style, false);
    assert_eq!(out, expected);
}

#[test]
fn files_under_a_deleted_head_are_not_loose() {
    let tree = vec![
        dir("old", "/a"),
        dir("old/sub", "/a"),
        file("old/a.txt", "/a", b"a"),
        file("old/sub/b.txt", "/a", b"b"),
        file("top.txt", "/a", b"t"),
    ];
    let a = scan("/a", tree);
    let b = scan("/b", vec![]);
    let on_disk = vec![
        dir("old", "/a"),
        file("old/a.txt", "/a", b"a"),
        dir("old/sub", "/a"),
        file("old/sub/b.txt", "/a", b"b"),
    ];
    let plan = run_bigdiff(&a, &b, &on_disk, Vec::new(), &options(1000));
    assert_eq!(tallies(&plan.counters), [0, 0, 3, 0, 0, 1]);
    assert!(matches!(find(&plan, "old.deleted/sub.deleted").payload, Payload::Directory));
    assert_copy(find(&plan, "old.deleted/sub.deleted/b.txt.deleted.deleted"), "/a/old/sub/b.txt", true);
    assert_copy(find(&plan, "top.txt.deleted"), "/a/top.txt", false);
    assert!(plan.artifacts.iter().all(|x| x.path != "old/a.txt.deleted"));
    assert_eq!(plan.artifacts.len(), 5);
}

#[test]
fn components_above_the_head_keep_their_names() {
    let a = scan("/a", vec![dir("keep", "/a"), dir("keep/gone", "/a"), file("keep/gone/f", "/a", b"f")]);
    let b = scan("/b", vec![dir("keep", "/b")]);
    let on_disk = vec![dir("keep/gone", "/a"), file("keep/gone/f", "/a", b"f")];
    let plan = run_bigdiff(&a, &b, &on_disk, Vec::new(), &options(1000));
    assert!(matches!(find(&plan, "keep/gone.deleted").payload, Payload::Directory));
    assert_copy(find(&plan, "keep/gone.deleted/f.deleted.deleted"), "/a/keep/gone/f", true);
    assert_eq!(tallies(&plan.counters), [0, 0, 1, 0, 0, 1]);
}

#[test]
fn entries_outside_every_head_add_nothing() {
    let mut plan = Plan {
        counters: Counters::default(),
        artifacts: Vec::new(),
        taken: Vec::new(),
        aborted: false,
    };
    let heads = vec!["old".to_string()];
    copy_deleted_tree(&mut plan, &heads, &vec![file("other/x", "/a", b"x"), dir("older", "/a")]);
    assert!(plan.artifacts.is_empty());
    assert_eq!(tallies(&plan.counters), [0, 0, 0, 0, 0, 0]);
}

#[test]
fn artifacts_never_share_a_path() {
    let a = scan("/a", vec![]);
    let b = scan("/b", vec![file("n.txt", "/b", b"1"), file("n (1).txt", "/b", b"2")]);
    let existing = vec!["n.txt.new".to_string()];
    let plan = run_bigdiff(&a, &b, &Vec::new(), existing, &options(1000));
    assert_eq!(plan.artifacts.len(), 2);
    assert_copy(find(&plan, "n.txt (1).new"), "/b/n.txt", false);
    assert_copy(find(&plan, "n (1).txt.new"), "/b/n (1).txt", false);
    assert!(plan.taken.contains(&"n.txt (1).new".to_string()));
    assert!(plan.taken.contains(&"n.txt.new".to_string()));
}

#[test]
fn second_artifact_for_one_path_gets_a_number() {
    let a = scan("/a", vec![file("x.deleted", "/a", b"1"), file("x", "/a", b"2")]);
    let b = scan("/b", vec![file("x.deleted", "/b", b"1")]);
    let existing = vec!["x.deleted".to_string()];
    let plan = run_bigdiff(&a, &b, &Vec::new(), existing, &options(1000));
    assert_copy(find(&plan, "x (1).deleted"), "/a/x", false);
    let again = run_bigdiff(&a, &b, &Vec::new(), plan.taken.clone(), &options(1000));
    assert_copy(find(&again, "x (2).deleted"), "/a/x", false);
}

#[test]
fn tallies_are_the_same_on_a_second_run() {
    let a = scan(
        "/a",
        vec![file("same", "/a", b"s"), file("gone", "/a", b"g"), file("mod.txt", "/a", b"1\n")],
    );
    let b = scan(
        "/b",
        vec![file("same", "/b", b"s"), file("new", "/b", b"n"), file("mod.txt", "/b", b"2\n")],
    );
    let first = run_bigdiff(&a, &b, &Vec::new(), Vec::new(), &options(1000));
    let second = run_bigdiff(&a, &b, &Vec::new(), first.taken.clone(), &options(1000));
    assert_eq!(tallies(&first.counters), [1, 1, 1, 1, 0, 0]);
    assert_eq!(tallies(&second.counters), tallies(&first.counters));
    assert_eq!(second.artifacts.len(), first.artifacts.len());
    assert_eq!(first.artifacts[0].path, "gone.deleted");
    assert_eq!(second.artifacts[0].path, "gone (1).deleted");
}

#[test]
fn dry_run_counts_without_comparing() {
    let a = scan("/a", vec![file("both", "/a", b"1"), file("base-only", "/a", b"2")]);
    let b = scan(
        "/b",
        vec![file("both", "/b", b"changed"), file("t1", "/b", b"3"), file("t2", "/b", b"4")],
    );
    let summary = dry_run_summary(&a, &b);
    assert_eq!(summary.only_base, 1);
    assert_eq!(summary.only_target, 2);
    assert_eq!(summary.common, 1);
}

#[test]
fn directory_made_for_an_artifact_is_in_use() {
    let a = scan("/a", vec![]);
    let b = scan("/b", vec![file("foo", "/b", b"1"), file("foo.new/a", "/b", b"2")]);
    let plan = run_bigdiff(&a, &b, &Vec::new(), Vec::new(), &options(1000));
    assert_eq!(plan.artifacts.len(), 2);
    assert_eq!(plan.artifacts[0].path, "foo.new/a.new");
    assert_eq!(plan.artifacts[1].path, "foo (1).new");
    assert!(plan.taken.contains(&"foo.new".to_string()));
}

#[test]
fn copies_differ_from_all_earlier_paths() {
    let a = scan(
        "/a",
        vec![file("x", "/a", b"1"), file("x.deleted", "/a", b"2"), file("y", "/a", b"3")],
    );
    let b = scan("/b", vec![file("y", "/b", b"changed"), file("z", "/b", b"4")]);
    let existing = vec!["x.deleted".to_string(), "z.new".to_string(), "y.modified".to_string()];
    let plan = run_bigdiff(&a, &b, &Vec::new(), existing.clone(), &options(1000));
    let mut seen = existing;
    for artifact in &plan.artifacts {
        assert!(!seen.contains(&artifact.path));
        seen.push(artifact.path.clone());
    }
    assert_eq!(tallies(&plan.counters), [0, 1, 2, 1, 0, 0]);
}
