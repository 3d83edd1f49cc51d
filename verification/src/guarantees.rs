//! What holds of every comparison: which files give which artifacts, that
//! deleted subtrees are laid out as units, that no copy overwrites
//! anything, and that the tallies do not depend on the output tree.

use crate::comment::style_of_path;
use crate::diff::{
    after_common, after_loose_deleted, after_new, after_subtrees, annotated, common_step,
    count_missing, decodable, file_position, initial_plan, line_diff, loose_deleted_step,
    modified_step, new_step, note_text, planned, subtree_dest, subtree_step, with_artifact,
    with_copy, with_counters, ArtifactModel, Counters, PayloadModel, PlanModel,
};
use crate::scanner::{EntryKind, FileEntry, ScanResult, WalkEntry};
use crate::tree::{
    covering_head, covers, heads_among, heads_of, is_under, lemma_covering_head,
    lemma_deleted_dir_has_head, lemma_under_transitive,
};
use crate::utils::{
    digests_agree, lemma_placed_is_free, names, numbered, placed, sniffed_binary, text_of,
};
use vstd::prelude::*;

verus! {

/// Two files with the same bytes are never diffed, whatever their names:
/// the pair counts as unchanged once and adds no artifact.
pub proof fn lemma_identical_files_add_nothing(
    plan: PlanModel,
    fa: FileEntry,
    fb: FileEntry,
    normalize_eol: bool,
    max: u64,
)
    requires
        !plan.aborted,
        fa.content is Some,
        fb.content is Some,
        fa.content->0@ == fb.content->0@,
    ensures
        modified_step(plan, fa, fb, normalize_eol, max) == with_counters(
            plan,
            plan.counters.one_more_same(),
        ),
{
}

/// A file that both trees hold with the same bytes gives no artifact and
/// counts once as unchanged.
pub proof fn lemma_unchanged_file_adds_nothing(
    plan: PlanModel,
    b: ScanResult,
    fa: FileEntry,
    normalize_eol: bool,
    max: u64,
)
    requires
        !plan.aborted,
        file_position(b.files@, fa.rel@) >= 0,
        fa.content is Some,
        b.files@[file_position(b.files@, fa.rel@)].content is Some,
        fa.content->0@ == b.files@[file_position(b.files@, fa.rel@)].content->0@,
    ensures
        common_step(plan, b, fa, normalize_eol, max) == with_counters(
            plan,
            plan.counters.one_more_same(),
        ),
{
}

/// A file that only the target tree holds gives exactly one artifact: a
/// copy of it under the first free name for its path with `.new`; it counts
/// once as new. A file that the base tree holds too gives none.
pub proof fn lemma_new_file_artifact(plan: PlanModel, a: ScanResult, f: FileEntry)
    ensures
        !a.has_file(f.rel@) ==> {
            let next = new_step(plan, a, f);
            &&& next.artifacts == plan.artifacts.push(
                ArtifactModel {
                    path: placed(plan.taken, f.rel@ + ".new"@),
                    payload: PayloadModel::CopyOf { source: f.abs@, best_effort: false },
                },
            )
            &&& next.counters == plan.counters.one_more_new()
        },
        a.has_file(f.rel@) ==> new_step(plan, a, f) == plan,
{
}

/// A file that only the base tree holds, outside every deleted subtree,
/// gives exactly one artifact: a copy of it under the first free name for
/// its path with `.deleted`; it counts once as deleted.
pub proof fn lemma_loose_deleted_artifact(
    plan: PlanModel,
    heads: Seq<Seq<char>>,
    b: ScanResult,
    f: FileEntry,
)
    requires
        !b.has_file(f.rel@),
        covering_head(heads, f.rel@) is None,
    ensures
        loose_deleted_step(plan, heads, b, f).artifacts == plan.artifacts.push(
            ArtifactModel {
                path: placed(plan.taken, f.rel@ + ".deleted"@),
                payload: PayloadModel::CopyOf { source: f.abs@, best_effort: false },
            },
        ),
        loose_deleted_step(plan, heads, b, f).counters == plan.counters.one_more_deleted(),
{
}

/// Subtree collapsing dominates: a file below a directory that the target
/// tree lacks is never laid out as a loose deleted file.
pub proof fn lemma_no_loose_file_under_deleted_dir(
    plan: PlanModel,
    a: ScanResult,
    b: ScanResult,
    d: Seq<char>,
    f: FileEntry,
)
    requires
        a.has_dir(d),
        !b.has_dir(d),
        is_under(f.rel@, d),
    ensures
        loose_deleted_step(plan, heads_of(a, b), b, f) == plan,
{
    let a_dirs = names(a.dirs@);
    let b_dirs = names(b.dirs@);
    lemma_deleted_dir_has_head(a_dirs, b_dirs, d);
    let h = choose|h: Seq<char>| #[trigger]
        heads_among(a_dirs, a_dirs, b_dirs).contains(h) && covers(h, d);
    if h != d {
        lemma_under_transitive(f.rel@, d, h);
    }
    assert(covers(h, f.rel@));
    lemma_covering_head(heads_of(a, b), f.rel@);
}

/// Within a deleted subtree the head counts once as a deleted directory,
/// no directory below it counts, and every other entry counts once as a
/// deleted file.
pub proof fn lemma_subtree_tallies(plan: PlanModel, heads: Seq<Seq<char>>, e: WalkEntry)
    requires
        covering_head(heads, e.rel@) is Some,
    ensures
        ({
            let next = subtree_step(plan, heads, e);
            let h = covering_head(heads, e.rel@)->0;
            &&& next.artifacts.len() == plan.artifacts.len() + 1
            &&& e.kind == EntryKind::Directory && e.rel@ == h ==> next.counters
                == plan.counters.one_more_dir()
            &&& e.kind == EntryKind::Directory && e.rel@ != h ==> next.counters == plan.counters
            &&& e.kind != EntryKind::Directory ==> next.counters
                == plan.counters.one_more_deleted()
        }),
{
}

/// A copy never overwrites: its path is none of those in use; and where
/// the wanted path is in use and `name (1).ext` is free, the copy goes
/// there.
pub proof fn lemma_copy_never_overwrites(
    plan: PlanModel,
    wanted: Seq<char>,
    source: Seq<char>,
    best_effort: bool,
)
    ensures
        !plan.taken.contains(with_copy(plan, wanted, source, best_effort).artifacts.last().path),
        with_copy(plan, wanted, source, best_effort).taken.contains(
            with_copy(plan, wanted, source, best_effort).artifacts.last().path,
        ),
        plan.taken.contains(wanted) && !plan.taken.contains(numbered(wanted, 1)) ==> with_copy(
            plan,
            wanted,
            source,
            best_effort,
        ).artifacts.last().path == numbered(wanted, 1),
{
    lemma_placed_is_free(plan.taken, wanted);
    let next = with_copy(plan, wanted, source, best_effort);
    assert(next.taken[next.taken.len() - 1] == placed(plan.taken, wanted));
}

/// Whether an artifact is written under a path of its own: all are but
/// directories, which may exist already, and notes, which go beside their
/// copy.
pub open spec fn wants_fresh_path(payload: PayloadModel) -> bool {
    !(payload is Directory) && !(payload is Note)
}

/// Nothing is overwritten: every path that the output tree held before is
/// still in use, every artifact's path is in use, and the path of a copy, a
/// diff or an unreadable file is neither one that the output tree held
/// before nor that of an earlier artifact.
pub open spec fn copies_are_fresh(plan: PlanModel, existing: Seq<Seq<char>>) -> bool {
    &&& forall|k: int| 0 <= k < existing.len() ==> plan.taken.contains(#[trigger] existing[k])
    &&& forall|j: int|
        0 <= j < plan.artifacts.len() ==> plan.taken.contains((#[trigger] plan.artifacts[j]).path)
    &&& forall|i: int, j: int|
        0 <= j < i < plan.artifacts.len() && wants_fresh_path((#[trigger] plan.artifacts[i]).payload)
            ==> (#[trigger] plan.artifacts[j]).path != plan.artifacts[i].path
    &&& forall|i: int|
        0 <= i < plan.artifacts.len() && wants_fresh_path((#[trigger] plan.artifacts[i]).payload)
            ==> !existing.contains(plan.artifacts[i].path)
}

proof fn lemma_artifact_keeps_fresh(
    plan: PlanModel,
    existing: Seq<Seq<char>>,
    path: Seq<char>,
    payload: PayloadModel,
)
    requires
        copies_are_fresh(plan, existing),
        wants_fresh_path(payload) ==> !plan.taken.contains(path),
    ensures
        copies_are_fresh(with_artifact(plan, path, payload), existing),
{
    let next = with_artifact(plan, path, payload);
    let n = plan.artifacts.len() as int;
    assert forall|e: Seq<char>| plan.taken.contains(e) implies next.taken.contains(e) by {
        let k = choose|k: int| 0 <= k < plan.taken.len() && plan.taken[k] == e;
        assert(next.taken[k] == e);
    }
    assert(next.taken[next.taken.len() - 1] == path);
    assert forall|j: int| 0 <= j < next.artifacts.len() implies next.taken.contains(
        (#[trigger] next.artifacts[j]).path,
    ) by {
        if j < n {
            assert(next.artifacts[j] == plan.artifacts[j]);
        }
    }
    assert forall|i: int, j: int|
        0 <= j < i < next.artifacts.len() && wants_fresh_path((#[trigger] next.artifacts[i]).payload)
            implies (#[trigger] next.artifacts[j]).path != next.artifacts[i].path by {
        assert(next.artifacts[j] == plan.artifacts[j]);
        if i < n {
            assert(next.artifacts[i] == plan.artifacts[i]);
        } else {
            assert(plan.taken.contains(plan.artifacts[j].path));
        }
    }
    assert forall|i: int|
        0 <= i < next.artifacts.len() && wants_fresh_path((#[trigger] next.artifacts[i]).payload)
            implies !existing.contains(next.artifacts[i].path) by {
        if i < n {
            assert(next.artifacts[i] == plan.artifacts[i]);
        } else if existing.contains(path) {
            let k = choose|k: int| 0 <= k < existing.len() && existing[k] == path;
            assert(plan.taken.contains(existing[k]));
        }
    }
}

proof fn lemma_copy_keeps_fresh(
    plan: PlanModel,
    existing: Seq<Seq<char>>,
    wanted: Seq<char>,
    source: Seq<char>,
    best_effort: bool,
)
    requires
        copies_are_fresh(plan, existing),
    ensures
        copies_are_fresh(with_copy(plan, wanted, source, best_effort), existing),
{
    lemma_placed_is_free(plan.taken, wanted);
    lemma_artifact_keeps_fresh(
        plan,
        existing,
        placed(plan.taken, wanted),
        PayloadModel::CopyOf { source, best_effort },
    );
}

proof fn lemma_subtree_step_keeps_fresh(
    plan: PlanModel,
    existing: Seq<Seq<char>>,
    heads: Seq<Seq<char>>,
    e: WalkEntry,
)
    requires
        copies_are_fresh(plan, existing),
    ensures
        copies_are_fresh(subtree_step(plan, heads, e), existing),
{
    match covering_head(heads, e.rel@) {
        None => {},
        Some(h) => {
            let dest = subtree_dest(h, e.rel@);
            if e.kind == EntryKind::Directory {
                let counted = with_counters(
                    plan,
                    if e.rel@ == h {
                        plan.counters.one_more_dir()
                    } else {
                        plan.counters
                    },
                );
                lemma_artifact_keeps_fresh(counted, existing, dest, PayloadModel::Directory);
            } else {
                lemma_copy_keeps_fresh(
                    with_counters(plan, plan.counters.one_more_deleted()),
                    existing,
                    dest + ".deleted"@,
                    e.abs@,
                    true,
                );
            }
        },
    }
}

proof fn lemma_modified_step_keeps_fresh(
    plan: PlanModel,
    existing: Seq<Seq<char>>,
    fa: FileEntry,
    fb: FileEntry,
    normalize_eol: bool,
    max: u64,
)
    requires
        copies_are_fresh(plan, existing),
    ensures
        copies_are_fresh(modified_step(plan, fa, fb, normalize_eol, max), existing),
{
    let dest = placed(plan.taken, fa.rel@ + ".modified"@);
    lemma_placed_is_free(plan.taken, fa.rel@ + ".modified"@);
    if plan.aborted {
    } else if digests_agree(fa.content, fb.content) {
    } else if fb.size is None {
        lemma_artifact_keeps_fresh(
            plan,
            existing,
            dest,
            PayloadModel::Unreadable { source: fb.abs@ },
        );
    } else if sniffed_binary(fb.content) || fb.size->0 > max {
        let counted = with_counters(plan, plan.counters.one_more_binary());
        lemma_copy_keeps_fresh(counted, existing, fa.rel@ + ".modified"@, fb.abs@, false);
        lemma_artifact_keeps_fresh(
            with_copy(counted, fa.rel@ + ".modified"@, fb.abs@, false),
            existing,
            dest + ".NOTE.txt"@,
            PayloadModel::Note { content: note_text(fa.abs@, fb.abs@, fb.size->0) },
        );
    } else if decodable(fa.content) && decodable(fb.content) {
        lemma_artifact_keeps_fresh(
            with_counters(plan, plan.counters.one_more_text()),
            existing,
            dest,
            PayloadModel::Text {
                content: annotated(
                    style_of_path(fa.rel@),
                    line_diff(
                        text_of(fa.content->0@, normalize_eol),
                        text_of(fb.content->0@, normalize_eol),
                    ),
                ),
            },
        );
    } else {
        lemma_artifact_keeps_fresh(
            plan,
            existing,
            dest,
            PayloadModel::Unreadable { source: fa.abs@ },
        );
    }
}

proof fn lemma_subtrees_keep_fresh(
    plan: PlanModel,
    existing: Seq<Seq<char>>,
    heads: Seq<Seq<char>>,
    entries: Seq<WalkEntry>,
)
    requires
        copies_are_fresh(plan, existing),
    ensures
        copies_are_fresh(after_subtrees(plan, heads, entries), existing),
    decreases entries.len(),
{
    if entries.len() > 0 {
        lemma_subtrees_keep_fresh(plan, existing, heads, entries.drop_last());
        lemma_subtree_step_keeps_fresh(
            after_subtrees(plan, heads, entries.drop_last()),
            existing,
            heads,
            entries.last(),
        );
    }
}

proof fn lemma_loose_deleted_keep_fresh(
    plan: PlanModel,
    existing: Seq<Seq<char>>,
    heads: Seq<Seq<char>>,
    b: ScanResult,
    files: Seq<FileEntry>,
)
    requires
        copies_are_fresh(plan, existing),
    ensures
        copies_are_fresh(after_loose_deleted(plan, heads, b, files), existing),
    decreases files.len(),
{
    if files.len() > 0 {
        lemma_loose_deleted_keep_fresh(plan, existing, heads, b, files.drop_last());
        let before = after_loose_deleted(plan, heads, b, files.drop_last());
        lemma_copy_keeps_fresh(
            with_counters(before, before.counters.one_more_deleted()),
            existing,
            files.last().rel@ + ".deleted"@,
            files.last().abs@,
            false,
        );
    }
}

proof fn lemma_new_keep_fresh(
    plan: PlanModel,
    existing: Seq<Seq<char>>,
    a: ScanResult,
    files: Seq<FileEntry>,
)
    requires
        copies_are_fresh(plan, existing),
    ensures
        copies_are_fresh(after_new(plan, a, files), existing),
    decreases files.len(),
{
    if files.len() > 0 {
        lemma_new_keep_fresh(plan, existing, a, files.drop_last());
        let before = after_new(plan, a, files.drop_last());
        lemma_copy_keeps_fresh(
            with_counters(before, before.counters.one_more_new()),
            existing,
            files.last().rel@ + ".new"@,
            files.last().abs@,
            false,
        );
    }
}

proof fn lemma_common_keep_fresh(
    plan: PlanModel,
    existing: Seq<Seq<char>>,
    b: ScanResult,
    files: Seq<FileEntry>,
    normalize_eol: bool,
    max: u64,
)
    requires
        copies_are_fresh(plan, existing),
    ensures
        copies_are_fresh(after_common(plan, b, files, normalize_eol, max), existing),
    decreases files.len(),
{
    if files.len() > 0 {
        lemma_common_keep_fresh(plan, existing, b, files.drop_last(), normalize_eol, max);
        let before = after_common(plan, b, files.drop_last(), normalize_eol, max);
        if file_position(b.files@, files.last().rel@) >= 0 {
            lemma_modified_step_keeps_fresh(
                before,
                existing,
                files.last(),
                b.files@[file_position(b.files@, files.last().rel@)],
                normalize_eol,
                max,
            );
        }
    }
}

/// In a whole comparison nothing is overwritten: the path of each copy and
/// of each diff differs from every path that the output tree held before
/// and from the path of every artifact laid out before it.
pub proof fn lemma_copies_never_collide(
    a: ScanResult,
    b: ScanResult,
    subtree: Seq<WalkEntry>,
    existing: Seq<Seq<char>>,
    normalize_eol: bool,
    max: u64,
)
    ensures
        copies_are_fresh(planned(a, b, subtree, existing, normalize_eol, max), existing),
{
    let heads = heads_of(a, b);
    let start = initial_plan(existing);
    lemma_subtrees_keep_fresh(start, existing, heads, subtree);
    let subtrees_done = after_subtrees(start, heads, subtree);
    lemma_loose_deleted_keep_fresh(subtrees_done, existing, heads, b, a.files@);
    let deleted_done = after_loose_deleted(subtrees_done, heads, b, a.files@);
    lemma_new_keep_fresh(deleted_done, existing, a, b.files@);
    let new_done = after_new(deleted_done, a, b.files@);
    lemma_common_keep_fresh(new_done, existing, b, a.files@, normalize_eol, max);
}

/// Two plans with the same tallies that have both ended or both not.
pub open spec fn same_outcome(p: PlanModel, q: PlanModel) -> bool {
    p.counters == q.counters && p.aborted == q.aborted
}

proof fn lemma_subtrees_same_outcome(
    p: PlanModel,
    q: PlanModel,
    heads: Seq<Seq<char>>,
    entries: Seq<WalkEntry>,
)
    requires
        same_outcome(p, q),
    ensures
        same_outcome(after_subtrees(p, heads, entries), after_subtrees(q, heads, entries)),
    decreases entries.len(),
{
    if entries.len() > 0 {
        lemma_subtrees_same_outcome(p, q, heads, entries.drop_last());
    }
}

proof fn lemma_loose_deleted_same_outcome(
    p: PlanModel,
    q: PlanModel,
    heads: Seq<Seq<char>>,
    b: ScanResult,
    files: Seq<FileEntry>,
)
    requires
        same_outcome(p, q),
    ensures
        same_outcome(
            after_loose_deleted(p, heads, b, files),
            after_loose_deleted(q, heads, b, files),
        ),
    decreases files.len(),
{
    if files.len() > 0 {
        lemma_loose_deleted_same_outcome(p, q, heads, b, files.drop_last());
    }
}

proof fn lemma_new_same_outcome(p: PlanModel, q: PlanModel, a: ScanResult, files: Seq<FileEntry>)
    requires
        same_outcome(p, q),
    ensures
        same_outcome(after_new(p, a, files), after_new(q, a, files)),
    decreases files.len(),
{
    if files.len() > 0 {
        lemma_new_same_outcome(p, q, a, files.drop_last());
    }
}

proof fn lemma_common_same_outcome(
    p: PlanModel,
    q: PlanModel,
    b: ScanResult,
    files: Seq<FileEntry>,
    normalize_eol: bool,
    max: u64,
)
    requires
        same_outcome(p, q),
    ensures
        same_outcome(
            after_common(p, b, files, normalize_eol, max),
            after_common(q, b, files, normalize_eol, max),
        ),
    decreases files.len(),
{
    if files.len() > 0 {
        lemma_common_same_outcome(p, q, b, files.drop_last(), normalize_eol, max);
    }
}

/// Classification is repeatable: on the same scans the tallies are the
/// same whatever the output tree holds already; reusing an output tree
/// changes the numbering of artifact names and nothing else that is counted.
pub proof fn lemma_tallies_ignore_output_tree(
    a: ScanResult,
    b: ScanResult,
    subtree: Seq<WalkEntry>,
    first: Seq<Seq<char>>,
    second: Seq<Seq<char>>,
    normalize_eol: bool,
    max: u64,
)
    ensures
        planned(a, b, subtree, first, normalize_eol, max).counters == planned(
            a,
            b,
            subtree,
            second,
            normalize_eol,
            max,
        ).counters,
{
    let heads = heads_of(a, b);
    let start = initial_plan(first);
    let other_start = initial_plan(second);
    lemma_subtrees_same_outcome(start, other_start, heads, subtree);
    let subtrees_done = after_subtrees(start, heads, subtree);
    let other_subtrees_done = after_subtrees(other_start, heads, subtree);
    lemma_loose_deleted_same_outcome(subtrees_done, other_subtrees_done, heads, b, a.files@);
    let deleted_done = after_loose_deleted(subtrees_done, heads, b, a.files@);
    let other_deleted_done = after_loose_deleted(other_subtrees_done, heads, b, a.files@);
    lemma_new_same_outcome(deleted_done, other_deleted_done, a, b.files@);
    let new_done = after_new(deleted_done, a, b.files@);
    let other_new_done = after_new(other_deleted_done, a, b.files@);
    lemma_common_same_outcome(new_done, other_new_done, b, a.files@, normalize_eol, max);
}

/// How many of `files` are loose deleted files: files that the target scan
/// lacks and that no deleted subtree covers.
pub open spec fn count_loose(files: Seq<FileEntry>, heads: Seq<Seq<char>>, b: ScanResult) -> nat
    decreases files.len(),
{
    if files.len() == 0 {
        0
    } else if covering_head(heads, files.last().rel@) is Some || b.has_file(files.last().rel@) {
        count_loose(files.drop_last(), heads, b)
    } else {
        count_loose(files.drop_last(), heads, b) + 1
    }
}

/// How many of `entries` are files of a deleted subtree: entries that a
/// head covers and that are no directories.
pub open spec fn count_subtree_files(entries: Seq<WalkEntry>, heads: Seq<Seq<char>>) -> nat
    decreases entries.len(),
{
    if entries.len() == 0 {
        0
    } else if covering_head(heads, entries.last().rel@) is Some && entries.last().kind
        != EntryKind::Directory {
        count_subtree_files(entries.drop_last(), heads) + 1
    } else {
        count_subtree_files(entries.drop_last(), heads)
    }
}

/// How many of `entries` are the head of a deleted subtree itself.
pub open spec fn count_subtree_heads(entries: Seq<WalkEntry>, heads: Seq<Seq<char>>) -> nat
    decreases entries.len(),
{
    if entries.len() == 0 {
        0
    } else if covering_head(heads, entries.last().rel@) == Some(entries.last().rel@)
        && entries.last().kind == EntryKind::Directory {
        count_subtree_heads(entries.drop_last(), heads) + 1
    } else {
        count_subtree_heads(entries.drop_last(), heads)
    }
}

proof fn lemma_subtree_tallies_add_up(plan: PlanModel, heads: Seq<Seq<char>>, entries: Seq<WalkEntry>)
    requires
        plan.counters.del_files + entries.len() <= usize::MAX,
        plan.counters.del_dirs + entries.len() <= usize::MAX,
    ensures
        count_subtree_files(entries, heads) <= entries.len(),
        count_subtree_heads(entries, heads) <= entries.len(),
        after_subtrees(plan, heads, entries).counters == (Counters {
            del_files: (plan.counters.del_files + count_subtree_files(entries, heads)) as usize,
            del_dirs: (plan.counters.del_dirs + count_subtree_heads(entries, heads)) as usize,
            ..plan.counters
        }),
    decreases entries.len(),
{
    if entries.len() > 0 {
        lemma_subtree_tallies_add_up(plan, heads, entries.drop_last());
        lemma_covering_head(heads, entries.last().rel@);
    }
}

proof fn lemma_loose_tallies_add_up(
    plan: PlanModel,
    heads: Seq<Seq<char>>,
    b: ScanResult,
    files: Seq<FileEntry>,
)
    requires
        plan.counters.del_files + files.len() <= usize::MAX,
    ensures
        count_loose(files, heads, b) <= files.len(),
        after_loose_deleted(plan, heads, b, files).counters == (Counters {
            del_files: (plan.counters.del_files + count_loose(files, heads, b)) as usize,
            ..plan.counters
        }),
    decreases files.len(),
{
    if files.len() > 0 {
        lemma_loose_tallies_add_up(plan, heads, b, files.drop_last());
    }
}

proof fn lemma_new_tallies_add_up(plan: PlanModel, a: ScanResult, files: Seq<FileEntry>)
    requires
        plan.counters.new_files + files.len() <= usize::MAX,
    ensures
        count_missing(files, a) <= files.len(),
        after_new(plan, a, files).counters == (Counters {
            new_files: (plan.counters.new_files + count_missing(files, a)) as usize,
            ..plan.counters
        }),
    decreases files.len(),
{
    if files.len() > 0 {
        lemma_new_tallies_add_up(plan, a, files.drop_last());
    }
}

proof fn lemma_common_keeps_other_tallies(
    plan: PlanModel,
    b: ScanResult,
    files: Seq<FileEntry>,
    normalize_eol: bool,
    max: u64,
)
    ensures
        after_common(plan, b, files, normalize_eol, max).counters.new_files
            == plan.counters.new_files,
        after_common(plan, b, files, normalize_eol, max).counters.del_files
            == plan.counters.del_files,
        after_common(plan, b, files, normalize_eol, max).counters.del_dirs
            == plan.counters.del_dirs,
    decreases files.len(),
{
    if files.len() > 0 {
        lemma_common_keeps_other_tallies(plan, b, files.drop_last(), normalize_eol, max);
    }
}

/// How many of `files` the scan `b` holds too.
pub open spec fn count_common(files: Seq<FileEntry>, b: ScanResult) -> nat
    decreases files.len(),
{
    if files.len() == 0 {
        0
    } else if file_position(b.files@, files.last().rel@) >= 0 {
        count_common(files.drop_last(), b) + 1
    } else {
        count_common(files.drop_last(), b)
    }
}

/// The files that a plan has classified as unchanged or modified.
pub open spec fn compared(c: Counters) -> int {
    c.same + c.mod_text + c.mod_binary
}

proof fn lemma_common_tallies_add_up(
    plan: PlanModel,
    b: ScanResult,
    files: Seq<FileEntry>,
    normalize_eol: bool,
    max: u64,
)
    requires
        compared(plan.counters) + files.len() <= usize::MAX,
        !after_common(plan, b, files, normalize_eol, max).aborted,
    ensures
        !plan.aborted,
        count_common(files, b) <= files.len(),
        compared(after_common(plan, b, files, normalize_eol, max).counters) == compared(
            plan.counters,
        ) + count_common(files, b),
    decreases files.len(),
{
    if files.len() > 0 {
        lemma_common_tallies_add_up(plan, b, files.drop_last(), normalize_eol, max);
    }
}

/// Every path is counted once for what it is. In a whole comparison the
/// new files are the files of the target scan that the base scan lacks; the
/// deleted files are the files found under the deleted subtrees and the
/// loose deleted files, so that a file under a deleted subtree counts once;
/// the deleted directories are the heads found; and in a run that did not
/// end early, the files that both scans hold are each counted once, as
/// unchanged, modified text or modified binary.
pub proof fn lemma_tallies_of_a_run(
    a: ScanResult,
    b: ScanResult,
    subtree: Seq<WalkEntry>,
    existing: Seq<Seq<char>>,
    normalize_eol: bool,
    max: u64,
)
    requires
        subtree.len() + a.files@.len() <= usize::MAX,
    ensures
        ({
            let tallies = planned(a, b, subtree, existing, normalize_eol, max).counters;
            let heads = heads_of(a, b);
            &&& tallies.new_files == count_missing(b.files@, a)
            &&& tallies.del_files == count_subtree_files(subtree, heads) + count_loose(
                a.files@,
                heads,
                b,
            )
            &&& tallies.del_dirs == count_subtree_heads(subtree, heads)
            &&& !planned(a, b, subtree, existing, normalize_eol, max).aborted ==> compared(tallies)
                == count_common(a.files@, b)
        }),
{
    let heads = heads_of(a, b);
    let start = initial_plan(existing);
    lemma_subtree_tallies_add_up(start, heads, subtree);
    let subtrees_done = after_subtrees(start, heads, subtree);
    lemma_loose_tallies_add_up(subtrees_done, heads, b, a.files@);
    let deleted_done = after_loose_deleted(subtrees_done, heads, b, a.files@);
    assert(b.files@.len() == b.files.len());
    lemma_new_tallies_add_up(deleted_done, a, b.files@);
    let new_done = after_new(deleted_done, a, b.files@);
    lemma_common_keeps_other_tallies(new_done, b, a.files@, normalize_eol, max);
    if !planned(a, b, subtree, existing, normalize_eol, max).aborted {
        lemma_common_tallies_add_up(new_done, b, a.files@, normalize_eol, max);
    }
}

/// A file whose size is known and whose content was read and can be
/// decoded.
pub open spec fn readable(f: FileEntry) -> bool {
    f.size is Some && decodable(f.content)
}

/// Whether every file is readable.
pub open spec fn all_readable(files: Seq<FileEntry>) -> bool {
    forall|i: int| 0 <= i < files.len() ==> readable(#[trigger] files[i])
}

/// Whether the scan `b` holds a file at the path of `f` with the same
/// digest.
pub open spec fn unchanged_in(f: FileEntry, b: ScanResult) -> bool {
    file_position(b.files@, f.rel@) >= 0 && digests_agree(
        f.content,
        b.files@[file_position(b.files@, f.rel@)].content,
    )
}

/// Whether the file `f` is copied from the scan `b` as a modified binary
/// file: `b` holds a file at its path with another digest that is binary
/// or larger than `max`.
pub open spec fn copied_from(f: FileEntry, b: ScanResult, max: u64) -> bool {
    let fb = b.files@[file_position(b.files@, f.rel@)];
    &&& file_position(b.files@, f.rel@) >= 0
    &&& !digests_agree(f.content, fb.content)
    &&& fb.size is Some
    &&& (sniffed_binary(fb.content) || fb.size->0 > max)
}

/// How many of `files` the scan `b` holds unchanged.
pub open spec fn count_unchanged(files: Seq<FileEntry>, b: ScanResult) -> nat
    decreases files.len(),
{
    if files.len() == 0 {
        0
    } else if unchanged_in(files.last(), b) {
        count_unchanged(files.drop_last(), b) + 1
    } else {
        count_unchanged(files.drop_last(), b)
    }
}

/// How many of `files` are copied from the scan `b` as modified binary
/// files.
pub open spec fn count_copied(files: Seq<FileEntry>, b: ScanResult, max: u64) -> nat
    decreases files.len(),
{
    if files.len() == 0 {
        0
    } else if copied_from(files.last(), b, max) {
        count_copied(files.drop_last(), b, max) + 1
    } else {
        count_copied(files.drop_last(), b, max)
    }
}

/// How many of `entries` lie in a deleted subtree.
pub open spec fn count_covered(entries: Seq<WalkEntry>, heads: Seq<Seq<char>>) -> nat
    decreases entries.len(),
{
    if entries.len() == 0 {
        0
    } else if covering_head(heads, entries.last().rel@) is Some {
        count_covered(entries.drop_last(), heads) + 1
    } else {
        count_covered(entries.drop_last(), heads)
    }
}

/// The files that the copies among `artifacts` are made from, in order:
/// the best-effort copies or the others.
pub open spec fn sources(artifacts: Seq<ArtifactModel>, best_effort: bool) -> Seq<Seq<char>>
    decreases artifacts.len(),
{
    if artifacts.len() == 0 {
        Seq::empty()
    } else {
        match artifacts.last().payload {
            PayloadModel::CopyOf { source, best_effort: flag } => if flag == best_effort {
                sources(artifacts.drop_last(), best_effort).push(source)
            } else {
                sources(artifacts.drop_last(), best_effort)
            },
            _ => sources(artifacts.drop_last(), best_effort),
        }
    }
}

/// The files found under the deleted subtrees, in order.
pub open spec fn subtree_sources(entries: Seq<WalkEntry>, heads: Seq<Seq<char>>) -> Seq<Seq<char>>
    decreases entries.len(),
{
    if entries.len() == 0 {
        Seq::empty()
    } else if covering_head(heads, entries.last().rel@) is Some && entries.last().kind
        != EntryKind::Directory {
        subtree_sources(entries.drop_last(), heads).push(entries.last().abs@)
    } else {
        subtree_sources(entries.drop_last(), heads)
    }
}

/// The loose deleted files among `files`, in order.
pub open spec fn loose_sources(
    files: Seq<FileEntry>,
    heads: Seq<Seq<char>>,
    b: ScanResult,
) -> Seq<Seq<char>>
    decreases files.len(),
{
    if files.len() == 0 {
        Seq::empty()
    } else if covering_head(heads, files.last().rel@) is Some || b.has_file(files.last().rel@) {
        loose_sources(files.drop_last(), heads, b)
    } else {
        loose_sources(files.drop_last(), heads, b).push(files.last().abs@)
    }
}

/// The files among `files` that the scan `a` lacks, in order.
pub open spec fn new_sources(files: Seq<FileEntry>, a: ScanResult) -> Seq<Seq<char>>
    decreases files.len(),
{
    if files.len() == 0 {
        Seq::empty()
    } else if a.has_file(files.last().rel@) {
        new_sources(files.drop_last(), a)
    } else {
        new_sources(files.drop_last(), a).push(files.last().abs@)
    }
}

/// The target files that are copied as modified binary files, in the
/// order of `files`.
pub open spec fn copied_sources(files: Seq<FileEntry>, b: ScanResult, max: u64) -> Seq<Seq<char>>
    decreases files.len(),
{
    if files.len() == 0 {
        Seq::empty()
    } else if copied_from(files.last(), b, max) {
        copied_sources(files.drop_last(), b, max).push(
            b.files@[file_position(b.files@, files.last().rel@)].abs@,
        )
    } else {
        copied_sources(files.drop_last(), b, max)
    }
}

proof fn lemma_sources_push(artifacts: Seq<ArtifactModel>, next: ArtifactModel, best_effort: bool)
    ensures
        sources(artifacts.push(next), best_effort) == match next.payload {
            PayloadModel::CopyOf { source, best_effort: flag } => if flag == best_effort {
                sources(artifacts, best_effort).push(source)
            } else {
                sources(artifacts, best_effort)
            },
            _ => sources(artifacts, best_effort),
        },
{
    assert(artifacts.push(next).drop_last() =~= artifacts);
}

proof fn lemma_file_position_bounds(files: Seq<FileEntry>, rel: Seq<char>)
    ensures
        -1 <= file_position(files, rel) < files.len(),
    decreases files.len(),
{
    if files.len() > 0 && files.last().rel@ != rel {
        lemma_file_position_bounds(files.drop_last(), rel);
    }
}

proof fn lemma_subtree_artifacts(plan: PlanModel, heads: Seq<Seq<char>>, entries: Seq<WalkEntry>)
    ensures
        ({
            let after = after_subtrees(plan, heads, entries);
            &&& after.aborted == plan.aborted
            &&& after.artifacts.len() == plan.artifacts.len() + count_covered(entries, heads)
            &&& sources(after.artifacts, true) == sources(plan.artifacts, true) + subtree_sources(
                entries,
                heads,
            )
            &&& sources(after.artifacts, false) == sources(plan.artifacts, false)
        }),
    decreases entries.len(),
{
    if entries.len() == 0 {
        assert(sources(plan.artifacts, true) + Seq::<Seq<char>>::empty() =~= sources(
            plan.artifacts,
            true,
        ));
    } else {
        lemma_subtree_artifacts(plan, heads, entries.drop_last());
        let before = after_subtrees(plan, heads, entries.drop_last());
        let after = after_subtrees(plan, heads, entries);
        let e = entries.last();
        if covering_head(heads, e.rel@) is Some {
            let next = after.artifacts.last();
            assert(after.artifacts =~= before.artifacts.push(next));
            lemma_sources_push(before.artifacts, next, true);
            lemma_sources_push(before.artifacts, next, false);
            if e.kind != EntryKind::Directory {
                assert(sources(after.artifacts, true) =~= sources(plan.artifacts, true)
                    + subtree_sources(entries, heads));
            }
        }
    }
}

proof fn lemma_loose_artifacts(
    plan: PlanModel,
    heads: Seq<Seq<char>>,
    b: ScanResult,
    files: Seq<FileEntry>,
)
    ensures
        ({
            let after = after_loose_deleted(plan, heads, b, files);
            &&& after.aborted == plan.aborted
            &&& after.artifacts.len() == plan.artifacts.len() + count_loose(files, heads, b)
            &&& sources(after.artifacts, false) == sources(plan.artifacts, false) + loose_sources(
                files,
                heads,
                b,
            )
            &&& sources(after.artifacts, true) == sources(plan.artifacts, true)
        }),
    decreases files.len(),
{
    if files.len() == 0 {
        assert(sources(plan.artifacts, false) + Seq::<Seq<char>>::empty() =~= sources(
            plan.artifacts,
            false,
        ));
    } else {
        lemma_loose_artifacts(plan, heads, b, files.drop_last());
        let before = after_loose_deleted(plan, heads, b, files.drop_last());
        let after = after_loose_deleted(plan, heads, b, files);
        let f = files.last();
        if !(covering_head(heads, f.rel@) is Some || b.has_file(f.rel@)) {
            let next = after.artifacts.last();
            assert(after.artifacts =~= before.artifacts.push(next));
            lemma_sources_push(before.artifacts, next, true);
            lemma_sources_push(before.artifacts, next, false);
            assert(sources(after.artifacts, false) =~= sources(plan.artifacts, false)
                + loose_sources(files, heads, b));
        }
    }
}

proof fn lemma_new_artifacts(plan: PlanModel, a: ScanResult, files: Seq<FileEntry>)
    ensures
        ({
            let after = after_new(plan, a, files);
            &&& after.aborted == plan.aborted
            &&& after.artifacts.len() == plan.artifacts.len() + count_missing(files, a)
            &&& sources(after.artifacts, false) == sources(plan.artifacts, false) + new_sources(
                files,
                a,
            )
            &&& sources(after.artifacts, true) == sources(plan.artifacts, true)
        }),
    decreases files.len(),
{
    if files.len() == 0 {
        assert(sources(plan.artifacts, false) + Seq::<Seq<char>>::empty() =~= sources(
            plan.artifacts,
            false,
        ));
    } else {
        lemma_new_artifacts(plan, a, files.drop_last());
        let before = after_new(plan, a, files.drop_last());
        let after = after_new(plan, a, files);
        let f = files.last();
        if !a.has_file(f.rel@) {
            let next = after.artifacts.last();
            assert(after.artifacts =~= before.artifacts.push(next));
            lemma_sources_push(before.artifacts, next, true);
            lemma_sources_push(before.artifacts, next, false);
            assert(sources(after.artifacts, false) =~= sources(plan.artifacts, false)
                + new_sources(files, a));
        }
    }
}

proof fn lemma_common_artifacts(
    plan: PlanModel,
    b: ScanResult,
    files: Seq<FileEntry>,
    normalize_eol: bool,
    max: u64,
)
    requires
        !plan.aborted,
        all_readable(files),
        all_readable(b.files@),
        compared(plan.counters) + files.len() <= usize::MAX,
    ensures
        ({
            let after = after_common(plan, b, files, normalize_eol, max);
            &&& !after.aborted
            &&& count_unchanged(files, b) + count_copied(files, b, max) <= count_common(files, b)
                <= files.len()
            &&& after.counters.same == plan.counters.same + count_unchanged(files, b)
            &&& after.counters.mod_binary == plan.counters.mod_binary + count_copied(
                files,
                b,
                max,
            )
            &&& after.counters.mod_text == plan.counters.mod_text + count_common(files, b)
                - count_unchanged(files, b) - count_copied(files, b, max)
            &&& after.artifacts.len() == plan.artifacts.len() + count_common(files, b)
                - count_unchanged(files, b) + count_copied(files, b, max)
            &&& sources(after.artifacts, false) == sources(plan.artifacts, false)
                + copied_sources(files, b, max)
            &&& sources(after.artifacts, true) == sources(plan.artifacts, true)
        }),
    decreases files.len(),
{
    if files.len() == 0 {
        assert(sources(plan.artifacts, false) + Seq::<Seq<char>>::empty() =~= sources(
            plan.artifacts,
            false,
        ));
    } else {
        assert(all_readable(files.drop_last())) by {
            assert forall|i: int| 0 <= i < files.drop_last().len() implies readable(
                #[trigger] files.drop_last()[i],
            ) by {
                assert(files.drop_last()[i] == files[i]);
            }
        }
        lemma_common_artifacts(plan, b, files.drop_last(), normalize_eol, max);
        let before = after_common(plan, b, files.drop_last(), normalize_eol, max);
        let after = after_common(plan, b, files, normalize_eol, max);
        let fa = files.last();
        assert(readable(files[files.len() - 1]));
        let at = file_position(b.files@, fa.rel@);
        lemma_file_position_bounds(b.files@, fa.rel@);
        if at >= 0 {
            let fb = b.files@[at];
            assert(readable(fb));
            if digests_agree(fa.content, fb.content) {
            } else if sniffed_binary(fb.content) || fb.size->0 > max {
                let copy = after.artifacts[before.artifacts.len() as int];
                let note = after.artifacts.last();
                assert(after.artifacts =~= before.artifacts.push(copy).push(note));
                lemma_sources_push(before.artifacts, copy, true);
                lemma_sources_push(before.artifacts, copy, false);
                lemma_sources_push(before.artifacts.push(copy), note, true);
                lemma_sources_push(before.artifacts.push(copy), note, false);
                assert(sources(after.artifacts, false) =~= sources(plan.artifacts, false)
                    + copied_sources(files, b, max));
            } else {
                let next = after.artifacts.last();
                assert(after.artifacts =~= before.artifacts.push(next));
                lemma_sources_push(before.artifacts, next, true);
                lemma_sources_push(before.artifacts, next, false);
            }
        }
    }
}

/// What a whole comparison of readable files lays out. The run does not
/// end early. Every file that both scans hold is counted once: as
/// unchanged where the digests agree, as modified binary where the target
/// is copied, as modified text otherwise. The best-effort copies are the
/// files found under the deleted subtrees; the other copies are the loose
/// deleted files, then the new files, then the modified binary files, one
/// copy each and in this order. The number of artifacts is that of the
/// entries in deleted subtrees, the loose deleted files, the new files and
/// the modified files, with one more for the note of each modified binary
/// file, so that an unchanged file gives no artifact at all.
pub proof fn lemma_artifacts_of_a_run(
    a: ScanResult,
    b: ScanResult,
    subtree: Seq<WalkEntry>,
    existing: Seq<Seq<char>>,
    normalize_eol: bool,
    max: u64,
)
    requires
        all_readable(a.files@),
        all_readable(b.files@),
    ensures
        ({
            let run = planned(a, b, subtree, existing, normalize_eol, max);
            let heads = heads_of(a, b);
            let unchanged = count_unchanged(a.files@, b);
            let copied = count_copied(a.files@, b, max);
            let common = count_common(a.files@, b);
            &&& !run.aborted
            &&& run.counters.same == unchanged
            &&& run.counters.mod_binary == copied
            &&& run.counters.mod_text == common - unchanged - copied
            &&& sources(run.artifacts, true) == subtree_sources(subtree, heads)
            &&& sources(run.artifacts, false) == loose_sources(a.files@, heads, b) + new_sources(
                b.files@,
                a,
            ) + copied_sources(a.files@, b, max)
            &&& run.artifacts.len() == count_covered(subtree, heads) + count_loose(
                a.files@,
                heads,
                b,
            ) + count_missing(b.files@, a) + (common - unchanged) + copied
        }),
{
    let heads = heads_of(a, b);
    let start = initial_plan(existing);
    lemma_subtree_artifacts(start, heads, subtree);
    let subtrees_done = after_subtrees(start, heads, subtree);
    lemma_loose_artifacts(subtrees_done, heads, b, a.files@);
    let deleted_done = after_loose_deleted(subtrees_done, heads, b, a.files@);
    lemma_new_artifacts(deleted_done, a, b.files@);
    let new_done = after_new(deleted_done, a, b.files@);
    lemma_subtrees_same_tallies(start, heads, subtree);
    lemma_loose_same_tallies(subtrees_done, heads, b, a.files@);
    lemma_new_same_tallies(deleted_done, a, b.files@);
    assert(a.files@.len() == a.files.len());
    lemma_common_artifacts(new_done, b, a.files@, normalize_eol, max);
    assert(sources(start.artifacts, true) =~= Seq::<Seq<char>>::empty());
    assert(sources(start.artifacts, false) =~= Seq::<Seq<char>>::empty());
    assert(Seq::<Seq<char>>::empty() + subtree_sources(subtree, heads) =~= subtree_sources(
        subtree,
        heads,
    ));
    assert(Seq::<Seq<char>>::empty() + loose_sources(a.files@, heads, b) =~= loose_sources(
        a.files@,
        heads,
        b,
    ));
}

proof fn lemma_subtrees_same_tallies(plan: PlanModel, heads: Seq<Seq<char>>, entries: Seq<WalkEntry>)
    ensures
        compared(after_subtrees(plan, heads, entries).counters) == compared(plan.counters),
        after_subtrees(plan, heads, entries).counters.same == plan.counters.same,
        after_subtrees(plan, heads, entries).counters.mod_text == plan.counters.mod_text,
        after_subtrees(plan, heads, entries).counters.mod_binary == plan.counters.mod_binary,
    decreases entries.len(),
{
    if entries.len() > 0 {
        lemma_subtrees_same_tallies(plan, heads, entries.drop_last());
    }
}

proof fn lemma_loose_same_tallies(
    plan: PlanModel,
    heads: Seq<Seq<char>>,
    b: ScanResult,
    files: Seq<FileEntry>,
)
    ensures
        after_loose_deleted(plan, heads, b, files).counters.same == plan.counters.same,
        after_loose_deleted(plan, heads, b, files).counters.mod_text == plan.counters.mod_text,
        after_loose_deleted(plan, heads, b, files).counters.mod_binary
            == plan.counters.mod_binary,
    decreases files.len(),
{
    if files.len() > 0 {
        lemma_loose_same_tallies(plan, heads, b, files.drop_last());
    }
}

proof fn lemma_new_same_tallies(plan: PlanModel, a: ScanResult, files: Seq<FileEntry>)
    ensures
        after_new(plan, a, files).counters.same == plan.counters.same,
        after_new(plan, a, files).counters.mod_text == plan.counters.mod_text,
        after_new(plan, a, files).counters.mod_binary == plan.counters.mod_binary,
    decreases files.len(),
{
    if files.len() > 0 {
        lemma_new_same_tallies(plan, a, files.drop_last());
    }
}

} // verus!
