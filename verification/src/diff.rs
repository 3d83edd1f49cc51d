//! The annotated line diff of a modified text file, and the comparison of two
//! scanned trees: what is counted and which artifacts are laid out.

use crate::comment::{
    deleted_form, has_newline, inserted_form, line_content, line_end, style_of_extension,
    CommentStyle, StyleModel,
};
use crate::cli::Options;
use crate::comment::{comment_style_for, style_of_path};
use crate::scanner::{EntryKind, FileEntry, ScanResult, WalkEntry};
use crate::text::{find_last, from_chars, last_index, lemma_last_index_bounds, to_chars};
use crate::tree::{
    covering_head, covers, deleted_dir_heads, find_covering_head, heads_of, lemma_covering_head,
};
use crate::utils::{
    avoid_collision, decimal, digests_agree, file_bytes_equal, is_probably_binary, marked_deleted,
    names, placed, push_decimal, read_text_best_effort, rel_parts_with_deleted_suffix,
    sniffed_binary, text_of,
};
use vstd::prelude::*;

verus! {

/// What a line diff says of one line.
#[derive(Clone, Copy, Debug, PartialEq, Eq, Structural)]
pub enum ChangeKind {
    /// The line stands in both texts.
    Equal,
    /// The line stands in the first text only.
    Delete,
    /// The line stands in the second text only.
    Insert,
}

/// One line of a line diff, with its line terminator where it has one.
#[derive(Debug)]
pub struct LineChange {
    pub kind: ChangeKind,
    pub text: String,
}

/// A line diff over plain character sequences.
pub open spec fn changes_view(changes: Seq<LineChange>) -> Seq<(ChangeKind, Seq<char>)> {
    Seq::new(changes.len(), |i: int| (changes[i].kind, changes[i].text@))
}

/// The line diff that `similar` computes between two texts, in document
/// order.
pub uninterp spec fn line_diff(a: Seq<char>, b: Seq<char>) -> Seq<(ChangeKind, Seq<char>)>;

/// The first text as a line diff holds it: its unchanged and its removed
/// lines, one after another.
pub open spec fn first_text(changes: Seq<(ChangeKind, Seq<char>)>) -> Seq<char>
    decreases changes.len(),
{
    if changes.len() == 0 {
        Seq::empty()
    } else if changes.last().0 == ChangeKind::Insert {
        first_text(changes.drop_last())
    } else {
        first_text(changes.drop_last()) + changes.last().1
    }
}

/// The second text as a line diff holds it: its unchanged and its added
/// lines, one after another.
pub open spec fn second_text(changes: Seq<(ChangeKind, Seq<char>)>) -> Seq<char>
    decreases changes.len(),
{
    if changes.len() == 0 {
        Seq::empty()
    } else if changes.last().0 == ChangeKind::Delete {
        second_text(changes.drop_last())
    } else {
        second_text(changes.drop_last()) + changes.last().1
    }
}

/// `similar::TextDiff::from_lines` followed by `iter_all_changes`: the tag
/// and the text of every change in order, a function of the two texts alone
/// (the default configuration sets no deadline). The diff covers both
/// texts: each text is cut into lines that keep their terminators, and the
/// changes walk both sequences of lines from start to end, so that the
/// unchanged and removed lines make up the first text and the unchanged and
/// added lines the second.
#[verifier::external_body]
fn diff_lines(a: &str, b: &str) -> (changes: Vec<LineChange>)
    ensures
        changes_view(changes@) == line_diff(a@, b@),
        first_text(changes_view(changes@)) == a@,
        second_text(changes_view(changes@)) == b@,
{
    let diff = similar::TextDiff::from_lines(a, b);
    diff.iter_all_changes().map(|c| LineChange {
        kind: match c.tag() {
            similar::ChangeTag::Equal => ChangeKind::Equal,
            similar::ChangeTag::Delete => ChangeKind::Delete,
            similar::ChangeTag::Insert => ChangeKind::Insert,
        },
        text: String::from(c.value()),
    }).collect()
}

/// How one line of a diff reads in the annotated file.
pub open spec fn annotated_line(style: StyleModel, change: (ChangeKind, Seq<char>)) -> Seq<char> {
    match change.0 {
        ChangeKind::Equal => change.1,
        ChangeKind::Delete => deleted_form(style, change.1),
        ChangeKind::Insert => inserted_form(style, change.1),
    }
}

/// The annotated file: the annotated lines of the diff, one after another.
pub open spec fn annotated(style: StyleModel, changes: Seq<(ChangeKind, Seq<char>)>) -> Seq<char>
    decreases changes.len(),
{
    if changes.len() == 0 {
        Seq::empty()
    } else {
        annotated(style, changes.drop_last()) + annotated_line(style, changes.last())
    }
}

/// Writes out a line diff as an annotated file: unchanged lines as they
/// are, removed lines in the style's deleted form, added lines with the
/// style's marker.
pub fn render_changes(changes: &Vec<LineChange>, style: &CommentStyle) -> (out: String)
    ensures
        out@ == annotated(style@, changes_view(changes@)),
{
    let mut out = String::new();
    let mut i: usize = 0;
    proof {
        assert(changes_view(changes@).take(0) =~= Seq::empty());
    }
    while i < changes.len()
        invariant
            i <= changes.len(),
            out@ == annotated(style@, changes_view(changes@).take(i as int)),
        decreases changes.len() - i,
    {
        proof {
            assert(changes_view(changes@).take(i + 1).drop_last() =~= changes_view(
                changes@,
            ).take(i as int));
            assert(changes_view(changes@).take(i + 1).last() == (
                changes@[i as int].kind,
                changes@[i as int].text@,
            ));
        }
        let change = &changes[i];
        match change.kind {
            ChangeKind::Equal => {
                out.append(change.text.as_str());
            },
            ChangeKind::Delete => {
                let line = style.deleted_line(change.text.as_str());
                out.append(line.as_str());
            },
            ChangeKind::Insert => {
                let line = style.append_new_suffix(change.text.as_str());
                out.append(line.as_str());
            },
        }
        i += 1;
    }
    proof {
        assert(changes_view(changes@).take(changes.len() as int) =~= changes_view(changes@));
    }
    out
}

/// The annotated diff of two versions of a file, given their bytes: both
/// are decoded as text (line ends normalised on request), diffed line by
/// line, and written out with removed lines re-inserted and added lines
/// marked in the given style.
pub fn annotate_text_diff(
    a_bytes: &Vec<u8>,
    b_bytes: &Vec<u8>,
    style: &CommentStyle,
    normalize_eol: bool,
) -> (out: String)
    requires
        a_bytes.len() <= usize::MAX / 4,
        b_bytes.len() <= usize::MAX / 4,
    ensures
        out@ == annotated(
            style@,
            line_diff(text_of(a_bytes@, normalize_eol), text_of(b_bytes@, normalize_eol)),
        ),
        first_text(
            line_diff(text_of(a_bytes@, normalize_eol), text_of(b_bytes@, normalize_eol)),
        ) == text_of(a_bytes@, normalize_eol),
        second_text(
            line_diff(text_of(a_bytes@, normalize_eol), text_of(b_bytes@, normalize_eol)),
        ) == text_of(b_bytes@, normalize_eol),
{
    let a_text = read_text_best_effort(a_bytes, normalize_eol);
    let b_text = read_text_best_effort(b_bytes, normalize_eol);
    let changes = diff_lines(a_text.as_str(), b_text.as_str());
    render_changes(&changes, style)
}

/// A style whose markers do not end in a line feed, so that an annotated
/// line ends in a line feed exactly where the line itself does.
pub open spec fn style_well_formed(style: StyleModel) -> bool {
    match style {
        StyleModel::LinePrefix { new_suffix, .. } => !has_newline(new_suffix),
        StyleModel::Block { close, new_block, .. } => !has_newline(close) && !has_newline(
            new_block,
        ),
    }
}

/// The line that a deleted-form annotation was made from.
pub open spec fn restore_deleted(style: StyleModel, text: Seq<char>) -> Seq<char> {
    match style {
        StyleModel::LinePrefix { prefix, .. } => text.skip((prefix.len() + "DELETED: "@.len()) as int),
        StyleModel::Block { open, close, .. } => line_content(text).subrange(
            (open.len() + " DELETED: "@.len()) as int,
            line_content(text).len() - close.len() - " "@.len(),
        ) + line_end(text),
    }
}

/// The line that an inserted-form annotation was made from.
pub open spec fn restore_inserted(style: StyleModel, text: Seq<char>) -> Seq<char> {
    match style {
        StyleModel::LinePrefix { new_suffix, .. } => line_content(text).take(
            line_content(text).len() - new_suffix.len(),
        ) + line_end(text),
        StyleModel::Block { new_block, .. } => line_content(text).take(
            line_content(text).len() - new_block.len(),
        ) + line_end(text),
    }
}

/// The line that an annotated line of the given kind was made from.
pub open spec fn restore_line(style: StyleModel, kind: ChangeKind, text: Seq<char>) -> Seq<char> {
    match kind {
        ChangeKind::Equal => text,
        ChangeKind::Delete => restore_deleted(style, text),
        ChangeKind::Insert => restore_inserted(style, text),
    }
}

/// Every style of the extension table is well formed.
pub proof fn lemma_table_styles_well_formed(extension: Seq<char>)
    ensures
        style_well_formed(style_of_extension(extension)),
{
    reveal_strlit(" // NEW");
    reveal_strlit(" -- NEW");
    reveal_strlit(" % NEW");
    reveal_strlit(" ; NEW");
    reveal_strlit(" # NEW");
    reveal_strlit("-->");
    reveal_strlit("<!-- NEW -->");
    reveal_strlit("*/");
    reveal_strlit("/* NEW */");
}

/// Annotation loses nothing: with a well-formed style, taking the marker
/// off an annotated line gives back the very line it was made from, be it a
/// removed line of the first text, an added line of the second, or a line
/// of both.
pub proof fn lemma_annotation_round_trip(style: StyleModel, kind: ChangeKind, line: Seq<char>)
    requires
        style_well_formed(style),
    ensures
        restore_line(style, kind, annotated_line(style, (kind, line))) == line,
{
    reveal_strlit("DELETED: ");
    reveal_strlit(" DELETED: ");
    reveal_strlit(" ");
    let content = line_content(line);
    let end = line_end(line);
    assert(content + end =~= line);
    let text = annotated_line(style, (kind, line));
    match kind {
        ChangeKind::Equal => {},
        ChangeKind::Delete => {
            match style {
                StyleModel::LinePrefix { prefix, .. } => {
                    assert(text.skip((prefix.len() + 9) as int) =~= line);
                },
                StyleModel::Block { open, close, .. } => {
                    let body = open + " DELETED: "@ + content + " "@ + close;
                    assert(text =~= body + end);
                    assert(body.len() > 0 && body.last() != '\n');
                    assert(has_newline(text) == has_newline(line));
                    assert(line_content(text) =~= body);
                    assert(line_end(text) =~= end);
                    assert(body.subrange((open.len() + 10) as int, body.len() - close.len() - 1)
                        =~= content);
                },
            }
        },
        ChangeKind::Insert => {
            match style {
                StyleModel::LinePrefix { new_suffix, .. } => {
                    let body = content + new_suffix;
                    assert(text =~= body + end);
                    if !has_newline(line) {
                        assert(!has_newline(body));
                    }
                    assert(has_newline(text) == has_newline(line));
                    assert(line_content(text) =~= body);
                    assert(line_end(text) =~= end);
                    assert(body.take(body.len() - new_suffix.len()) =~= content);
                },
                StyleModel::Block { new_block, .. } => {
                    let body = content + new_block;
                    assert(text =~= body + end);
                    if !has_newline(line) {
                        assert(!has_newline(body));
                    }
                    assert(has_newline(text) == has_newline(line));
                    assert(line_content(text) =~= body);
                    assert(line_end(text) =~= end);
                    assert(body.take(body.len() - new_block.len()) =~= content);
                },
            }
        },
    }
}

/// A line diff read back from its annotated lines.
pub open spec fn restored(
    style: StyleModel,
    changes: Seq<(ChangeKind, Seq<char>)>,
) -> Seq<(ChangeKind, Seq<char>)> {
    Seq::new(
        changes.len(),
        |i: int|
            (changes[i].0, restore_line(style, changes[i].0, annotated_line(style, changes[i]))),
    )
}

/// The annotated file is a lossless superposition of both texts: read back
/// line by line, it gives the whole line diff again, and with it the lines
/// of the first text (unchanged and removed) and those of the second
/// (unchanged and added), each in its place.
pub proof fn lemma_annotation_lossless(style: StyleModel, changes: Seq<(ChangeKind, Seq<char>)>)
    requires
        style_well_formed(style),
    ensures
        restored(style, changes) == changes,
{
    assert forall|i: int| 0 <= i < changes.len() implies restored(style, changes)[i]
        == changes[i] by {
        lemma_annotation_round_trip(style, changes[i].0, changes[i].1);
    }
    assert(restored(style, changes) =~= changes);
}

/// Taking the markers off an annotated file gives both texts back: where
/// a line diff covers two texts, the lines read back from its annotated
/// lines do so too. Without the added lines they make up the first text,
/// without the removed lines the second.
pub proof fn lemma_annotation_gives_both_texts(
    style: StyleModel,
    changes: Seq<(ChangeKind, Seq<char>)>,
    a: Seq<char>,
    b: Seq<char>,
)
    requires
        style_well_formed(style),
        first_text(changes) == a,
        second_text(changes) == b,
    ensures
        first_text(restored(style, changes)) == a,
        second_text(restored(style, changes)) == b,
{
    lemma_annotation_lossless(style, changes);
}

/// The tallies of one run.
#[derive(Clone, Copy, Debug, PartialEq, Eq, Structural)]
pub struct Counters {
    pub same: usize,
    pub new_files: usize,
    pub del_files: usize,
    pub mod_text: usize,
    pub mod_binary: usize,
    pub del_dirs: usize,
}

impl Default for Counters {
    fn default() -> (out: Counters)
        ensures
            out == Counters::zero(),
    {
        Counters { same: 0, new_files: 0, del_files: 0, mod_text: 0, mod_binary: 0, del_dirs: 0 }
    }
}

impl Counters {
    /// All tallies at zero.
    pub open spec fn zero() -> Counters {
        Counters { same: 0, new_files: 0, del_files: 0, mod_text: 0, mod_binary: 0, del_dirs: 0 }
    }

    /// One more unchanged file.
    pub open spec fn one_more_same(self) -> Counters {
        Counters { same: (self.same + 1) as usize, ..self }
    }

    /// One more new file.
    pub open spec fn one_more_new(self) -> Counters {
        Counters { new_files: (self.new_files + 1) as usize, ..self }
    }

    /// One more deleted file.
    pub open spec fn one_more_deleted(self) -> Counters {
        Counters { del_files: (self.del_files + 1) as usize, ..self }
    }

    /// One more modified text file.
    pub open spec fn one_more_text(self) -> Counters {
        Counters { mod_text: (self.mod_text + 1) as usize, ..self }
    }

    /// One more modified binary file.
    pub open spec fn one_more_binary(self) -> Counters {
        Counters { mod_binary: (self.mod_binary + 1) as usize, ..self }
    }

    /// One more deleted directory.
    pub open spec fn one_more_dir(self) -> Counters {
        Counters { del_dirs: (self.del_dirs + 1) as usize, ..self }
    }

    /// Takes back the tally of a deleted file whose best-effort copy failed.
    pub fn discount_failed_copy(&mut self)
        ensures
            final(self).del_files == if old(self).del_files > 0 {
                old(self).del_files - 1
            } else {
                0
            },
            final(self).same == old(self).same,
            final(self).new_files == old(self).new_files,
            final(self).mod_text == old(self).mod_text,
            final(self).mod_binary == old(self).mod_binary,
            final(self).del_dirs == old(self).del_dirs,
    {
        if self.del_files > 0 {
            self.del_files -= 1;
        }
    }
}

/// What an artifact holds.
#[derive(Debug)]
pub enum Payload {
    /// A directory to create.
    Directory,
    /// A byte-for-byte copy of the file at `source`. A best-effort copy
    /// that fails is skipped; any other failure ends the run.
    CopyOf { source: String, best_effort: bool },
    /// The annotated diff of a modified text file.
    Text { content: String },
    /// The note beside a modified file that was copied, not diffed. It is
    /// written under the name of that copy with `.NOTE.txt` behind it,
    /// whatever stands there.
    Note { content: String },
    /// Nothing: the file at `source` could not be read, and the run ends
    /// here.
    Unreadable { source: String },
}

/// One entry of the output tree, at a path relative to its root.
#[derive(Debug)]
pub struct Artifact {
    pub path: String,
    pub payload: Payload,
}

/// The outcome of a comparison: the tallies, the artifacts in the order in
/// which they are written, and every path of the output tree that is in use.
#[derive(Debug)]
pub struct Plan {
    pub counters: Counters,
    pub artifacts: Vec<Artifact>,
    pub taken: Vec<String>,
    pub aborted: bool,
}

/// What an artifact holds, over plain character sequences.
pub enum PayloadModel {
    Directory,
    CopyOf { source: Seq<char>, best_effort: bool },
    Text { content: Seq<char> },
    Note { content: Seq<char> },
    Unreadable { source: Seq<char> },
}

/// An artifact over plain character sequences.
pub struct ArtifactModel {
    pub path: Seq<char>,
    pub payload: PayloadModel,
}

/// The outcome of a comparison over plain character sequences.
pub struct PlanModel {
    pub counters: Counters,
    pub artifacts: Seq<ArtifactModel>,
    pub taken: Seq<Seq<char>>,
    pub aborted: bool,
}

impl View for Payload {
    type V = PayloadModel;

    open spec fn view(&self) -> PayloadModel {
        match self {
            Payload::Directory => PayloadModel::Directory,
            Payload::CopyOf { source, best_effort } => PayloadModel::CopyOf {
                source: source@,
                best_effort: *best_effort,
            },
            Payload::Text { content } => PayloadModel::Text { content: content@ },
            Payload::Note { content } => PayloadModel::Note { content: content@ },
            Payload::Unreadable { source } => PayloadModel::Unreadable { source: source@ },
        }
    }
}

impl View for Artifact {
    type V = ArtifactModel;

    open spec fn view(&self) -> ArtifactModel {
        ArtifactModel { path: self.path@, payload: self.payload@ }
    }
}

impl View for Plan {
    type V = PlanModel;

    open spec fn view(&self) -> PlanModel {
        PlanModel {
            counters: self.counters,
            artifacts: Seq::new(self.artifacts@.len(), |i: int| self.artifacts@[i]@),
            taken: names(self.taken@),
            aborted: self.aborted,
        }
    }
}

/// The directories above a path: its prefixes that end before a separator.
pub open spec fn dirs_above(path: Seq<char>) -> Seq<Seq<char>>
    decreases path.len(),
{
    if path.len() == 0 {
        Seq::empty()
    } else if path.last() == '/' {
        dirs_above(path.drop_last()).push(path.drop_last())
    } else {
        dirs_above(path.drop_last())
    }
}

/// The plan with one more artifact. Its path and the directories above it
/// are from now on in use.
pub open spec fn with_artifact(plan: PlanModel, path: Seq<char>, payload: PayloadModel) -> PlanModel {
    PlanModel {
        counters: plan.counters,
        artifacts: plan.artifacts.push(ArtifactModel { path, payload }),
        taken: (plan.taken + dirs_above(path)).push(path),
        aborted: plan.aborted,
    }
}

/// The plan with other tallies.
pub open spec fn with_counters(plan: PlanModel, counters: Counters) -> PlanModel {
    PlanModel { counters, artifacts: plan.artifacts, taken: plan.taken, aborted: plan.aborted }
}

/// The plan with a copy of `source`, written under the first free name for
/// `wanted`.
pub open spec fn with_copy(
    plan: PlanModel,
    wanted: Seq<char>,
    source: Seq<char>,
    best_effort: bool,
) -> PlanModel {
    with_artifact(
        plan,
        placed(plan.taken, wanted),
        PayloadModel::CopyOf { source, best_effort },
    )
}

fn push_artifact(plan: &mut Plan, path: String, payload: Payload)
    ensures
        final(plan)@ == with_artifact(old(plan)@, path@, payload@),
{
    let chars = to_chars(path.as_str());
    let mut i: usize = 0;
    proof {
        assert(chars@.take(0) =~= Seq::empty());
        assert(names(plan.taken@) =~= old(plan)@.taken + dirs_above(chars@.take(0)));
    }
    while i < chars.len()
        invariant
            i <= chars.len(),
            plan.counters == old(plan).counters,
            plan.artifacts == old(plan).artifacts,
            plan.aborted == old(plan).aborted,
            names(plan.taken@) == old(plan)@.taken + dirs_above(chars@.take(i as int)),
        decreases chars.len() - i,
    {
        let ghost before = names(plan.taken@);
        proof {
            assert(chars@.take(i + 1).drop_last() =~= chars@.take(i as int));
        }
        if chars[i] == '/' {
            let above = from_chars(&chars, 0, i);
            proof {
                assert(chars@.subrange(0, i as int) =~= chars@.take(i as int));
            }
            plan.taken.push(above);
            proof {
                assert(names(plan.taken@) =~= before.push(chars@.take(i as int)));
                assert(names(plan.taken@) =~= old(plan)@.taken + dirs_above(chars@.take(i + 1)));
            }
        }
        i += 1;
    }
    let ghost before = names(plan.taken@);
    proof {
        assert(chars@.take(chars.len() as int) =~= chars@);
    }
    let taken_path = path.clone();
    plan.artifacts.push(Artifact { path, payload });
    plan.taken.push(taken_path);
    proof {
        assert(final(plan)@.artifacts =~= old(plan)@.artifacts.push(
            ArtifactModel { path: path@, payload: payload@ },
        ));
        assert(names(plan.taken@) =~= before.push(path@));
    }
}

fn push_copy(plan: &mut Plan, wanted: &str, source: &String, best_effort: bool)
    ensures
        final(plan)@ == with_copy(old(plan)@, wanted@, source@, best_effort),
{
    let dest = avoid_collision(wanted, &plan.taken);
    push_artifact(plan, dest, Payload::CopyOf { source: source.clone(), best_effort });
}

fn with_suffix(path: &String, suffix: &str) -> (out: String)
    ensures
        out@ == path@ + suffix@,
{
    let mut out = path.clone();
    out.append(suffix);
    out
}

/// Where an entry of a deleted subtree goes: the part of its path above
/// the head as it is, and every component from the head downward with the
/// deleted marker.
pub open spec fn subtree_dest(head: Seq<char>, rel: Seq<char>) -> Seq<char> {
    let cut = last_index(head, '/') + 1;
    rel.take(cut) + marked_deleted(rel.skip(cut))
}

fn subtree_destination(head: &String, rel: &String) -> (out: String)
    requires
        covers(head@, rel@),
    ensures
        out@ == subtree_dest(head@, rel@),
{
    let h = to_chars(head.as_str());
    let r = to_chars(rel.as_str());
    proof {
        lemma_last_index_bounds(h@, '/');
    }
    let cut: usize = match find_last(&h, '/') {
        Some(i) => i + 1,
        None => 0,
    };
    let mut out = from_chars(&r, 0, cut);
    let rest = from_chars(&r, cut, r.len());
    let marked = rel_parts_with_deleted_suffix(rest.as_str());
    out.append(marked.as_str());
    proof {
        assert(r@.subrange(0, cut as int) =~= r@.take(cut as int));
        assert(r@.subrange(cut as int, r.len() as int) =~= r@.skip(cut as int));
    }
    out
}

/// What one entry found under the deleted subtrees adds to the plan. An
/// entry that no head covers adds nothing. A directory is created at its
/// marked path and counts where it is the head itself. Anything else is
/// copied, best effort, to its marked path with the deleted marker once
/// more behind the name, and counts as a deleted file.
pub open spec fn subtree_step(plan: PlanModel, heads: Seq<Seq<char>>, e: WalkEntry) -> PlanModel {
    match covering_head(heads, e.rel@) {
        None => plan,
        Some(h) => {
            let dest = subtree_dest(h, e.rel@);
            if e.kind == EntryKind::Directory {
                with_artifact(
                    with_counters(
                        plan,
                        if e.rel@ == h {
                            plan.counters.one_more_dir()
                        } else {
                            plan.counters
                        },
                    ),
                    dest,
                    PayloadModel::Directory,
                )
            } else {
                with_copy(
                    with_counters(plan, plan.counters.one_more_deleted()),
                    dest + ".deleted"@,
                    e.abs@,
                    true,
                )
            }
        },
    }
}

/// Lays out one entry found under the deleted subtrees.
pub fn copy_deleted_entry(plan: &mut Plan, heads: &Vec<String>, e: &WalkEntry)
    requires
        old(plan).counters.del_dirs < usize::MAX,
        old(plan).counters.del_files < usize::MAX,
    ensures
        final(plan)@ == subtree_step(old(plan)@, names(heads@), *e),
{
    match find_covering_head(heads, &e.rel) {
        None => {},
        Some(k) => {
            proof {
                lemma_covering_head(names(heads@), e.rel@);
            }
            let dest = subtree_destination(&heads[k], &e.rel);
            match e.kind {
                EntryKind::Directory => {
                    if e.rel == heads[k] {
                        plan.counters.del_dirs += 1;
                    }
                    push_artifact(plan, dest, Payload::Directory);
                },
                _ => {
                    plan.counters.del_files += 1;
                    let wanted = with_suffix(&dest, ".deleted");
                    push_copy(plan, wanted.as_str(), &e.abs, true);
                },
            }
        },
    }
}

/// The plan after the entries found under the deleted subtrees, in order.
pub open spec fn after_subtrees(
    plan: PlanModel,
    heads: Seq<Seq<char>>,
    entries: Seq<WalkEntry>,
) -> PlanModel
    decreases entries.len(),
{
    if entries.len() == 0 {
        plan
    } else {
        subtree_step(after_subtrees(plan, heads, entries.drop_last()), heads, entries.last())
    }
}

/// Lays out the deleted subtrees: every entry found under a head, marked
/// from the head downward. The head itself counts as one deleted directory,
/// every file as one deleted file.
pub fn copy_deleted_tree(plan: &mut Plan, heads: &Vec<String>, entries: &Vec<WalkEntry>)
    requires
        old(plan).counters.del_dirs + entries.len() <= usize::MAX,
        old(plan).counters.del_files + entries.len() <= usize::MAX,
    ensures
        final(plan)@ == after_subtrees(old(plan)@, names(heads@), entries@),
        final(plan).counters.del_dirs <= old(plan).counters.del_dirs + entries.len(),
        final(plan).counters.del_files <= old(plan).counters.del_files + entries.len(),
        final(plan).counters.same == old(plan).counters.same,
        final(plan).counters.new_files == old(plan).counters.new_files,
        final(plan).counters.mod_text == old(plan).counters.mod_text,
        final(plan).counters.mod_binary == old(plan).counters.mod_binary,
{
    let mut i: usize = 0;
    proof {
        assert(entries@.take(0) =~= Seq::empty());
    }
    while i < entries.len()
        invariant
            i <= entries.len(),
            old(plan).counters.del_dirs + entries.len() <= usize::MAX,
            old(plan).counters.del_files + entries.len() <= usize::MAX,
            plan@ == after_subtrees(old(plan)@, names(heads@), entries@.take(i as int)),
            plan.counters.del_dirs <= old(plan).counters.del_dirs + i,
            plan.counters.del_files <= old(plan).counters.del_files + i,
            plan.counters.same == old(plan).counters.same,
            plan.counters.new_files == old(plan).counters.new_files,
            plan.counters.mod_text == old(plan).counters.mod_text,
            plan.counters.mod_binary == old(plan).counters.mod_binary,
        decreases entries.len() - i,
    {
        proof {
            assert(entries@.take(i + 1).drop_last() =~= entries@.take(i as int));
        }
        copy_deleted_entry(plan, heads, &entries[i]);
        i += 1;
    }
    proof {
        assert(entries@.take(entries.len() as int) =~= entries@);
    }
}

/// What one file of the base scan adds as a loose deleted file: nothing
/// where the target scan has the path or a deleted subtree covers it; else
/// a copy of the base file under its path with `.deleted` behind it.
pub open spec fn loose_deleted_step(
    plan: PlanModel,
    heads: Seq<Seq<char>>,
    b: ScanResult,
    f: FileEntry,
) -> PlanModel {
    if covering_head(heads, f.rel@) is Some || b.has_file(f.rel@) {
        plan
    } else {
        with_copy(
            with_counters(plan, plan.counters.one_more_deleted()),
            f.rel@ + ".deleted"@,
            f.abs@,
            false,
        )
    }
}

/// What one file of the target scan adds as a new file: nothing where the
/// base scan has the path; else a copy of the target file under its path
/// with `.new` behind it.
pub open spec fn new_step(plan: PlanModel, a: ScanResult, f: FileEntry) -> PlanModel {
    if a.has_file(f.rel@) {
        plan
    } else {
        with_copy(with_counters(plan, plan.counters.one_more_new()), f.rel@ + ".new"@, f.abs@, false)
    }
}

/// The note that goes with a modified file that was copied, not diffed.
pub open spec fn note_text(a_abs: Seq<char>, b_abs: Seq<char>, size: u64) -> Seq<char> {
    "File treated as binary or too large for line diff.\nBase origin (A): \""@ + a_abs
        + "\"\nTarget origin (B): \""@ + b_abs + "\"\nSize: "@ + decimal(size as nat)
        + " bytes\nStrategy: direct copy from target to '.modified'.\n"@
}

fn provenance_note(a_abs: &String, b_abs: &String, size: u64) -> (out: String)
    ensures
        out@ == note_text(a_abs@, b_abs@, size),
{
    let mut digits: Vec<char> = Vec::new();
    push_decimal(&mut digits, size as u128);
    let len = digits.len();
    let number = from_chars(&digits, 0, len);
    proof {
        assert(digits@.subrange(0, len as int) =~= decimal(size as nat));
    }
    let mut out = String::from_str(
        "File treated as binary or too large for line diff.\nBase origin (A): \"",
    );
    out.append(a_abs.as_str());
    out.append("\"\nTarget origin (B): \"");
    out.append(b_abs.as_str());
    out.append("\"\nSize: ");
    out.append(number.as_str());
    out.append(" bytes\nStrategy: direct copy from target to '.modified'.\n");
    out
}

/// Whether a content can be decoded as text: it was read, and its length
/// leaves the decoder room.
pub open spec fn decodable(content: Option<Vec<u8>>) -> bool {
    content matches Some(bytes) && bytes.len() <= usize::MAX / 4
}

/// The plan that ends at `dest` because the file at `source` could not be
/// read.
pub open spec fn ended_at(plan: PlanModel, dest: Seq<char>, source: Seq<char>) -> PlanModel {
    let ended = with_artifact(plan, dest, PayloadModel::Unreadable { source });
    PlanModel {
        counters: ended.counters,
        artifacts: ended.artifacts,
        taken: ended.taken,
        aborted: true,
    }
}

/// What a file that both scans hold adds to the plan. Nothing once the run
/// has ended. A pair with equal digests counts as unchanged and adds no
/// artifact. Otherwise the artifact goes under the path with `.modified`
/// behind it: where the target file is binary or larger than `max`, a copy
/// of it with a note beside it, counted as modified binary; else the
/// annotated diff, counted as modified text. Where the size of the target
/// file could not be had, or a text cannot be read, the run ends at this
/// file.
pub open spec fn modified_step(
    plan: PlanModel,
    fa: FileEntry,
    fb: FileEntry,
    normalize_eol: bool,
    max: u64,
) -> PlanModel {
    let dest = placed(plan.taken, fa.rel@ + ".modified"@);
    if plan.aborted {
        plan
    } else if digests_agree(fa.content, fb.content) {
        with_counters(plan, plan.counters.one_more_same())
    } else if fb.size is None {
        ended_at(plan, dest, fb.abs@)
    } else if sniffed_binary(fb.content) || fb.size->0 > max {
        with_artifact(
            with_copy(
                with_counters(plan, plan.counters.one_more_binary()),
                fa.rel@ + ".modified"@,
                fb.abs@,
                false,
            ),
            dest + ".NOTE.txt"@,
            PayloadModel::Note { content: note_text(fa.abs@, fb.abs@, fb.size->0) },
        )
    } else if decodable(fa.content) && decodable(fb.content) {
        with_artifact(
            with_counters(plan, plan.counters.one_more_text()),
            dest,
            PayloadModel::Text {
                content: annotated(
                    style_of_path(fa.rel@),
                    line_diff(
                        text_of(fa.content->0@, normalize_eol),
                        text_of(fb.content->0@, normalize_eol),
                    ),
                ),
            },
        )
    } else {
        ended_at(plan, dest, fa.abs@)
    }
}

fn is_decodable(content: &Option<Vec<u8>>) -> (out: bool)
    ensures
        out == decodable(*content),
{
    match content {
        Some(bytes) => bytes.len() <= usize::MAX / 4,
        None => false,
    }
}

/// Compares the two versions of a file that both scans hold and lays out
/// what the comparison calls for.
pub fn compare_common_file(
    plan: &mut Plan,
    fa: &FileEntry,
    fb: &FileEntry,
    normalize_eol: bool,
    max: u64,
)
    requires
        old(plan).counters.same < usize::MAX,
        old(plan).counters.mod_text < usize::MAX,
        old(plan).counters.mod_binary < usize::MAX,
    ensures
        final(plan)@ == modified_step(old(plan)@, *fa, *fb, normalize_eol, max),
{
    if plan.aborted {
        return;
    }
    if file_bytes_equal(&fa.content, &fb.content) {
        plan.counters.same += 1;
        return;
    }
    let style = comment_style_for(fa.rel.as_str());
    let wanted = with_suffix(&fa.rel, ".modified");
    let dest = avoid_collision(wanted.as_str(), &plan.taken);
    let size: u64 = match fb.size {
        Some(n) => n,
        None => {
            push_artifact(plan, dest, Payload::Unreadable { source: fb.abs.clone() });
            plan.aborted = true;
            return;
        },
    };
    if is_probably_binary(&fb.content) || size > max {
        plan.counters.mod_binary += 1;
        let note_path = with_suffix(&dest, ".NOTE.txt");
        push_artifact(plan, dest, Payload::CopyOf { source: fb.abs.clone(), best_effort: false });
        push_artifact(
            plan,
            note_path,
            Payload::Note { content: provenance_note(&fa.abs, &fb.abs, size) },
        );
    } else if is_decodable(&fa.content) && is_decodable(&fb.content) {
        match (&fa.content, &fb.content) {
            (Some(a), Some(b)) => {
                plan.counters.mod_text += 1;
                let content = annotate_text_diff(a, b, &style, normalize_eol);
                push_artifact(plan, dest, Payload::Text { content });
            },
            _ => {},
        }
    } else {
        push_artifact(plan, dest, Payload::Unreadable { source: fa.abs.clone() });
        plan.aborted = true;
    }
}

/// The position of the last file at `rel`, or -1 where there is none.
pub open spec fn file_position(files: Seq<FileEntry>, rel: Seq<char>) -> int
    decreases files.len(),
{
    if files.len() == 0 {
        -1
    } else if files.last().rel@ == rel {
        files.len() - 1
    } else {
        file_position(files.drop_last(), rel)
    }
}

/// The position of the file at `rel` in a scan, if it has one.
pub fn find_file(scan: &ScanResult, rel: &String) -> (found: Option<usize>)
    ensures
        match found {
            Some(i) => i < scan.files.len() && i == file_position(scan.files@, rel@),
            None => file_position(scan.files@, rel@) == -1,
        },
{
    let mut found: Option<usize> = None;
    let mut i: usize = 0;
    while i < scan.files.len()
        invariant
            i <= scan.files.len(),
            match found {
                Some(k) => k < i && k == file_position(scan.files@.take(i as int), rel@),
                None => file_position(scan.files@.take(i as int), rel@) == -1,
            },
        decreases scan.files.len() - i,
    {
        proof {
            assert(scan.files@.take(i + 1).drop_last() =~= scan.files@.take(i as int));
        }
        if scan.files[i].rel == *rel {
            found = Some(i);
        }
        i += 1;
    }
    proof {
        assert(scan.files@.take(scan.files.len() as int) =~= scan.files@);
    }
    found
}

/// What one file of the base scan adds as a common file: nothing where the
/// target scan lacks the path, else the outcome of the comparison.
pub open spec fn common_step(
    plan: PlanModel,
    b: ScanResult,
    fa: FileEntry,
    normalize_eol: bool,
    max: u64,
) -> PlanModel {
    if file_position(b.files@, fa.rel@) >= 0 {
        modified_step(plan, fa, b.files@[file_position(b.files@, fa.rel@)], normalize_eol, max)
    } else {
        plan
    }
}

/// The plan after the loose deleted files among `files`, in order.
pub open spec fn after_loose_deleted(
    plan: PlanModel,
    heads: Seq<Seq<char>>,
    b: ScanResult,
    files: Seq<FileEntry>,
) -> PlanModel
    decreases files.len(),
{
    if files.len() == 0 {
        plan
    } else {
        loose_deleted_step(
            after_loose_deleted(plan, heads, b, files.drop_last()),
            heads,
            b,
            files.last(),
        )
    }
}

/// The plan after the new files among `files`, in order.
pub open spec fn after_new(plan: PlanModel, a: ScanResult, files: Seq<FileEntry>) -> PlanModel
    decreases files.len(),
{
    if files.len() == 0 {
        plan
    } else {
        new_step(after_new(plan, a, files.drop_last()), a, files.last())
    }
}

/// The plan after the common files among `files`, in order.
pub open spec fn after_common(
    plan: PlanModel,
    b: ScanResult,
    files: Seq<FileEntry>,
    normalize_eol: bool,
    max: u64,
) -> PlanModel
    decreases files.len(),
{
    if files.len() == 0 {
        plan
    } else {
        common_step(
            after_common(plan, b, files.drop_last(), normalize_eol, max),
            b,
            files.last(),
            normalize_eol,
            max,
        )
    }
}

/// The plan that a run starts from: nothing counted, nothing written, and
/// the paths in use that the output tree held before.
pub open spec fn initial_plan(existing: Seq<Seq<char>>) -> PlanModel {
    PlanModel {
        counters: Counters::zero(),
        artifacts: Seq::empty(),
        taken: existing,
        aborted: false,
    }
}

/// The whole comparison: deleted subtrees first, then loose deleted files,
/// then new files, then the files that both trees hold.
pub open spec fn planned(
    a: ScanResult,
    b: ScanResult,
    subtree: Seq<WalkEntry>,
    existing: Seq<Seq<char>>,
    normalize_eol: bool,
    max: u64,
) -> PlanModel {
    let heads = heads_of(a, b);
    let subtrees_done = after_subtrees(initial_plan(existing), heads, subtree);
    let deleted_done = after_loose_deleted(subtrees_done, heads, b, a.files@);
    let new_done = after_new(deleted_done, a, b.files@);
    after_common(new_done, b, a.files@, normalize_eol, max)
}

/// Compares two scanned trees and lays out every difference. `subtree`
/// holds the entries found on disk under the deleted subtrees of the base
/// tree, `existing` the paths that the output tree holds already. Nothing
/// is written: the result lists the artifacts to write, in order, with the
/// tallies of a run in which every write succeeds.
pub fn run_bigdiff(
    a: &ScanResult,
    b: &ScanResult,
    subtree: &Vec<WalkEntry>,
    existing: Vec<String>,
    opts: &Options,
) -> (plan: Plan)
    requires
        subtree.len() + a.files.len() <= usize::MAX,
    ensures
        plan@ == planned(
            *a,
            *b,
            subtree@,
            names(existing@),
            opts.normalize_eol,
            opts.max_text_size,
        ),
{
    let heads = deleted_dir_heads(a, b);
    let mut plan = Plan {
        counters: Counters::default(),
        artifacts: Vec::new(),
        taken: existing,
        aborted: false,
    };
    proof {
        assert(plan@.artifacts =~= Seq::empty());
    }
    copy_deleted_tree(&mut plan, &heads, subtree);
    let ghost subtrees_done = plan@;
    let mut i: usize = 0;
    proof {
        assert(a.files@.take(0) =~= Seq::empty());
    }
    while i < a.files.len()
        invariant
            i <= a.files.len(),
            subtree.len() + a.files.len() <= usize::MAX,
            plan@ == after_loose_deleted(subtrees_done, names(heads@), *b, a.files@.take(i as int)),
            plan.counters.del_files <= subtree.len() + i,
            plan.counters.same == 0,
            plan.counters.new_files == 0,
            plan.counters.mod_text == 0,
            plan.counters.mod_binary == 0,
        decreases a.files.len() - i,
    {
        proof {
            assert(a.files@.take(i + 1).drop_last() =~= a.files@.take(i as int));
            lemma_covering_head(names(heads@), a.files[i as int].rel@);
        }
        let f = &a.files[i];
        if find_covering_head(&heads, &f.rel).is_none() && !b.contains_file(&f.rel) {
            plan.counters.del_files += 1;
            let wanted = with_suffix(&f.rel, ".deleted");
            push_copy(&mut plan, wanted.as_str(), &f.abs, false);
        }
        i += 1;
    }
    proof {
        assert(a.files@.take(a.files.len() as int) =~= a.files@);
    }
    let ghost deleted_done = plan@;
    let mut j: usize = 0;
    proof {
        assert(b.files@.take(0) =~= Seq::empty());
    }
    while j < b.files.len()
        invariant
            j <= b.files.len(),
            plan@ == after_new(deleted_done, *a, b.files@.take(j as int)),
            plan.counters.new_files <= j,
            plan.counters.same == 0,
            plan.counters.mod_text == 0,
            plan.counters.mod_binary == 0,
        decreases b.files.len() - j,
    {
        proof {
            assert(b.files@.take(j + 1).drop_last() =~= b.files@.take(j as int));
        }
        let f = &b.files[j];
        if !a.contains_file(&f.rel) {
            plan.counters.new_files += 1;
            let wanted = with_suffix(&f.rel, ".new");
            push_copy(&mut plan, wanted.as_str(), &f.abs, false);
        }
        j += 1;
    }
    proof {
        assert(b.files@.take(b.files.len() as int) =~= b.files@);
    }
    let ghost new_done = plan@;
    let mut k: usize = 0;
    proof {
        assert(a.files@.take(0) =~= Seq::empty());
    }
    while k < a.files.len()
        invariant
            k <= a.files.len(),
            plan@ == after_common(
                new_done,
                *b,
                a.files@.take(k as int),
                opts.normalize_eol,
                opts.max_text_size,
            ),
            plan.counters.same <= k,
            plan.counters.mod_text <= k,
            plan.counters.mod_binary <= k,
        decreases a.files.len() - k,
    {
        proof {
            assert(a.files@.take(k + 1).drop_last() =~= a.files@.take(k as int));
        }
        let fa = &a.files[k];
        match find_file(b, &fa.rel) {
            Some(at) => {
                compare_common_file(
                    &mut plan,
                    fa,
                    &b.files[at],
                    opts.normalize_eol,
                    opts.max_text_size,
                );
            },
            None => {},
        }
        k += 1;
    }
    proof {
        assert(a.files@.take(a.files.len() as int) =~= a.files@);
    }
    plan
}

/// What a dry run reports.
#[derive(Clone, Copy, Debug, PartialEq, Eq, Structural)]
pub struct DryRunSummary {
    /// Files that only the base tree holds.
    pub only_base: usize,
    /// Files that only the target tree holds.
    pub only_target: usize,
    /// Files that both trees hold.
    pub common: usize,
}

/// How many of `files` the scan `other` lacks.
pub open spec fn count_missing(files: Seq<FileEntry>, other: ScanResult) -> nat
    decreases files.len(),
{
    if files.len() == 0 {
        0
    } else if other.has_file(files.last().rel@) {
        count_missing(files.drop_last(), other)
    } else {
        count_missing(files.drop_last(), other) + 1
    }
}

fn count_files_missing(files: &Vec<FileEntry>, other: &ScanResult) -> (n: usize)
    ensures
        n == count_missing(files@, *other),
        n <= files.len(),
{
    let mut n: usize = 0;
    let mut i: usize = 0;
    proof {
        assert(files@.take(0) =~= Seq::empty());
    }
    while i < files.len()
        invariant
            i <= files.len(),
            n <= i,
            n == count_missing(files@.take(i as int), *other),
        decreases files.len() - i,
    {
        proof {
            assert(files@.take(i + 1).drop_last() =~= files@.take(i as int));
        }
        if !other.contains_file(&files[i].rel) {
            n += 1;
        }
        i += 1;
    }
    proof {
        assert(files@.take(files.len() as int) =~= files@);
    }
    n
}

/// Counts, without comparing any content, the files that only the base
/// tree holds, those that only the target tree holds, and those that both
/// hold.
pub fn dry_run_summary(a: &ScanResult, b: &ScanResult) -> (out: DryRunSummary)
    ensures
        out.only_base == count_missing(a.files@, *b),
        out.only_target == count_missing(b.files@, *a),
        out.common == a.files.len() - count_missing(a.files@, *b),
{
    let only_base = count_files_missing(&a.files, b);
    let only_target = count_files_missing(&b.files, a);
    DryRunSummary { only_base, only_target, common: a.files.len() - only_base }
}

} // verus!
