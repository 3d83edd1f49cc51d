//! Ignore rules and the scan of one directory tree.

use crate::comment::{file_name_chars, file_name_of};
use crate::text::{chars_eq, from_chars, to_chars};
use crate::utils::{is_taken, names};
use vstd::prelude::*;

verus! {

/// Whether `pattern` is a glob pattern that `glob` accepts.
pub uninterp spec fn glob_valid(pattern: Seq<char>) -> bool;

/// Whether `pattern` is a glob pattern that `glob` accepts and that matches
/// `text` under the default match options.
pub uninterp spec fn glob_hit(pattern: Seq<char>, text: Seq<char>) -> bool;

/// `glob::Pattern::new`: whether the pattern compiles, a function of its
/// text alone.
#[verifier::external_body]
pub(crate) fn pattern_is_valid(pattern: &str) -> (ok: bool)
    ensures
        ok == glob_valid(pattern@),
{
    glob::Pattern::new(pattern).is_ok()
}

/// `glob::Pattern::matches` on the pattern compiled from `pattern`: whether
/// it matches `text`. A pattern that does not compile matches nothing.
#[verifier::external_body]
fn pattern_matches(pattern: &str, text: &str) -> (hit: bool)
    ensures
        hit == glob_hit(pattern@, text@),
{
    match glob::Pattern::new(pattern) {
        Ok(compiled) => compiled.matches(text),
        Err(_) => false,
    }
}

/// Names that are ignored wherever they stand: version-control metadata,
/// the interpreter cache, and two marker files that operating systems leave.
pub open spec fn is_default_ignored(name: Seq<char>) -> bool {
    name == ".git"@ || name == "__pycache__"@ || name == ".DS_Store"@ || name == "Thumbs.db"@
}

/// `path` with every backslash turned into a forward slash.
pub open spec fn slashed(path: Seq<char>) -> Seq<char> {
    Seq::new(
        path.len(),
        |i: int|
            if path[i] == '\\' {
                '/'
            } else {
                path[i]
            },
    )
}

/// Whether pattern `i` matches the path or its bare file name.
pub open spec fn pattern_ignores(patterns: Seq<String>, i: int, rel: Seq<char>) -> bool {
    glob_hit(patterns[i]@, slashed(rel)) || glob_hit(patterns[i]@, file_name_of(rel))
}

/// Whether a relative path is ignored: by its file name being one of the
/// default names, or by a pattern that matches the path or its file name.
pub open spec fn ignored(rel: Seq<char>, patterns: Seq<String>) -> bool {
    is_default_ignored(file_name_of(rel)) || exists|i: int|
        0 <= i < patterns.len() && #[trigger] pattern_ignores(patterns, i, rel)
}

fn to_slashed(chars: &Vec<char>) -> (out: String)
    ensures
        out@ == slashed(chars@),
{
    let mut out = String::new();
    let mut i: usize = 0;
    while i < chars.len()
        invariant
            i <= chars.len(),
            out@ == slashed(chars@.take(i as int)),
        decreases chars.len() - i,
    {
        if chars[i] == '\\' {
            out.push('/');
        } else {
            out.push(chars[i]);
        }
        proof {
            assert(out@ =~= slashed(chars@.take(i + 1)));
        }
        i += 1;
    }
    proof {
        assert(chars@.take(chars.len() as int) =~= chars@);
    }
    out
}

/// Whether the entry at relative path `rel` (components separated by `/`)
/// is left out of a scan.
pub fn is_ignored(rel: &str, patterns: &Vec<String>) -> (out: bool)
    ensures
        out == ignored(rel@, patterns@),
{
    let chars = to_chars(rel);
    let name = file_name_chars(&chars);
    if chars_eq(&name, ".git") || chars_eq(&name, "__pycache__") || chars_eq(&name, ".DS_Store")
        || chars_eq(&name, "Thumbs.db") {
        return true;
    }
    let whole = to_slashed(&chars);
    let bare = from_chars(&name, 0, name.len());
    proof {
        assert(name@.subrange(0, name.len() as int) =~= name@);
    }
    let mut i: usize = 0;
    while i < patterns.len()
        invariant
            i <= patterns.len(),
            whole@ == slashed(rel@),
            bare@ == file_name_of(rel@),
            forall|j: int| 0 <= j < i ==> !#[trigger] pattern_ignores(patterns@, j, rel@),
        decreases patterns.len() - i,
    {
        if pattern_matches(patterns[i].as_str(), whole.as_str()) || pattern_matches(
            patterns[i].as_str(),
            bare.as_str(),
        ) {
            assert(pattern_ignores(patterns@, i as int, rel@));
            return true;
        }
        i += 1;
    }
    false
}

/// Whether position `k` of `rel` ends a component: it is the end of the
/// path or stands before a separator.
pub open spec fn component_end(rel: Seq<char>, k: int) -> bool {
    0 < k <= rel.len() && (k == rel.len() || rel[k] == '/')
}

/// Whether the prefix of `rel` that ends at `k` is an ignored entry.
pub open spec fn ignored_at(rel: Seq<char>, patterns: Seq<String>, k: int) -> bool {
    component_end(rel, k) && ignored(rel.take(k), patterns)
}

/// Whether a walk that prunes ignored entries before descending leaves out
/// `rel`: the entry itself or one of the directories above it is ignored.
pub open spec fn pruned(rel: Seq<char>, patterns: Seq<String>) -> bool {
    exists|k: int| #[trigger] ignored_at(rel, patterns, k)
}

/// Whether the entry at `rel`, or a directory above it, is ignored.
pub fn is_pruned(rel: &str, patterns: &Vec<String>) -> (out: bool)
    ensures
        out == pruned(rel@, patterns@),
{
    let chars = to_chars(rel);
    if chars.len() == 0 {
        return false;
    }
    let mut k: usize = 1;
    while k < chars.len()
        invariant
            1 <= k <= chars.len(),
            chars@ == rel@,
            forall|j: int| 0 <= j < k ==> !#[trigger] ignored_at(rel@, patterns@, j),
        decreases chars.len() - k,
    {
        if chars[k] == '/' {
            let above = from_chars(&chars, 0, k);
            if is_ignored(above.as_str(), patterns) {
                assert(ignored_at(rel@, patterns@, k as int));
                return true;
            }
        }
        k += 1;
    }
    let whole = is_ignored(rel, patterns);
    proof {
        assert(rel@.take(rel@.len() as int) =~= rel@);
        if whole {
            assert(ignored_at(rel@, patterns@, rel@.len() as int));
        }
    }
    whole
}

/// What a walk found at a path.
#[derive(Clone, Copy, Debug, PartialEq, Eq, Structural)]
pub enum EntryKind {
    Directory,
    File,
    /// Neither a directory nor a regular file.
    Other,
}

/// One entry that a walk of a tree came by.
#[derive(Debug)]
pub struct WalkEntry {
    /// The path relative to the root of the walk, components separated by `/`.
    pub rel: String,
    /// The absolute path.
    pub abs: String,
    pub kind: EntryKind,
    /// The size in bytes; `None` where it could not be had.
    pub size: Option<u64>,
    /// The content of a file; `None` where it could not be read.
    pub content: Option<Vec<u8>>,
}

/// A file of a scanned tree.
#[derive(Debug)]
pub struct FileEntry {
    pub rel: String,
    pub abs: String,
    /// The size in bytes; `None` where it could not be had.
    pub size: Option<u64>,
    /// The content; `None` where it could not be read.
    pub content: Option<Vec<u8>>,
}

/// The files and directories of one tree, by relative path.
#[derive(Debug)]
pub struct ScanResult {
    pub files: Vec<FileEntry>,
    pub dirs: Vec<String>,
    pub root: String,
}

/// The file entry made from a walk entry.
pub open spec fn file_of(e: WalkEntry) -> FileEntry {
    FileEntry { rel: e.rel, abs: e.abs, size: e.size, content: e.content }
}

/// Whether a scan keeps the entry: it is not the root itself, and neither
/// it nor a directory above it is ignored.
pub open spec fn kept(rel: Seq<char>, patterns: Seq<String>) -> bool {
    rel.len() > 0 && !pruned(rel, patterns)
}

/// The relative paths of a list of files.
pub open spec fn file_names(files: Seq<FileEntry>) -> Seq<Seq<char>> {
    Seq::new(files.len(), |i: int| files[i].rel@)
}

/// Whether entry `j` of `entries` is a kept entry of the given kind.
pub open spec fn kept_entry(
    entries: Seq<WalkEntry>,
    patterns: Seq<String>,
    j: int,
    kind: EntryKind,
) -> bool {
    0 <= j < entries.len() && entries[j].kind == kind && kept(entries[j].rel@, patterns)
}

/// Whether `f` is the file entry of a kept regular file among `entries`.
pub open spec fn file_scanned_from(
    f: FileEntry,
    entries: Seq<WalkEntry>,
    patterns: Seq<String>,
) -> bool {
    exists|j: int|
        #[trigger] kept_entry(entries, patterns, j, EntryKind::File) && f == file_of(entries[j])
}

/// Whether `d` is the path of a kept directory among `entries`.
pub open spec fn dir_scanned_from(
    d: Seq<char>,
    entries: Seq<WalkEntry>,
    patterns: Seq<String>,
) -> bool {
    exists|j: int|
        #[trigger] kept_entry(entries, patterns, j, EntryKind::Directory) && d == entries[j].rel@
}

impl ScanResult {
    /// No relative path stands twice among the files, nor among the
    /// directories.
    pub open spec fn wf(&self) -> bool {
        file_names(self.files@).no_duplicates() && names(self.dirs@).no_duplicates()
    }

    /// Whether the scan holds a file at `rel`.
    pub open spec fn has_file(&self, rel: Seq<char>) -> bool {
        file_names(self.files@).contains(rel)
    }

    /// Whether the scan holds a directory at `rel`.
    pub open spec fn has_dir(&self, rel: Seq<char>) -> bool {
        names(self.dirs@).contains(rel)
    }

    /// Whether a file stands at `rel`.
    pub fn contains_file(&self, rel: &String) -> (found: bool)
        ensures
            found == self.has_file(rel@),
    {
        let mut i: usize = 0;
        while i < self.files.len()
            invariant
                i <= self.files.len(),
                forall|j: int| 0 <= j < i ==> file_names(self.files@)[j] != rel@,
            decreases self.files.len() - i,
        {
            if self.files[i].rel == *rel {
                assert(file_names(self.files@)[i as int] == rel@);
                return true;
            }
            i += 1;
        }
        false
    }

    /// Whether a directory stands at `rel`.
    pub fn contains_dir(&self, rel: &String) -> (found: bool)
        ensures
            found == self.has_dir(rel@),
    {
        is_taken(&self.dirs, rel)
    }
}

/// Builds the scan of a tree from the entries that a walk of it met, in any
/// order. The root itself and every entry that is ignored or lies under an
/// ignored directory are left out; regular files and directories are kept
/// by relative path, each path once; other entries are dropped.
pub fn scan_dir(root: &str, entries: Vec<WalkEntry>, patterns: &Vec<String>) -> (out: ScanResult)
    ensures
        out.root@ == root@,
        out.wf(),
        forall|i: int|
            0 <= i < out.files.len() ==> file_scanned_from(
                #[trigger] out.files[i],
                entries@,
                patterns@,
            ),
        forall|j: int|
            #[trigger] kept_entry(entries@, patterns@, j, EntryKind::File) ==> out.has_file(
                entries[j].rel@,
            ),
        forall|i: int|
            0 <= i < out.dirs.len() ==> dir_scanned_from(
                (#[trigger] out.dirs[i])@,
                entries@,
                patterns@,
            ),
        forall|j: int|
            #[trigger] kept_entry(entries@, patterns@, j, EntryKind::Directory) ==> out.has_dir(
                entries[j].rel@,
            ),
{
    let ghost all = entries@;
    let mut entries = entries;
    let mut out = ScanResult { files: Vec::new(), dirs: Vec::new(), root: String::from_str(root) };
    while entries.len() > 0
        invariant
            entries@ == all.take(entries.len() as int),
            entries.len() <= all.len(),
            out.root@ == root@,
            out.wf(),
            forall|i: int|
                0 <= i < out.files.len() ==> file_scanned_from(
                    #[trigger] out.files[i],
                    all,
                    patterns@,
                ),
            forall|j: int|
                entries.len() <= j && #[trigger] kept_entry(all, patterns@, j, EntryKind::File)
                    ==> out.has_file(all[j].rel@),
            forall|i: int|
                0 <= i < out.dirs.len() ==> dir_scanned_from(
                    (#[trigger] out.dirs[i])@,
                    all,
                    patterns@,
                ),
            forall|j: int|
                entries.len() <= j && #[trigger] kept_entry(
                    all,
                    patterns@,
                    j,
                    EntryKind::Directory,
                ) ==> out.has_dir(all[j].rel@),
        decreases entries.len(),
    {
        let ghost n = entries.len() - 1;
        let ghost before = out;
        let e = entries.pop().unwrap();
        assert(e == all[n]);
        assert(entries@ =~= all.take(n));
        let keep = e.rel.as_str().unicode_len() > 0 && !is_pruned(e.rel.as_str(), patterns);
        assert(keep == kept(e.rel@, patterns@));
        match e.kind {
            EntryKind::File => {
                if keep && !out.contains_file(&e.rel) {
                    out.files.push(FileEntry { rel: e.rel, abs: e.abs, size: e.size, content: e.content });
                    proof {
                        let k = before.files.len() as int;
                        assert(kept_entry(all, patterns@, n, EntryKind::File));
                        assert(out.files@[k] == file_of(all[n]));
                        assert(file_names(out.files@) =~= file_names(before.files@).push(e.rel@));
                        assert forall|i: int| 0 <= i < out.files.len() implies file_scanned_from(
                            #[trigger] out.files[i],
                            all,
                            patterns@,
                        ) by {
                            if i < k {
                                assert(out.files[i] == before.files[i]);
                            }
                        }
                        assert forall|j: int|
                            n <= j && #[trigger] kept_entry(
                                all,
                                patterns@,
                                j,
                                EntryKind::File,
                            ) implies out.has_file(all[j].rel@) by {
                            if j > n {
                                let i = choose|i: int|
                                    0 <= i < k && file_names(before.files@)[i] == all[j].rel@;
                                assert(file_names(out.files@)[i] == all[j].rel@);
                            } else {
                                assert(file_names(out.files@)[k] == all[n].rel@);
                            }
                        }
                    }
                }
            },
            EntryKind::Directory => {
                if keep && !out.contains_dir(&e.rel) {
                    out.dirs.push(e.rel);
                    proof {
                        let k = before.dirs.len() as int;
                        assert(kept_entry(all, patterns@, n, EntryKind::Directory));
                        assert(out.dirs@[k]@ == all[n].rel@);
                        assert(names(out.dirs@) =~= names(before.dirs@).push(all[n].rel@));
                        assert forall|i: int| 0 <= i < out.dirs.len() implies dir_scanned_from(
                            (#[trigger] out.dirs[i])@,
                            all,
                            patterns@,
                        ) by {
                            if i < k {
                                assert(out.dirs[i] == before.dirs[i]);
                            }
                        }
                        assert forall|j: int|
                            n <= j && #[trigger] kept_entry(
                                all,
                                patterns@,
                                j,
                                EntryKind::Directory,
                            ) implies out.has_dir(all[j].rel@) by {
                            if j > n {
                                let i = choose|i: int|
                                    0 <= i < k && names(before.dirs@)[i] == all[j].rel@;
                                assert(names(out.dirs@)[i] == all[j].rel@);
                            } else {
                                assert(names(out.dirs@)[k] == all[n].rel@);
                            }
                        }
                    }
                }
            },
            EntryKind::Other => {},
        }
    }
    out
}

} // verus!
