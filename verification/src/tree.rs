//! Relations between relative paths, and the heads of deleted subtrees.

use crate::scanner::ScanResult;
use crate::text::to_chars;
use crate::utils::names;
use vstd::prelude::*;

verus! {

/// Whether `rel` lies strictly below the directory `head`.
pub open spec fn is_under(rel: Seq<char>, head: Seq<char>) -> bool {
    rel.len() > head.len() && rel.take(head.len() as int) == head && rel[head.len() as int] == '/'
}

/// Whether `rel` is `head` itself or lies below it.
pub open spec fn covers(head: Seq<char>, rel: Seq<char>) -> bool {
    rel == head || is_under(rel, head)
}

/// What lies below a directory that lies below another lies below that one.
pub proof fn lemma_under_transitive(rel: Seq<char>, mid: Seq<char>, head: Seq<char>)
    requires
        is_under(rel, mid),
        is_under(mid, head),
    ensures
        is_under(rel, head),
{
    assert(rel.take(head.len() as int) =~= rel.take(mid.len() as int).take(head.len() as int));
    assert(rel.take(mid.len() as int)[head.len() as int] == rel[head.len() as int]);
}

/// Whether `rel` lies strictly below the directory `head`.
pub fn path_under(rel: &str, head: &str) -> (out: bool)
    ensures
        out == is_under(rel@, head@),
{
    let r = to_chars(rel);
    let h = to_chars(head);
    if r.len() <= h.len() {
        return false;
    }
    let mut i: usize = 0;
    while i < h.len()
        invariant
            i <= h.len() < r.len(),
            r@ == rel@,
            h@ == head@,
            forall|j: int| 0 <= j < i ==> r@[j] == h@[j],
        decreases h.len() - i,
    {
        if r[i] != h[i] {
            assert(r@.take(h.len() as int)[i as int] != h@[i as int]);
            return false;
        }
        i += 1;
    }
    assert(r@.take(h.len() as int) =~= h@);
    r[h.len()] == '/'
}

/// Whether `rel` is `head` itself or lies below it.
pub fn path_covers(head: &String, rel: &String) -> (out: bool)
    ensures
        out == covers(head@, rel@),
{
    *rel == *head || path_under(rel.as_str(), head.as_str())
}

/// The last of `heads` that covers `rel`, if any does.
pub open spec fn covering_head(heads: Seq<Seq<char>>, rel: Seq<char>) -> Option<Seq<char>>
    decreases heads.len(),
{
    if heads.len() == 0 {
        None
    } else if covers(heads.last(), rel) {
        Some(heads.last())
    } else {
        covering_head(heads.drop_last(), rel)
    }
}

/// A covering head is one of the heads and covers the path; there is none
/// only where no head covers it.
pub proof fn lemma_covering_head(heads: Seq<Seq<char>>, rel: Seq<char>)
    ensures
        match covering_head(heads, rel) {
            Some(h) => heads.contains(h) && covers(h, rel),
            None => forall|i: int| 0 <= i < heads.len() ==> !covers(#[trigger] heads[i], rel),
        },
    decreases heads.len(),
{
    if heads.len() > 0 {
        if covers(heads.last(), rel) {
            assert(heads[heads.len() - 1] == heads.last());
        } else {
            lemma_covering_head(heads.drop_last(), rel);
            match covering_head(heads.drop_last(), rel) {
                Some(h) => {
                    let i = choose|i: int|
                        0 <= i < heads.drop_last().len() && heads.drop_last()[i] == h;
                    assert(heads[i] == h);
                },
                None => {
                    assert forall|i: int| 0 <= i < heads.len() implies !covers(
                        #[trigger] heads[i],
                        rel,
                    ) by {
                        if i < heads.len() - 1 {
                            assert(heads.drop_last()[i] == heads[i]);
                        }
                    }
                },
            }
        }
    }
}

/// The index of the last of `heads` that covers `rel`.
pub fn find_covering_head(heads: &Vec<String>, rel: &String) -> (found: Option<usize>)
    ensures
        match found {
            Some(i) => i < heads.len() && covering_head(names(heads@), rel@) == Some(heads[i as int]@),
            None => covering_head(names(heads@), rel@) is None,
        },
{
    let mut found: Option<usize> = None;
    let mut i: usize = 0;
    while i < heads.len()
        invariant
            i <= heads.len(),
            match found {
                Some(k) => k < i && covering_head(names(heads@).take(i as int), rel@) == Some(
                    heads[k as int]@,
                ),
                None => covering_head(names(heads@).take(i as int), rel@) is None,
            },
        decreases heads.len() - i,
    {
        proof {
            assert(names(heads@).take(i + 1).drop_last() =~= names(heads@).take(i as int));
            assert(names(heads@).take(i + 1).last() == heads[i as int]@);
        }
        if path_covers(&heads[i], rel) {
            found = Some(i);
        }
        i += 1;
    }
    proof {
        assert(names(heads@).take(heads.len() as int) =~= names(heads@));
    }
    found
}

/// Whether directory `i` of the base tree is missing from the target tree
/// and lies above `d`.
pub open spec fn deleted_above(
    a_dirs: Seq<Seq<char>>,
    b_dirs: Seq<Seq<char>>,
    i: int,
    d: Seq<char>,
) -> bool {
    0 <= i < a_dirs.len() && !b_dirs.contains(a_dirs[i]) && is_under(d, a_dirs[i])
}

/// Whether `d` is the head of a deleted subtree: a directory missing from
/// the target tree that lies below no other such directory of the base tree.
pub open spec fn is_head(d: Seq<char>, a_dirs: Seq<Seq<char>>, b_dirs: Seq<Seq<char>>) -> bool {
    !b_dirs.contains(d) && !exists|i: int| #[trigger] deleted_above(a_dirs, b_dirs, i, d)
}

/// The heads among `dirs`, in the order of `dirs`.
pub open spec fn heads_among(
    dirs: Seq<Seq<char>>,
    a_dirs: Seq<Seq<char>>,
    b_dirs: Seq<Seq<char>>,
) -> Seq<Seq<char>>
    decreases dirs.len(),
{
    if dirs.len() == 0 {
        Seq::empty()
    } else if is_head(dirs.last(), a_dirs, b_dirs) {
        heads_among(dirs.drop_last(), a_dirs, b_dirs).push(dirs.last())
    } else {
        heads_among(dirs.drop_last(), a_dirs, b_dirs)
    }
}

/// The heads of the deleted subtrees of two scans.
pub open spec fn heads_of(a: ScanResult, b: ScanResult) -> Seq<Seq<char>> {
    heads_among(names(a.dirs@), names(a.dirs@), names(b.dirs@))
}

fn lies_under_deleted(d: &String, a: &ScanResult, b: &ScanResult) -> (out: bool)
    ensures
        out == exists|i: int| #[trigger] deleted_above(names(a.dirs@), names(b.dirs@), i, d@),
{
    let mut i: usize = 0;
    while i < a.dirs.len()
        invariant
            i <= a.dirs.len(),
            forall|j: int| 0 <= j < i ==> !#[trigger] deleted_above(names(a.dirs@), names(b.dirs@), j, d@),
        decreases a.dirs.len() - i,
    {
        if !b.contains_dir(&a.dirs[i]) && path_under(d.as_str(), a.dirs[i].as_str()) {
            assert(deleted_above(names(a.dirs@), names(b.dirs@), i as int, d@));
            return true;
        }
        i += 1;
    }
    false
}

/// The heads of the deleted subtrees: the directories of the base scan
/// that the target scan lacks and that lie below no other such directory,
/// so that each deleted subtree is named once, by its top.
pub fn deleted_dir_heads(a: &ScanResult, b: &ScanResult) -> (heads: Vec<String>)
    ensures
        names(heads@) == heads_of(*a, *b),
{
    let mut heads: Vec<String> = Vec::new();
    let mut i: usize = 0;
    let ghost a_dirs = names(a.dirs@);
    let ghost b_dirs = names(b.dirs@);
    while i < a.dirs.len()
        invariant
            i <= a.dirs.len(),
            a_dirs == names(a.dirs@),
            b_dirs == names(b.dirs@),
            names(heads@) == heads_among(a_dirs.take(i as int), a_dirs, b_dirs),
        decreases a.dirs.len() - i,
    {
        let ghost before = names(heads@);
        proof {
            assert(a_dirs.take(i + 1).drop_last() =~= a_dirs.take(i as int));
            assert(a_dirs.take(i + 1).last() == a.dirs[i as int]@);
        }
        if !b.contains_dir(&a.dirs[i]) && !lies_under_deleted(&a.dirs[i], a, b) {
            heads.push(a.dirs[i].clone());
            proof {
                assert(names(heads@) =~= before.push(a.dirs[i as int]@));
            }
        }
        i += 1;
    }
    proof {
        assert(a_dirs.take(a.dirs.len() as int) =~= a_dirs);
    }
    heads
}

/// Every head among `dirs` is a head, and every head in `dirs` is among
/// them.
pub proof fn lemma_heads_among(
    dirs: Seq<Seq<char>>,
    a_dirs: Seq<Seq<char>>,
    b_dirs: Seq<Seq<char>>,
    d: Seq<char>,
)
    ensures
        heads_among(dirs, a_dirs, b_dirs).contains(d) <==> dirs.contains(d) && is_head(
            d,
            a_dirs,
            b_dirs,
        ),
    decreases dirs.len(),
{
    let heads = heads_among(dirs, a_dirs, b_dirs);
    if dirs.len() > 0 {
        let rest = heads_among(dirs.drop_last(), a_dirs, b_dirs);
        lemma_heads_among(dirs.drop_last(), a_dirs, b_dirs, d);
        if heads.contains(d) {
            let i = choose|i: int| 0 <= i < heads.len() && heads[i] == d;
            if i < rest.len() {
                assert(rest[i] == d);
                let j = choose|j: int| 0 <= j < dirs.drop_last().len() && dirs.drop_last()[j] == d;
                assert(dirs[j] == d);
            } else {
                assert(dirs[dirs.len() - 1] == d);
            }
        }
        if dirs.contains(d) && is_head(d, a_dirs, b_dirs) {
            let j = choose|j: int| 0 <= j < dirs.len() && dirs[j] == d;
            if j < dirs.len() - 1 {
                assert(dirs.drop_last()[j] == d);
                let i = choose|i: int| 0 <= i < rest.len() && rest[i] == d;
                assert(heads[i] == d);
            } else {
                assert(heads[heads.len() - 1] == d);
            }
        }
    }
}

/// Collapsing loses no deleted directory: each directory of the base tree
/// that the target tree lacks is a head or lies below one.
pub proof fn lemma_deleted_dir_has_head(a_dirs: Seq<Seq<char>>, b_dirs: Seq<Seq<char>>, d: Seq<char>)
    requires
        a_dirs.contains(d),
        !b_dirs.contains(d),
    ensures
        exists|h: Seq<char>| #[trigger]
            heads_among(a_dirs, a_dirs, b_dirs).contains(h) && covers(h, d),
    decreases d.len(),
{
    if is_head(d, a_dirs, b_dirs) {
        lemma_heads_among(a_dirs, a_dirs, b_dirs, d);
        assert(heads_among(a_dirs, a_dirs, b_dirs).contains(d) && covers(d, d));
    } else {
        let i = choose|i: int| deleted_above(a_dirs, b_dirs, i, d);
        let e = a_dirs[i];
        lemma_deleted_dir_has_head(a_dirs, b_dirs, e);
        let h = choose|h: Seq<char>| #[trigger]
            heads_among(a_dirs, a_dirs, b_dirs).contains(h) && covers(h, e);
        if h != e {
            lemma_under_transitive(d, e, h);
        }
        assert(heads_among(a_dirs, a_dirs, b_dirs).contains(h) && covers(h, d));
    }
}

/// No head lies below another head.
pub proof fn lemma_heads_not_nested(
    a_dirs: Seq<Seq<char>>,
    b_dirs: Seq<Seq<char>>,
    h: Seq<char>,
    g: Seq<char>,
)
    requires
        heads_among(a_dirs, a_dirs, b_dirs).contains(h),
        heads_among(a_dirs, a_dirs, b_dirs).contains(g),
    ensures
        !is_under(h, g),
{
    lemma_heads_among(a_dirs, a_dirs, b_dirs, h);
    lemma_heads_among(a_dirs, a_dirs, b_dirs, g);
    if is_under(h, g) {
        let i = choose|i: int| 0 <= i < a_dirs.len() && a_dirs[i] == g;
        assert(deleted_above(a_dirs, b_dirs, i, h));
    }
}

} // verus!
