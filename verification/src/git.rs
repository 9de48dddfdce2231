//! Decision logic for the diff scan: file-status eligibility, extension
//! extraction from a path, and recording one diff hunk in the registry.
//!
//! The diff itself is computed and walked by the caller; this module owns
//! every choice made about what the walk yields.

use vstd::prelude::*;

use crate::format::{spec_add_hunk, BucketView, Formatters, Hunk};

verus! {

/// Per-file change status as a diff reports it.
#[derive(Clone, Copy, PartialEq, Eq, Structural, Debug)]
pub enum Status {
    Added,
    Deleted,
    Modified,
    Renamed,
    Copied,
    Ignored,
    Untracked,
    Typechange,
    Unreadable,
    Conflicted,
    Unmodified,
}

/// A file's hunks are taken only for these statuses; every other status
/// is observed but contributes nothing.
pub open spec fn eligible(s: Status) -> bool {
    match s {
        Status::Added => true,
        Status::Modified => true,
        Status::Renamed => true,
        Status::Copied => true,
        Status::Untracked => true,
        Status::Ignored => true,
        _ => false,
    }
}

pub fn is_eligible(s: Status) -> (r: bool)
    ensures
        r == eligible(s),
{
    match s {
        Status::Added => true,
        Status::Modified => true,
        Status::Renamed => true,
        Status::Copied => true,
        Status::Untracked => true,
        Status::Ignored => true,
        _ => false,
    }
}

/// Index of the last occurrence of `c` in `s`, or -1 if there is none.
pub open spec fn last_index_of(s: Seq<char>, c: char) -> int
    decreases s.len(),
{
    if s.len() == 0 {
        -1
    } else if s.last() == c {
        s.len() - 1
    } else {
        last_index_of(s.drop_last(), c)
    }
}

proof fn lemma_last_index_at(s: Seq<char>, c: char, j: int)
    requires
        0 <= j < s.len(),
        s[j] == c,
        forall|k: int| j < k < s.len() ==> s[k] != c,
    ensures
        last_index_of(s, c) == j,
    decreases s.len(),
{
    if j < s.len() - 1 {
        assert forall|k: int| j < k < s.drop_last().len() implies s.drop_last()[k] != c by {
            assert(s.drop_last()[k] == s[k]);
        }
        assert(s.drop_last()[j] == s[j]);
        lemma_last_index_at(s.drop_last(), c, j);
    }
}

proof fn lemma_last_index_none(s: Seq<char>, c: char)
    requires
        forall|k: int| 0 <= k < s.len() ==> s[k] != c,
    ensures
        last_index_of(s, c) == -1,
    decreases s.len(),
{
    if s.len() > 0 {
        assert forall|k: int| 0 <= k < s.drop_last().len() implies s.drop_last()[k] != c by {
            assert(s.drop_last()[k] == s[k]);
        }
        lemma_last_index_none(s.drop_last(), c);
    }
}

/// Position just after the last occurrence of `c`, or 0 with none.
fn scan_after_last(s: &str, c: char) -> (r: usize)
    ensures
        r == last_index_of(s@, c) + 1,
        r <= s@.len(),
{
    let n = s.unicode_len();
    let mut i: usize = n;
    while i > 0
        invariant
            n == s@.len(),
            i <= n,
            forall|k: int| i <= k < n ==> s@[k] != c,
        decreases i,
    {
        if s.get_char(i - 1) == c {
            proof {
                lemma_last_index_at(s@, c, i - 1);
            }
            return i;
        }
        i = i - 1;
    }
    proof {
        lemma_last_index_none(s@, c);
    }
    0
}

/// The file name of a path: everything after the last separator.
pub open spec fn file_name_of(p: Seq<char>) -> Seq<char> {
    p.subrange(last_index_of(p, '/') + 1, p.len() as int)
}

/// The extension of a path: what follows the last dot of its file name.
/// A name with no dot, or whose only dot leads it, has none.
pub open spec fn spec_extension_of(p: Seq<char>) -> Option<Seq<char>> {
    let f = file_name_of(p);
    let i = last_index_of(f, '.');
    if i <= 0 {
        None
    } else {
        Some(f.subrange(i + 1, f.len() as int))
    }
}

/// Extract the extension of `path`, if it has one.
pub fn extension_of(path: &str) -> (r: Option<String>)
    ensures
        match r {
            Some(e) => spec_extension_of(path@) == Some(e@),
            None => spec_extension_of(path@) is None,
        },
{
    let n = path.unicode_len();
    let start = scan_after_last(path, '/');
    let fname = path.substring_char(start, n);
    proof {
        assert(fname@ == file_name_of(path@));
    }
    let m = fname.unicode_len();
    let dot = scan_after_last(fname, '.');
    if dot <= 1 {
        None
    } else {
        let e = fname.substring_char(dot, m);
        Some(e.to_owned())
    }
}

/// What recording one diff entry does to the registry: nothing for a
/// path without an extension or a status that is not eligible, otherwise
/// one hunk is added through the extension (itself a no-op when no
/// formatter claims it).
pub open spec fn spec_record(
    s: Seq<BucketView>,
    path: Seq<char>,
    st: Status,
    start: u32,
    lines: u32,
) -> Seq<BucketView> {
    match spec_extension_of(path) {
        None => s,
        Some(ext) => if eligible(st) {
            spec_add_hunk(s, ext, path, (Hunk { start, lines }))
        } else {
            s
        },
    }
}

/// Record one hunk reported by the diff walk, using the new-side path and
/// the new-side line numbers.
pub fn record_entry(fmts: &mut Formatters, path: &str, status: Status, start: u32, lines: u32)
    ensures
        final(fmts)@ == spec_record(old(fmts)@, path@, status, start, lines),
{
    match extension_of(path) {
        None => {},
        Some(ext) => {
            if is_eligible(status) {
                fmts.add_hunk(ext.as_str(), path.to_owned(), Hunk { start, lines });
            }
        },
    }
}

} // verus!
