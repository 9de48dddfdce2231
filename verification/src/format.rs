//! Data model for changed regions: hunks, per-path hunk lists, and the
//! per-formatter buckets that the registry aggregates before invocation.

pub mod callrustfmt;

use vstd::prelude::*;

pub use crate::format::callrustfmt::CallRustFmt;

verus! {

/// Views of a list of strings.
pub open spec fn views_of(s: Seq<String>) -> Seq<Seq<char>> {
    s.map_values(|x: String| x@)
}

/// One contiguous changed region in the new (working-tree) version of a
/// file: a 1-based starting line and a count of changed lines.
#[derive(Clone, Copy, PartialEq, Eq, Structural, Debug)]
pub struct Hunk {
    pub start: u32,
    pub lines: u32,
}

/// A mapping from file path to the ordered list of hunks recorded for that
/// path. Entries keep insertion order; hunks within a path keep the order
/// in which they were added, with no sorting and no deduplication.
pub struct Hunks {
    pub entries: Vec<(String, Vec<Hunk>)>,
}

/// The mathematical value of a list of `(path, hunk list)` entries.
pub open spec fn entries_view(s: Seq<(String, Vec<Hunk>)>) -> Seq<(Seq<char>, Seq<Hunk>)> {
    s.map_values(|e: (String, Vec<Hunk>)| (e.0@, e.1@))
}

impl View for Hunks {
    type V = Seq<(Seq<char>, Seq<Hunk>)>;

    open spec fn view(&self) -> Seq<(Seq<char>, Seq<Hunk>)> {
        entries_view(self.entries@)
    }
}

/// Index of the first entry recorded for `path`, or -1 if none is.
pub open spec fn find_path(s: Seq<(Seq<char>, Seq<Hunk>)>, path: Seq<char>) -> int
    decreases s.len(),
{
    if s.len() == 0 {
        -1
    } else if s[0].0 == path {
        0
    } else {
        let r = find_path(s.drop_first(), path);
        if r < 0 {
            -1
        } else {
            r + 1
        }
    }
}

pub open spec fn has_path(s: Seq<(Seq<char>, Seq<Hunk>)>, path: Seq<char>) -> bool {
    find_path(s, path) >= 0
}

/// The hunk list recorded for `path` (meaningful only when `has_path`).
pub open spec fn hunks_at(s: Seq<(Seq<char>, Seq<Hunk>)>, path: Seq<char>) -> Seq<Hunk> {
    s[find_path(s, path)].1
}

/// A well-formed mapping lists each path at most once, and never keeps an
/// entry with an empty hunk list.
pub open spec fn hunks_wf(s: Seq<(Seq<char>, Seq<Hunk>)>) -> bool {
    &&& forall|i: int, j: int| 0 <= i < j < s.len() ==> s[i].0 != s[j].0
    &&& forall|i: int| 0 <= i < s.len() ==> #[trigger] s[i].1.len() > 0
}

/// Appending hunk list `hs` for `path`: extend the existing entry if the
/// path is present, otherwise add a new entry at the end.
pub open spec fn add_entry(
    s: Seq<(Seq<char>, Seq<Hunk>)>,
    path: Seq<char>,
    hs: Seq<Hunk>,
) -> Seq<(Seq<char>, Seq<Hunk>)> {
    let i = find_path(s, path);
    if i >= 0 {
        s.update(i, (path, s[i].1 + hs))
    } else {
        s.push((path, hs))
    }
}

proof fn lemma_find_path_range(s: Seq<(Seq<char>, Seq<Hunk>)>, path: Seq<char>)
    ensures
        -1 <= find_path(s, path) < s.len(),
        find_path(s, path) >= 0 ==> s[find_path(s, path)].0 == path,
        find_path(s, path) < 0 ==> forall|i: int| 0 <= i < s.len() ==> s[i].0 != path,
        forall|i: int| 0 <= i < find_path(s, path) ==> s[i].0 != path,
    decreases s.len(),
{
    if s.len() > 0 && s[0].0 != path {
        lemma_find_path_range(s.drop_first(), path);
        assert forall|i: int| 1 <= i < s.len() implies s.drop_first()[i - 1] == s[i] by {}
    }
}

impl Hunks {
    pub fn new() -> (r: Hunks)
        ensures
            r@ == Seq::<(Seq<char>, Seq<Hunk>)>::empty(),
    {
        let r = Hunks { entries: Vec::new() };
        proof {
            assert(r@ =~= Seq::<(Seq<char>, Seq<Hunk>)>::empty());
        }
        r
    }

    pub fn is_empty(&self) -> (r: bool)
        ensures
            r == (self@.len() == 0),
    {
        self.entries.len() == 0
    }

    /// Index of the entry for `path`, if one has been recorded.
    fn find_entry(&self, path: &String) -> (r: Option<usize>)
        ensures
            match r {
                Some(i) => find_path(self@, path@) == i && i < self@.len(),
                None => find_path(self@, path@) < 0,
            },
    {
        let n = self.entries.len();
        let mut i: usize = 0;
        while i < n
            invariant
                n == self.entries.len(),
                i <= n,
                forall|k: int| 0 <= k < i ==> self@[k].0 != path@,
            decreases n - i,
        {
            if self.entries[i].0 == *path {
                proof {
                    lemma_find_path_prefix(self@, path@, i as int);
                }
                return Some(i);
            }
            i = i + 1;
        }
        proof {
            lemma_find_path_range(self@, path@);
        }
        None
    }

    /// Record one more hunk for `path`, creating the path entry at the end
    /// of the mapping if it is not present yet.
    pub fn push_hunk(&mut self, path: String, hunk: Hunk)
        ensures
            final(self)@ == add_entry(old(self)@, path@, seq![hunk]),
            hunks_wf(old(self)@) ==> hunks_wf(final(self)@),
    {
        let ghost before = self@;
        proof {
            if hunks_wf(before) {
                lemma_add_entry_wf(before, path@, seq![hunk]);
            }
        }
        match self.find_entry(&path) {
            Some(i) => {
                self.entries[i].1.push(hunk);
                proof {
                    lemma_find_path_range(before, path@);
                    assert(before[i as int].0 == path@);
                    assert(self@ =~~= add_entry(before, path@, seq![hunk]));
                }
            },
            None => {
                self.entries.push((path, vec![hunk]));
                proof {
                    assert(self@ =~~= add_entry(before, path@, seq![hunk]));
                }
            },
        }
    }

    /// Append a whole hunk list for `path` at once, extending the existing
    /// entry if the path is present.
    pub fn push_hunks(&mut self, path: String, hunks: Vec<Hunk>)
        ensures
            final(self)@ == add_entry(old(self)@, path@, hunks@),
            hunks_wf(old(self)@) && hunks@.len() > 0 ==> hunks_wf(final(self)@),
    {
        let ghost before = self@;
        let ghost hs = hunks@;
        proof {
            if hunks_wf(before) && hs.len() > 0 {
                lemma_add_entry_wf(before, path@, hs);
            }
        }
        let mut hunks = hunks;
        match self.find_entry(&path) {
            Some(i) => {
                self.entries[i].1.append(&mut hunks);
                proof {
                    lemma_find_path_range(before, path@);
                    assert(before[i as int].0 == path@);
                    assert(self@ =~~= add_entry(before, path@, hs));
                }
            },
            None => {
                self.entries.push((path, hunks));
                proof {
                    assert(self@ =~~= add_entry(before, path@, hs));
                }
            },
        }
    }
}

/// Folding a second mapping into a first one, entry by entry, in the
/// second mapping's order.
pub open spec fn merge_entries(
    a: Seq<(Seq<char>, Seq<Hunk>)>,
    b: Seq<(Seq<char>, Seq<Hunk>)>,
) -> Seq<(Seq<char>, Seq<Hunk>)>
    decreases b.len(),
{
    if b.len() == 0 {
        a
    } else {
        merge_entries(add_entry(a, b[0].0, b[0].1), b.drop_first())
    }
}

/// The exact external invocation a formatter asks for: a program name and
/// the full argument list, in order.
pub struct FormatRequest {
    pub program: String,
    pub args: Vec<String>,
}

impl View for FormatRequest {
    type V = (Seq<char>, Seq<Seq<char>>);

    open spec fn view(&self) -> (Seq<char>, Seq<Seq<char>>) {
        (self.program@, views_of(self.args@))
    }
}

/// Capabilities of a formatter descriptor: the extensions it claims, a
/// display name, and the request it builds for an aggregated hunk mapping.
pub trait Format: Sized {
    spec fn spec_extensions(&self) -> Seq<Seq<char>>;

    spec fn spec_name(&self) -> Seq<char>;

    spec fn spec_request(&self, hunks: Seq<(Seq<char>, Seq<Hunk>)>) -> (Seq<char>, Seq<Seq<char>>);

    fn extensions(&self) -> (r: Vec<String>)
        ensures
            views_of(r@) == self.spec_extensions(),
    ;

    fn name(&self) -> (r: String)
        ensures
            r@ == self.spec_name(),
    ;

    fn format(&self, p: Hunks) -> (r: FormatRequest)
        ensures
            r@ == self.spec_request(p@),
    ;
}

/// The closed set of formatter kinds this system knows. Two descriptors
/// of the same kind count as the same formatter for aggregation.
#[derive(Clone, Copy, PartialEq, Eq, Structural, Debug)]
pub enum Formatter {
    RustFmt(CallRustFmt),
}

impl Format for Formatter {
    open spec fn spec_extensions(&self) -> Seq<Seq<char>> {
        match self {
            Formatter::RustFmt(x) => x.spec_extensions(),
        }
    }

    open spec fn spec_name(&self) -> Seq<char> {
        match self {
            Formatter::RustFmt(x) => x.spec_name(),
        }
    }

    open spec fn spec_request(&self, hunks: Seq<(Seq<char>, Seq<Hunk>)>) -> (
        Seq<char>,
        Seq<Seq<char>>,
    ) {
        match self {
            Formatter::RustFmt(x) => x.spec_request(hunks),
        }
    }

    fn extensions(&self) -> (r: Vec<String>)
        ensures
            views_of(r@) == self.spec_extensions(),
    {
        match self {
            Formatter::RustFmt(x) => x.extensions(),
        }
    }

    fn name(&self) -> (r: String)
        ensures
            r@ == self.spec_name(),
    {
        match self {
            Formatter::RustFmt(x) => x.name(),
        }
    }

    fn format(&self, p: Hunks) -> (r: FormatRequest)
        ensures
            r@ == self.spec_request(p@),
    {
        match self {
            Formatter::RustFmt(x) => x.format(p),
        }
    }
}

/// The single formatter line-up this system ships with: rustfmt alone.
pub fn construct_repo() -> (r: Vec<Formatter>)
    ensures
        r@ == seq![Formatter::RustFmt(CallRustFmt)],
{
    let mut r: Vec<Formatter> = Vec::new();
    r.push(Formatter::RustFmt(CallRustFmt));
    proof {
        assert(r@ =~= seq![Formatter::RustFmt(CallRustFmt)]);
    }
    r
}

/// One formatter together with the hunks aggregated for it so far.
pub struct FmtHunks {
    pub fmt: Formatter,
    pub hunks: Hunks,
}

impl View for FmtHunks {
    type V = (Formatter, Seq<(Seq<char>, Seq<Hunk>)>);

    open spec fn view(&self) -> (Formatter, Seq<(Seq<char>, Seq<Hunk>)>) {
        (self.fmt, self.hunks@)
    }
}

impl FmtHunks {
    /// Fold another bucket of the same formatter into this one: hunk lists
    /// for a path both buckets know are concatenated, in this bucket's
    /// order first; paths only the other bucket knows are appended behind.
    pub fn merge(&mut self, o: FmtHunks)
        requires
            old(self).fmt == o.fmt,
        ensures
            final(self).fmt == old(self).fmt,
            final(self).hunks@ == merge_entries(old(self).hunks@, o.hunks@),
            hunks_wf(old(self).hunks@) && hunks_wf(o.hunks@) ==> hunks_wf(final(self).hunks@),
    {
        let ghost goal = merge_entries(self.hunks@, o.hunks@);
        proof {
            if hunks_wf(self.hunks@) && hunks_wf(o.hunks@) {
                lemma_merge_entries_wf(self.hunks@, o.hunks@);
            }
        }
        let mut rest = o.hunks.entries;
        while rest.len() > 0
            invariant
                self.fmt == old(self).fmt,
                merge_entries(self.hunks@, entries_view(rest@)) == goal,
            decreases rest.len(),
        {
            let ghost rv = entries_view(rest@);
            let e = rest.remove(0);
            proof {
                assert(entries_view(rest@) =~~= rv.drop_first());
            }
            self.hunks.push_hunks(e.0, e.1);
        }
    }

    /// Build the external invocation for this bucket's formatter over its
    /// aggregated hunks.
    pub fn format(self) -> (r: FormatRequest)
        ensures
            r@ == self.fmt.spec_request(self.hunks@),
    {
        let FmtHunks { fmt, hunks } = self;
        fmt.format(hunks)
    }
}

proof fn lemma_find_path_update(
    s: Seq<(Seq<char>, Seq<Hunk>)>,
    i: int,
    e: (Seq<char>, Seq<Hunk>),
    x: Seq<char>,
)
    requires
        0 <= i < s.len(),
        e.0 == s[i].0,
    ensures
        find_path(s.update(i, e), x) == find_path(s, x),
    decreases s.len(),
{
    let t = s.update(i, e);
    if i == 0 {
        assert(t[0].0 == s[0].0);
        if s[0].0 != x {
            assert(t.drop_first() =~= s.drop_first());
        }
    } else {
        assert(t[0] == s[0]);
        if s[0].0 != x {
            assert(t.drop_first() =~= s.drop_first().update(i - 1, e));
            assert(s.drop_first()[i - 1] == s[i]);
            lemma_find_path_update(s.drop_first(), i - 1, e, x);
        }
    }
}

proof fn lemma_find_path_push(s: Seq<(Seq<char>, Seq<Hunk>)>, e: (Seq<char>, Seq<Hunk>), x: Seq<char>)
    ensures
        find_path(s.push(e), x) == if has_path(s, x) {
            find_path(s, x)
        } else if e.0 == x {
            s.len() as int
        } else {
            -1
        },
    decreases s.len(),
{
    let t = s.push(e);
    if s.len() == 0 {
        assert(t[0] == e);
        assert(t.drop_first() =~= Seq::<(Seq<char>, Seq<Hunk>)>::empty());
        assert(find_path(Seq::<(Seq<char>, Seq<Hunk>)>::empty(), x) == -1);
        if e.0 == x {
            assert(find_path(t, x) == 0);
        } else {
            assert(find_path(t, x) == -1);
        }
    } else {
        assert(t[0] == s[0]);
        if s[0].0 != x {
            assert(t.drop_first() =~= s.drop_first().push(e));
            lemma_find_path_push(s.drop_first(), e, x);
            let r = find_path(s.drop_first().push(e), x);
            assert(find_path(t.drop_first(), x) == r);
            assert(find_path(t, x) == if r < 0 {
                -1int
            } else {
                r + 1
            });
            assert(find_path(s, x) == if find_path(s.drop_first(), x) < 0 {
                -1int
            } else {
                find_path(s.drop_first(), x) + 1
            });
        } else {
            assert(find_path(t, x) == 0);
            assert(find_path(s, x) == 0);
        }
    }
}

/// What `add_entry` does, seen from any single path `x`.
proof fn lemma_add_entry_at(
    a: Seq<(Seq<char>, Seq<Hunk>)>,
    q: Seq<char>,
    hs: Seq<Hunk>,
    x: Seq<char>,
)
    ensures
        has_path(add_entry(a, q, hs), x) <==> (has_path(a, x) || x == q),
        x == q ==> hunks_at(add_entry(a, q, hs), q) == if has_path(a, q) {
            hunks_at(a, q) + hs
        } else {
            hs
        },
        x != q && has_path(a, x) ==> hunks_at(add_entry(a, q, hs), x) == hunks_at(a, x),
{
    lemma_find_path_range(a, q);
    lemma_find_path_range(a, x);
    let i = find_path(a, q);
    if i >= 0 {
        let t = a.update(i, (q, a[i].1 + hs));
        lemma_find_path_update(a, i, (q, a[i].1 + hs), x);
        lemma_find_path_update(a, i, (q, a[i].1 + hs), q);
        if x != q && has_path(a, x) {
            assert(find_path(a, x) != i);
            assert(t[find_path(a, x)] == a[find_path(a, x)]);
        }
    } else {
        let t = a.push((q, hs));
        lemma_find_path_push(a, (q, hs), x);
        lemma_find_path_push(a, (q, hs), q);
        if x != q && has_path(a, x) {
            assert(t[find_path(a, x)] == a[find_path(a, x)]);
        }
    }
}

/// Recording a non-empty hunk list keeps a mapping well formed.
pub proof fn lemma_add_entry_wf(a: Seq<(Seq<char>, Seq<Hunk>)>, q: Seq<char>, hs: Seq<Hunk>)
    requires
        hunks_wf(a),
        hs.len() > 0,
    ensures
        hunks_wf(add_entry(a, q, hs)),
{
    lemma_find_path_range(a, q);
    let i = find_path(a, q);
    let t = add_entry(a, q, hs);
    if i >= 0 {
        assert forall|k: int, l: int| 0 <= k < l < t.len() implies t[k].0 != t[l].0 by {
            assert(t[k].0 == a[k].0);
            assert(t[l].0 == a[l].0);
        }
        assert forall|k: int| 0 <= k < t.len() implies #[trigger] t[k].1.len() > 0 by {
            if k != i {
                assert(t[k] == a[k]);
            }
        }
    } else {
        assert forall|k: int, l: int| 0 <= k < l < t.len() implies t[k].0 != t[l].0 by {
            if l < a.len() {
                assert(t[k] == a[k]);
                assert(t[l] == a[l]);
            } else {
                assert(t[k] == a[k]);
                assert(t[l].0 == q);
            }
        }
        assert forall|k: int| 0 <= k < t.len() implies #[trigger] t[k].1.len() > 0 by {
            if k < a.len() {
                assert(t[k] == a[k]);
            }
        }
    }
}

/// Merging two well-formed mappings yields a well-formed mapping.
pub proof fn lemma_merge_entries_wf(a: Seq<(Seq<char>, Seq<Hunk>)>, b: Seq<(Seq<char>, Seq<Hunk>)>)
    requires
        hunks_wf(a),
        hunks_wf(b),
    ensures
        hunks_wf(merge_entries(a, b)),
    decreases b.len(),
{
    if b.len() > 0 {
        let bt = b.drop_first();
        assert forall|i: int, j: int| 0 <= i < j < bt.len() implies bt[i].0 != bt[j].0 by {
            assert(bt[i] == b[i + 1]);
            assert(bt[j] == b[j + 1]);
        }
        assert forall|i: int| 0 <= i < bt.len() implies #[trigger] bt[i].1.len() > 0 by {
            assert(bt[i] == b[i + 1]);
        }
        assert(b[0].1.len() > 0);
        lemma_add_entry_wf(a, b[0].0, b[0].1);
        lemma_merge_entries_wf(add_entry(a, b[0].0, b[0].1), bt);
    }
}

/// Law: merging two mappings keeps exactly the paths of both; a path both
/// know ends with the first mapping's list followed by the second's, and
/// a path only one knows keeps its list unchanged. (The second mapping
/// must be well formed: it lists each path once.)
pub proof fn lemma_merge_entries_correct(
    a: Seq<(Seq<char>, Seq<Hunk>)>,
    b: Seq<(Seq<char>, Seq<Hunk>)>,
    p: Seq<char>,
)
    requires
        hunks_wf(b),
    ensures
        has_path(merge_entries(a, b), p) <==> (has_path(a, p) || has_path(b, p)),
        has_path(a, p) && has_path(b, p) ==> hunks_at(merge_entries(a, b), p) == hunks_at(a, p)
            + hunks_at(b, p),
        has_path(a, p) && !has_path(b, p) ==> hunks_at(merge_entries(a, b), p) == hunks_at(a, p),
        !has_path(a, p) && has_path(b, p) ==> hunks_at(merge_entries(a, b), p) == hunks_at(b, p),
    decreases b.len(),
{
    if b.len() > 0 {
        let q = b[0].0;
        let hs = b[0].1;
        let a2 = add_entry(a, q, hs);
        let bt = b.drop_first();
        assert forall|i: int, j: int| 0 <= i < j < bt.len() implies bt[i].0 != bt[j].0 by {
            assert(bt[i] == b[i + 1]);
            assert(bt[j] == b[j + 1]);
        }
        assert forall|i: int| 0 <= i < bt.len() implies #[trigger] bt[i].1.len() > 0 by {
            assert(bt[i] == b[i + 1]);
        }
        lemma_merge_entries_correct(a2, bt, p);
        lemma_add_entry_at(a, q, hs, p);
        lemma_find_path_range(b, p);
        lemma_find_path_range(bt, p);
        if p == q {
            assert(find_path(b, p) == 0);
            assert(hunks_at(b, p) == hs);
            if has_path(bt, p) {
                let k = find_path(bt, p);
                assert(bt[k] == b[k + 1]);
                assert(false);
            }
        } else {
            assert(find_path(b, p) != 0);
            if has_path(bt, p) {
                let k = find_path(bt, p);
                assert(bt[k] == b[k + 1]);
                assert forall|k2: int| 0 <= k2 < k + 1 implies b[k2].0 != p by {
                    if k2 >= 1 {
                        assert(bt[k2 - 1] == b[k2]);
                    }
                }
                lemma_find_path_prefix(b, p, k + 1);
                assert(hunks_at(b, p) == hunks_at(bt, p));
            } else {
                if has_path(b, p) {
                    let k = find_path(b, p);
                    assert(b[k].0 == p);
                    assert(k >= 1);
                    assert(bt[k - 1] == b[k]);
                    lemma_find_path_range(bt, p);
                    assert(false);
                }
            }
        }
    }
}

/// The mathematical value of one registry bucket: the extension it is
/// keyed by, the formatter owning it, and the hunks collected so far.
#[verifier::ext_equal]
pub struct BucketView {
    pub ext: Seq<char>,
    pub fmt: Formatter,
    pub hunks: Seq<(Seq<char>, Seq<Hunk>)>,
}

/// Index of the first bucket keyed by `ext`, or -1 if none is.
pub open spec fn find_ext(s: Seq<BucketView>, ext: Seq<char>) -> int
    decreases s.len(),
{
    if s.len() == 0 {
        -1
    } else if s[0].ext == ext {
        0
    } else {
        let r = find_ext(s.drop_first(), ext);
        if r < 0 {
            -1
        } else {
            r + 1
        }
    }
}

pub open spec fn supported(s: Seq<BucketView>, ext: Seq<char>) -> bool {
    find_ext(s, ext) >= 0
}

/// A well-formed registry keys every extension at most once, and every
/// bucket's mapping is itself well formed.
pub open spec fn registry_wf(s: Seq<BucketView>) -> bool {
    &&& forall|i: int, j: int| 0 <= i < j < s.len() ==> s[i].ext != s[j].ext
    &&& forall|i: int| 0 <= i < s.len() ==> hunks_wf(#[trigger] s[i].hunks)
}

proof fn lemma_find_ext_range(s: Seq<BucketView>, ext: Seq<char>)
    ensures
        -1 <= find_ext(s, ext) < s.len(),
        find_ext(s, ext) >= 0 ==> s[find_ext(s, ext)].ext == ext,
        find_ext(s, ext) < 0 ==> forall|i: int| 0 <= i < s.len() ==> s[i].ext != ext,
    decreases s.len(),
{
    if s.len() > 0 && s[0].ext != ext {
        lemma_find_ext_range(s.drop_first(), ext);
        assert forall|i: int| 1 <= i < s.len() implies s.drop_first()[i - 1] == s[i] by {}
    }
}

/// An extension is supported exactly when some bucket is keyed by it.
pub proof fn lemma_supported_exists(s: Seq<BucketView>, ext: Seq<char>)
    ensures
        supported(s, ext) <==> exists|i: int| 0 <= i < s.len() && s[i].ext == ext,
    decreases s.len(),
{
    lemma_find_ext_range(s, ext);
    if supported(s, ext) {
        assert(s[find_ext(s, ext)].ext == ext);
    }
}

proof fn lemma_find_ext_prefix(s: Seq<BucketView>, ext: Seq<char>, i: int)
    requires
        0 <= i < s.len(),
        s[i].ext == ext,
        forall|k: int| 0 <= k < i ==> s[k].ext != ext,
    ensures
        find_ext(s, ext) == i,
    decreases i,
{
    if i > 0 {
        assert forall|k: int| 0 <= k < i - 1 implies s.drop_first()[k].ext != ext by {
            assert(s.drop_first()[k] == s[k + 1]);
        }
        assert(s.drop_first()[i - 1] == s[i]);
        lemma_find_ext_prefix(s.drop_first(), ext, i - 1);
    }
}

/// The extension pairs a single formatter contributes, in its own order.
pub open spec fn pairs_of(f: Formatter) -> Seq<(Formatter, Seq<char>)> {
    f.spec_extensions().map_values(|e: Seq<char>| (f, e))
}

/// All (formatter, extension) pairs of a formatter list, in registration
/// order.
pub open spec fn ext_pairs(repo: Seq<Formatter>) -> Seq<(Formatter, Seq<char>)>
    decreases repo.len(),
{
    if repo.len() == 0 {
        Seq::empty()
    } else {
        pairs_of(repo[0]) + ext_pairs(repo.drop_first())
    }
}

/// Two pairs, in either order, claim the same extension.
pub open spec fn has_dup(pairs: Seq<(Formatter, Seq<char>)>) -> bool {
    exists|i: int, j: int| 0 <= i < j < pairs.len() && pairs[i].1 == pairs[j].1
}

/// The conflict registration stops on: the contested extension, the
/// formatter that tried to claim it, and the one already holding it.
#[verifier::ext_equal]
pub struct RegConflict {
    pub ext: Seq<char>,
    pub second: Formatter,
    pub first: Formatter,
}

/// Registering pairs left to right: each new extension gets an empty
/// bucket at the end; a pair whose extension is already keyed stops the
/// whole construction with the conflict.
pub open spec fn register(
    acc: Seq<BucketView>,
    pairs: Seq<(Formatter, Seq<char>)>,
) -> Result<Seq<BucketView>, RegConflict>
    decreases pairs.len(),
{
    if pairs.len() == 0 {
        Ok(acc)
    } else {
        let f = pairs[0].0;
        let e = pairs[0].1;
        let i = find_ext(acc, e);
        if i >= 0 {
            Err(RegConflict { ext: e, second: f, first: acc[i].fmt })
        } else {
            register(
                acc.push(BucketView { ext: e, fmt: f, hunks: Seq::empty() }),
                pairs.drop_first(),
            )
        }
    }
}

/// If every entry before `i` misses `path` and entry `i` holds it, then
/// `i` is the first index for `path`.
proof fn lemma_find_path_prefix(s: Seq<(Seq<char>, Seq<Hunk>)>, path: Seq<char>, i: int)
    requires
        0 <= i < s.len(),
        s[i].0 == path,
        forall|k: int| 0 <= k < i ==> s[k].0 != path,
    ensures
        find_path(s, path) == i,
    decreases i,
{
    if i > 0 {
        assert forall|k: int| 0 <= k < i - 1 implies s.drop_first()[k].0 != path by {
            assert(s.drop_first()[k] == s[k + 1]);
        }
        assert(s.drop_first()[i - 1] == s[i]);
        lemma_find_path_prefix(s.drop_first(), path, i - 1);
    }
}

proof fn lemma_register_errs(acc: Seq<BucketView>, pairs: Seq<(Formatter, Seq<char>)>)
    ensures
        register(acc, pairs) is Err <==> (has_dup(pairs) || exists|k: int|
            0 <= k < pairs.len() && #[trigger] supported(acc, pairs[k].1)),
    decreases pairs.len(),
{
    if pairs.len() == 0 {
    } else {
        let f = pairs[0].0;
        let e = pairs[0].1;
        lemma_find_ext_range(acc, e);
        if find_ext(acc, e) >= 0 {
            assert(supported(acc, pairs[0].1));
        } else {
            let acc2 = acc.push(BucketView { ext: e, fmt: f, hunks: Seq::empty() });
            let rest = pairs.drop_first();
            lemma_register_errs(acc2, rest);
            if register(acc2, rest) is Err {
                if has_dup(rest) {
                    let (i, j) = choose|i: int, j: int|
                        0 <= i < j < rest.len() && rest[i].1 == rest[j].1;
                    assert(pairs[i + 1] == rest[i]);
                    assert(pairs[j + 1] == rest[j]);
                    assert(0 <= i + 1 < j + 1 < pairs.len() && pairs[i + 1].1 == pairs[j + 1].1);
                } else {
                    let k = choose|k: int| 0 <= k < rest.len() && #[trigger] supported(
                        acc2,
                        rest[k].1,
                    );
                    let x = rest[k].1;
                    lemma_supported_exists(acc2, x);
                    let b = choose|b: int| 0 <= b < acc2.len() && acc2[b].ext == x;
                    assert(pairs[k + 1] == rest[k]);
                    if b < acc.len() {
                        assert(acc2[b] == acc[b]);
                        lemma_supported_exists(acc, x);
                        assert(supported(acc, pairs[k + 1].1));
                    } else {
                        assert(x == e);
                        assert(0 <= 0 < k + 1 < pairs.len() && pairs[0].1 == pairs[k + 1].1);
                    }
                }
            }
            if has_dup(pairs) {
                let (i, j) = choose|i: int, j: int|
                    0 <= i < j < pairs.len() && pairs[i].1 == pairs[j].1;
                if i == 0 {
                    assert(rest[j - 1] == pairs[j]);
                    assert(acc2[acc.len() as int].ext == e);
                    lemma_supported_exists(acc2, e);
                    assert(supported(acc2, rest[j - 1].1));
                } else {
                    assert(rest[i - 1] == pairs[i]);
                    assert(rest[j - 1] == pairs[j]);
                    assert(0 <= i - 1 < j - 1 < rest.len() && rest[i - 1].1 == rest[j - 1].1);
                }
            }
            if exists|k: int| 0 <= k < pairs.len() && #[trigger] supported(acc, pairs[k].1) {
                let k = choose|k: int| 0 <= k < pairs.len() && #[trigger] supported(
                    acc,
                    pairs[k].1,
                );
                let x = pairs[k].1;
                assert(k != 0);
                assert(rest[k - 1] == pairs[k]);
                lemma_supported_exists(acc, x);
                let b = choose|b: int| 0 <= b < acc.len() && acc[b].ext == x;
                assert(acc2[b] == acc[b]);
                lemma_supported_exists(acc2, x);
                assert(supported(acc2, rest[k - 1].1));
            }
        }
    }
}

/// Law: building a registry from `repo` fails exactly when two of the
/// claims in its descriptors' extension lists name one extension.
pub proof fn lemma_construction_conflict(repo: Seq<Formatter>)
    ensures
        register(Seq::empty(), ext_pairs(repo)) is Err <==> has_dup(ext_pairs(repo)),
{
    lemma_register_errs(Seq::empty(), ext_pairs(repo));
    assert forall|k: int|
        0 <= k < ext_pairs(repo).len() implies !supported(
        Seq::empty(),
        #[trigger] ext_pairs(repo)[k].1,
    ) by {
        assert(find_ext(Seq::empty(), ext_pairs(repo)[k].1) == -1);
    }
}

proof fn lemma_register_supported(
    acc: Seq<BucketView>,
    pairs: Seq<(Formatter, Seq<char>)>,
    bv: Seq<BucketView>,
    x: Seq<char>,
)
    requires
        register(acc, pairs) == Ok::<Seq<BucketView>, RegConflict>(bv),
    ensures
        supported(bv, x) <==> (supported(acc, x) || exists|k: int|
            0 <= k < pairs.len() && #[trigger] pairs[k].1 == x),
    decreases pairs.len(),
{
    if pairs.len() == 0 {
        assert(bv == acc);
    } else {
        let f = pairs[0].0;
        let e = pairs[0].1;
        lemma_find_ext_range(acc, e);
        let acc2 = acc.push(BucketView { ext: e, fmt: f, hunks: Seq::empty() });
        let rest = pairs.drop_first();
        lemma_register_supported(acc2, rest, bv, x);
        lemma_supported_exists(acc, x);
        lemma_supported_exists(acc2, x);
        if supported(acc2, x) {
            let b = choose|b: int| 0 <= b < acc2.len() && acc2[b].ext == x;
            if b < acc.len() {
                assert(acc2[b] == acc[b]);
                assert(supported(acc, x));
            } else {
                assert(x == e);
                assert(pairs[0].1 == x);
            }
        }
        if supported(acc, x) {
            let b = choose|b: int| 0 <= b < acc.len() && acc[b].ext == x;
            assert(acc2[b] == acc[b]);
            assert(supported(acc2, x));
        }
        if exists|k: int| 0 <= k < pairs.len() && #[trigger] pairs[k].1 == x {
            let k = choose|k: int| 0 <= k < pairs.len() && #[trigger] pairs[k].1 == x;
            if k == 0 {
                assert(acc2[acc.len() as int].ext == e);
                assert(supported(acc2, x));
            } else {
                assert(rest[k - 1] == pairs[k]);
                assert(rest[k - 1].1 == x);
            }
        }
        if exists|k: int| 0 <= k < rest.len() && #[trigger] rest[k].1 == x {
            let k = choose|k: int| 0 <= k < rest.len() && #[trigger] rest[k].1 == x;
            assert(pairs[k + 1] == rest[k]);
            assert(pairs[k + 1].1 == x);
        }
    }
}

proof fn lemma_ext_pairs_member(repo: Seq<Formatter>, x: Seq<char>)
    ensures
        (exists|k: int| 0 <= k < ext_pairs(repo).len() && #[trigger] ext_pairs(repo)[k].1 == x)
            <==> (exists|i: int|
            0 <= i < repo.len() && #[trigger] repo[i].spec_extensions().contains(x)),
    decreases repo.len(),
{
    if repo.len() > 0 {
        let ps = ext_pairs(repo);
        let head = pairs_of(repo[0]);
        let rest = repo.drop_first();
        let m = head.len() as int;
        lemma_ext_pairs_member(rest, x);
        if exists|k: int| 0 <= k < ps.len() && #[trigger] ps[k].1 == x {
            let k = choose|k: int| 0 <= k < ps.len() && #[trigger] ps[k].1 == x;
            if k < m {
                assert(ps[k] == head[k]);
                assert(repo[0].spec_extensions()[k] == x);
                assert(repo[0].spec_extensions().contains(x));
            } else {
                assert(ps[k] == ext_pairs(rest)[k - m]);
                assert(exists|i: int|
                    0 <= i < rest.len() && #[trigger] rest[i].spec_extensions().contains(x));
                let i = choose|i: int|
                    0 <= i < rest.len() && #[trigger] rest[i].spec_extensions().contains(x);
                assert(repo[i + 1] == rest[i]);
            }
        }
        if exists|i: int| 0 <= i < repo.len() && #[trigger] repo[i].spec_extensions().contains(x) {
            let i = choose|i: int|
                0 <= i < repo.len() && #[trigger] repo[i].spec_extensions().contains(x);
            if i == 0 {
                let k = choose|k: int|
                    0 <= k < repo[0].spec_extensions().len() && repo[0].spec_extensions()[k] == x;
                assert(head[k].1 == x);
                assert(ps[k] == head[k]);
            } else {
                assert(rest[i - 1] == repo[i]);
                assert(exists|k: int|
                    0 <= k < ext_pairs(rest).len() && #[trigger] ext_pairs(rest)[k].1 == x);
                let k = choose|k: int|
                    0 <= k < ext_pairs(rest).len() && #[trigger] ext_pairs(rest)[k].1 == x;
                assert(ps[m + k] == ext_pairs(rest)[k]);
            }
        }
    }
}

/// Law: an extension is supported by a registry built from `repo` exactly
/// when some descriptor in `repo` claims it.
pub proof fn lemma_supported_registered(repo: Seq<Formatter>, bv: Seq<BucketView>, x: Seq<char>)
    requires
        register(Seq::empty(), ext_pairs(repo)) == Ok::<Seq<BucketView>, RegConflict>(bv),
    ensures
        supported(bv, x) <==> exists|i: int|
            0 <= i < repo.len() && #[trigger] repo[i].spec_extensions().contains(x),
{
    lemma_register_supported(Seq::empty(), ext_pairs(repo), bv, x);
    lemma_ext_pairs_member(repo, x);
    assert(find_ext(Seq::empty(), x) == -1);
}

/// Index of the first group owned by formatter `f`, or -1 if none is.
pub open spec fn find_fmt(gs: Seq<(Formatter, Seq<(Seq<char>, Seq<Hunk>)>)>, f: Formatter) -> int
    decreases gs.len(),
{
    if gs.len() == 0 {
        -1
    } else if gs[0].0 == f {
        0
    } else {
        let r = find_fmt(gs.drop_first(), f);
        if r < 0 {
            -1
        } else {
            r + 1
        }
    }
}

/// Fold one bucket into the group list: merged into the first group of
/// the same formatter kind, or appended as a new group.
pub open spec fn insert_group(
    gs: Seq<(Formatter, Seq<(Seq<char>, Seq<Hunk>)>)>,
    g: (Formatter, Seq<(Seq<char>, Seq<Hunk>)>),
) -> Seq<(Formatter, Seq<(Seq<char>, Seq<Hunk>)>)> {
    let i = find_fmt(gs, g.0);
    if i >= 0 {
        gs.update(i, (gs[i].0, merge_entries(gs[i].1, g.1)))
    } else {
        gs.push(g)
    }
}

pub open spec fn merge_groups_from(
    acc: Seq<(Formatter, Seq<(Seq<char>, Seq<Hunk>)>)>,
    s: Seq<BucketView>,
) -> Seq<(Formatter, Seq<(Seq<char>, Seq<Hunk>)>)>
    decreases s.len(),
{
    if s.len() == 0 {
        acc
    } else {
        merge_groups_from(insert_group(acc, (s[0].fmt, s[0].hunks)), s.drop_first())
    }
}

/// The per-formatter groups that aggregating the buckets, in their stored
/// order, produces.
pub open spec fn merge_groups(s: Seq<BucketView>) -> Seq<
    (Formatter, Seq<(Seq<char>, Seq<Hunk>)>),
> {
    merge_groups_from(Seq::empty(), s)
}

/// The invocations the groups ask for, in group order; a group with an
/// empty mapping is suppressed and asks for none.
pub open spec fn requests_of(gs: Seq<(Formatter, Seq<(Seq<char>, Seq<Hunk>)>)>) -> Seq<
    (Seq<char>, Seq<Seq<char>>),
>
    decreases gs.len(),
{
    if gs.len() == 0 {
        Seq::empty()
    } else {
        let rest = requests_of(gs.drop_first());
        if gs[0].1.len() == 0 {
            rest
        } else {
            seq![gs[0].0.spec_request(gs[0].1)] + rest
        }
    }
}

/// What a finished registry makes of its contents: group the buckets by
/// formatter kind, drop empty groups, build one request per group.
pub open spec fn spec_format(s: Seq<BucketView>) -> Seq<(Seq<char>, Seq<Seq<char>>)> {
    requests_of(merge_groups(s))
}

/// A group list in which every mapping is empty asks for no invocation
/// at all.
pub proof fn lemma_empty_groups_suppressed(gs: Seq<(Formatter, Seq<(Seq<char>, Seq<Hunk>)>)>)
    requires
        forall|i: int| 0 <= i < gs.len() ==> #[trigger] gs[i].1.len() == 0,
    ensures
        requests_of(gs) == Seq::<(Seq<char>, Seq<Seq<char>>)>::empty(),
    decreases gs.len(),
{
    if gs.len() > 0 {
        assert forall|i: int| 0 <= i < gs.drop_first().len() implies #[trigger] gs.drop_first()[i].1.len()
            == 0 by {
            assert(gs.drop_first()[i] == gs[i + 1]);
        }
        lemma_empty_groups_suppressed(gs.drop_first());
    }
}

proof fn lemma_find_fmt_range(gs: Seq<(Formatter, Seq<(Seq<char>, Seq<Hunk>)>)>, f: Formatter)
    ensures
        -1 <= find_fmt(gs, f) < gs.len(),
        find_fmt(gs, f) >= 0 ==> gs[find_fmt(gs, f)].0 == f,
        find_fmt(gs, f) < 0 ==> forall|i: int| 0 <= i < gs.len() ==> gs[i].0 != f,
    decreases gs.len(),
{
    if gs.len() > 0 && gs[0].0 != f {
        lemma_find_fmt_range(gs.drop_first(), f);
        assert forall|i: int| 1 <= i < gs.len() implies gs.drop_first()[i - 1] == gs[i] by {}
    }
}

proof fn lemma_find_fmt_prefix(
    gs: Seq<(Formatter, Seq<(Seq<char>, Seq<Hunk>)>)>,
    f: Formatter,
    i: int,
)
    requires
        0 <= i < gs.len(),
        gs[i].0 == f,
        forall|k: int| 0 <= k < i ==> gs[k].0 != f,
    ensures
        find_fmt(gs, f) == i,
    decreases i,
{
    if i > 0 {
        assert forall|k: int| 0 <= k < i - 1 implies gs.drop_first()[k].0 != f by {
            assert(gs.drop_first()[k] == gs[k + 1]);
        }
        assert(gs.drop_first()[i - 1] == gs[i]);
        lemma_find_fmt_prefix(gs.drop_first(), f, i - 1);
    }
}

/// The mathematical value of a group list.
pub open spec fn groups_view(ms: Seq<FmtHunks>) -> Seq<(Formatter, Seq<(Seq<char>, Seq<Hunk>)>)> {
    ms.map_values(|m: FmtHunks| m@)
}

/// Index of the first group in `ms` owned by `f`, if any.
fn find_group(ms: &Vec<FmtHunks>, f: &Formatter) -> (r: Option<usize>)
    ensures
        match r {
            Some(i) => find_fmt(groups_view(ms@), *f) == i && i < ms@.len(),
            None => find_fmt(groups_view(ms@), *f) < 0,
        },
{
    let n = ms.len();
    let mut i: usize = 0;
    while i < n
        invariant
            n == ms.len(),
            i <= n,
            forall|k: int| 0 <= k < i ==> groups_view(ms@)[k].0 != *f,
        decreases n - i,
    {
        if ms[i].fmt == *f {
            proof {
                lemma_find_fmt_prefix(groups_view(ms@), *f, i as int);
            }
            return Some(i);
        }
        i = i + 1;
    }
    proof {
        lemma_find_fmt_range(groups_view(ms@), *f);
    }
    None
}

/// The mathematical value of a request list.
pub open spec fn requests_view(rs: Seq<FormatRequest>) -> Seq<(Seq<char>, Seq<Seq<char>>)> {
    rs.map_values(|x: FormatRequest| x@)
}

/// A configuration fault found while building the registry: `second`
/// tried to claim `ext`, which `first` had already claimed.
#[derive(Debug)]
pub struct ConfigError {
    pub ext: String,
    pub first: String,
    pub second: String,
}

impl ConfigError {
    /// A readable account of the conflict.
    pub fn message(&self) -> (r: String)
        ensures
            r@ == "formatter "@ + self.second@ + " tried to add extension "@ + self.ext@
                + " already added by "@ + self.first@,
    {
        let mut s = String::from_str("formatter ");
        s.append(self.second.as_str());
        s.append(" tried to add extension ");
        s.append(self.ext.as_str());
        s.append(" already added by ");
        s.append(self.first.as_str());
        s
    }
}

/// The mathematical value of a bucket list.
pub open spec fn buckets_view(s: Seq<(String, FmtHunks)>) -> Seq<BucketView> {
    s.map_values(|b: (String, FmtHunks)| BucketView { ext: b.0@, fmt: b.1.fmt, hunks: b.1.hunks@ })
}

/// The registry: one bucket per claimed extension, each owned by exactly
/// one formatter, filled with hunks during the scan.
pub struct Formatters {
    pub buckets: Vec<(String, FmtHunks)>,
}

impl View for Formatters {
    type V = Seq<BucketView>;

    open spec fn view(&self) -> Seq<BucketView> {
        buckets_view(self.buckets@)
    }
}

/// Adding one hunk through an extension: a no-op if no bucket is keyed by
/// the extension, otherwise recorded in that bucket alone.
pub open spec fn spec_add_hunk(
    s: Seq<BucketView>,
    ext: Seq<char>,
    path: Seq<char>,
    h: Hunk,
) -> Seq<BucketView> {
    let i = find_ext(s, ext);
    if i < 0 {
        s
    } else {
        s.update(
            i,
            BucketView { ext: s[i].ext, fmt: s[i].fmt, hunks: add_entry(s[i].hunks, path, seq![h]) },
        )
    }
}

impl Formatters {
    /// Index of the bucket keyed by `ext`, if any.
    fn find_bucket(&self, ext: &str) -> (r: Option<usize>)
        ensures
            match r {
                Some(i) => find_ext(self@, ext@) == i && i < self@.len(),
                None => find_ext(self@, ext@) < 0,
            },
    {
        let key = ext.to_owned();
        let n = self.buckets.len();
        let mut i: usize = 0;
        while i < n
            invariant
                n == self.buckets.len(),
                i <= n,
                key@ == ext@,
                forall|k: int| 0 <= k < i ==> self@[k].ext != ext@,
            decreases n - i,
        {
            if self.buckets[i].0 == key {
                proof {
                    lemma_find_ext_prefix(self@, ext@, i as int);
                }
                return Some(i);
            }
            i = i + 1;
        }
        proof {
            lemma_find_ext_range(self@, ext@);
        }
        None
    }

    /// Whether some registered formatter claims `ext`.
    pub fn ext_supported(&self, ext: &str) -> (r: bool)
        ensures
            r == supported(self@, ext@),
    {
        proof {
            lemma_find_ext_range(self@, ext@);
        }
        self.find_bucket(ext).is_some()
    }

    /// Record `hunk` for `path` in the bucket claimed for `ext`; with no
    /// such bucket, the registry is left untouched.
    pub fn add_hunk(&mut self, ext: &str, path: String, hunk: Hunk)
        ensures
            final(self)@ == spec_add_hunk(old(self)@, ext@, path@, hunk),
            registry_wf(old(self)@) ==> registry_wf(final(self)@),
    {
        let ghost before = self@;
        match self.find_bucket(ext) {
            None => {},
            Some(i) => {
                proof {
                    if registry_wf(before) {
                        lemma_add_entry_wf(before[i as int].hunks, path@, seq![hunk]);
                    }
                }
                self.buckets[i].1.hunks.push_hunk(path, hunk);
                proof {
                    assert(self@ =~~= spec_add_hunk(before, ext@, path@, hunk));
                    if registry_wf(before) {
                        let t = self@;
                        assert forall|k: int, l: int| 0 <= k < l < t.len() implies t[k].ext
                            != t[l].ext by {
                            assert(t[k].ext == before[k].ext);
                            assert(t[l].ext == before[l].ext);
                        }
                        assert forall|k: int| 0 <= k < t.len() implies hunks_wf(
                            #[trigger] t[k].hunks,
                        ) by {
                            if k != i {
                                assert(t[k] == before[k]);
                            }
                        }
                    }
                }
            },
        }
    }

    /// Build the registry. Construction succeeds exactly when no two
    /// descriptors claim one extension; the error names the contested
    /// extension and both formatters.
    pub fn new(repo: &Vec<Formatter>) -> (r: Result<Formatters, ConfigError>)
        ensures
            match r {
                Ok(f) => register(Seq::empty(), ext_pairs(repo@)) == Ok::<_, RegConflict>(f@)
                    && registry_wf(f@),
                Err(e) => {
                    let res = register(Seq::empty(), ext_pairs(repo@));
                    &&& res is Err
                    &&& e.ext@ == res->Err_0.ext
                    &&& e.first@ == res->Err_0.first.spec_name()
                    &&& e.second@ == res->Err_0.second.spec_name()
                },
            },
    {
        let ghost total = ext_pairs(repo@);
        let mut out = Formatters { buckets: Vec::new() };
        let n = repo.len();
        let mut i: usize = 0;
        proof {
            assert(out@ =~= Seq::<BucketView>::empty());
            assert(repo@.skip(0) =~= repo@);
        }
        while i < n
            invariant
                n == repo.len(),
                i <= n,
                total == ext_pairs(repo@),
                registry_wf(out@),
                register(out@, ext_pairs(repo@.skip(i as int))) == register(
                    Seq::empty(),
                    total,
                ),
            decreases n - i,
        {
            let fmt = repo[i];
            let exts = fmt.extensions();
            let ghost fpairs = pairs_of(repo@[i as int]);
            proof {
                assert(repo@.skip(i as int)[0] == repo@[i as int]);
                assert(repo@.skip(i as int).drop_first() =~= repo@.skip(i as int + 1));
                assert(ext_pairs(repo@.skip(i as int)) == fpairs + ext_pairs(
                    repo@.skip(i as int + 1),
                ));
                assert(fpairs.skip(0) =~= fpairs);
            }
            let m = exts.len();
            let mut j: usize = 0;
            while j < m
                invariant
                    n == repo.len(),
                    i < n,
                    m == exts.len(),
                    j <= m,
                    total == ext_pairs(repo@),
                    fmt == repo@[i as int],
                    views_of(exts@) == repo@[i as int].spec_extensions(),
                    fpairs == pairs_of(repo@[i as int]),
                    registry_wf(out@),
                    register(
                        out@,
                        fpairs.skip(j as int) + ext_pairs(repo@.skip(i as int + 1)),
                    ) == register(Seq::empty(), total),
                decreases m - j,
            {
                let ghost rem = fpairs.skip(j as int) + ext_pairs(repo@.skip(i as int + 1));
                proof {
                    assert(fpairs[j as int] == (repo@[i as int], exts@[j as int]@));
                    assert(rem[0] == fpairs[j as int]);
                    assert(rem.drop_first() =~= fpairs.skip(j as int + 1) + ext_pairs(
                        repo@.skip(i as int + 1),
                    ));
                }
                match out.find_bucket(exts[j].as_str()) {
                    Some(b) => {
                        proof {
                            lemma_find_ext_range(out@, exts@[j as int]@);
                        }
                        let first = out.buckets[b].1.fmt.name();
                        let second = fmt.name();
                        let e = ConfigError { ext: exts[j].clone(), first, second };
                        return Err(e);
                    },
                    None => {
                        let ghost before = out@;
                        proof {
                            lemma_find_ext_range(before, exts@[j as int]@);
                        }
                        out.buckets.push(
                            (exts[j].clone(), FmtHunks { fmt, hunks: Hunks::new() }),
                        );
                        proof {
                            assert(out@ =~~= before.push(
                                BucketView {
                                    ext: exts@[j as int]@,
                                    fmt: repo@[i as int],
                                    hunks: Seq::empty(),
                                },
                            ));
                            let t = out@;
                            assert forall|k: int, l: int| 0 <= k < l < t.len() implies t[k].ext
                                != t[l].ext by {
                                assert(t[k] == before[k]);
                                if l < before.len() {
                                    assert(t[l] == before[l]);
                                } else {
                                    assert(t[l].ext == exts@[j as int]@);
                                }
                            }
                            assert forall|k: int| 0 <= k < t.len() implies hunks_wf(
                                #[trigger] t[k].hunks,
                            ) by {
                                if k < before.len() {
                                    assert(t[k] == before[k]);
                                }
                            }
                        }
                    },
                }
                j = j + 1;
            }
            proof {
                assert(fpairs.skip(m as int) =~= Seq::<(Formatter, Seq<char>)>::empty());
                assert(fpairs.skip(m as int) + ext_pairs(repo@.skip(i as int + 1)) =~= ext_pairs(
                    repo@.skip(i as int + 1),
                ));
            }
            i = i + 1;
        }
        proof {
            assert(repo@.skip(n as int) =~= Seq::<Formatter>::empty());
            assert(ext_pairs(repo@.skip(n as int)) == Seq::<(Formatter, Seq<char>)>::empty());
        }
        Ok(out)
    }

    /// Aggregate the buckets into one group per formatter kind, drop the
    /// groups that collected nothing, and build one invocation per group
    /// that remains.
    pub fn format(self) -> (r: Vec<FormatRequest>)
        ensures
            requests_view(r@) == spec_format(self@),
    {
        let ghost sv = self@;
        let mut merged: Vec<FmtHunks> = Vec::new();
        let mut buckets = self.buckets;
        proof {
            assert(groups_view(merged@) =~= Seq::<
                (Formatter, Seq<(Seq<char>, Seq<Hunk>)>),
            >::empty());
        }
        while buckets.len() > 0
            invariant
                merge_groups_from(groups_view(merged@), buckets_view(buckets@)) == merge_groups(
                    sv,
                ),
            decreases buckets.len(),
        {
            let ghost bv = buckets_view(buckets@);
            let b = buckets.remove(0);
            proof {
                assert(buckets_view(buckets@) =~~= bv.drop_first());
                assert(bv[0] == (BucketView { ext: b.0@, fmt: b.1.fmt, hunks: b.1.hunks@ }));
            }
            let ghost mg = groups_view(merged@);
            match find_group(&merged, &b.1.fmt) {
                Some(x) => {
                    proof {
                        lemma_find_fmt_range(mg, b.1.fmt);
                    }
                    merged[x].merge(b.1);
                    proof {
                        assert(groups_view(merged@) =~~= insert_group(
                            mg,
                            (bv[0].fmt, bv[0].hunks),
                        ));
                    }
                },
                None => {
                    merged.push(b.1);
                    proof {
                        assert(groups_view(merged@) =~~= insert_group(
                            mg,
                            (bv[0].fmt, bv[0].hunks),
                        ));
                    }
                },
            }
        }
        proof {
            assert(buckets_view(buckets@) =~= Seq::<BucketView>::empty());
        }

        let mut reqs: Vec<FormatRequest> = Vec::new();
        proof {
            assert(requests_view(reqs@) =~= Seq::<(Seq<char>, Seq<Seq<char>>)>::empty());
        }
        while merged.len() > 0
            invariant
                requests_view(reqs@) + requests_of(groups_view(merged@)) == requests_of(
                    merge_groups(sv),
                ),
            decreases merged.len(),
        {
            let ghost mg = groups_view(merged@);
            let g = merged.remove(0);
            let ghost gv = (g.fmt, g.hunks@);
            proof {
                assert(groups_view(merged@) =~~= mg.drop_first());
                assert(mg[0] == gv);
            }
            if !g.hunks.is_empty() {
                let ghost pre = requests_view(reqs@);
                let req = g.format();
                reqs.push(req);
                proof {
                    assert(requests_view(reqs@) =~= pre.push(gv.0.spec_request(gv.1)));
                    assert(requests_view(reqs@) + requests_of(groups_view(merged@)) =~= pre + (
                    seq![gv.0.spec_request(gv.1)] + requests_of(mg.drop_first())));
                }
            }
        }
        proof {
            assert(groups_view(merged@) =~= Seq::<
                (Formatter, Seq<(Seq<char>, Seq<Hunk>)>),
            >::empty());
            assert(requests_view(reqs@) + requests_of(groups_view(merged@)) =~= requests_view(
                reqs@,
            ));
        }
        reqs
    }
}

} // verus!
