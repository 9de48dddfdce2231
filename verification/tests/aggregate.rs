use hunkfmt::format::{CallRustFmt, FmtHunks, Formatter, Hunk, Hunks};

fn hunk(start: u32, lines: u32) -> Hunk {
    Hunk { start, lines }
}

#[test]
fn merge_concatenates_shared_paths_in_order() {
    let mut a = Hunks::new();
    a.push_hunk(String::from("x.rs"), hunk(1, 1));
    a.push_hunk(String::from("x.rs"), hunk(5, 2));
    let mut b = Hunks::new();
    b.push_hunk(String::from("x.rs"), hunk(9, 3));

    let mut fa = FmtHunks { fmt: Formatter::RustFmt(CallRustFmt), hunks: a };
    let fb = FmtHunks { fmt: Formatter::RustFmt(CallRustFmt), hunks: b };
    fa.merge(fb);

    assert_eq!(fa.hunks.entries.len(), 1);
    let (path, hs) = &fa.hunks.entries[0];
    assert_eq!(path, "x.rs");
    assert_eq!(hs, &vec![hunk(1, 1), hunk(5, 2), hunk(9, 3)]);
}

#[test]
fn merge_carries_disjoint_paths_over() {
    let mut a = Hunks::new();
    a.push_hunk(String::from("x.rs"), hunk(1, 1));
    let mut b = Hunks::new();
    b.push_hunk(String::from("y.rs"), hunk(2, 2));

    let mut fa = FmtHunks { fmt: Formatter::RustFmt(CallRustFmt), hunks: a };
    let fb = FmtHunks { fmt: Formatter::RustFmt(CallRustFmt), hunks: b };
    fa.merge(fb);

    assert_eq!(fa.hunks.entries.len(), 2);
    assert_eq!(fa.hunks.entries[0].0, "x.rs");
    assert_eq!(fa.hunks.entries[0].1, vec![hunk(1, 1)]);
    assert_eq!(fa.hunks.entries[1].0, "y.rs");
    assert_eq!(fa.hunks.entries[1].1, vec![hunk(2, 2)]);
}

#[test]
fn hunks_preserve_insertion_order_and_duplicates() {
    let mut h = Hunks::new();
    h.push_hunk(String::from("b.rs"), hunk(7, 0));
    h.push_hunk(String::from("a.rs"), hunk(3, 1));
    h.push_hunk(String::from("b.rs"), hunk(7, 0));
    assert_eq!(h.entries.len(), 2);
    assert_eq!(h.entries[0].0, "b.rs");
    assert_eq!(h.entries[0].1, vec![hunk(7, 0), hunk(7, 0)]);
    assert_eq!(h.entries[1].0, "a.rs");
    assert_eq!(h.entries[1].1, vec![hunk(3, 1)]);
}
