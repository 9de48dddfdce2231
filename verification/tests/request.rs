use hunkfmt::format::callrustfmt::{u64_to_string, CallRustFmt};
use hunkfmt::format::{Format, Hunk, Hunks};

fn build(pairs: &[(&str, u32, u32)]) -> Vec<String> {
    let mut h = Hunks::new();
    for (path, start, lines) in pairs {
        h.push_hunk(String::from(*path), Hunk { start: *start, lines: *lines });
    }
    let req = CallRustFmt.format(h);
    assert_eq!(req.program, "rustfmt");
    req.args
}

#[test]
fn decimal_rendering() {
    assert_eq!(u64_to_string(0), "0");
    assert_eq!(u64_to_string(7), "7");
    assert_eq!(u64_to_string(10), "10");
    assert_eq!(u64_to_string(1234), "1234");
    assert_eq!(u64_to_string(u64::MAX), "18446744073709551615");
}

#[test]
fn range_is_start_plus_lines_plus_one() {
    let args = build(&[("f.rs", 10, 3)]);
    assert_eq!(args[3], "[{\"file\":\"f.rs\",\"range\":[10,14]}]");
}

#[test]
fn range_for_zero_lines() {
    let args = build(&[("f.rs", 42, 0)]);
    assert_eq!(args[3], "[{\"file\":\"f.rs\",\"range\":[42,43]}]");
}

#[test]
fn range_never_overflows() {
    let args = build(&[("f.rs", u32::MAX, u32::MAX)]);
    assert_eq!(args[3], "[{\"file\":\"f.rs\",\"range\":[4294967295,8589934591]}]");
}

#[test]
fn full_argument_list() {
    let args = build(&[("a.rs", 5, 2)]);
    assert_eq!(
        args,
        vec![
            String::from("+nightly"),
            String::from("--unstable-features"),
            String::from("--file-lines"),
            String::from("[{\"file\":\"a.rs\",\"range\":[5,8]}]"),
            String::from("--skip-children"),
            String::from("a.rs"),
        ]
    );
}

#[test]
fn payload_joins_records_across_paths() {
    let args = build(&[("a.rs", 1, 1), ("b.rs", 2, 0), ("a.rs", 9, 4)]);
    assert_eq!(
        args[3],
        "[{\"file\":\"a.rs\",\"range\":[1,3]},{\"file\":\"a.rs\",\"range\":[9,14]},{\"file\":\"b.rs\",\"range\":[2,3]}]"
    );
    // Distinct paths, each once, in first-seen order, after the flags.
    assert_eq!(&args[5..], &[String::from("a.rs"), String::from("b.rs")][..]);
}

#[test]
fn empty_mapping_yields_empty_array() {
    let args = build(&[]);
    assert_eq!(args[3], "[]");
    assert_eq!(args.len(), 5);
}
