use hunkfmt::format::{construct_repo, CallRustFmt, Format, Formatter, Formatters, Hunk};

#[test]
fn single_formatter_constructs() {
    let repo = construct_repo();
    let fmts = Formatters::new(&repo);
    assert!(fmts.is_ok());
}

#[test]
fn duplicate_extension_rejected() {
    // Two descriptors of the same kind both claim `rs`.
    let repo = vec![
        Formatter::RustFmt(CallRustFmt),
        Formatter::RustFmt(CallRustFmt),
    ];
    let err = match Formatters::new(&repo) {
        Ok(_) => panic!("conflicting registry must not construct"),
        Err(e) => e,
    };
    assert_eq!(err.ext, "rs");
    assert_eq!(err.first, "CallRustFmt");
    assert_eq!(err.second, "CallRustFmt");
    assert_eq!(
        err.message(),
        "formatter CallRustFmt tried to add extension rs already added by CallRustFmt"
    );
}

#[test]
fn ext_supported_iff_claimed() {
    let repo = construct_repo();
    let fmts = Formatters::new(&repo).unwrap();
    assert!(fmts.ext_supported("rs"));
    assert!(!fmts.ext_supported("txt"));
    assert!(!fmts.ext_supported(""));
    assert!(!fmts.ext_supported("rsx"));
}

#[test]
fn add_hunk_unsupported_is_noop() {
    let repo = construct_repo();
    let mut fmts = Formatters::new(&repo).unwrap();
    fmts.add_hunk("txt", String::from("c.txt"), Hunk { start: 1, lines: 1 });
    // The sole bucket is untouched, so no invocation is built.
    assert_eq!(fmts.format().len(), 0);
}

#[test]
fn add_hunk_supported_is_recorded() {
    let repo = construct_repo();
    let mut fmts = Formatters::new(&repo).unwrap();
    fmts.add_hunk("rs", String::from("a.rs"), Hunk { start: 3, lines: 1 });
    let reqs = fmts.format();
    assert_eq!(reqs.len(), 1);
}

#[test]
fn formatter_reports_name_and_extensions() {
    let f = Formatter::RustFmt(CallRustFmt);
    assert_eq!(f.name(), "CallRustFmt");
    assert_eq!(f.extensions(), vec![String::from("rs")]);
}
