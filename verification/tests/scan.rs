use hunkfmt::format::{construct_repo, Formatters};
use hunkfmt::git::{extension_of, record_entry, Status};

fn registry() -> Formatters {
    Formatters::new(&construct_repo()).unwrap()
}

#[test]
fn extension_extraction() {
    assert_eq!(extension_of("a.rs"), Some(String::from("rs")));
    assert_eq!(extension_of("dir/sub/a.rs"), Some(String::from("rs")));
    assert_eq!(extension_of("archive.tar.gz"), Some(String::from("gz")));
    assert_eq!(extension_of(".gitignore"), None);
    assert_eq!(extension_of("dir/.hidden"), None);
    assert_eq!(extension_of("noext"), None);
    assert_eq!(extension_of("trailing."), Some(String::from("")));
    assert_eq!(extension_of("dir.with.dots/noext"), None);
    assert_eq!(extension_of(""), None);
}

#[test]
fn deleted_and_unmodified_produce_no_hunk() {
    let mut fmts = registry();
    record_entry(&mut fmts, "a.rs", Status::Deleted, 5, 2);
    record_entry(&mut fmts, "b.rs", Status::Unmodified, 1, 1);
    record_entry(&mut fmts, "c.rs", Status::Typechange, 1, 1);
    record_entry(&mut fmts, "d.rs", Status::Unreadable, 1, 1);
    record_entry(&mut fmts, "e.rs", Status::Conflicted, 1, 1);
    assert_eq!(fmts.format().len(), 0);
}

#[test]
fn modified_tracked_file_end_to_end() {
    let mut fmts = registry();
    record_entry(&mut fmts, "a.rs", Status::Modified, 5, 2);
    let reqs = fmts.format();
    assert_eq!(reqs.len(), 1);
    assert_eq!(reqs[0].program, "rustfmt");
    assert_eq!(reqs[0].args[3], "[{\"file\":\"a.rs\",\"range\":[5,8]}]");
    assert_eq!(&reqs[0].args[5..], &[String::from("a.rs")][..]);
}

#[test]
fn untracked_file_treated_like_modified() {
    let mut fmts = registry();
    record_entry(&mut fmts, "b.rs", Status::Untracked, 1, 20);
    let reqs = fmts.format();
    assert_eq!(reqs.len(), 1);
    assert_eq!(reqs[0].args[3], "[{\"file\":\"b.rs\",\"range\":[1,22]}]");
}

#[test]
fn unclaimed_extension_has_no_effect() {
    let mut fmts = registry();
    record_entry(&mut fmts, "c.txt", Status::Modified, 2, 3);
    assert_eq!(fmts.format().len(), 0);

    let mut fmts = registry();
    record_entry(&mut fmts, "c.txt", Status::Modified, 2, 3);
    record_entry(&mut fmts, "a.rs", Status::Modified, 5, 2);
    let reqs = fmts.format();
    assert_eq!(reqs.len(), 1);
    assert_eq!(reqs[0].args[3], "[{\"file\":\"a.rs\",\"range\":[5,8]}]");
}

#[test]
fn file_without_extension_skipped() {
    let mut fmts = registry();
    record_entry(&mut fmts, "Makefile", Status::Modified, 1, 4);
    assert_eq!(fmts.format().len(), 0);
}

#[test]
fn empty_registry_content_is_never_invoked() {
    let fmts = registry();
    assert_eq!(fmts.format().len(), 0);
}

#[test]
fn hunks_for_one_file_accumulate() {
    let mut fmts = registry();
    record_entry(&mut fmts, "a.rs", Status::Modified, 1, 1);
    record_entry(&mut fmts, "a.rs", Status::Modified, 10, 2);
    let reqs = fmts.format();
    assert_eq!(reqs.len(), 1);
    assert_eq!(
        reqs[0].args[3],
        "[{\"file\":\"a.rs\",\"range\":[1,3]},{\"file\":\"a.rs\",\"range\":[10,13]}]"
    );
    assert_eq!(&reqs[0].args[5..], &[String::from("a.rs")][..]);
}
