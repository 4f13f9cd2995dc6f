use minigrep::collector::{Collector, EntryKind, FileHandle, SearchError};

fn file(path: &str) -> FileHandle {
    FileHandle {
        path: String::from(path),
        kind: EntryKind::File,
    }
}

fn dir(path: &str) -> FileHandle {
    FileHandle {
        path: String::from(path),
        kind: EntryKind::Directory,
    }
}

fn other(path: &str) -> FileHandle {
    FileHandle {
        path: String::from(path),
        kind: EntryKind::Other,
    }
}

#[test]
fn flat_directory_collects_exactly_its_files() {
    let mut c = Collector::new(String::from("root"));
    let next = c.take_next().unwrap();
    assert_eq!(next.path, "root");
    assert_eq!(next.kind, EntryKind::Directory);
    c.step(Ok(vec![file("root/a"), file("root/b"), file("root/c")]));
    assert!(c.take_next().is_none());
    let (files, error) = c.into_result();
    assert_eq!(files, vec![file("root/a"), file("root/b"), file("root/c")]);
    assert_eq!(error, None);
}

#[test]
fn nested_directories_are_walked_breadth_first() {
    let mut c = Collector::new(String::from("root"));
    let next = c.take_next().unwrap();
    assert_eq!(next.path, "root");
    c.step(Ok(vec![
        file("root/a"),
        dir("root/d1"),
        file("root/b"),
        dir("root/d2"),
    ]));
    let next = c.take_next().unwrap();
    assert_eq!(next.path, "root/d1");
    c.step(Ok(vec![file("root/d1/c"), dir("root/d1/d3")]));
    // d2 sits one level above d3, so it comes out first.
    let next = c.take_next().unwrap();
    assert_eq!(next.path, "root/d2");
    c.step(Ok(vec![file("root/d2/e")]));
    let next = c.take_next().unwrap();
    assert_eq!(next.path, "root/d1/d3");
    assert_eq!(next.kind, EntryKind::Directory);
    c.step(Ok(vec![]));
    assert!(c.take_next().is_none());
    let (files, error) = c.into_result();
    assert_eq!(
        files,
        vec![
            file("root/a"),
            file("root/b"),
            file("root/d1/c"),
            file("root/d2/e"),
        ]
    );
    assert_eq!(error, None);
}

#[test]
fn files_are_never_queued_for_expansion() {
    let mut c = Collector::new(String::from("root"));
    let next = c.take_next().unwrap();
    assert_eq!(next.kind, EntryKind::Directory);
    c.step(Ok(vec![file("root/a"), file("root/b")]));
    // Both entries were files: nothing is left to expand.
    assert!(c.take_next().is_none());
}

#[test]
fn listing_failure_keeps_the_partial_result() {
    let mut c = Collector::new(String::from("root"));
    c.take_next().unwrap();
    c.step(Ok(vec![file("root/a"), dir("root/d1"), dir("root/d2")]));
    let next = c.take_next().unwrap();
    assert_eq!(next.path, "root/d1");
    c.step(Err(SearchError::TraversalError));
    // The traversal aborted: root/d2 is never handed out.
    assert!(c.take_next().is_none());
    let (files, error) = c.into_result();
    assert_eq!(files, vec![file("root/a")]);
    assert_eq!(error, Some(SearchError::TraversalError));
}

#[test]
fn unclassified_entries_are_skipped() {
    let mut c = Collector::new(String::from("root"));
    c.take_next().unwrap();
    c.step(Ok(vec![other("root/socket"), file("root/a")]));
    assert!(c.take_next().is_none());
    let (files, error) = c.into_result();
    assert_eq!(files, vec![file("root/a")]);
    assert_eq!(error, None);
}

#[test]
fn empty_root_collects_nothing() {
    let mut c = Collector::new(String::from("root"));
    c.take_next().unwrap();
    c.step(Ok(vec![]));
    assert!(c.take_next().is_none());
    let (files, error) = c.into_result();
    assert_eq!(files, Vec::<FileHandle>::new());
    assert_eq!(error, None);
}
