use cmdirstat::scan::{assemble_directory, classify_entries, DirEntryInfo, EntryKind, ScanMessage, ScannedFile};
use cmdirstat::tree::Node;

fn scanned(name: &str, size: u64) -> ScannedFile {
    ScannedFile { name: name.to_string(), path: format!("/d/{}", name), size, modified: 10, accessed: 20 }
}

#[test]
fn assemble_puts_subdirectories_before_files_and_sums_sizes() {
    let mut sub = Node::new("sub".to_string(), "/d/sub".to_string(), true);
    let mut f = Node::new("inner".to_string(), "/d/sub/inner".to_string(), false);
    f.size = 30;
    sub.insert_child(f);
    sub.update_size();
    let d = assemble_directory(
        "d".to_string(),
        "/d".to_string(),
        5,
        6,
        vec![sub],
        vec![scanned("a", 1), scanned("b", 2)],
    );
    assert_eq!(d.name, "d");
    assert_eq!(d.path, "/d");
    assert!(d.is_dir);
    assert_eq!(d.modified, 5);
    assert_eq!(d.accessed, 6);
    assert_eq!(d.size, 33);
    let names: Vec<&str> = d.children.iter().map(|c| c.name.as_str()).collect();
    assert_eq!(names, vec!["sub", "a", "b"]);
    assert_eq!(d.children[1].size, 1);
    assert_eq!(d.children[1].modified, 10);
    assert_eq!(d.children[1].accessed, 20);
    assert!(!d.children[1].is_dir);
}

#[test]
fn assemble_empty_directory() {
    let d = assemble_directory("e".to_string(), "/e".to_string(), 0, 0, vec![], vec![]);
    assert_eq!(d.size, 0);
    assert!(d.children.is_empty());
}

#[test]
fn assemble_keeps_one_entry_per_name() {
    let d = assemble_directory(
        "d".to_string(),
        "/d".to_string(),
        0,
        0,
        vec![],
        vec![scanned("a", 1), scanned("a", 5)],
    );
    assert_eq!(d.children.len(), 1);
    assert_eq!(d.size, 5);
}

#[test]
fn scan_message_carries_nodes() {
    let m = ScanMessage::Done(Node::new("r".to_string(), "/".to_string(), true));
    match m {
        ScanMessage::Done(n) => assert_eq!(n.name, "r"),
        _ => panic!("wrong variant"),
    }
    let e = ScanMessage::Error("x".to_string());
    assert!(matches!(e, ScanMessage::Error(_)));
    let u = ScanMessage::Update(Node::default());
    assert!(matches!(u, ScanMessage::Update(_)));
}

fn entry(kind: EntryKind, name: &str, size: u64) -> DirEntryInfo {
    DirEntryInfo { kind, name: name.to_string(), path: format!("/d/{}", name), size, modified: 1, accessed: 2 }
}

#[test]
fn classify_sorts_entries_as_the_scan_does() {
    let entries = vec![
        entry(EntryKind::File, "f1", 7),
        entry(EntryKind::Directory, "sub", 0),
        entry(EntryKind::Symlink, "link", 0),
        entry(EntryKind::Unknown, "", 0),
        entry(EntryKind::Directory, "sub2", 0),
        entry(EntryKind::File, "f2", 9),
    ];
    let (dirs, files, skipped) = classify_entries(&entries);
    assert_eq!(dirs, vec![1, 4]);
    let names: Vec<&str> = files.iter().map(|f| f.name.as_str()).collect();
    assert_eq!(names, vec!["f1", "f2"]);
    assert_eq!(files[1].path, "/d/f2");
    assert_eq!(files[1].size, 9);
    assert_eq!(files[0].modified, 1);
    assert_eq!(files[0].accessed, 2);
    assert_eq!(skipped, 2);
}

#[test]
fn classify_empty_directory() {
    let (dirs, files, skipped) = classify_entries(&Vec::new());
    assert!(dirs.is_empty());
    assert!(files.is_empty());
    assert_eq!(skipped, 0);
}

#[test]
fn assemble_keeps_names_distinct() {
    let d = assemble_directory(
        "d".to_string(),
        "/d".to_string(),
        0,
        0,
        vec![Node::new("x".to_string(), "/d/x".to_string(), true)],
        vec![scanned("x", 4), scanned("y", 1), scanned("y", 2)],
    );
    let names: Vec<&str> = d.children.iter().map(|c| c.name.as_str()).collect();
    assert_eq!(names, vec!["x", "y"]);
    assert_eq!(d.children[0].size, 4);
    assert!(!d.children[0].is_dir);
    assert_eq!(d.children[1].size, 2);
    assert_eq!(d.size, 6);
}
