use cmdirstat::tree::{find_child, locate, Node};

fn file(name: &str, size: u64) -> Node {
    let mut n = Node::new(name.to_string(), format!("/t/{}", name), false);
    n.size = size;
    n
}

fn dir(name: &str, kids: Vec<Node>) -> Node {
    let mut n = Node::new(name.to_string(), format!("/t/{}", name), true);
    for k in kids {
        n.insert_child(k);
    }
    n
}

#[test]
fn new_node_is_empty() {
    let n = Node::new("a".to_string(), "/x/a".to_string(), true);
    assert_eq!(n.name, "a");
    assert_eq!(n.path, "/x/a");
    assert!(n.is_dir);
    assert_eq!(n.size, 0);
    assert!(n.children.is_empty());
    assert_eq!(n.modified, 0);
    assert_eq!(n.accessed, 0);
}

#[test]
fn default_node_is_unnamed_file() {
    let n = Node::default();
    assert_eq!(n.name, "");
    assert_eq!(n.path, "");
    assert!(!n.is_dir);
    assert_eq!(n.size, 0);
    assert!(n.children.is_empty());
}

#[test]
fn insert_child_appends_new_names() {
    let d = dir("d", vec![file("a", 1), file("b", 2)]);
    let names: Vec<&str> = d.children.iter().map(|c| c.name.as_str()).collect();
    assert_eq!(names, vec!["a", "b"]);
}

#[test]
fn insert_child_replaces_same_name_in_place() {
    let mut d = dir("d", vec![file("a", 1), file("b", 2), file("c", 3)]);
    d.insert_child(file("b", 20));
    let got: Vec<(&str, u64)> = d.children.iter().map(|c| (c.name.as_str(), c.size)).collect();
    assert_eq!(got, vec![("a", 1), ("b", 20), ("c", 3)]);
    assert_eq!(d.size, 0);
}

#[test]
fn update_size_sums_nested_directories() {
    let inner = dir("inner", vec![file("x", 5), file("y", 7)]);
    let mut root = dir("root", vec![file("a", 100), inner, dir("empty", vec![])]);
    let total = root.update_size();
    assert_eq!(total, 112);
    assert_eq!(root.size, 112);
    assert_eq!(root.children[1].size, 12);
    assert_eq!(root.children[2].size, 0);
    assert_eq!(root.children[0].size, 100);
}

#[test]
fn update_size_of_a_file_is_its_size() {
    let mut f = file("f", 42);
    assert_eq!(f.update_size(), 42);
    assert_eq!(f.size, 42);
}

#[test]
fn update_size_ignores_stale_directory_sizes() {
    let mut inner = dir("inner", vec![file("x", 5)]);
    inner.size = 999;
    let mut root = dir("root", vec![inner]);
    root.size = 1;
    assert_eq!(root.update_size(), 5);
    assert_eq!(root.children[0].size, 5);
}

#[test]
fn update_size_twice_changes_nothing() {
    let mut root = dir("root", vec![dir("a", vec![file("x", 3)]), file("y", 4)]);
    let first = root.update_size();
    let sizes1: Vec<u64> = root.children.iter().map(|c| c.size).collect();
    let second = root.update_size();
    let sizes2: Vec<u64> = root.children.iter().map(|c| c.size).collect();
    assert_eq!(first, 7);
    assert_eq!(first, second);
    assert_eq!(sizes1, sizes2);
}

#[test]
fn remove_entry_takes_out_the_named_entry() {
    let mut root = dir("root", vec![dir("a", vec![file("x", 1), file("y", 2)]), file("z", 3)]);
    root.remove_entry(&vec!["a".to_string()], &"x".to_string());
    let names: Vec<&str> = root.children[0].children.iter().map(|c| c.name.as_str()).collect();
    assert_eq!(names, vec!["y"]);
    root.remove_entry(&vec![], &"z".to_string());
    assert_eq!(root.children.len(), 1);
    root.remove_entry(&vec![], &"missing".to_string());
    assert_eq!(root.children.len(), 1);
}

#[test]
fn find_child_and_locate_follow_names() {
    let root = dir("root", vec![dir("a", vec![dir("b", vec![file("x", 1)])]), file("c", 3)]);
    assert_eq!(find_child(&root, &"c".to_string()), Some(1));
    assert_eq!(find_child(&root, &"q".to_string()), None);
    let n = locate(&root, &vec!["a".to_string(), "b".to_string()]);
    assert_eq!(n.name, "b");
    // The walk stops at the first missing name.
    let m = locate(&root, &vec!["a".to_string(), "nope".to_string(), "b".to_string()]);
    assert_eq!(m.name, "a");
}
