use cmdirstat::browse::{BrowsingState, SortColumn, SortDirection};
use cmdirstat::tree::Node;

fn entry(name: &str, size: u64, is_dir: bool, modified: i128, accessed: i128) -> Node {
    let mut n = Node::new(name.to_string(), format!("/r/{}", name), is_dir);
    n.size = size;
    n.modified = modified;
    n.accessed = accessed;
    n
}

fn sample() -> Node {
    let mut root = Node::new("r".to_string(), "/r".to_string(), true);
    let mut docs = entry("Docs", 0, true, 3, 30);
    docs.insert_child(entry("note.txt", 7, false, 1, 1));
    docs.insert_child(entry("todo.txt", 3, false, 2, 2));
    root.insert_child(entry("beta.log", 50, false, 2, 10));
    root.insert_child(docs);
    root.insert_child(entry("alpha.bin", 50, false, 1, 20));
    root.insert_child(entry("Zeta", 5, false, 4, 5));
    root.update_size();
    root
}

fn names(v: &[&Node]) -> Vec<String> {
    v.iter().map(|n| n.name.clone()).collect()
}

#[test]
fn sorted_by_size_descending_keeps_ties_in_order() {
    let root = sample();
    let v = BrowsingState::get_sorted_children(&root, SortColumn::Size, SortDirection::Descending);
    assert_eq!(names(&v), vec!["beta.log", "alpha.bin", "Docs", "Zeta"]);
}

#[test]
fn sorted_by_size_ascending() {
    let root = sample();
    let v = BrowsingState::get_sorted_children(&root, SortColumn::Size, SortDirection::Ascending);
    assert_eq!(names(&v), vec!["Zeta", "Docs", "beta.log", "alpha.bin"]);
}

#[test]
fn sorted_by_name_ignores_case() {
    let root = sample();
    let v = BrowsingState::get_sorted_children(&root, SortColumn::Name, SortDirection::Ascending);
    assert_eq!(names(&v), vec!["alpha.bin", "beta.log", "Docs", "Zeta"]);
    let w = BrowsingState::get_sorted_children(&root, SortColumn::Name, SortDirection::Descending);
    assert_eq!(names(&w), vec!["Zeta", "Docs", "beta.log", "alpha.bin"]);
}

#[test]
fn sorted_by_times() {
    let root = sample();
    let m = BrowsingState::get_sorted_children(&root, SortColumn::Modified, SortDirection::Ascending);
    assert_eq!(names(&m), vec!["alpha.bin", "beta.log", "Docs", "Zeta"]);
    let a = BrowsingState::get_sorted_children(&root, SortColumn::Accessed, SortDirection::Descending);
    assert_eq!(names(&a), vec!["Docs", "alpha.bin", "beta.log", "Zeta"]);
}

#[test]
fn search_filters_case_insensitively() {
    let root = sample();
    let mut s = BrowsingState::new(None);
    s.search_query = "A".to_string();
    let v = s.get_filtered_and_sorted_children(&root);
    assert_eq!(names(&v), vec!["beta.log", "alpha.bin", "Zeta"]);
    s.search_query = "ZZZ".to_string();
    assert!(s.get_filtered_and_sorted_children(&root).is_empty());
    s.search_query = String::new();
    assert_eq!(s.get_filtered_and_sorted_children(&root).len(), 4);
}

#[test]
fn new_state_starts_at_the_top() {
    let s = BrowsingState::new(Some(true));
    assert_eq!(s.path_indices, vec![0]);
    assert!(s.current_path.is_empty());
    assert_eq!(s.selected, Some(0));
    assert!(s.cached_children.is_empty());
    assert_eq!(s.sort_column, SortColumn::Size);
    assert_eq!(s.sort_direction, SortDirection::Descending);
    assert_eq!(s.is_ssd, Some(true));
    assert!(!s.show_help && !s.search_active);
}

#[test]
fn update_cache_lists_names() {
    let root = sample();
    let mut s = BrowsingState::new(None);
    s.update_cache(&root);
    assert_eq!(s.cached_children, vec!["beta.log", "alpha.bin", "Docs", "Zeta"]);
}

#[test]
fn next_and_previous_wrap_around() {
    let root = sample();
    let mut s = BrowsingState::new(None);
    s.update_cache(&root);
    s.selected = Some(3);
    s.next();
    assert_eq!(s.selected, Some(0));
    s.previous();
    assert_eq!(s.selected, Some(3));
    s.previous();
    assert_eq!(s.selected, Some(2));
    s.next();
    assert_eq!(s.selected, Some(3));
    s.selected = None;
    s.next();
    assert_eq!(s.selected, Some(0));
    s.selected = None;
    s.previous();
    assert_eq!(s.selected, Some(0));
}

#[test]
fn next_on_empty_list_keeps_selection() {
    let mut s = BrowsingState::new(None);
    s.selected = Some(4);
    s.next();
    assert_eq!(s.selected, Some(4));
    s.previous();
    assert_eq!(s.selected, Some(4));
}

#[test]
fn enter_then_back_returns() {
    let root = sample();
    let mut s = BrowsingState::new(None);
    s.update_cache(&root);
    s.selected = Some(2); // Docs
    s.enter(&root);
    assert_eq!(s.current_path, vec!["Docs"]);
    assert_eq!(s.path_indices, vec![0, 2]);
    assert_eq!(s.selected, Some(0));
    assert_eq!(s.cached_children, vec!["note.txt", "todo.txt"]);
    s.back(&root);
    assert!(s.current_path.is_empty());
    assert_eq!(s.path_indices, vec![0]);
    assert_eq!(s.selected, Some(2));
    assert_eq!(s.cached_children, vec!["beta.log", "alpha.bin", "Docs", "Zeta"]);
}

#[test]
fn enter_on_a_file_or_empty_directory_does_nothing() {
    let mut root = sample();
    root.insert_child(entry("void", 0, true, 0, 0));
    let mut s = BrowsingState::new(None);
    s.sort_column = SortColumn::Name;
    s.sort_direction = SortDirection::Ascending;
    s.update_cache(&root);
    assert_eq!(s.cached_children, vec!["alpha.bin", "beta.log", "Docs", "void", "Zeta"]);
    s.selected = Some(0);
    s.enter(&root);
    assert!(s.current_path.is_empty());
    s.selected = Some(3);
    s.enter(&root);
    assert!(s.current_path.is_empty());
    s.selected = Some(9);
    s.enter(&root);
    assert!(s.current_path.is_empty());
}

#[test]
fn back_at_top_does_nothing() {
    let root = sample();
    let mut s = BrowsingState::new(None);
    s.update_cache(&root);
    s.selected = Some(1);
    s.back(&root);
    assert_eq!(s.selected, Some(1));
    assert_eq!(s.path_indices, vec![0]);
}

#[test]
fn cycle_sort_column_goes_round_in_four_steps() {
    let root = sample();
    let mut s = BrowsingState::new(None);
    s.update_cache(&root);
    s.cycle_sort_column(&root);
    assert_eq!(s.sort_column, SortColumn::Name);
    assert_eq!(s.cached_children, vec!["Zeta", "Docs", "beta.log", "alpha.bin"]);
    s.cycle_sort_column(&root);
    assert_eq!(s.sort_column, SortColumn::Modified);
    s.cycle_sort_column(&root);
    assert_eq!(s.sort_column, SortColumn::Accessed);
    s.cycle_sort_column(&root);
    assert_eq!(s.sort_column, SortColumn::Size);
    assert_eq!(s.cached_children, vec!["beta.log", "alpha.bin", "Docs", "Zeta"]);
}

#[test]
fn toggle_sort_direction_twice_restores() {
    let root = sample();
    let mut s = BrowsingState::new(None);
    s.update_cache(&root);
    s.toggle_sort_direction(&root);
    assert_eq!(s.sort_direction, SortDirection::Ascending);
    assert_eq!(s.cached_children, vec!["Zeta", "Docs", "beta.log", "alpha.bin"]);
    s.toggle_sort_direction(&root);
    assert_eq!(s.sort_direction, SortDirection::Descending);
    assert_eq!(s.cached_children, vec!["beta.log", "alpha.bin", "Docs", "Zeta"]);
}
