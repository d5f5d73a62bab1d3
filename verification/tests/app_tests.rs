use cmdirstat::app::{App, AppState, Key, Outcome};
use cmdirstat::browse::{SortColumn, SortDirection};
use cmdirstat::tree::Node;

fn entry(name: &str, size: u64, is_dir: bool) -> Node {
    let mut n = Node::new(name.to_string(), format!("/r/{}", name), is_dir);
    n.size = size;
    n
}

fn sample() -> Node {
    let mut root = Node::new("r".to_string(), "/r".to_string(), true);
    let mut sub = entry("sub", 0, true);
    sub.insert_child(entry("deep.txt", 4, false));
    root.insert_child(entry("big", 90, false));
    root.insert_child(sub);
    root.insert_child(entry("small", 1, false));
    root.update_size();
    root
}

fn browsing(app: &App) -> &cmdirstat::browse::BrowsingState {
    match &app.state {
        AppState::Browsing(s) => s,
        _ => panic!("not browsing"),
    }
}

fn selected_drive(app: &App) -> Option<usize> {
    match &app.state {
        AppState::Selecting(sel, _) => *sel,
        _ => panic!("not selecting"),
    }
}

fn opened(root: &Node) -> App {
    let mut app = App::new_selecting(vec!["/r".to_string()]);
    let placeholder = app.start_browsing("/r".to_string(), None);
    assert!(placeholder.children.is_empty());
    assert!(placeholder.is_dir);
    if let AppState::Browsing(s) = &mut app.state {
        s.update_cache(root);
    }
    app
}

#[test]
fn new_selecting_selects_first_drive() {
    let app = App::new_selecting(vec!["/".to_string(), "/home".to_string()]);
    assert_eq!(selected_drive(&app), Some(0));
}

#[test]
fn drive_selection_wraps_both_ways() {
    let root = Node::default();
    let mut app = App::new_selecting(vec!["/".to_string(), "/a".to_string(), "/b".to_string()]);
    app.previous();
    assert_eq!(selected_drive(&app), Some(2));
    app.next();
    assert_eq!(selected_drive(&app), Some(0));
    assert!(matches!(app.handle_key(Key::Char('j'), &root, false), Outcome::Redraw));
    assert_eq!(selected_drive(&app), Some(1));
    assert!(matches!(app.handle_key(Key::Up, &root, false), Outcome::Redraw));
    assert_eq!(selected_drive(&app), Some(0));
}

#[test]
fn enter_on_a_drive_asks_to_open_it() {
    let root = Node::default();
    let mut app = App::new_selecting(vec!["/".to_string(), "/data".to_string()]);
    app.next();
    match app.handle_key(Key::Enter, &root, false) {
        Outcome::Open(p) => assert_eq!(p, "/data"),
        other => panic!("unexpected {:?}", other),
    }
    assert_eq!(app.enter(&root), Some("/data".to_string()));
}

#[test]
fn quit_and_unknown_keys_while_selecting() {
    let root = Node::default();
    let mut app = App::new_selecting(vec!["/".to_string()]);
    assert!(matches!(app.handle_key(Key::Char('q'), &root, false), Outcome::Quit));
    assert!(matches!(app.handle_key(Key::Char('x'), &root, false), Outcome::Ignored));
    assert!(matches!(app.handle_key(Key::Char('?'), &root, false), Outcome::Ignored));
    assert!(matches!(app.handle_key(Key::Left, &root, false), Outcome::Redraw));
    assert!(!app.back(&root));
}

#[test]
fn start_browsing_opens_at_the_top() {
    let mut app = App::new_selecting(vec!["/".to_string()]);
    let root = app.start_browsing("/mnt/disk".to_string(), Some(false));
    assert_eq!(root.name, "disk");
    assert_eq!(root.path, "/mnt/disk");
    let s = browsing(&app);
    assert_eq!(s.is_ssd, Some(false));
    assert_eq!(s.sort_column, SortColumn::Size);
    assert_eq!(s.sort_direction, SortDirection::Descending);
    assert!(s.cached_children.is_empty());
}

#[test]
fn start_browsing_the_root_names_it_slash() {
    let mut app = App::new_selecting(vec!["/".to_string()]);
    let root = app.start_browsing("/".to_string(), None);
    assert_eq!(root.name, "/");
    assert_eq!(root.path, "/");
}

#[test]
fn navigation_keys_in_the_tree() {
    let root = sample();
    let mut app = opened(&root);
    assert_eq!(browsing(&app).cached_children, vec!["big", "sub", "small"]);
    assert!(matches!(app.handle_key(Key::Down, &root, false), Outcome::Redraw));
    assert_eq!(browsing(&app).selected, Some(1));
    assert!(matches!(app.handle_key(Key::Char('l'), &root, false), Outcome::Redraw));
    assert_eq!(browsing(&app).current_path, vec!["sub"]);
    assert_eq!(browsing(&app).cached_children, vec!["deep.txt"]);
    assert!(matches!(app.handle_key(Key::Char('h'), &root, false), Outcome::Redraw));
    assert!(browsing(&app).current_path.is_empty());
    assert_eq!(browsing(&app).selected, Some(1));
    assert!(matches!(app.handle_key(Key::Backspace, &root, false), Outcome::Leave));
    assert!(app.back(&root));
}

#[test]
fn help_dialog_opens_and_closes() {
    let root = sample();
    let mut app = opened(&root);
    assert!(matches!(app.handle_key(Key::F(1), &root, false), Outcome::Redraw));
    assert!(browsing(&app).show_help);
    assert!(matches!(app.handle_key(Key::Char('q'), &root, false), Outcome::Ignored));
    assert!(matches!(app.handle_key(Key::Char('?'), &root, false), Outcome::Redraw));
    assert!(!browsing(&app).show_help);
}

#[test]
fn search_typing_filters_and_escape_clears() {
    let root = sample();
    let mut app = opened(&root);
    assert!(matches!(app.handle_key(Key::Char('/'), &root, true), Outcome::Ignored));
    assert!(!browsing(&app).search_active);
    assert!(matches!(app.handle_key(Key::Char('/'), &root, false), Outcome::Redraw));
    assert!(browsing(&app).search_active);
    app.handle_key(Key::Char('S'), &root, false);
    assert_eq!(browsing(&app).search_query, "S");
    assert_eq!(browsing(&app).cached_children, vec!["sub", "small"]);
    app.handle_key(Key::Char('m'), &root, false);
    assert_eq!(browsing(&app).cached_children, vec!["small"]);
    app.handle_key(Key::Backspace, &root, false);
    assert_eq!(browsing(&app).search_query, "S");
    assert_eq!(browsing(&app).cached_children, vec!["sub", "small"]);
    assert!(matches!(app.handle_key(Key::Enter, &root, false), Outcome::Redraw));
    assert!(!browsing(&app).search_active);
    assert_eq!(browsing(&app).search_query, "S");
    app.handle_key(Key::Char('/'), &root, false);
    assert_eq!(browsing(&app).search_query, "");
    app.handle_key(Key::Char('x'), &root, false);
    assert!(matches!(app.handle_key(Key::Esc, &root, false), Outcome::Redraw));
    assert!(!browsing(&app).search_active);
    assert_eq!(browsing(&app).search_query, "");
    assert_eq!(browsing(&app).cached_children, vec!["big", "sub", "small"]);
}

#[test]
fn sort_keys_wait_for_the_scan() {
    let root = sample();
    let mut app = opened(&root);
    assert!(matches!(app.handle_key(Key::Tab, &root, true), Outcome::Ignored));
    assert_eq!(browsing(&app).sort_column, SortColumn::Size);
    assert!(matches!(app.handle_key(Key::Char('s'), &root, false), Outcome::Redraw));
    assert_eq!(browsing(&app).sort_column, SortColumn::Name);
    assert_eq!(browsing(&app).cached_children, vec!["sub", "small", "big"]);
    assert!(matches!(app.handle_key(Key::Char(' '), &root, false), Outcome::Redraw));
    assert_eq!(browsing(&app).sort_direction, SortDirection::Ascending);
    assert_eq!(browsing(&app).cached_children, vec!["big", "small", "sub"]);
    assert!(matches!(app.handle_key(Key::Char('r'), &root, true), Outcome::Ignored));
}

#[test]
fn delete_asks_then_confirms() {
    let mut root = sample();
    let mut app = opened(&root);
    assert!(matches!(app.handle_key(Key::Delete, &root, true), Outcome::Ignored));
    assert!(matches!(app.handle_key(Key::Char('d'), &root, false), Outcome::Redraw));
    let pending = browsing(&app).deleting_item.clone().unwrap();
    assert_eq!(pending.name, "big");
    assert_eq!(pending.path, "/r/big");
    assert!(matches!(app.handle_key(Key::Char('x'), &root, false), Outcome::Ignored));
    match app.handle_key(Key::Char('y'), &root, false) {
        Outcome::Delete(item) => assert_eq!(item.name, "big"),
        other => panic!("unexpected {:?}", other),
    }
    app.finish_deletion(&mut root, None);
    assert!(app.fits(&root));
    assert!(browsing(&app).deleting_item.is_none());
    assert_eq!(browsing(&app).cached_children, vec!["sub", "small"]);
    assert_eq!(root.children.len(), 2);
}

#[test]
fn delete_can_be_cancelled() {
    let root = sample();
    let mut app = opened(&root);
    app.handle_key(Key::Char('d'), &root, false);
    assert!(matches!(app.handle_key(Key::Char('N'), &root, false), Outcome::Redraw));
    assert!(browsing(&app).deleting_item.is_none());
}

#[test]
fn failed_delete_shows_error_until_a_key() {
    let mut root = sample();
    let mut app = opened(&root);
    app.handle_key(Key::Char('d'), &root, false);
    app.handle_key(Key::Enter, &root, false);
    app.finish_deletion(&mut root, Some("permission denied".to_string()));
    assert_eq!(browsing(&app).deletion_error, Some("permission denied".to_string()));
    assert!(browsing(&app).deleting_item.is_none());
    assert_eq!(root.children.len(), 3);
    assert!(matches!(app.handle_key(Key::Char('q'), &root, false), Outcome::Redraw));
    assert!(browsing(&app).deletion_error.is_none());
    assert!(matches!(app.handle_key(Key::Char('q'), &root, false), Outcome::Quit));
}

#[test]
fn delete_with_nothing_selected_is_ignored() {
    let root = Node::new("r".to_string(), "/r".to_string(), true);
    let mut app = opened(&root);
    assert!(matches!(app.handle_key(Key::Char('d'), &root, false), Outcome::Ignored));
    assert!(browsing(&app).deleting_item.is_none());
}

#[test]
fn keys_listed_in_the_controls() {
    let root = sample();
    let mut app = opened(&root);
    // Down and up, by arrow and by letter.
    app.handle_key(Key::Char('j'), &root, false);
    assert_eq!(browsing(&app).selected, Some(1));
    app.handle_key(Key::Char('k'), &root, false);
    assert_eq!(browsing(&app).selected, Some(0));
    app.handle_key(Key::Down, &root, false);
    // Right enters, Left goes back.
    app.handle_key(Key::Right, &root, false);
    assert_eq!(browsing(&app).current_path, vec!["sub"]);
    app.handle_key(Key::Left, &root, false);
    assert!(browsing(&app).current_path.is_empty());
    // Esc closes the help screen; q quits.
    app.handle_key(Key::Char('?'), &root, false);
    assert!(browsing(&app).show_help);
    app.handle_key(Key::Esc, &root, false);
    assert!(!browsing(&app).show_help);
    assert!(matches!(app.handle_key(Key::Char('q'), &root, false), Outcome::Quit));
}

#[test]
fn accepts_and_fits_guard_the_keys() {
    let root = sample();
    let empty = App::new_selecting(vec![]);
    assert!(!empty.accepts(Key::Down, &root, false));
    assert!(!empty.accepts(Key::Enter, &root, false));
    assert!(empty.accepts(Key::Char('q'), &root, false));
    assert!(!empty.fits(&root));
    let mut app = opened(&root);
    assert!(app.fits(&root));
    app.handle_key(Key::Down, &root, false);
    app.handle_key(Key::Enter, &root, false);
    let other = Node::new("r".to_string(), "/r".to_string(), true);
    assert!(!app.fits(&other));
    assert!(!app.accepts(Key::Enter, &other, false));
    assert!(app.accepts(Key::Char('d'), &other, true));
    assert!(app.accepts(Key::Down, &other, false));
}

#[test]
fn the_listing_is_redone_once_the_scan_stops() {
    let mut app = App::new_selecting(vec!["/r".to_string()]);
    let _ = app.start_browsing("/r".to_string(), None);
    let root = sample();
    assert_eq!(app.follow_scan(&root, false, true), (true, false));
    assert!(browsing(&app).cached_children.is_empty());
    assert_eq!(app.follow_scan(&root, true, false), (false, true));
    assert_eq!(browsing(&app).cached_children, vec!["big", "sub", "small"]);
    assert_eq!(app.follow_scan(&root, false, false), (false, false));
}

#[test]
fn following_the_scan_while_selecting_changes_nothing() {
    let mut app = App::new_selecting(vec!["/r".to_string()]);
    assert_eq!(app.follow_scan(&sample(), true, false), (true, false));
    assert_eq!(selected_drive(&app), Some(0));
}

#[test]
fn enter_moves_into_the_selected_row() {
    let root = sample();
    let mut app = opened(&root);
    if let AppState::Browsing(s) = &mut app.state {
        s.selected = Some(1);
        s.enter(&root);
        assert_eq!(s.current_path, vec!["sub".to_string()]);
        assert_eq!(s.cached_children, vec!["deep.txt"]);
    }
}
