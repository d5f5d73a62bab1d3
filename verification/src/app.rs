//! The application's two screens, drive selection and browsing, and how keys
//! move between and within them.
use vstd::prelude::*;
use crate::tree::{
    Node, Tree, strings_view, path_exists, path_reachable, removed_at, locate, descend, lemma_first_index_found,
    lemma_path_push, lemma_path_prefix, lemma_removed_keeps_path, names_unique, names_unique_everywhere, has_name,
};
use crate::browse::{
    BrowsingState, BrowsingView, DeletingItem, refreshed, entered, went_back, cycled, toggled,
    listing, select_next, select_previous, lemma_listed_is_entry, law_search_goes_by_name, listed_entries,
};
use crate::text::{contains_seq, lowercase};
use crate::text::{push_char, pop_char};
use crate::paths::{file_name, root_name};

verus! {

/// The screen the application shows: the list of drives to choose from, with
/// the selected row, or a tree being browsed.
pub enum AppState {
    Selecting(Option<usize>, Vec<String>),
    Browsing(BrowsingState),
}

/// The application.
pub struct App {
    pub state: AppState,
}

/// The mathematical value of an [`App`].
pub enum AppView {
    Selecting(Option<usize>, Seq<Seq<char>>),
    Browsing(BrowsingView),
}

impl View for App {
    type V = AppView;

    open spec fn view(&self) -> AppView {
        match &self.state {
            AppState::Selecting(sel, drives) => AppView::Selecting(*sel, strings_view(drives@)),
            AppState::Browsing(s) => AppView::Browsing(s@),
        }
    }
}

/// The state a freshly opened tree starts in, before it is listed.
pub open spec fn initial_browsing(is_ssd: Option<bool>) -> BrowsingView {
    BrowsingView {
        path_indices: seq![0usize],
        current_path: Seq::empty(),
        selected: Some(0),
        cached_children: Seq::empty(),
        deleting_item: None,
        deletion_error: None,
        show_help: false,
        search_active: false,
        search_query: Seq::empty(),
        sort_column: crate::browse::SortColumn::Size,
        sort_direction: crate::browse::SortDirection::Descending,
        is_ssd,
    }
}

/// Moving down: the next drive, wrapping to the first (the first when none
/// is selected), or the next row of the tree.
pub open spec fn app_next(v: AppView) -> AppView {
    match v {
        AppView::Selecting(sel, drives) => AppView::Selecting(
            Some(
                match sel {
                    Some(i) => if i >= drives.len() - 1 { 0 } else { (i + 1) as usize },
                    None => 0,
                },
            ),
            drives,
        ),
        AppView::Browsing(b) => AppView::Browsing(
            BrowsingView { selected: select_next(b.selected, b.cached_children.len()), ..b },
        ),
    }
}

/// Moving up: the previous drive, wrapping to the last (the first when none
/// is selected), or the previous row of the tree.
pub open spec fn app_previous(v: AppView) -> AppView {
    match v {
        AppView::Selecting(sel, drives) => AppView::Selecting(
            Some(
                match sel {
                    Some(i) => if i == 0 { (drives.len() - 1) as usize } else { (i - 1) as usize },
                    None => 0,
                },
            ),
            drives,
        ),
        AppView::Browsing(b) => AppView::Browsing(
            BrowsingView { selected: select_previous(b.selected, b.cached_children.len()), ..b },
        ),
    }
}

/// A key the user pressed, as far as the application tells keys apart.
#[derive(Clone, Copy, Debug, PartialEq, Eq, Structural)]
pub enum Key {
    Char(char),
    F(u8),
    Enter,
    Esc,
    Backspace,
    Delete,
    Tab,
    Up,
    Down,
    Left,
    Right,
    Other,
}

/// What the caller has to do after a key was handled.
#[derive(Debug)]
pub enum Outcome {
    /// Nothing changed; no need to redraw.
    Ignored,
    /// The screen changed; redraw it.
    Redraw,
    /// Leave the application.
    Quit,
    /// Deletion of this entry was confirmed: remove it from the disk, then
    /// report how that went with [`App::finish_deletion`], and redraw.
    Delete(DeletingItem),
    /// This drive or directory was chosen: open it with
    /// [`App::start_browsing`], start scanning it, and redraw.
    Open(String),
    /// Leave the tree for the drive selection: stop the scan, list the drives
    /// anew with [`App::new_selecting`], and redraw.
    Leave,
}

/// The mathematical value of an [`Outcome`]; a deletion carries the entry's
/// (path, name) pair.
pub enum OutcomeView {
    Ignored,
    Redraw,
    Quit,
    Delete(Seq<char>, Seq<char>),
    Open(Seq<char>),
    Leave,
}

impl View for Outcome {
    type V = OutcomeView;

    open spec fn view(&self) -> OutcomeView {
        match self {
            Outcome::Ignored => OutcomeView::Ignored,
            Outcome::Redraw => OutcomeView::Redraw,
            Outcome::Quit => OutcomeView::Quit,
            Outcome::Delete(d) => OutcomeView::Delete(d.path@, d.name@),
            Outcome::Open(p) => OutcomeView::Open(p@),
            Outcome::Leave => OutcomeView::Leave,
        }
    }
}

/// The state the application can be in while `root` is the tree: a selected
/// drive is one of the drives, and a browsed directory can be reached.
pub open spec fn app_valid(v: AppView, root: Tree) -> bool {
    match v {
        AppView::Selecting(sel, drives) => sel matches Some(i) ==> i < drives.len(),
        AppView::Browsing(b) => path_exists(root, b.current_path),
    }
}

/// The key can be handled in this state: moving through or choosing drives
/// needs drives to be there, and entering or picking a row of the tree for
/// deletion needs the browsed directory to be reachable in `root`.
pub open spec fn key_accepted(v: AppView, key: Key, root: Tree, scanning: bool) -> bool {
    match v {
        AppView::Selecting(sel, drives) => match key {
            Key::Down | Key::Char('j') => sel is Some ==> drives.len() > 0,
            Key::Up | Key::Char('k') => sel == Some(0usize) ==> drives.len() > 0,
            Key::Enter | Key::Right | Key::Char('l') => sel matches Some(i) ==> i < drives.len(),
            _ => true,
        },
        AppView::Browsing(b) => dialog_step(b, key, root) is Some || match key {
            Key::Enter | Key::Right | Key::Char('l') => b.selected is Some ==> path_exists(root, b.current_path),
            Key::Char('d') | Key::Delete => (!scanning && b.selected is Some) ==> path_exists(root, b.current_path),
            _ => true,
        },
    }
}

/// How a key acts while a dialog or the search line of the browser is open:
/// an error message is dismissed by any key; help is closed by Esc, `?` or
/// F1; the search line takes characters, Backspace, Enter (keep the filter)
/// and Esc (drop it); a pending deletion is confirmed by `y`, `Y` or Enter and
/// dropped by `n`, `N` or Esc. `None` when no dialog is open.
pub open spec fn dialog_step(b: BrowsingView, key: Key, root: Tree) -> Option<(BrowsingView, OutcomeView)> {
    if b.deletion_error is Some {
        Some((BrowsingView { deletion_error: None, ..b }, OutcomeView::Redraw))
    } else if b.show_help {
        if key == Key::Esc || key == Key::Char('?') || key == Key::F(1) {
            Some((BrowsingView { show_help: false, ..b }, OutcomeView::Redraw))
        } else {
            Some((b, OutcomeView::Ignored))
        }
    } else if b.search_active {
        match key {
            Key::Esc => Some((
                refreshed(BrowsingView { search_active: false, search_query: Seq::empty(), ..b }, root),
                OutcomeView::Redraw,
            )),
            Key::Enter => Some((BrowsingView { search_active: false, ..b }, OutcomeView::Redraw)),
            Key::Backspace => Some((
                refreshed(
                    BrowsingView {
                        search_query: if b.search_query.len() > 0 {
                            b.search_query.drop_last()
                        } else {
                            b.search_query
                        },
                        ..b
                    },
                    root,
                ),
                OutcomeView::Redraw,
            )),
            Key::Char(c) => Some((
                refreshed(BrowsingView { search_query: b.search_query.push(c), ..b }, root),
                OutcomeView::Redraw,
            )),
            _ => Some((b, OutcomeView::Ignored)),
        }
    } else {
        match b.deleting_item {
            Some((path, name)) => {
                if key == Key::Char('y') || key == Key::Char('Y') || key == Key::Enter {
                    Some((b, OutcomeView::Delete(path, name)))
                } else if key == Key::Char('n') || key == Key::Char('N') || key == Key::Esc {
                    Some((BrowsingView { deleting_item: None, ..b }, OutcomeView::Redraw))
                } else {
                    Some((b, OutcomeView::Ignored))
                }
            },
            None => None,
        }
    }
}

/// How a key acts on the browser when no dialog is open. Changing the sort,
/// searching and asking to delete wait until the scan is over.
pub open spec fn browse_step(b: BrowsingView, key: Key, root: Tree, scanning: bool) -> (BrowsingView, OutcomeView) {
    match key {
        Key::Char('q') => (b, OutcomeView::Quit),
        Key::Char('?') | Key::F(1) => (BrowsingView { show_help: true, ..b }, OutcomeView::Redraw),
        Key::Char('/') => if scanning {
            (b, OutcomeView::Ignored)
        } else {
            (BrowsingView { search_active: true, search_query: Seq::empty(), ..b }, OutcomeView::Redraw)
        },
        Key::Down | Key::Char('j') => (
            BrowsingView { selected: select_next(b.selected, b.cached_children.len()), ..b },
            OutcomeView::Redraw,
        ),
        Key::Up | Key::Char('k') => (
            BrowsingView { selected: select_previous(b.selected, b.cached_children.len()), ..b },
            OutcomeView::Redraw,
        ),
        Key::Char('d') | Key::Delete => if scanning {
            (b, OutcomeView::Ignored)
        } else {
            match b.selected {
                Some(i) => {
                    let list = listing(b, root);
                    if i < list.len() {
                        (
                            BrowsingView { deleting_item: Some((list[i as int].path, list[i as int].name)), ..b },
                            OutcomeView::Redraw,
                        )
                    } else {
                        (b, OutcomeView::Ignored)
                    }
                },
                None => (b, OutcomeView::Ignored),
            }
        },
        Key::Char('s') | Key::Tab => if scanning {
            (b, OutcomeView::Ignored)
        } else {
            (cycled(b, root), OutcomeView::Redraw)
        },
        Key::Char('r') | Key::Char(' ') => if scanning {
            (b, OutcomeView::Ignored)
        } else {
            (toggled(b, root), OutcomeView::Redraw)
        },
        Key::Enter | Key::Right | Key::Char('l') => (entered(b, root), OutcomeView::Redraw),
        Key::Backspace | Key::Left | Key::Char('h') => if b.current_path.len() == 0 {
            (b, OutcomeView::Leave)
        } else {
            (went_back(b, root), OutcomeView::Redraw)
        },
        _ => (b, OutcomeView::Ignored),
    }
}

/// How a key acts on the drive selection.
pub open spec fn select_step(v: AppView, key: Key) -> (AppView, OutcomeView) {
    match v {
        AppView::Selecting(sel, drives) => match key {
            Key::Char('q') => (v, OutcomeView::Quit),
            Key::Down | Key::Char('j') => (app_next(v), OutcomeView::Redraw),
            Key::Up | Key::Char('k') => (app_previous(v), OutcomeView::Redraw),
            Key::Enter | Key::Right | Key::Char('l') => match sel {
                Some(i) => (v, OutcomeView::Open(drives[i as int])),
                None => (v, OutcomeView::Redraw),
            },
            Key::Backspace | Key::Left | Key::Char('h') => (v, OutcomeView::Redraw),
            _ => (v, OutcomeView::Ignored),
        },
        AppView::Browsing(_) => (v, OutcomeView::Ignored),
    }
}

/// The effect of one key press: the next state and what the caller has to do.
pub open spec fn key_step(v: AppView, key: Key, root: Tree, scanning: bool) -> (AppView, OutcomeView) {
    match v {
        AppView::Selecting(_, _) => select_step(v, key),
        AppView::Browsing(b) => match dialog_step(b, key, root) {
            Some((b2, out)) => (AppView::Browsing(b2), out),
            None => {
                let (b2, out) = browse_step(b, key, root, scanning);
                (AppView::Browsing(b2), out)
            },
        },
    }
}

/// The browser after a confirmed deletion was carried out: on success the
/// entry is gone from the current directory and the list is redone; on
/// failure the error is shown. Either way the pending deletion is dropped.
pub open spec fn deletion_done(b: BrowsingView, failure: Option<Seq<char>>, root: Tree) -> BrowsingView {
    match failure {
        None => BrowsingView { deleting_item: None, ..refreshed(b, root) },
        Some(e) => BrowsingView { deleting_item: None, deletion_error: Some(e), ..b },
    }
}

/// What following the scan does to the application (see
/// [`App::follow_scan`]), with whether a scan is known to have run and
/// whether to redraw: while browsing, a running scan is noted; a scan that
/// stopped after running has the listing redone; otherwise nothing changes.
pub open spec fn scan_followed(v: AppView, root: Tree, was_scanning: bool, scanning_now: bool) -> (AppView, bool, bool) {
    match v {
        AppView::Browsing(b) => if scanning_now {
            (v, true, false)
        } else if was_scanning {
            (AppView::Browsing(refreshed(b, root)), false, true)
        } else {
            (v, false, false)
        },
        AppView::Selecting(_, _) => (v, was_scanning, false),
    }
}

/// The application and tree after a confirmed deletion was carried out (see
/// [`deletion_done`]); nothing changes when no deletion is pending.
pub open spec fn deletion_applied(v: AppView, root: Tree, failure: Option<Seq<char>>) -> (AppView, Tree) {
    match v {
        AppView::Browsing(b) => match b.deleting_item {
            Some((_, name)) => match failure {
                None => {
                    let r = removed_at(root, b.current_path, name);
                    (AppView::Browsing(deletion_done(b, None, r)), r)
                },
                Some(e) => (AppView::Browsing(deletion_done(b, Some(e), root)), root),
            },
            None => (v, root),
        },
        AppView::Selecting(_, _) => (v, root),
    }
}

/// Entering a directory from a reachable one leads to a reachable one.
proof fn lemma_entered_valid(b: BrowsingView, root: Tree)
    requires
        path_exists(root, b.current_path),
    ensures
        path_exists(root, entered(b, root).current_path),
{
    if let Some(i) = b.selected {
        let list = listing(b, root);
        if i < list.len() && list[i as int].is_dir && list[i as int].children.len() > 0 {
            let dir = descend(root, b.current_path);
            lemma_listed_is_entry(dir.children, b.sort_column, b.sort_direction, b.search_query, i as int);
            let name = list[i as int].name;
            let j = choose|j: int| 0 <= j < dir.children.len() && dir.children[j] == list[i as int];
            lemma_first_index_found(dir.children, name);
            assert(dir.children[j].name == name);
            lemma_path_push(root, b.current_path, name);
        }
    }
}

/// On the drive list the letter keys move as the arrows do: `k` like Up, to
/// the drive above (the last one from the first), and `j` like Down, to the
/// drive below (the first one from the last), each asking for a redraw.
pub proof fn law_drive_list_letter_keys_move_like_arrows(
    sel: Option<usize>,
    drives: Seq<Seq<char>>,
    root: Tree,
    scanning: bool,
)
    requires
        drives.len() > 0,
        sel matches Some(i) ==> i < drives.len(),
    ensures
        key_step(AppView::Selecting(sel, drives), Key::Char('k'), root, scanning) == key_step(
            AppView::Selecting(sel, drives),
            Key::Up,
            root,
            scanning,
        ),
        key_step(AppView::Selecting(sel, drives), Key::Char('j'), root, scanning) == key_step(
            AppView::Selecting(sel, drives),
            Key::Down,
            root,
            scanning,
        ),
        key_step(AppView::Selecting(sel, drives), Key::Char('k'), root, scanning) == (
            AppView::Selecting(
                Some(
                    match sel {
                        Some(i) => if i == 0 { (drives.len() - 1) as usize } else { (i - 1) as usize },
                        None => 0usize,
                    },
                ),
                drives,
            ),
            OutcomeView::Redraw,
        ),
        key_step(AppView::Selecting(sel, drives), Key::Char('j'), root, scanning) == (
            AppView::Selecting(
                Some(
                    match sel {
                        Some(i) => if i + 1 == drives.len() { 0usize } else { (i + 1) as usize },
                        None => 0usize,
                    },
                ),
                drives,
            ),
            OutcomeView::Redraw,
        ),
{
}

/// In the tree with no dialog open the letter keys move as the arrows do:
/// `k` like Up, to the row above, and `j` like Down, to the row below,
/// wrapping around the listed rows, each asking for a redraw.
pub proof fn law_tree_letter_keys_move_like_arrows(b: BrowsingView, root: Tree, scanning: bool)
    requires
        b.deletion_error is None,
        !b.show_help,
        !b.search_active,
        b.deleting_item is None,
    ensures
        key_step(AppView::Browsing(b), Key::Char('k'), root, scanning) == key_step(
            AppView::Browsing(b),
            Key::Up,
            root,
            scanning,
        ),
        key_step(AppView::Browsing(b), Key::Char('j'), root, scanning) == key_step(
            AppView::Browsing(b),
            Key::Down,
            root,
            scanning,
        ),
        key_step(AppView::Browsing(b), Key::Char('k'), root, scanning) == (
            AppView::Browsing(BrowsingView { selected: select_previous(b.selected, b.cached_children.len()), ..b }),
            OutcomeView::Redraw,
        ),
        key_step(AppView::Browsing(b), Key::Char('j'), root, scanning) == (
            AppView::Browsing(BrowsingView { selected: select_next(b.selected, b.cached_children.len()), ..b }),
            OutcomeView::Redraw,
        ),
{
}

/// Asking to delete (`d` or Delete) with no dialog open and no scan running
/// marks for deletion the selected row as the directory is listed, sorted by
/// the chosen column and filtered by the search: the path and name of that
/// entry, which is an entry of the current directory and, under a search,
/// one whose name matches it. When the list on screen is up to date, the name
/// marked is the one the selected row shows.
pub proof fn law_delete_marks_the_selected_row(b: BrowsingView, root: Tree, i: usize)
    requires
        b.deletion_error is None,
        !b.show_help,
        !b.search_active,
        b.deleting_item is None,
        b.selected == Some(i),
        i < listing(b, root).len(),
    ensures
        key_step(AppView::Browsing(b), Key::Char('d'), root, false) == (
            AppView::Browsing(
                BrowsingView {
                    deleting_item: Some((listing(b, root)[i as int].path, listing(b, root)[i as int].name)),
                    ..b
                },
            ),
            OutcomeView::Redraw,
        ),
        key_step(AppView::Browsing(b), Key::Delete, root, false) == key_step(
            AppView::Browsing(b),
            Key::Char('d'),
            root,
            false,
        ),
        descend(root, b.current_path).children.contains(listing(b, root)[i as int]),
        b.search_query.len() > 0 ==> contains_seq(lowercase(listing(b, root)[i as int].name), lowercase(b.search_query)),
        b == refreshed(b, root) ==> b.cached_children[i as int] == listing(b, root)[i as int].name,
{
    let dir = descend(root, b.current_path);
    lemma_listed_is_entry(dir.children, b.sort_column, b.sort_direction, b.search_query, i as int);
    if b.search_query.len() > 0 {
        law_search_goes_by_name(dir.children, b.sort_column, b.sort_direction, b.search_query);
        assert(listing(b, root)[i as int] == listed_entries(dir.children, b.sort_column, b.sort_direction, b.search_query)[i as int]);
    }
}

/// Every key keeps the application in a state that fits the tree: a selected
/// drive stays one of the drives and a browsed directory stays reachable.
/// (When the key asks the caller to open a drive, to leave the tree or to
/// delete an entry, the caller's next steps make the new state.)
pub proof fn law_keys_keep_state_valid(v: AppView, key: Key, root: Tree, scanning: bool)
    requires
        app_valid(v, root),
        v matches AppView::Selecting(_, drives) ==> drives.len() > 0,
    ensures
        app_valid(key_step(v, key, root, scanning).0, root),
{
    if let AppView::Browsing(b) = v {
        lemma_entered_valid(b, root);
        if b.current_path.len() > 0 {
            lemma_path_prefix(root, b.current_path);
        }
    }
}

/// Carrying out a confirmed deletion keeps the browsed directory reachable in
/// the tree that results.
pub proof fn law_deletion_keeps_state_valid(v: AppView, root: Tree, failure: Option<Seq<char>>)
    requires
        app_valid(v, root),
    ensures
        app_valid(deletion_applied(v, root, failure).0, deletion_applied(v, root, failure).1),
{
    if let AppView::Browsing(b) = v {
        if let Some((_, name)) = b.deleting_item {
            lemma_removed_keeps_path(root, b.current_path, name);
        }
    }
}

impl BrowsingState {
    /// Handles a key while a dialog or the search line is open (see
    /// [`dialog_step`]); `None`, with nothing changed, when none is.
    fn dialog_key(&mut self, key: Key, root: &Node) -> (out: Option<Outcome>)
        ensures
            match dialog_step(old(self)@, key, root@) {
                Some((b2, o)) => final(self)@ == b2 && (out matches Some(x) && x@ == o),
                None => final(self)@ == old(self)@ && out is None,
            },
    {
        if self.deletion_error.is_some() {
            self.deletion_error = None;
            return Some(Outcome::Redraw);
        }
        if self.show_help {
            match key {
                Key::Esc | Key::Char('?') | Key::F(1) => {
                    self.show_help = false;
                    return Some(Outcome::Redraw);
                },
                _ => {
                    return Some(Outcome::Ignored);
                },
            }
        }
        if self.search_active {
            match key {
                Key::Esc => {
                    self.search_active = false;
                    self.search_query = String::new();
                    self.update_cache(root);
                    return Some(Outcome::Redraw);
                },
                Key::Enter => {
                    self.search_active = false;
                    return Some(Outcome::Redraw);
                },
                Key::Backspace => {
                    let _ = pop_char(&mut self.search_query);
                    self.update_cache(root);
                    return Some(Outcome::Redraw);
                },
                Key::Char(c) => {
                    push_char(&mut self.search_query, c);
                    self.update_cache(root);
                    return Some(Outcome::Redraw);
                },
                _ => {
                    return Some(Outcome::Ignored);
                },
            }
        }
        match &self.deleting_item {
            Some(item) => {
                match key {
                    Key::Char('y') | Key::Char('Y') | Key::Enter => {
                        Some(Outcome::Delete(DeletingItem { path: item.path.clone(), name: item.name.clone() }))
                    },
                    Key::Char('n') | Key::Char('N') | Key::Esc => {
                        self.deleting_item = None;
                        Some(Outcome::Redraw)
                    },
                    _ => Some(Outcome::Ignored),
                }
            },
            None => None,
        }
    }

    /// Handles a key when no dialog is open (see [`browse_step`]).
    fn browse_key(&mut self, key: Key, root: &Node, scanning: bool) -> (out: Outcome)
        requires
            key_accepted(AppView::Browsing(old(self)@), key, root@, scanning),
            dialog_step(old(self)@, key, root@) is None,
        ensures
            (final(self)@, out@) == browse_step(old(self)@, key, root@, scanning),
    {
        match key {
            Key::Char('q') => Outcome::Quit,
            Key::Char('?') | Key::F(1) => {
                self.show_help = true;
                Outcome::Redraw
            },
            Key::Char('/') => {
                if scanning {
                    Outcome::Ignored
                } else {
                    self.search_active = true;
                    self.search_query = String::new();
                    Outcome::Redraw
                }
            },
            Key::Down | Key::Char('j') => {
                self.next();
                Outcome::Redraw
            },
            Key::Up | Key::Char('k') => {
                self.previous();
                Outcome::Redraw
            },
            Key::Char('d') | Key::Delete => {
                if scanning {
                    return Outcome::Ignored;
                }
                match self.selected {
                    Some(i) => {
                        let curr = locate(root, &self.current_path);
                        let children = self.get_filtered_and_sorted_children(curr);
                        if i < children.len() {
                            let target = children[i];
                            proof {
                                assert(crate::browse::ref_trees(children@)[i as int] == target@);
                            }
                            self.deleting_item = Some(
                                DeletingItem { path: target.path.clone(), name: target.name.clone() },
                            );
                            Outcome::Redraw
                        } else {
                            Outcome::Ignored
                        }
                    },
                    None => Outcome::Ignored,
                }
            },
            Key::Char('s') | Key::Tab => {
                if scanning {
                    Outcome::Ignored
                } else {
                    self.cycle_sort_column(root);
                    Outcome::Redraw
                }
            },
            Key::Char('r') | Key::Char(' ') => {
                if scanning {
                    Outcome::Ignored
                } else {
                    self.toggle_sort_direction(root);
                    Outcome::Redraw
                }
            },
            Key::Enter | Key::Right | Key::Char('l') => {
                self.enter(root);
                Outcome::Redraw
            },
            Key::Backspace | Key::Left | Key::Char('h') => {
                if self.current_path.len() == 0 {
                    Outcome::Leave
                } else {
                    self.back(root);
                    Outcome::Redraw
                }
            },
            _ => Outcome::Ignored,
        }
    }
}

impl App {
    /// Handles one key press (see [`key_step`]): updates the state and says
    /// what the caller has to do. `scanning` tells whether the tree is still
    /// being scanned. A selected drive must be one of the drives and a browsed
    /// directory must be reachable in `root` when the key needs it (see
    /// [`key_accepted`]).
    pub fn handle_key(&mut self, key: Key, root: &Node, scanning: bool) -> (out: Outcome)
        requires
            key_accepted(old(self)@, key, root@, scanning),
        ensures
            (final(self)@, out@) == key_step(old(self)@, key, root@, scanning),
    {
        match &mut self.state {
            AppState::Selecting(sel, drives) => {
                match key {
                    Key::Char('q') => Outcome::Quit,
                    Key::Down | Key::Char('j') => {
                        let i = match *sel {
                            Some(i) => if i >= drives.len() - 1 { 0 } else { i + 1 },
                            None => 0,
                        };
                        *sel = Some(i);
                        Outcome::Redraw
                    },
                    Key::Up | Key::Char('k') => {
                        let i = match *sel {
                            Some(i) => if i == 0 { drives.len() - 1 } else { i - 1 },
                            None => 0,
                        };
                        *sel = Some(i);
                        Outcome::Redraw
                    },
                    Key::Enter | Key::Right | Key::Char('l') => match *sel {
                        Some(i) => Outcome::Open(drives[i].clone()),
                        None => Outcome::Redraw,
                    },
                    Key::Backspace | Key::Left | Key::Char('h') => Outcome::Redraw,
                    _ => Outcome::Ignored,
                }
            },
            AppState::Browsing(s) => {
                match s.dialog_key(key, root) {
                    Some(out) => out,
                    None => s.browse_key(key, root, scanning),
                }
            },
        }
    }

    /// Follows a running scan between events: while it runs, notes that it
    /// ran; once it has stopped after running, lists the current directory
    /// again and asks for a redraw (see [`scan_followed`]). Returns whether a
    /// scan is known to have run and not yet been caught up with, and whether
    /// to redraw.
    pub fn follow_scan(&mut self, root: &Node, was_scanning: bool, scanning_now: bool) -> (r: (bool, bool))
        ensures
            (final(self)@, r.0, r.1) == scan_followed(old(self)@, root@, was_scanning, scanning_now),
    {
        match &mut self.state {
            AppState::Browsing(s) => {
                if scanning_now {
                    (true, false)
                } else if was_scanning {
                    s.update_cache(root);
                    (false, true)
                } else {
                    (false, false)
                }
            },
            AppState::Selecting(_, _) => (was_scanning, false),
        }
    }

    /// Records how the removal from disk of the pending deletion went
    /// (`failure` is the error message, if any): on success the entry is
    /// taken out of the current directory of `root` and the list redone; on
    /// failure the error is kept to be shown (see [`deletion_applied`]). On
    /// success the current directory must be reachable in `root`. Distinct
    /// names stay distinct, and when the current directory's entries had
    /// distinct names, the deleted name is no longer among them.
    pub fn finish_deletion(&mut self, root: &mut Node, failure: Option<String>)
        requires
            old(self)@ matches AppView::Browsing(b) ==> (b.deleting_item is Some && failure is None
                ==> path_exists(old(root)@, b.current_path)),
        ensures
            (final(self)@, final(root)@) == deletion_applied(
                old(self)@,
                old(root)@,
                match failure {
                    Some(e) => Some(e@),
                    None => None,
                },
            ),
            names_unique_everywhere(old(root)@) ==> names_unique_everywhere(final(root)@),
            match old(self)@ {
                AppView::Browsing(b) => match b.deleting_item {
                    Some((_, name)) => failure is None && names_unique(descend(old(root)@, b.current_path).children)
                        ==> !has_name(descend(final(root)@, b.current_path).children, name),
                    None => true,
                },
                AppView::Selecting(_, _) => true,
            },
    {
        match &mut self.state {
            AppState::Browsing(s) => {
                let name = match &s.deleting_item {
                    Some(item) => item.name.clone(),
                    None => {
                        return;
                    },
                };
                match failure {
                    None => {
                        root.remove_entry(&s.current_path, &name);
                        s.update_cache(root);
                        s.deleting_item = None;
                    },
                    Some(e) => {
                        s.deleting_item = None;
                        s.deletion_error = Some(e);
                    },
                }
            },
            AppState::Selecting(_, _) => {},
        }
    }

    /// Whether `key` can be handled in this state with this tree (see
    /// [`key_accepted`]).
    pub fn accepts(&self, key: Key, root: &Node, scanning: bool) -> (r: bool)
        ensures
            r == key_accepted(self@, key, root@, scanning),
    {
        match &self.state {
            AppState::Selecting(sel, drives) => match key {
                Key::Down | Key::Char('j') => sel.is_none() || drives.len() > 0,
                Key::Up | Key::Char('k') => match *sel {
                    Some(i) => i != 0 || drives.len() > 0,
                    None => true,
                },
                Key::Enter | Key::Right | Key::Char('l') => match *sel {
                    Some(i) => i < drives.len(),
                    None => true,
                },
                _ => true,
            },
            AppState::Browsing(s) => {
                let in_dialog = s.deletion_error.is_some() || s.show_help || s.search_active
                    || s.deleting_item.is_some();
                if in_dialog {
                    true
                } else {
                    match key {
                        Key::Enter | Key::Right | Key::Char('l') => s.selected.is_none() || path_reachable(
                            root,
                            &s.current_path,
                        ),
                        Key::Char('d') | Key::Delete => scanning || s.selected.is_none() || path_reachable(
                            root,
                            &s.current_path,
                        ),
                        _ => true,
                    }
                }
            },
        }
    }

    /// Whether the state fits the tree `root` (see [`app_valid`]): a selected
    /// drive is one of the drives and a browsed directory can be reached.
    pub fn fits(&self, root: &Node) -> (r: bool)
        ensures
            r == app_valid(self@, root@),
    {
        match &self.state {
            AppState::Selecting(sel, drives) => match *sel {
                Some(i) => i < drives.len(),
                None => true,
            },
            AppState::Browsing(s) => path_reachable(root, &s.current_path),
        }
    }

    /// The drive selection screen over `drives`, with the first row selected.
    pub fn new_selecting(drives: Vec<String>) -> (app: App)
        ensures
            app@ == AppView::Selecting(Some(0), strings_view(drives@)),
    {
        App { state: AppState::Selecting(Some(0), drives) }
    }

    /// Opens a tree whose root is the directory `path`, named by its last
    /// component (`/` when it has none, see [`root_name`]): switches to
    /// browsing it from the top, sorted by size, largest first, and returns
    /// the (still empty) root node the scan will fill.
    pub fn start_browsing(&mut self, path: String, is_ssd: Option<bool>) -> (root: Node)
        ensures
            root@ == (Tree {
                name: match file_name(path@) {
                    Some(x) => x,
                    None => "/"@,
                },
                path: path@,
                size: 0,
                is_dir: true,
                children: Seq::empty(),
                modified: 0,
                accessed: 0,
            }),
            final(self)@ == AppView::Browsing(refreshed(initial_browsing(is_ssd), root@)),
    {
        let root_name = root_name(path.as_str());
        let root = Node::new(root_name, path, true);
        let mut s = BrowsingState::new(is_ssd);
        s.update_cache(&root);
        self.state = AppState::Browsing(s);
        root
    }

    /// Moves the selection down (see [`app_next`]). With a drive selected
    /// there must be drives to choose from.
    pub fn next(&mut self)
        requires
            old(self)@ matches AppView::Selecting(Some(_), drives) ==> drives.len() > 0,
        ensures
            final(self)@ == app_next(old(self)@),
    {
        match &mut self.state {
            AppState::Selecting(sel, drives) => {
                let i = match *sel {
                    Some(i) => if i >= drives.len() - 1 { 0 } else { i + 1 },
                    None => 0,
                };
                *sel = Some(i);
            },
            AppState::Browsing(s) => s.next(),
        }
    }

    /// Moves the selection up (see [`app_previous`]). With the first drive
    /// selected there must be drives to choose from.
    pub fn previous(&mut self)
        requires
            old(self)@ matches AppView::Selecting(Some(i), drives) ==> (i == 0 ==> drives.len() > 0),
        ensures
            final(self)@ == app_previous(old(self)@),
    {
        match &mut self.state {
            AppState::Selecting(sel, drives) => {
                let i = match *sel {
                    Some(i) => if i == 0 { drives.len() - 1 } else { i - 1 },
                    None => 0,
                };
                *sel = Some(i);
            },
            AppState::Browsing(s) => s.previous(),
        }
    }

    /// Enter on the current screen: returns the selected drive when choosing
    /// one (the caller then opens it), or moves into the selected directory of
    /// the tree (see [`entered`]) and returns `None`. A selected drive must be
    /// one of the drives, and with a row selected the browsed directory must
    /// be reachable in `root`.
    pub fn enter(&mut self, root: &Node) -> (chosen: Option<String>)
        requires
            match old(self)@ {
                AppView::Selecting(sel, drives) => sel matches Some(i) ==> i < drives.len(),
                AppView::Browsing(b) => b.selected is Some ==> path_exists(root@, b.current_path),
            },
        ensures
            match old(self)@ {
                AppView::Selecting(sel, drives) => final(self)@ == old(self)@ && match sel {
                    Some(i) => chosen matches Some(p) && p@ == drives[i as int],
                    None => chosen is None,
                },
                AppView::Browsing(b) => final(self)@ == AppView::Browsing(entered(b, root@)) && chosen is None,
            },
    {
        match &mut self.state {
            AppState::Selecting(sel, drives) => {
                match *sel {
                    Some(i) => Some(drives[i].clone()),
                    None => None,
                }
            },
            AppState::Browsing(s) => {
                s.enter(root);
                None
            },
        }
    }

    /// Back on the current screen: nothing while choosing a drive; in the tree,
    /// back to the parent directory (see [`went_back`]), or, at the top,
    /// returns `true` with nothing changed: the caller then stops the scan and
    /// goes back to the drive selection.
    pub fn back(&mut self, root: &Node) -> (leave: bool)
        ensures
            match old(self)@ {
                AppView::Selecting(_, _) => final(self)@ == old(self)@ && !leave,
                AppView::Browsing(b) => if b.current_path.len() == 0 {
                    final(self)@ == old(self)@ && leave
                } else {
                    final(self)@ == AppView::Browsing(went_back(b, root@)) && !leave
                },
            },
    {
        match &mut self.state {
            AppState::Selecting(_, _) => false,
            AppState::Browsing(s) => {
                if s.current_path.len() == 0 {
                    true
                } else {
                    s.back(root);
                    false
                }
            },
        }
    }
}

} // verus!
