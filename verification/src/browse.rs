//! Listing a directory's entries (sorted by a column, filtered by a search)
//! and the state of the browser while a tree is being viewed.
use vstd::prelude::*;
use crate::tree::{
    Node, Tree, lemma_trees_of_index, descend, path_exists, strings_view, locate, names_unique, first_index,
    lemma_first_index_found, lemma_descend_push,
};
use crate::sort::{SortKey, KeyValue, key_values, is_sort_order, sort_order, law_sort_order_unique, lemma_sort_order_exists, key_order, directed, goes_before};
use crate::text::Order;
use crate::text::{lowercase, to_lowercase, chars_of, contains_seq, contains_chars};

verus! {

/// The column a directory listing is sorted by.
#[derive(Clone, Copy, Debug, PartialEq, Eq, Structural)]
pub enum SortColumn {
    Size,
    Name,
    Modified,
    Accessed,
}

/// The direction a directory listing is sorted in.
#[derive(Clone, Copy, Debug, PartialEq, Eq, Structural)]
pub enum SortDirection {
    Ascending,
    Descending,
}

/// An entry the user has asked to delete, waiting for confirmation.
#[derive(Clone, Debug)]
pub struct DeletingItem {
    pub path: String,
    pub name: String,
}

/// The key an entry is sorted by in a column: its size, its case-folded name,
/// or one of its times.
pub open spec fn entry_key(t: Tree, column: SortColumn) -> KeyValue {
    match column {
        SortColumn::Size => KeyValue::Number(t.size as int),
        SortColumn::Name => KeyValue::Text(lowercase(t.name)),
        SortColumn::Modified => KeyValue::Number(t.modified),
        SortColumn::Accessed => KeyValue::Number(t.accessed),
    }
}

/// The keys of a sequence of entries in a column.
pub open spec fn entry_keys(s: Seq<Tree>, column: SortColumn) -> Seq<KeyValue> {
    s.map_values(|t: Tree| entry_key(t, column))
}

/// Whether a direction is descending.
pub open spec fn is_desc(direction: SortDirection) -> bool {
    direction == SortDirection::Descending
}

/// The entries `s` in sorted order: by their key in `column`, ascending or
/// descending, entries with equal keys keeping their relative order.
pub open spec fn sorted_entries(s: Seq<Tree>, column: SortColumn, direction: SortDirection) -> Seq<Tree> {
    let p = choose|p: Seq<int>| is_sort_order(entry_keys(s, column), is_desc(direction), p);
    p.map_values(|i: int| s[i])
}

/// An entry matches a search when its case-folded name contains the
/// case-folded query.
pub open spec fn matches_query(t: Tree, query: Seq<char>) -> bool {
    contains_seq(lowercase(t.name), lowercase(query))
}

/// The entries `s` as listed: sorted, and, when the query is not empty, only
/// those that match it, in sorted order.
pub open spec fn listed_entries(
    s: Seq<Tree>,
    column: SortColumn,
    direction: SortDirection,
    query: Seq<char>,
) -> Seq<Tree> {
    let sorted = sorted_entries(s, column, direction);
    if query.len() == 0 {
        sorted
    } else {
        sorted.filter(|t: Tree| matches_query(t, query))
    }
}

/// The values of a sequence of node references.
pub open spec fn ref_trees(r: Seq<&Node>) -> Seq<Tree> {
    r.map_values(|n: &Node| n@)
}

/// The names of a sequence of entries.
pub open spec fn names_of(s: Seq<Tree>) -> Seq<Seq<char>> {
    s.map_values(|t: Tree| t.name)
}

/// The key of one node in a column.
fn key_of(n: &Node, column: SortColumn) -> (k: SortKey)
    ensures
        k@ == entry_key(n@, column),
{
    match column {
        SortColumn::Size => SortKey::Number(n.size as i128),
        SortColumn::Name => {
            let folded = to_lowercase(n.name.as_str());
            SortKey::Text(chars_of(folded.as_str()))
        },
        SortColumn::Modified => SortKey::Number(n.modified),
        SortColumn::Accessed => SortKey::Number(n.accessed),
    }
}

/// What the browser shows and remembers while a tree is open: where in the
/// tree it is, which row is selected, the names listed, and the search, sort
/// and dialog settings.
///
/// `path_indices` holds, below an initial `0`, the row selected in each
/// directory that was entered, so that going back selects it again.
pub struct BrowsingState {
    pub path_indices: Vec<usize>,
    pub current_path: Vec<String>,
    pub selected: Option<usize>,
    pub cached_children: Vec<String>,
    pub deleting_item: Option<DeletingItem>,
    pub deletion_error: Option<String>,
    pub show_help: bool,
    pub search_active: bool,
    pub search_query: String,
    pub sort_column: SortColumn,
    pub sort_direction: SortDirection,
    pub is_ssd: Option<bool>,
}

/// The mathematical value of a [`BrowsingState`]; a pending deletion is its
/// (path, name) pair.
pub struct BrowsingView {
    pub path_indices: Seq<usize>,
    pub current_path: Seq<Seq<char>>,
    pub selected: Option<usize>,
    pub cached_children: Seq<Seq<char>>,
    pub deleting_item: Option<(Seq<char>, Seq<char>)>,
    pub deletion_error: Option<Seq<char>>,
    pub show_help: bool,
    pub search_active: bool,
    pub search_query: Seq<char>,
    pub sort_column: SortColumn,
    pub sort_direction: SortDirection,
    pub is_ssd: Option<bool>,
}

impl View for BrowsingState {
    type V = BrowsingView;

    open spec fn view(&self) -> BrowsingView {
        BrowsingView {
            path_indices: self.path_indices@,
            current_path: strings_view(self.current_path@),
            selected: self.selected,
            cached_children: strings_view(self.cached_children@),
            deleting_item: match self.deleting_item {
                Some(d) => Some((d.path@, d.name@)),
                None => None,
            },
            deletion_error: match self.deletion_error {
                Some(e) => Some(e@),
                None => None,
            },
            show_help: self.show_help,
            search_active: self.search_active,
            search_query: self.search_query@,
            sort_column: self.sort_column,
            sort_direction: self.sort_direction,
            is_ssd: self.is_ssd,
        }
    }
}

/// The entries listed for the directory the state is in, within `root`.
pub open spec fn listing(v: BrowsingView, root: Tree) -> Seq<Tree> {
    listed_entries(descend(root, v.current_path).children, v.sort_column, v.sort_direction, v.search_query)
}

/// The state with its list of names brought up to date with `root`.
pub open spec fn refreshed(v: BrowsingView, root: Tree) -> BrowsingView {
    BrowsingView { cached_children: names_of(listing(v, root)), ..v }
}

/// The state after moving to the next sort column (see [`next_column`]).
pub open spec fn cycled(v: BrowsingView, root: Tree) -> BrowsingView {
    refreshed(BrowsingView { sort_column: next_column(v.sort_column), ..v }, root)
}

/// The state after reversing the sort direction.
pub open spec fn toggled(v: BrowsingView, root: Tree) -> BrowsingView {
    refreshed(BrowsingView { sort_direction: other_direction(v.sort_direction), ..v }, root)
}

/// The next column in the cycle Size, Name, Modified, Accessed, Size.
pub open spec fn next_column(c: SortColumn) -> SortColumn {
    match c {
        SortColumn::Size => SortColumn::Name,
        SortColumn::Name => SortColumn::Modified,
        SortColumn::Modified => SortColumn::Accessed,
        SortColumn::Accessed => SortColumn::Size,
    }
}

/// The other direction.
pub open spec fn other_direction(d: SortDirection) -> SortDirection {
    match d {
        SortDirection::Ascending => SortDirection::Descending,
        SortDirection::Descending => SortDirection::Ascending,
    }
}

/// The row after the selected one, wrapping to the first; the first row when
/// none is selected. An empty list leaves the selection alone.
pub open spec fn select_next(selected: Option<usize>, count: nat) -> Option<usize> {
    if count == 0 {
        selected
    } else {
        match selected {
            Some(i) => if i >= count - 1 { Some(0) } else { Some((i + 1) as usize) },
            None => Some(0),
        }
    }
}

/// The row before the selected one, wrapping to the last; the first row when
/// none is selected. An empty list leaves the selection alone.
pub open spec fn select_previous(selected: Option<usize>, count: nat) -> Option<usize> {
    if count == 0 {
        selected
    } else {
        match selected {
            Some(i) => if i == 0 { Some((count - 1) as usize) } else { Some((i - 1) as usize) },
            None => Some(0),
        }
    }
}

/// What entering the selected row does: when it is a directory with entries,
/// the browser moves into it, remembers the row, lists it and selects its
/// first row; otherwise nothing changes.
pub open spec fn entered(v: BrowsingView, root: Tree) -> BrowsingView {
    match v.selected {
        None => v,
        Some(i) => {
            let list = listing(v, root);
            if i < list.len() && list[i as int].is_dir && list[i as int].children.len() > 0 {
                let moved = BrowsingView {
                    current_path: v.current_path.push(list[i as int].name),
                    path_indices: v.path_indices.push(i),
                    ..v
                };
                BrowsingView { selected: Some(0), ..refreshed(moved, root) }
            } else {
                v
            }
        },
    }
}

/// What going back does: out of a directory that was entered, to its parent,
/// listing it and selecting the row that was entered (the first row if none
/// was remembered); at the top nothing changes.
pub open spec fn went_back(v: BrowsingView, root: Tree) -> BrowsingView {
    if v.current_path.len() == 0 {
        v
    } else {
        let up = refreshed(BrowsingView { current_path: v.current_path.drop_last(), ..v }, root);
        if v.path_indices.len() > 0 {
            BrowsingView {
                selected: Some(v.path_indices.last()),
                path_indices: v.path_indices.drop_last(),
                ..up
            }
        } else {
            BrowsingView { selected: Some(0), ..up }
        }
    }
}

/// Copies of the names of a sequence of entries.
fn names_of_refs(r: &Vec<&Node>) -> (names: Vec<String>)
    ensures
        strings_view(names@) == names_of(ref_trees(r@)),
{
    let mut names: Vec<String> = Vec::new();
    let mut i: usize = 0;
    while i < r.len()
        invariant
            0 <= i <= r@.len(),
            names@.len() == i,
            forall|j: int| 0 <= j < i ==> #[trigger] names@[j]@ == r@[j]@.name,
        decreases r@.len() - i,
    {
        names.push(r[i].name.clone());
        i = i + 1;
    }
    proof {
        assert(strings_view(names@) =~= names_of(ref_trees(r@)));
    }
    names
}

/// Keeps, in order, the entries whose case-folded name contains `needle`.
fn keep_matching<'a>(entries: Vec<&'a Node>, needle: &Vec<char>, query: Ghost<Seq<char>>) -> (r: Vec<&'a Node>)
    requires
        needle@ == lowercase(query@),
    ensures
        ref_trees(r@) == ref_trees(entries@).filter(|t: Tree| matches_query(t, query@)),
{
    let ghost pred = |t: Tree| matches_query(t, query@);
    let ghost all = ref_trees(entries@);
    let mut r: Vec<&'a Node> = Vec::new();
    let mut i: usize = 0;
    while i < entries.len()
        invariant
            needle@ == lowercase(query@),
            pred == (|t: Tree| matches_query(t, query@)),
            all == ref_trees(entries@),
            0 <= i <= entries@.len(),
            ref_trees(r@) == all.take(i as int).filter(pred),
        decreases entries@.len() - i,
    {
        let e = entries[i];
        let folded = to_lowercase(e.name.as_str());
        let name_chars = chars_of(folded.as_str());
        let keep = contains_chars(&name_chars, needle);
        proof {
            reveal_with_fuel(Seq::filter, 1);
            assert(all.take(i as int + 1).drop_last() =~= all.take(i as int));
            assert(all[i as int] == e@);
        }
        if keep {
            r.push(e);
            proof {
                assert(ref_trees(r@) =~= all.take(i as int).filter(pred).push(e@));
            }
        }
        i = i + 1;
    }
    proof {
        assert(all.take(entries@.len() as int) =~= all);
    }
    r
}

impl BrowsingState {
    /// The state a freshly opened tree starts in: at the top, first row
    /// selected, nothing listed yet, sorted by size, largest first, no search
    /// and no dialog.
    pub fn new(is_ssd: Option<bool>) -> (s: BrowsingState)
        ensures
            s@ == (BrowsingView {
                path_indices: seq![0usize],
                current_path: Seq::empty(),
                selected: Some(0),
                cached_children: Seq::empty(),
                deleting_item: None,
                deletion_error: None,
                show_help: false,
                search_active: false,
                search_query: Seq::empty(),
                sort_column: SortColumn::Size,
                sort_direction: SortDirection::Descending,
                is_ssd,
            }),
    {
        let mut path_indices: Vec<usize> = Vec::new();
        path_indices.push(0);
        let s = BrowsingState {
            path_indices,
            current_path: Vec::new(),
            selected: Some(0),
            cached_children: Vec::new(),
            deleting_item: None,
            deletion_error: None,
            show_help: false,
            search_active: false,
            search_query: String::new(),
            sort_column: SortColumn::Size,
            sort_direction: SortDirection::Descending,
            is_ssd,
        };
        proof {
            assert(s@.path_indices =~= seq![0usize]);
            assert(s@.current_path =~= Seq::<Seq<char>>::empty());
            assert(s@.cached_children =~= Seq::<Seq<char>>::empty());
        }
        s
    }

    /// The entries of `node`, sorted by `column` in `direction`; entries with
    /// equal keys keep their order in `node.children`.
    pub fn get_sorted_children<'a>(node: &'a Node, column: SortColumn, direction: SortDirection) -> (r: Vec<&'a Node>)
        ensures
            ref_trees(r@) == sorted_entries(node@.children, column, direction),
    {
        let ghost kids = node@.children;
        proof {
            lemma_trees_of_index(node.children@);
        }
        let n = node.children.len();
        let mut keys: Vec<SortKey> = Vec::new();
        let mut i: usize = 0;
        while i < n
            invariant
                n == node.children@.len(),
                kids == node@.children,
                kids.len() == n,
                forall|j: int| 0 <= j < n ==> #[trigger] kids[j] == node.children@[j]@,
                0 <= i <= n,
                keys@.len() == i,
                forall|j: int| 0 <= j < i ==> #[trigger] keys@[j]@ == entry_key(kids[j], column),
            decreases n - i,
        {
            let k = key_of(&node.children[i], column);
            keys.push(k);
            i = i + 1;
        }
        let desc = match direction {
            SortDirection::Ascending => false,
            SortDirection::Descending => true,
        };
        proof {
            assert(key_values(keys@) =~= entry_keys(kids, column));
        }
        let order = sort_order(&keys, desc);
        let ghost p = order@.map_values(|x: usize| x as int);
        let mut r: Vec<&'a Node> = Vec::new();
        let mut a: usize = 0;
        while a < n
            invariant
                n == node.children@.len(),
                kids == node@.children,
                kids.len() == n,
                forall|j: int| 0 <= j < n ==> #[trigger] kids[j] == node.children@[j]@,
                is_sort_order(entry_keys(kids, column), desc, p),
                p == order@.map_values(|x: usize| x as int),
                order@.len() == n,
                0 <= a <= n,
                r@.len() == a,
                forall|b: int| 0 <= b < a ==> #[trigger] r@[b]@ == kids[p[b]],
            decreases n - a,
        {
            let idx = order[a];
            assert(p[a as int] == idx as int);
            r.push(&node.children[idx]);
            a = a + 1;
        }
        proof {
            let q = choose|q: Seq<int>| is_sort_order(entry_keys(kids, column), is_desc(direction), q);
            law_sort_order_unique(entry_keys(kids, column), desc, p, q);
            assert(ref_trees(r@) =~= p.map_values(|i: int| kids[i]));
        }
        r
    }

    /// The entries of `node` as listed under this state's sort and search:
    /// sorted, and restricted to the names matching the search when it is not
    /// empty.
    pub fn get_filtered_and_sorted_children<'a>(&self, node: &'a Node) -> (r: Vec<&'a Node>)
        ensures
            ref_trees(r@) == listed_entries(node@.children, self.sort_column, self.sort_direction, self.search_query@),
    {
        let children = Self::get_sorted_children(node, self.sort_column, self.sort_direction);
        if self.search_query.as_str().is_empty() {
            children
        } else {
            let folded = to_lowercase(self.search_query.as_str());
            let needle = chars_of(folded.as_str());
            keep_matching(children, &needle, Ghost(self.search_query@))
        }
    }

    /// Lists again the directory the state is in, within `root`.
    pub fn update_cache(&mut self, root: &Node)
        ensures
            final(self)@ == refreshed(old(self)@, root@),
    {
        let curr = locate(root, &self.current_path);
        let children = self.get_filtered_and_sorted_children(curr);
        self.cached_children = names_of_refs(&children);
    }

    /// Selects the next listed row, wrapping around (see [`select_next`]).
    pub fn next(&mut self)
        ensures
            final(self)@ == (BrowsingView {
                selected: select_next(old(self)@.selected, old(self)@.cached_children.len()),
                ..old(self)@
            }),
    {
        let count = self.cached_children.len();
        if count == 0 {
            return;
        }
        let i = match self.selected {
            Some(i) => if i >= count - 1 { 0 } else { i + 1 },
            None => 0,
        };
        self.selected = Some(i);
    }

    /// Selects the previous listed row, wrapping around (see
    /// [`select_previous`]).
    pub fn previous(&mut self)
        ensures
            final(self)@ == (BrowsingView {
                selected: select_previous(old(self)@.selected, old(self)@.cached_children.len()),
                ..old(self)@
            }),
    {
        let count = self.cached_children.len();
        if count == 0 {
            return;
        }
        let i = match self.selected {
            Some(i) => if i == 0 { count - 1 } else { i - 1 },
            None => 0,
        };
        self.selected = Some(i);
    }

    /// Moves into the selected row when it is a directory with entries (see
    /// [`entered`]). With a row selected, the current path must lead through
    /// `root`. When the entries of the current directory have distinct names,
    /// the directory moved into is the selected row's own.
    pub fn enter(&mut self, root: &Node)
        requires
            old(self)@.selected is Some ==> path_exists(root@, old(self)@.current_path),
        ensures
            final(self)@ == entered(old(self)@, root@),
            final(self)@.current_path != old(self)@.current_path && names_unique(
                descend(root@, old(self)@.current_path).children,
            ) ==> descend(root@, final(self)@.current_path) == listing(old(self)@, root@)[old(
                self,
            )@.selected->0 as int],
    {
        proof {
            if entered(self@, root@).current_path != self@.current_path && names_unique(
                descend(root@, self@.current_path).children,
            ) {
                lemma_entered_opens_selected(self@, root@);
            }
        }
        if let Some(i) = self.selected {
            let curr = locate(root, &self.current_path);
            let children = self.get_filtered_and_sorted_children(curr);
            if i < children.len() {
                let target = children[i];
                proof {
                    assert(ref_trees(children@)[i as int] == target@);
                    lemma_trees_of_index(target.children@);
                }
                if target.is_dir && target.children.len() > 0 {
                    let ghost before = self@;
                    self.current_path.push(target.name.clone());
                    self.path_indices.push(i);
                    proof {
                        assert(self@.current_path =~= before.current_path.push(target@.name));
                    }
                    self.update_cache(root);
                    self.selected = Some(0);
                }
            }
        }
    }

    /// Goes back to the parent of the current directory (see [`went_back`]).
    pub fn back(&mut self, root: &Node)
        ensures
            final(self)@ == went_back(old(self)@, root@),
    {
        if self.current_path.len() > 0 {
            let ghost before = self@;
            self.current_path.pop();
            proof {
                assert(self@.current_path =~= before.current_path.drop_last());
            }
            self.update_cache(root);
            let last_idx = match self.path_indices.pop() {
                Some(k) => k,
                None => 0,
            };
            self.selected = Some(last_idx);
        }
    }

    /// Sorts by the next column in the cycle and lists again.
    pub fn cycle_sort_column(&mut self, root: &Node)
        ensures
            final(self)@ == cycled(old(self)@, root@),
    {
        self.sort_column = match self.sort_column {
            SortColumn::Size => SortColumn::Name,
            SortColumn::Name => SortColumn::Modified,
            SortColumn::Modified => SortColumn::Accessed,
            SortColumn::Accessed => SortColumn::Size,
        };
        self.update_cache(root);
    }

    /// Reverses the sort direction and lists again.
    pub fn toggle_sort_direction(&mut self, root: &Node)
        ensures
            final(self)@ == toggled(old(self)@, root@),
    {
        self.sort_direction = match self.sort_direction {
            SortDirection::Ascending => SortDirection::Descending,
            SortDirection::Descending => SortDirection::Ascending,
        };
        self.update_cache(root);
    }
}

/// Sorting a directory's entries keeps them all, each once, and puts them in
/// order of their keys in the chosen direction.
pub proof fn law_sorted_entries(s: Seq<Tree>, column: SortColumn, direction: SortDirection)
    ensures
        sorted_entries(s, column, direction).len() == s.len(),
        forall|x: int| 0 <= x < s.len() ==> #[trigger] sorted_entries(s, column, direction).contains(s[x]),
        forall|a: int| 0 <= a < s.len() ==> s.contains(#[trigger] sorted_entries(s, column, direction)[a]),
        forall|a: int, b: int|
            0 <= a < b < s.len() ==> directed(
                key_order(
                    entry_key(#[trigger] sorted_entries(s, column, direction)[a], column),
                    entry_key(#[trigger] sorted_entries(s, column, direction)[b], column),
                ),
                is_desc(direction),
            ) != Order::Greater,
{
    let keys = entry_keys(s, column);
    let desc = is_desc(direction);
    let p = sorted_order_witness(s, column, direction);
    let r = sorted_entries(s, column, direction);
    assert(r == p.map_values(|i: int| s[i]));
    assert forall|x: int| 0 <= x < s.len() implies #[trigger] r.contains(s[x]) by {
        assert(p.contains(x));
        let a = choose|a: int| 0 <= a < p.len() && p[a] == x;
        assert(r[a] == s[x]);
    }
    assert forall|a: int| 0 <= a < s.len() implies s.contains(#[trigger] r[a]) by {
        assert(r[a] == s[p[a]]);
    }
    assert forall|a: int, b: int| 0 <= a < b < s.len() implies directed(
        key_order(entry_key(#[trigger] r[a], column), entry_key(#[trigger] r[b], column)),
        desc,
    ) != Order::Greater by {
        assert(goes_before(keys, desc, p[a], p[b]));
        assert(keys[p[a]] == entry_key(r[a], column));
        assert(keys[p[b]] == entry_key(r[b], column));
    }
}

/// Every listed entry is an entry of the directory.
pub proof fn lemma_listed_is_entry(s: Seq<Tree>, column: SortColumn, direction: SortDirection, query: Seq<char>, a: int)
    requires
        0 <= a < listed_entries(s, column, direction, query).len(),
    ensures
        s.contains(listed_entries(s, column, direction, query)[a]),
{
    law_sorted_entries(s, column, direction);
    let sorted = sorted_entries(s, column, direction);
    let x = listed_entries(s, column, direction, query)[a];
    if query.len() > 0 {
        let pred = |t: Tree| matches_query(t, query);
        sorted.lemma_filter_contains_rev(pred, x);
        let b = choose|b: int| 0 <= b < sorted.len() && sorted[b] == x;
        assert(s.contains(sorted[b]));
    } else {
        assert(s.contains(sorted[a]));
    }
}

/// Entering a directory from a reachable one whose entries have distinct
/// names moves into the selected row itself: the new path leads to that
/// entry.
pub proof fn lemma_entered_opens_selected(v: BrowsingView, root: Tree)
    requires
        path_exists(root, v.current_path),
        names_unique(descend(root, v.current_path).children),
        entered(v, root).current_path != v.current_path,
    ensures
        descend(root, entered(v, root).current_path) == listing(v, root)[v.selected->0 as int],
{
    let i = v.selected->0;
    let list = listing(v, root);
    let dir = descend(root, v.current_path);
    lemma_listed_is_entry(dir.children, v.sort_column, v.sort_direction, v.search_query, i as int);
    let name = list[i as int].name;
    let j = choose|j: int| 0 <= j < dir.children.len() && dir.children[j] == list[i as int];
    lemma_first_index_found(dir.children, name);
    let k = first_index(dir.children, name);
    assert(dir.children[j].name == name);
    assert(k == j) by {
        if k != j {
            assert(dir.children[k].name == dir.children[j].name);
        }
    }
    lemma_descend_push(root, v.current_path, name);
}

/// A search lists only entries whose case-folded name contains the
/// case-folded query, and lists every entry that does.
pub proof fn law_search_lists_exactly_the_matches(
    s: Seq<Tree>,
    column: SortColumn,
    direction: SortDirection,
    query: Seq<char>,
)
    requires
        query.len() > 0,
    ensures
        forall|a: int|
            0 <= a < listed_entries(s, column, direction, query).len() ==> matches_query(
                #[trigger] listed_entries(s, column, direction, query)[a],
                query,
            ),
        forall|x: int|
            0 <= x < s.len() && matches_query(s[x], query) ==> #[trigger] listed_entries(
                s,
                column,
                direction,
                query,
            ).contains(s[x]),
{
    law_sorted_entries(s, column, direction);
    let sorted = sorted_entries(s, column, direction);
    let pred = |t: Tree| matches_query(t, query);
    let out = listed_entries(s, column, direction, query);
    assert(out == sorted.filter(pred));
    assert forall|a: int| 0 <= a < out.len() implies matches_query(#[trigger] out[a], query) by {
        sorted.lemma_filter_pred(pred, a);
    }
    assert forall|x: int| 0 <= x < s.len() && matches_query(s[x], query) implies #[trigger] out.contains(s[x]) by {
        assert(sorted.contains(s[x]));
        let a = choose|a: int| 0 <= a < sorted.len() && sorted[a] == s[x];
        sorted.lemma_filter_contains(pred, a);
    }
}

/// A non-empty search goes by the entries' names alone: it lists only
/// entries of the directory whose case-folded name holds the case-folded
/// query as a contiguous run, and every entry whose name does; an entry whose
/// name does not is left out, whatever its path holds.
pub proof fn law_search_goes_by_name(s: Seq<Tree>, column: SortColumn, direction: SortDirection, query: Seq<char>)
    requires
        query.len() > 0,
    ensures
        forall|a: int|
            0 <= a < listed_entries(s, column, direction, query).len() ==> s.contains(
                #[trigger] listed_entries(s, column, direction, query)[a],
            ) && contains_seq(lowercase(listed_entries(s, column, direction, query)[a].name), lowercase(query)),
        forall|x: int|
            0 <= x < s.len() ==> (#[trigger] listed_entries(s, column, direction, query).contains(s[x])
                <==> contains_seq(lowercase(s[x].name), lowercase(query))),
{
    law_search_lists_exactly_the_matches(s, column, direction, query);
    let out = listed_entries(s, column, direction, query);
    assert forall|a: int| 0 <= a < out.len() implies s.contains(#[trigger] out[a]) by {
        lemma_listed_is_entry(s, column, direction, query, a);
    }
    assert forall|x: int| 0 <= x < s.len() implies (#[trigger] out.contains(s[x]) <==> contains_seq(
        lowercase(s[x].name),
        lowercase(query),
    )) by {
        if out.contains(s[x]) {
            let a = choose|a: int| 0 <= a < out.len() && out[a] == s[x];
            assert(matches_query(out[a], query));
        }
    }
}

/// Going back right after entering a directory returns to the state before,
/// when that state's list was up to date.
pub proof fn law_back_undoes_enter(v: BrowsingView, root: Tree)
    requires
        v == refreshed(v, root),
        entered(v, root) != v,
    ensures
        went_back(entered(v, root), root) == v,
{
    let i = v.selected->0;
    let list = listing(v, root);
    let e = entered(v, root);
    assert(e.current_path.drop_last() =~= v.current_path);
    assert(e.path_indices.drop_last() =~= v.path_indices);
    let back = went_back(e, root);
    assert(back.current_path == v.current_path);
    assert(back.cached_children == v.cached_children);
}

/// Selecting the next row and then the previous one (or the other way round)
/// comes back to the row selected before.
pub proof fn law_next_previous_inverse(selected: usize, count: nat)
    requires
        selected < count <= usize::MAX,
    ensures
        select_previous(select_next(Some(selected), count), count) == Some(selected),
        select_next(select_previous(Some(selected), count), count) == Some(selected),
        select_next(Some(selected), count)->0 < count,
        select_previous(Some(selected), count)->0 < count,
{
}

/// Four steps of the column cycle come back to the starting column, and two
/// changes of direction to the starting direction; doing so from a state
/// whose list is up to date gives that state back.
pub proof fn law_sort_cycles(v: BrowsingView, root: Tree)
    requires
        v == refreshed(v, root),
    ensures
        next_column(next_column(next_column(next_column(v.sort_column)))) == v.sort_column,
        other_direction(other_direction(v.sort_direction)) == v.sort_direction,
        cycled(cycled(cycled(cycled(v, root), root), root), root) == v,
        toggled(toggled(v, root), root) == v,
{
}

/// The order behind [`sorted_entries`], which always exists.
proof fn sorted_order_witness(s: Seq<Tree>, column: SortColumn, direction: SortDirection) -> (p: Seq<int>)
    ensures
        is_sort_order(entry_keys(s, column), is_desc(direction), p),
        sorted_entries(s, column, direction) == p.map_values(|i: int| s[i]),
{
    let keys = entry_keys(s, column);
    let desc = is_desc(direction);
    let w = lemma_sort_order_exists(keys, desc, keys.len() as int);
    let q = choose|q: Seq<int>| is_sort_order(keys, desc, q);
    law_sort_order_unique(keys, desc, w, q);
    q
}

} // verus!
