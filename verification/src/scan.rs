//! Building the node of a scanned directory from what the scan found in it.
use vstd::prelude::*;
use crate::tree::{
    Node, Tree, total, resized, inserted, names_unique, names_unique_everywhere, law_insert_is_map_insert,
    lemma_resized_all_index, lemma_resized_keeps_unique, lemma_inserted_keeps_unique,
};

verus! {

/// A regular file found while scanning a directory.
pub struct ScannedFile {
    pub name: String,
    pub path: String,
    pub size: u64,
    pub modified: i128,
    pub accessed: i128,
}

/// A message about the progress of a scan.
pub enum ScanMessage {
    Update(Node),
    Done(Node),
    Error(String),
}

/// What a directory entry is, as far as the scan could tell.
pub enum EntryKind {
    /// Its type could not be read.
    Unknown,
    Symlink,
    Directory,
    File,
}

/// A directory entry as the scan read it: its kind, name and path, and the
/// size and times its metadata gave (zero where it gave none).
pub struct DirEntryInfo {
    pub kind: EntryKind,
    pub name: String,
    pub path: String,
    pub size: u64,
    pub modified: i128,
    pub accessed: i128,
}

/// The positions of the entries that are directories, in order: the scan
/// descends into these.
pub open spec fn dir_positions(e: Seq<DirEntryInfo>) -> Seq<int>
    decreases e.len(),
{
    if e.len() == 0 {
        Seq::empty()
    } else {
        let prev = dir_positions(e.drop_last());
        if e.last().kind is Directory {
            prev.push(e.len() - 1)
        } else {
            prev
        }
    }
}

/// The file an entry that is neither a directory nor a symbolic link becomes.
pub open spec fn entry_file(d: DirEntryInfo) -> Tree {
    Tree {
        name: d.name@,
        path: d.path@,
        size: d.size as nat,
        is_dir: false,
        children: Seq::empty(),
        modified: d.modified as int,
        accessed: d.accessed as int,
    }
}

/// The files among the entries, in order.
pub open spec fn entry_files(e: Seq<DirEntryInfo>) -> Seq<Tree>
    decreases e.len(),
{
    if e.len() == 0 {
        Seq::empty()
    } else {
        let prev = entry_files(e.drop_last());
        if e.last().kind is File {
            prev.push(entry_file(e.last()))
        } else {
            prev
        }
    }
}

/// How many entries the scan skips: symbolic links and those whose type could
/// not be read.
pub open spec fn skipped_entries(e: Seq<DirEntryInfo>) -> nat
    decreases e.len(),
{
    if e.len() == 0 {
        0
    } else {
        skipped_entries(e.drop_last()) + if e.last().kind is Unknown || e.last().kind is Symlink {
            1nat
        } else {
            0nat
        }
    }
}

/// The scan accounts for every entry of a directory exactly once: each
/// directory is descended into, each other entry that is not a symbolic link
/// becomes a file of the tree with the entry's name, path, size and times,
/// whatever its size, and only symbolic links and entries whose type could not
/// be read are counted as skipped.
pub proof fn law_classify_accounts_for_every_entry(e: Seq<DirEntryInfo>)
    ensures
        dir_positions(e).len() + entry_files(e).len() + skipped_entries(e) == e.len(),
        forall|k: int| 0 <= k < dir_positions(e).len() ==> 0 <= #[trigger] dir_positions(e)[k] < e.len()
            && e[dir_positions(e)[k]].kind is Directory,
        forall|x: int| 0 <= x < e.len() && e[x].kind is Directory ==> #[trigger] dir_positions(e).contains(x),
        entry_files(e).len() == e.filter(|d: DirEntryInfo| d.kind is File).len(),
        forall|k: int|
            0 <= k < entry_files(e).len() ==> {
                let d = e.filter(|d: DirEntryInfo| d.kind is File)[k];
                let f = #[trigger] entry_files(e)[k];
                &&& f.name == d.name@
                &&& f.path == d.path@
                &&& f.size == d.size
                &&& !f.is_dir
                &&& f.children.len() == 0
                &&& f.modified == d.modified
                &&& f.accessed == d.accessed
            },
        skipped_entries(e) == e.filter(|d: DirEntryInfo| d.kind is Unknown || d.kind is Symlink).len(),
    decreases e.len(),
{
    reveal_with_fuel(Seq::filter, 1);
    if e.len() > 0 {
        let t = e.drop_last();
        law_classify_accounts_for_every_entry(t);
        let is_file = |d: DirEntryInfo| d.kind is File;
        let is_skip = |d: DirEntryInfo| d.kind is Unknown || d.kind is Symlink;
        assert(e.filter(is_file) == if is_file(e.last()) { t.filter(is_file).push(e.last()) } else { t.filter(is_file) });
        assert(e.filter(is_skip) == if is_skip(e.last()) { t.filter(is_skip).push(e.last()) } else { t.filter(is_skip) });
        let dp = dir_positions(e);
        let tp = dir_positions(t);
        assert forall|k: int| 0 <= k < dp.len() implies 0 <= #[trigger] dp[k] < e.len() && e[dp[k]].kind is Directory by {
            if k < tp.len() {
                assert(dp[k] == tp[k]);
                assert(e[tp[k]] == t[tp[k]]);
            }
        }
        assert forall|x: int| 0 <= x < e.len() && e[x].kind is Directory implies #[trigger] dp.contains(x) by {
            if x < t.len() {
                assert(t[x] == e[x]);
                assert(tp.contains(x));
                let k = choose|k: int| 0 <= k < tp.len() && tp[k] == x;
                assert(dp[k] == x);
            } else {
                assert(dp[tp.len() as int] == x);
            }
        }
        let ef = entry_files(e);
        let tf = entry_files(t);
        assert forall|k: int| 0 <= k < ef.len() implies {
            let d = e.filter(is_file)[k];
            let f = #[trigger] ef[k];
            &&& f.name == d.name@
            &&& f.path == d.path@
            &&& f.size == d.size
            &&& !f.is_dir
            &&& f.children.len() == 0
            &&& f.modified == d.modified
            &&& f.accessed == d.accessed
        } by {
            if k < tf.len() {
                assert(ef[k] == tf[k]);
                assert(e.filter(is_file)[k] == t.filter(is_file)[k]);
            }
        }
    }
}

/// Sorts the entries of a directory as the scan does: the positions of its
/// subdirectories, its files, and the number of entries skipped.
pub fn classify_entries(entries: &Vec<DirEntryInfo>) -> (r: (Vec<usize>, Vec<ScannedFile>, usize))
    ensures
        r.0@.map_values(|i: usize| i as int) == dir_positions(entries@),
        r.1@.map_values(|f: ScannedFile| file_tree(f)) == entry_files(entries@),
        r.2 == skipped_entries(entries@),
{
    let mut dirs: Vec<usize> = Vec::new();
    let mut files: Vec<ScannedFile> = Vec::new();
    let mut skipped: usize = 0;
    let mut i: usize = 0;
    proof {
        assert(entries@.take(0) =~= Seq::<DirEntryInfo>::empty());
    }
    while i < entries.len()
        invariant
            0 <= i <= entries@.len(),
            dirs@.map_values(|i: usize| i as int) == dir_positions(entries@.take(i as int)),
            files@.map_values(|f: ScannedFile| file_tree(f)) == entry_files(entries@.take(i as int)),
            skipped == skipped_entries(entries@.take(i as int)),
            skipped <= i,
        decreases entries@.len() - i,
    {
        let e = &entries[i];
        let ghost t = entries@.take(i as int + 1);
        proof {
            assert(t.drop_last() =~= entries@.take(i as int));
            assert(t.last() == *e);
        }
        match e.kind {
            EntryKind::Directory => {
                let ghost before = dirs@.map_values(|i: usize| i as int);
                dirs.push(i);
                proof {
                    assert(dirs@.map_values(|i: usize| i as int) =~= before.push(i as int));
                }
            },
            EntryKind::File => {
                let ghost before = files@.map_values(|f: ScannedFile| file_tree(f));
                let f = ScannedFile {
                    name: e.name.clone(),
                    path: e.path.clone(),
                    size: e.size,
                    modified: e.modified,
                    accessed: e.accessed,
                };
                files.push(f);
                proof {
                    assert(files@.map_values(|f: ScannedFile| file_tree(f)) =~= before.push(entry_file(*e)));
                }
            },
            _ => {
                skipped = skipped + 1;
            },
        }
        i = i + 1;
    }
    proof {
        assert(entries@.take(entries@.len() as int) =~= entries@);
    }
    (dirs, files, skipped)
}

/// The node a scanned file becomes.
pub open spec fn file_tree(f: ScannedFile) -> Tree {
    Tree {
        name: f.name@,
        path: f.path@,
        size: f.size as nat,
        is_dir: false,
        children: Seq::empty(),
        modified: f.modified as int,
        accessed: f.accessed as int,
    }
}

/// The entries after adding each of `items` in turn under its name.
pub open spec fn inserted_all(s: Seq<Tree>, items: Seq<Tree>) -> Seq<Tree>
    decreases items.len(),
{
    if items.len() == 0 {
        s
    } else {
        inserted(inserted_all(s, items.drop_last()), items.last())
    }
}

/// Adding entries in turn under their names to entries with distinct names
/// keeps the names distinct.
pub proof fn lemma_inserted_all_unique(s: Seq<Tree>, items: Seq<Tree>)
    requires
        names_unique(s),
    ensures
        names_unique(inserted_all(s, items)),
    decreases items.len(),
{
    if items.len() > 0 {
        lemma_inserted_all_unique(s, items.drop_last());
        law_insert_is_map_insert(inserted_all(s, items.drop_last()), items.last());
    }
}

/// Adding entries that have distinct names everywhere, in turn under their
/// names, to entries that do gives entries that do.
pub proof fn lemma_inserted_all_unique_everywhere(s: Seq<Tree>, items: Seq<Tree>)
    requires
        names_unique(s),
        forall|i: int| 0 <= i < s.len() ==> names_unique_everywhere(#[trigger] s[i]),
        forall|i: int| 0 <= i < items.len() ==> names_unique_everywhere(#[trigger] items[i]),
    ensures
        names_unique(inserted_all(s, items)),
        forall|i: int|
            0 <= i < inserted_all(s, items).len() ==> names_unique_everywhere(#[trigger] inserted_all(s, items)[i]),
    decreases items.len(),
{
    if items.len() > 0 {
        let init = items.drop_last();
        assert forall|i: int| 0 <= i < init.len() implies names_unique_everywhere(#[trigger] init[i]) by {
            assert(init[i] == items[i]);
        }
        lemma_inserted_all_unique_everywhere(s, init);
        lemma_inserted_keeps_unique(inserted_all(s, init), items.last());
    }
}

/// A scanned directory before its size is computed: its subdirectories, then
/// its files, added in turn under their names.
pub open spec fn scanned_dir(
    name: Seq<char>,
    path: Seq<char>,
    modified: int,
    accessed: int,
    subdirs: Seq<Tree>,
    files: Seq<Tree>,
) -> Tree {
    Tree {
        name,
        path,
        size: 0,
        is_dir: true,
        children: inserted_all(inserted_all(Seq::empty(), subdirs), files),
        modified,
        accessed,
    }
}

/// Adds each node of `items` to `dir` in order, under its name.
fn insert_each(dir: &mut Node, items: Vec<Node>)
    ensures
        final(dir)@ == (Tree {
            children: inserted_all(old(dir)@.children, items@.map_values(|n: Node| n@)),
            ..old(dir)@
        }),
{
    let ghost views = items@.map_values(|n: Node| n@);
    let ghost start = dir@;
    let mut rest = items;
    let mut taken: Vec<Node> = Vec::new();
    // Move the nodes out in reverse so that they can be inserted front to back.
    while rest.len() > 0
        invariant
            taken@.len() + rest@.len() == views.len(),
            forall|j: int| 0 <= j < rest@.len() ==> #[trigger] rest@[j]@ == views[j],
            forall|j: int| 0 <= j < taken@.len() ==> #[trigger] taken@[j]@ == views[views.len() - 1 - j],
        decreases rest@.len(),
    {
        let n = rest.pop().unwrap();
        taken.push(n);
    }
    let total_len = taken.len();
    let mut k: usize = 0;
    proof {
        assert(views.take(0) =~= Seq::<Tree>::empty());
    }
    while taken.len() > 0
        invariant
            total_len == views.len(),
            taken@.len() + k == total_len,
            forall|j: int| 0 <= j < taken@.len() ==> #[trigger] taken@[j]@ == views[total_len - 1 - j],
            dir@ == (Tree { children: inserted_all(start.children, views.take(k as int)), ..start }),
        decreases taken@.len(),
    {
        let n = taken.pop().unwrap();
        proof {
            assert(n@ == views[k as int]);
            assert(views.take(k as int + 1).drop_last() =~= views.take(k as int));
        }
        dir.insert_child(n);
        k = k + 1;
    }
    proof {
        assert(views.take(k as int) =~= views);
    }
}

/// The node of a scanned directory: named `name` at `path` with the given
/// times, holding the nodes of its subdirectories and then its files, each
/// under its name, with all sizes computed. The total must fit in a `u64`.
pub fn assemble_directory(
    name: String,
    path: String,
    modified: i128,
    accessed: i128,
    subdirs: Vec<Node>,
    files: Vec<ScannedFile>,
) -> (dir: Node)
    requires
        total(
            scanned_dir(
                name@,
                path@,
                modified as int,
                accessed as int,
                subdirs@.map_values(|n: Node| n@),
                files@.map_values(|f: ScannedFile| file_tree(f)),
            ),
        ) <= u64::MAX,
    ensures
        names_unique(dir@.children),
        (forall|i: int| 0 <= i < subdirs@.len() ==> names_unique_everywhere(#[trigger] subdirs@[i]@))
            ==> names_unique_everywhere(dir@),
        dir@ == resized(
            scanned_dir(
                name@,
                path@,
                modified as int,
                accessed as int,
                subdirs@.map_values(|n: Node| n@),
                files@.map_values(|f: ScannedFile| file_tree(f)),
            ),
        ),
{
    let ghost file_views = files@.map_values(|f: ScannedFile| file_tree(f));
    let mut dir = Node::new(name, path, true);
    dir.modified = modified;
    dir.accessed = accessed;
    insert_each(&mut dir, subdirs);
    let mut file_nodes: Vec<Node> = Vec::new();
    let mut i: usize = 0;
    let mut files = files;
    let n = files.len();
    let ghost fs = files@;
    // Turn the files into nodes, keeping their order.
    let mut rev: Vec<ScannedFile> = Vec::new();
    while files.len() > 0
        invariant
            rev@.len() + files@.len() == n,
            fs.len() == n,
            forall|j: int| 0 <= j < files@.len() ==> #[trigger] files@[j] == fs[j],
            forall|j: int| 0 <= j < rev@.len() ==> #[trigger] rev@[j] == fs[n - 1 - j],
        decreases files@.len(),
    {
        let f = files.pop().unwrap();
        rev.push(f);
    }
    while rev.len() > 0
        invariant
            rev@.len() + i == n,
            fs.len() == n,
            file_views == fs.map_values(|f: ScannedFile| file_tree(f)),
            forall|j: int| 0 <= j < rev@.len() ==> #[trigger] rev@[j] == fs[n - 1 - j],
            file_nodes@.len() == i,
            forall|j: int| 0 <= j < i ==> #[trigger] file_nodes@[j]@ == file_views[j],
        decreases rev@.len(),
    {
        let f = rev.pop().unwrap();
        let mut node = Node::new(f.name, f.path, false);
        node.size = f.size;
        node.modified = f.modified;
        node.accessed = f.accessed;
        file_nodes.push(node);
        i = i + 1;
    }
    proof {
        assert(file_nodes@.map_values(|n: Node| n@) =~= file_views);
    }
    insert_each(&mut dir, file_nodes);
    proof {
        let subdir_views = subdirs@.map_values(|n: Node| n@);
        let children = inserted_all(inserted_all(Seq::empty(), subdir_views), file_views);
        assert(names_unique(Seq::<Tree>::empty()));
        lemma_inserted_all_unique(Seq::empty(), subdir_views);
        lemma_inserted_all_unique(inserted_all(Seq::empty(), subdir_views), file_views);
        lemma_resized_all_index(children);
        if forall|i: int| 0 <= i < subdirs@.len() ==> names_unique_everywhere(#[trigger] subdirs@[i]@) {
            assert forall|i: int| 0 <= i < subdir_views.len() implies names_unique_everywhere(
                #[trigger] subdir_views[i],
            ) by {
                assert(subdir_views[i] == subdirs@[i]@);
            }
            assert forall|i: int| 0 <= i < file_views.len() implies names_unique_everywhere(
                #[trigger] file_views[i],
            ) by {
                assert(file_views[i].children =~= Seq::<Tree>::empty());
            }
            lemma_inserted_all_unique_everywhere(Seq::empty(), subdir_views);
            lemma_inserted_all_unique_everywhere(inserted_all(Seq::empty(), subdir_views), file_views);
            lemma_resized_keeps_unique(dir@);
        }
    }
    dir.update_size();
    dir
}

} // verus!
