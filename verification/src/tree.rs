//! The directory tree: a node per file or directory, each directory holding its
//! entries, with a size that, for a directory, is the sum over its subtree.
use vstd::prelude::*;

verus! {

/// One file or directory of a scanned tree.
///
/// `modified` and `accessed` are times in nanoseconds relative to the Unix
/// epoch (negative before it); `0` stands for "unknown".
/// The entries of a directory are kept in `children`, in insertion order, and
/// are told apart by name: [`Node::new`] and the assembly of a scanned
/// directory give directories whose entries have distinct names, and
/// [`Node::insert_child`] and [`Node::remove_entry`] keep them distinct (see
/// [`names_unique_everywhere`]). The fields are public, so a caller that sets
/// `children` directly answers for this itself.
#[derive(Debug)]
pub struct Node {
    pub name: String,
    pub path: String,
    pub size: u64,
    pub is_dir: bool,
    pub children: Vec<Node>,
    pub modified: i128,
    pub accessed: i128,
}

/// The mathematical value of a [`Node`]: the same fields, with strings as
/// character sequences and the entries as a sequence of values.
pub struct Tree {
    pub name: Seq<char>,
    pub path: Seq<char>,
    pub size: nat,
    pub is_dir: bool,
    pub children: Seq<Tree>,
    pub modified: int,
    pub accessed: int,
}

/// The value of a node.
pub open spec fn tree_of(n: Node) -> Tree
    decreases n,
{
    Tree {
        name: n.name@,
        path: n.path@,
        size: n.size as nat,
        is_dir: n.is_dir,
        children: trees_of(n.children@),
        modified: n.modified as int,
        accessed: n.accessed as int,
    }
}

/// The values of a sequence of nodes.
pub open spec fn trees_of(s: Seq<Node>) -> Seq<Tree>
    decreases s,
{
    if s.len() == 0 {
        Seq::empty()
    } else {
        trees_of(s.drop_last()).push(tree_of(s.last()))
    }
}

impl View for Node {
    type V = Tree;

    open spec fn view(&self) -> Tree {
        tree_of(*self)
    }
}

/// [`trees_of`] keeps the length and maps each position.
pub proof fn lemma_trees_of_index(s: Seq<Node>)
    ensures
        trees_of(s).len() == s.len(),
        forall|i: int| 0 <= i < s.len() ==> #[trigger] trees_of(s)[i] == tree_of(s[i]),
    decreases s.len(),
{
    if s.len() > 0 {
        lemma_trees_of_index(s.drop_last());
    }
}

/// Sum of the sizes a subtree accounts for: a file counts its own `size`; a
/// directory counts the totals of its entries (its own `size` is not read).
pub open spec fn total(t: Tree) -> nat
    decreases t,
{
    if !t.is_dir {
        t.size
    } else {
        total_of(t.children)
    }
}

/// Sum of [`total`] over a sequence of trees.
pub open spec fn total_of(s: Seq<Tree>) -> nat
    decreases s,
{
    if s.len() == 0 {
        0
    } else {
        total_of(s.drop_last()) + total(s.last())
    }
}

/// What recomputing sizes makes of `t`: a file stays as it is; a directory's
/// `size` becomes the total of its subtree and each entry is recomputed in
/// turn. Names, paths, kinds, times and the order of entries do not change.
pub open spec fn resized(t: Tree) -> Tree
    decreases t,
{
    if !t.is_dir {
        t
    } else {
        Tree { size: total(t), children: resized_all(t.children), ..t }
    }
}

/// [`resized`] applied to each tree of a sequence.
pub open spec fn resized_all(s: Seq<Tree>) -> Seq<Tree>
    decreases s,
{
    if s.len() == 0 {
        s
    } else {
        resized_all(s.drop_last()).push(resized(s.last()))
    }
}

/// Sum of the `size` fields of a sequence of trees.
pub open spec fn size_sum(s: Seq<Tree>) -> nat
    decreases s,
{
    if s.len() == 0 {
        0
    } else {
        size_sum(s.drop_last()) + s.last().size
    }
}

/// Every directory of `t` has as its size the sum of the sizes of its entries.
pub open spec fn consistent(t: Tree) -> bool
    decreases t,
{
    t.is_dir ==> t.size == size_sum(t.children) && all_consistent(t.children)
}

/// [`consistent`] holds of each tree of a sequence.
pub open spec fn all_consistent(s: Seq<Tree>) -> bool
    decreases s,
{
    s.len() > 0 ==> all_consistent(s.drop_last()) && consistent(s.last())
}

/// [`resized_all`] keeps the length and maps each position.
pub proof fn lemma_resized_all_index(s: Seq<Tree>)
    ensures
        resized_all(s).len() == s.len(),
        forall|i: int| 0 <= i < s.len() ==> #[trigger] resized_all(s)[i] == resized(s[i]),
    decreases s.len(),
{
    if s.len() > 0 {
        lemma_resized_all_index(s.drop_last());
    }
}

/// Adding one more tree at the end of a prefix adds its total.
pub proof fn lemma_total_of_take(s: Seq<Tree>, i: int)
    requires
        0 <= i < s.len(),
    ensures
        total_of(s.take(i + 1)) == total_of(s.take(i)) + total(s[i]),
{
    assert(s.take(i + 1).drop_last() =~= s.take(i));
}

/// A prefix of a sequence never totals more than the whole sequence.
pub proof fn lemma_total_of_prefix(s: Seq<Tree>, i: int)
    requires
        0 <= i <= s.len(),
    ensures
        total_of(s.take(i)) <= total_of(s),
    decreases s.len() - i,
{
    if i < s.len() {
        lemma_total_of_take(s, i);
        lemma_total_of_prefix(s, i + 1);
    } else {
        assert(s.take(i) =~= s);
    }
}

/// The first position of `s` that holds a tree called `name`, or `-1`.
pub open spec fn first_index(s: Seq<Tree>, name: Seq<char>) -> int
    decreases s.len(),
{
    if s.len() == 0 {
        -1
    } else if s[0].name == name {
        0
    } else {
        let r = first_index(s.drop_first(), name);
        if r < 0 {
            -1
        } else {
            r + 1
        }
    }
}

/// The entries after adding `t` under its name: `t` takes the place of the
/// first entry with that name, or comes last if there is none.
pub open spec fn inserted(s: Seq<Tree>, t: Tree) -> Seq<Tree> {
    let k = first_index(s, t.name);
    if k < 0 {
        s.push(t)
    } else {
        s.update(k, t)
    }
}

/// The value of `first_index` read off a scan from the front.
pub proof fn lemma_first_index(s: Seq<Tree>, name: Seq<char>, i: int)
    requires
        0 <= i <= s.len(),
        forall|j: int| 0 <= j < i ==> #[trigger] s[j].name != name,
        i < s.len() ==> s[i].name == name,
    ensures
        first_index(s, name) == (if i < s.len() { i } else { -1 }),
    decreases i,
{
    if s.len() > 0 && i > 0 {
        assert forall|j: int| 0 <= j < i - 1 implies #[trigger] s.drop_first()[j].name != name by {
            assert(s.drop_first()[j] == s[j + 1]);
        }
        lemma_first_index(s.drop_first(), name, i - 1);
    }
}

/// `first_index` is `-1` or a position that holds the name, after none does.
pub proof fn lemma_first_index_found(s: Seq<Tree>, name: Seq<char>)
    ensures
        -1 <= first_index(s, name) < s.len(),
        first_index(s, name) >= 0 ==> s[first_index(s, name)].name == name,
        forall|j: int|
            0 <= j < s.len() && (first_index(s, name) < 0 || j < first_index(s, name))
                ==> #[trigger] s[j].name != name,
    decreases s.len(),
{
    if s.len() > 0 {
        lemma_first_index_found(s.drop_first(), name);
        assert forall|j: int|
            0 <= j < s.len() && (first_index(s, name) < 0 || j < first_index(s, name))
                implies #[trigger] s[j].name != name by {
            if j > 0 {
                assert(s[j] == s.drop_first()[j - 1]);
            }
        }
    }
}

/// Facts about one recomputed tree, by induction over its shape.
proof fn lemma_resized_facts(t: Tree)
    ensures
        total(resized(t)) == total(t),
        resized(t).size == total(t),
        consistent(resized(t)),
    decreases t,
{
    if t.is_dir {
        lemma_resized_all_facts(t.children);
    }
}

/// Facts about a recomputed sequence of trees, by induction over its length.
proof fn lemma_resized_all_facts(s: Seq<Tree>)
    ensures
        total_of(resized_all(s)) == total_of(s),
        size_sum(resized_all(s)) == total_of(s),
        all_consistent(resized_all(s)),
    decreases s,
{
    if s.len() > 0 {
        lemma_resized_all_facts(s.drop_last());
        lemma_resized_facts(s.last());
        let r = resized_all(s);
        assert(r.drop_last() =~= resized_all(s.drop_last()));
    }
}

/// A consistent tree's size is its total.
proof fn lemma_consistent_total(t: Tree)
    requires
        consistent(t),
    ensures
        t.size == total(t),
        resized(t) == t,
    decreases t,
{
    if t.is_dir {
        lemma_all_consistent_total(t.children);
    }
}

/// In a sequence of consistent trees the sizes add up to the totals.
proof fn lemma_all_consistent_total(s: Seq<Tree>)
    requires
        all_consistent(s),
    ensures
        size_sum(s) == total_of(s),
        resized_all(s) == s,
    decreases s,
{
    if s.len() > 0 {
        lemma_all_consistent_total(s.drop_last());
        lemma_consistent_total(s.last());
        assert(resized_all(s) =~= s);
    }
}

/// Recomputing sizes keeps the total of a tree.
pub proof fn law_resize_keeps_total(t: Tree)
    ensures
        total(resized(t)) == total(t),
        resized(t).size == total(t),
{
    lemma_resized_facts(t);
}

/// After sizes are recomputed, every directory's size is the sum of the sizes
/// of its entries.
pub proof fn law_resize_makes_consistent(t: Tree)
    ensures
        consistent(resized(t)),
{
    lemma_resized_facts(t);
}

/// Recomputing the sizes of a consistent tree changes nothing; in particular
/// recomputing twice gives what recomputing once gave.
pub proof fn law_resize_idempotent(t: Tree)
    ensures
        consistent(t) ==> resized(t) == t,
        resized(resized(t)) == resized(t),
{
    lemma_resized_facts(t);
    lemma_consistent_total(resized(t));
    if consistent(t) {
        lemma_consistent_total(t);
    }
}

/// No two trees of `s` share a name.
pub open spec fn names_unique(s: Seq<Tree>) -> bool {
    forall|i: int, j: int| 0 <= i < j < s.len() ==> #[trigger] s[i].name != #[trigger] s[j].name
}

/// In `t` and in every directory beneath it, no two entries share a name.
pub open spec fn names_unique_everywhere(t: Tree) -> bool
    decreases t,
{
    &&& names_unique(t.children)
    &&& forall|i: int| 0 <= i < t.children.len() ==> names_unique_everywhere(#[trigger] t.children[i])
}

/// Recomputing sizes keeps the names of every directory's entries.
pub proof fn lemma_resized_keeps_unique(t: Tree)
    requires
        names_unique_everywhere(t),
    ensures
        names_unique_everywhere(resized(t)),
    decreases t,
{
    if t.is_dir {
        let c = t.children;
        let r = resized(t);
        lemma_resized_all_index(c);
        assert forall|i: int| 0 <= i < c.len() implies names_unique_everywhere(#[trigger] r.children[i]) by {
            lemma_resized_keeps_unique(c[i]);
        }
        assert forall|i: int, j: int| 0 <= i < j < r.children.len() implies #[trigger] r.children[i].name
            != #[trigger] r.children[j].name by {
            assert(r.children[i].name == c[i].name);
            assert(r.children[j].name == c[j].name);
        }
    }
}

/// Adding an entry that has distinct names everywhere to entries that do,
/// under its name, gives entries that do.
pub proof fn lemma_inserted_keeps_unique(s: Seq<Tree>, t: Tree)
    requires
        names_unique(s),
        forall|i: int| 0 <= i < s.len() ==> names_unique_everywhere(#[trigger] s[i]),
        names_unique_everywhere(t),
    ensures
        names_unique(inserted(s, t)),
        forall|i: int| 0 <= i < inserted(s, t).len() ==> names_unique_everywhere(#[trigger] inserted(s, t)[i]),
{
    law_insert_is_map_insert(s, t);
    let r = inserted(s, t);
    let k = first_index(s, t.name);
    lemma_first_index_found(s, t.name);
    assert forall|i: int| 0 <= i < r.len() implies names_unique_everywhere(#[trigger] r[i]) by {
        if k < 0 {
            if i < s.len() {
                assert(r[i] == s[i]);
            }
        } else if i != k {
            assert(r[i] == s[i]);
        }
    }
}

/// Some tree of `s` is called `name`.
pub open spec fn has_name(s: Seq<Tree>, name: Seq<char>) -> bool {
    exists|i: int| 0 <= i < s.len() && #[trigger] s[i].name == name
}

/// The entries of a directory seen as a map from name to entry.
pub open spec fn entry_map(s: Seq<Tree>) -> Map<Seq<char>, Tree> {
    Map::new(
        |k: Seq<char>| has_name(s, k),
        |k: Seq<char>| s[choose|i: int| 0 <= i < s.len() && #[trigger] s[i].name == k],
    )
}

/// Adding an entry under its name to entries with distinct names keeps the
/// names distinct and acts on the name-to-entry map as a map insertion: the
/// entry is found under its name afterwards, and every other name keeps its
/// entry.
pub proof fn law_insert_is_map_insert(s: Seq<Tree>, t: Tree)
    requires
        names_unique(s),
    ensures
        names_unique(inserted(s, t)),
        entry_map(inserted(s, t)) == entry_map(s).insert(t.name, t),
{
    lemma_first_index_found(s, t.name);
    let r = inserted(s, t);
    let k = first_index(s, t.name);
    assert forall|i: int, j: int| 0 <= i < j < r.len() implies #[trigger] r[i].name
        != #[trigger] r[j].name by {
        if k < 0 {
            if j == s.len() {
                assert(s[i].name != t.name);
            }
        }
    }
    let m1 = entry_map(r);
    let m2 = entry_map(s).insert(t.name, t);
    assert forall|key: Seq<char>| #[trigger] m1.contains_key(key) <==> m2.contains_key(key) by {
        if key == t.name {
            if k < 0 {
                assert(r[s.len() as int].name == key);
            } else {
                assert(r[k].name == key);
            }
        } else {
            if has_name(s, key) {
                let i = choose|i: int| 0 <= i < s.len() && #[trigger] s[i].name == key;
                assert(r[i].name == key);
            }
            if has_name(r, key) {
                let i = choose|i: int| 0 <= i < r.len() && #[trigger] r[i].name == key;
                assert(s[i].name == key);
            }
        }
    }
    assert forall|key: Seq<char>| #[trigger] m1.contains_key(key) implies m1[key] == m2[key] by {
        let i = choose|i: int| 0 <= i < r.len() && #[trigger] r[i].name == key;
        if key == t.name {
            if k < 0 {
                assert(r[s.len() as int].name == key);
            } else {
                assert(r[k].name == key);
            }
        } else {
            assert(s[i].name == key);
            let i2 = choose|i2: int| 0 <= i2 < s.len() && #[trigger] s[i2].name == key;
            assert(r[i2].name == key);
        }
    }
    assert(m1 =~= m2);
}

/// The node reached from `t` by following the names of `path` one entry at a
/// time; the walk stops early at the first name that is not an entry.
pub open spec fn descend(t: Tree, path: Seq<Seq<char>>) -> Tree
    decreases path.len(),
{
    if path.len() == 0 {
        t
    } else {
        let k = first_index(t.children, path[0]);
        if k < 0 {
            t
        } else {
            descend(t.children[k], path.drop_first())
        }
    }
}

/// Every name of `path` is found, each in the entries of the one before.
pub open spec fn path_exists(t: Tree, path: Seq<Seq<char>>) -> bool
    decreases path.len(),
{
    if path.len() == 0 {
        true
    } else {
        let k = first_index(t.children, path[0]);
        k >= 0 && path_exists(t.children[k], path.drop_first())
    }
}

/// The character sequences of a sequence of strings.
pub open spec fn strings_view(s: Seq<String>) -> Seq<Seq<char>> {
    s.map_values(|x: String| x@)
}

/// The position of the first entry of `node` called `name`, if any.
pub fn find_child(node: &Node, name: &String) -> (r: Option<usize>)
    ensures
        match r {
            Some(k) => k as int == first_index(node@.children, name@) && k < node.children@.len(),
            None => first_index(node@.children, name@) == -1,
        },
{
    proof {
        lemma_trees_of_index(node.children@);
    }
    let n = node.children.len();
    let mut i: usize = 0;
    while i < n
        invariant
            n == node.children@.len(),
            node@.children.len() == n,
            forall|j: int| 0 <= j < n ==> #[trigger] node@.children[j] == node.children@[j]@,
            0 <= i <= n,
            forall|j: int| 0 <= j < i ==> #[trigger] node@.children[j].name != name@,
        decreases n - i,
    {
        if node.children[i].name == *name {
            proof {
                lemma_first_index(node@.children, name@, i as int);
            }
            return Some(i);
        }
        i = i + 1;
    }
    proof {
        lemma_first_index(node@.children, name@, n as int);
    }
    None
}

/// Whether every name of `path` is found from `root` (see [`path_exists`]).
pub fn path_reachable(root: &Node, path: &Vec<String>) -> (r: bool)
    ensures
        r == path_exists(root@, strings_view(path@)),
{
    let ghost full = strings_view(path@);
    let mut curr: &Node = root;
    let n = path.len();
    let mut i: usize = 0;
    proof {
        assert(full.skip(0) =~= full);
    }
    while i < n
        invariant
            n == path@.len(),
            full == strings_view(path@),
            0 <= i <= n,
            path_exists(root@, full) == path_exists(curr@, full.skip(i as int)),
        decreases n - i,
    {
        proof {
            lemma_trees_of_index(curr.children@);
        }
        let ghost rest = full.skip(i as int);
        proof {
            assert(rest[0] == path@[i as int]@);
            assert(rest.drop_first() =~= full.skip(i as int + 1));
        }
        match find_child(curr, &path[i]) {
            Some(k) => {
                curr = &curr.children[k];
            },
            None => {
                return false;
            },
        }
        i = i + 1;
    }
    true
}

/// The node reached from `root` along `path` (see [`descend`]).
pub fn locate<'a>(root: &'a Node, path: &Vec<String>) -> (r: &'a Node)
    ensures
        r@ == descend(root@, strings_view(path@)),
{
    let ghost full = strings_view(path@);
    let mut curr: &'a Node = root;
    let n = path.len();
    let mut i: usize = 0;
    proof {
        assert(full.skip(0) =~= full);
    }
    while i < n
        invariant
            n == path@.len(),
            full == strings_view(path@),
            0 <= i <= n,
            descend(root@, full) == descend(curr@, full.skip(i as int)),
        ensures
            descend(root@, full) == curr@,
        decreases n - i,
    {
        proof {
            lemma_trees_of_index(curr.children@);
        }
        let ghost rest = full.skip(i as int);
        match find_child(curr, &path[i]) {
            Some(k) => {
                proof {
                    assert(rest[0] == path@[i as int]@);
                    assert(rest.drop_first() =~= full.skip(i as int + 1));
                }
                curr = &curr.children[k];
            },
            None => {
                proof {
                    assert(rest[0] == path@[i as int]@);
                }
                break;
            },
        }
        i = i + 1;
    }
    curr
}

/// `s` without the first tree called `name`, if there is one.
pub open spec fn without(s: Seq<Tree>, name: Seq<char>) -> Seq<Tree> {
    let k = first_index(s, name);
    if k < 0 {
        s
    } else {
        s.remove(k)
    }
}

/// `t` with the entry called `name` taken out of the directory reached along
/// `path` (see [`descend`]); unchanged when the path or the name is missing.
pub open spec fn removed_at(t: Tree, path: Seq<Seq<char>>, name: Seq<char>) -> Tree
    decreases path.len(),
{
    if path.len() == 0 {
        Tree { children: without(t.children, name), ..t }
    } else {
        let k = first_index(t.children, path[0]);
        if k < 0 {
            t
        } else {
            Tree { children: t.children.update(k, removed_at(t.children[k], path.drop_first(), name)), ..t }
        }
    }
}

/// Taking an entry out anywhere in a tree whose directories have distinct
/// names keeps them distinct.
pub proof fn lemma_removed_keeps_unique(t: Tree, path: Seq<Seq<char>>, name: Seq<char>)
    requires
        names_unique_everywhere(t),
    ensures
        names_unique_everywhere(removed_at(t, path, name)),
    decreases path.len(),
{
    let r = removed_at(t, path, name);
    if path.len() == 0 {
        law_remove_is_map_remove(t.children, name);
        lemma_first_index_found(t.children, name);
        let k = first_index(t.children, name);
        assert forall|i: int| 0 <= i < r.children.len() implies names_unique_everywhere(#[trigger] r.children[i]) by {
            if k >= 0 {
                if i < k {
                    assert(r.children[i] == t.children[i]);
                } else {
                    assert(r.children[i] == t.children[i + 1]);
                }
            }
        }
    } else {
        let k = first_index(t.children, path[0]);
        lemma_first_index_found(t.children, path[0]);
        if k >= 0 {
            let c = t.children[k];
            lemma_removed_keeps_unique(c, path.drop_first(), name);
            assert(removed_at(c, path.drop_first(), name).name == c.name);
            assert forall|i: int| 0 <= i < r.children.len() implies names_unique_everywhere(#[trigger] r.children[i]) by {
                if i != k {
                    assert(r.children[i] == t.children[i]);
                }
            }
            assert forall|i: int, j: int| 0 <= i < j < r.children.len() implies #[trigger] r.children[i].name
                != #[trigger] r.children[j].name by {
                assert(r.children[i].name == t.children[i].name);
                assert(r.children[j].name == t.children[j].name);
            }
        }
    }
}

/// Extending a reachable path by one name keeps it reachable exactly when the
/// name is an entry of the directory the path leads to.
pub proof fn lemma_path_push(t: Tree, p: Seq<Seq<char>>, n: Seq<char>)
    requires
        path_exists(t, p),
    ensures
        path_exists(t, p.push(n)) == (first_index(descend(t, p).children, n) >= 0),
    decreases p.len(),
{
    lemma_first_index_found(t.children, n);
    if p.len() == 0 {
        assert(p.push(n).drop_first() =~= Seq::<Seq<char>>::empty());
        assert(p.push(n)[0] == n);
        assert(descend(t, p) == t);
        let k = first_index(t.children, n);
        if k >= 0 {
            assert(path_exists(t.children[k], p.push(n).drop_first()));
        }
    } else {
        lemma_first_index_found(t.children, p[0]);
        let k = first_index(t.children, p[0]);
        assert(p.push(n).drop_first() =~= p.drop_first().push(n));
        assert(p.push(n)[0] == p[0]);
        lemma_path_push(t.children[k], p.drop_first(), n);
    }
}

/// Following one more name that is an entry of the directory a reachable
/// path leads to reaches the first entry of that name.
pub proof fn lemma_descend_push(t: Tree, p: Seq<Seq<char>>, n: Seq<char>)
    requires
        path_exists(t, p),
        first_index(descend(t, p).children, n) >= 0,
    ensures
        descend(t, p.push(n)) == descend(t, p).children[first_index(descend(t, p).children, n)],
    decreases p.len(),
{
    if p.len() == 0 {
        let q = p.push(n);
        assert(q.drop_first() =~= Seq::<Seq<char>>::empty());
        assert(q[0] == n);
        assert(descend(t, p) == t);
        let k = first_index(t.children, n);
        assert(descend(t.children[k], q.drop_first()) == t.children[k]);
        assert(descend(t, q) == descend(t.children[k], q.drop_first()));
    } else {
        let q = p.push(n);
        let k = first_index(t.children, p[0]);
        assert(q.drop_first() =~= p.drop_first().push(n));
        assert(q[0] == p[0]);
        lemma_descend_push(t.children[k], p.drop_first(), n);
        assert(descend(t, q) == descend(t.children[k], q.drop_first()));
        assert(descend(t, p) == descend(t.children[k], p.drop_first()));
    }
}

/// Dropping the last name of a reachable path leaves a reachable path.
pub proof fn lemma_path_prefix(t: Tree, p: Seq<Seq<char>>)
    requires
        path_exists(t, p),
        p.len() > 0,
    ensures
        path_exists(t, p.drop_last()),
    decreases p.len(),
{
    if p.len() > 1 {
        lemma_first_index_found(t.children, p[0]);
        let k = first_index(t.children, p[0]);
        assert(p.drop_last()[0] == p[0]);
        assert(p.drop_last().drop_first() =~= p.drop_first().drop_last());
        lemma_path_prefix(t.children[k], p.drop_first());
    }
}

/// Replacing an entry by one with the same name does not move the first
/// entry of any name.
proof fn lemma_first_index_update(s: Seq<Tree>, k: int, x: Tree, n: Seq<char>)
    requires
        0 <= k < s.len(),
        x.name == s[k].name,
    ensures
        first_index(s.update(k, x), n) == first_index(s, n),
{
    lemma_first_index_found(s, n);
    let f = first_index(s, n);
    let u = s.update(k, x);
    if f >= 0 {
        lemma_first_index(u, n, f);
    } else {
        lemma_first_index(u, n, u.len() as int);
    }
}

/// Taking an entry out of the directory a path leads to keeps the path.
pub proof fn lemma_removed_keeps_path(t: Tree, p: Seq<Seq<char>>, name: Seq<char>)
    requires
        path_exists(t, p),
    ensures
        path_exists(removed_at(t, p, name), p),
    decreases p.len(),
{
    if p.len() > 0 {
        lemma_first_index_found(t.children, p[0]);
        let k = first_index(t.children, p[0]);
        let c = removed_at(t.children[k], p.drop_first(), name);
        lemma_removed_keeps_path(t.children[k], p.drop_first(), name);
        lemma_removed_name(t.children[k], p.drop_first(), name);
        lemma_first_index_update(t.children, k, c, p[0]);
    }
}

/// Removing an entry along a reachable path changes the directory the path
/// leads to exactly by taking out that entry.
pub proof fn law_removal_acts_on_target_directory(t: Tree, p: Seq<Seq<char>>, name: Seq<char>)
    requires
        path_exists(t, p),
    ensures
        descend(removed_at(t, p, name), p).children == without(descend(t, p).children, name),
        descend(removed_at(t, p, name), p).name == descend(t, p).name,
    decreases p.len(),
{
    if p.len() > 0 {
        lemma_first_index_found(t.children, p[0]);
        let k = first_index(t.children, p[0]);
        let c = removed_at(t.children[k], p.drop_first(), name);
        law_removal_acts_on_target_directory(t.children[k], p.drop_first(), name);
        lemma_removed_name(t.children[k], p.drop_first(), name);
        lemma_first_index_update(t.children, k, c, p[0]);
        assert(removed_at(t, p, name).children[k] == c);
    }
}

/// Removal below a tree keeps the tree's own name.
proof fn lemma_removed_name(t: Tree, p: Seq<Seq<char>>, name: Seq<char>)
    ensures
        removed_at(t, p, name).name == t.name,
{
}

/// Taking the entry called `name` out of entries with distinct names keeps
/// the names distinct and acts on the name-to-entry map as a map removal:
/// the name is gone and every other name keeps its entry.
pub proof fn law_remove_is_map_remove(s: Seq<Tree>, name: Seq<char>)
    requires
        names_unique(s),
    ensures
        names_unique(without(s, name)),
        entry_map(without(s, name)) == entry_map(s).remove(name),
{
    lemma_first_index_found(s, name);
    let k = first_index(s, name);
    let r = without(s, name);
    if k >= 0 {
        assert forall|i: int, j: int| 0 <= i < j < r.len() implies #[trigger] r[i].name
            != #[trigger] r[j].name by {
            let i0 = if i < k { i } else { i + 1 };
            let j0 = if j < k { j } else { j + 1 };
            assert(r[i] == s[i0] && r[j] == s[j0]);
        }
    }
    let m1 = entry_map(r);
    let m2 = entry_map(s).remove(name);
    assert forall|key: Seq<char>| #[trigger] m1.contains_key(key) <==> m2.contains_key(key) by {
        if has_name(r, key) {
            let i = choose|i: int| 0 <= i < r.len() && #[trigger] r[i].name == key;
            if k >= 0 {
                let i0 = if i < k { i } else { i + 1 };
                assert(s[i0].name == key);
                assert(i0 != k);
            } else {
                assert(s[i].name == key);
            }
        }
        if has_name(s, key) && key != name {
            let i = choose|i: int| 0 <= i < s.len() && #[trigger] s[i].name == key;
            if k >= 0 {
                assert(i != k);
                let i1 = if i < k { i } else { i - 1 };
                assert(r[i1].name == key);
            } else {
                assert(r[i].name == key);
            }
        }
    }
    assert forall|key: Seq<char>| #[trigger] m1.contains_key(key) implies m1[key] == m2[key] by {
        let i = choose|i: int| 0 <= i < r.len() && #[trigger] r[i].name == key;
        let i0 = if k >= 0 && i >= k { i + 1 } else { i };
        assert(s[i0] == r[i]);
        let i2 = choose|i2: int| 0 <= i2 < s.len() && #[trigger] s[i2].name == key;
        assert(s[i0].name == key);
    }
    assert(m1 =~= m2);
}

impl Node {
    /// A node with the given name, path and kind, size zero, no entries and
    /// unknown times.
    pub fn new(name: String, path: String, is_dir: bool) -> (n: Node)
        ensures
            n@ == (Tree {
                name: name@,
                path: path@,
                size: 0,
                is_dir,
                children: Seq::empty(),
                modified: 0,
                accessed: 0,
            }),
            names_unique(n@.children),
            names_unique_everywhere(n@),
    {
        let n = Node { name, path, size: 0, is_dir, children: Vec::new(), modified: 0, accessed: 0 };
        assert(n.children@ =~= Seq::<Node>::empty());
        n
    }

    /// Adds `node` as an entry of this directory under its name: it takes the
    /// place of the first entry that has that name, if there is one, and comes
    /// last otherwise. Nothing else changes. On entries with distinct names this
    /// is a map insertion: the names stay distinct, `node` is found under its
    /// name and every other name keeps its entry.
    pub fn insert_child(&mut self, node: Node)
        ensures
            final(self)@ == (Tree { children: inserted(old(self)@.children, node@), ..old(self)@ }),
            names_unique(old(self)@.children) ==> names_unique(final(self)@.children) && entry_map(
                final(self)@.children,
            ) == entry_map(old(self)@.children).insert(node@.name, node@),
            names_unique_everywhere(old(self)@) && names_unique_everywhere(node@) ==> names_unique_everywhere(
                final(self)@,
            ),
    {
        let ghost name = node@.name;
        let ghost before = self.children@;
        proof {
            lemma_trees_of_index(before);
        }
        let n = self.children.len();
        let mut i: usize = 0;
        while i < n
            invariant
                *self == *old(self),
                before == self.children@,
                n == before.len(),
                trees_of(before).len() == n,
                forall|j: int| 0 <= j < n ==> #[trigger] trees_of(before)[j] == tree_of(before[j]),
                name == node.name@,
                0 <= i <= n,
                forall|j: int| 0 <= j < i ==> #[trigger] trees_of(before)[j].name != name,
            decreases n - i,
        {
            if self.children[i].name == node.name {
                proof {
                    lemma_first_index(trees_of(before), name, i as int);
                }
                self.children.set(i, node);
                proof {
                    let after = self.children@;
                    lemma_trees_of_index(after);
                    assert(trees_of(after) =~= trees_of(before).update(i as int, node@));
                    if names_unique(old(self)@.children) {
                        law_insert_is_map_insert(old(self)@.children, node@);
                    }
                    if names_unique_everywhere(old(self)@) && names_unique_everywhere(node@) {
                        lemma_inserted_keeps_unique(old(self)@.children, node@);
                    }
                }
                return;
            }
            i = i + 1;
        }
        proof {
            lemma_first_index(trees_of(before), name, n as int);
        }
        self.children.push(node);
        proof {
            assert(self.children@.drop_last() =~= before);
            if names_unique(old(self)@.children) {
                law_insert_is_map_insert(old(self)@.children, node@);
            }
            if names_unique_everywhere(old(self)@) && names_unique_everywhere(node@) {
                lemma_inserted_keeps_unique(old(self)@.children, node@);
            }
        }
    }

    /// Recomputes the size of every directory in this subtree as the sum of the
    /// sizes beneath it, and returns the size of this node afterwards.
    /// A file keeps its size. The total must fit in a `u64`.
    pub fn update_size(&mut self) -> (result: u64)
        requires
            total(old(self)@) <= u64::MAX,
        ensures
            result == total(old(self)@),
            final(self)@ == resized(old(self)@),
        decreases *old(self),
    {
        if !self.is_dir {
            return self.size;
        }
        let ghost before = *self;
        let ghost kids = before@.children;
        proof {
            lemma_trees_of_index(before.children@);
            lemma_resized_all_index(kids);
        }
        let n = self.children.len();
        let mut sum: u64 = 0;
        let mut i: usize = 0;
        while i < n
            invariant
                before == *old(self),
                before.is_dir,
                kids == before@.children,
                total(before@) <= u64::MAX,
                n == before.children@.len(),
                kids.len() == n,
                forall|j: int| 0 <= j < n ==> #[trigger] kids[j] == tree_of(before.children@[j]),
                self.children@.len() == n,
                self.name == before.name,
                self.path == before.path,
                self.is_dir == before.is_dir,
                self.modified == before.modified,
                self.accessed == before.accessed,
                0 <= i <= n,
                sum == total_of(kids.take(i as int)),
                forall|j: int| 0 <= j < i ==> #[trigger] tree_of(self.children@[j]) == resized(kids[j]),
                forall|j: int| i <= j < n ==> #[trigger] self.children@[j] == before.children@[j],
            decreases n - i,
        {
            proof {
                lemma_total_of_take(kids, i as int);
                lemma_total_of_prefix(kids, i as int + 1);
                assert(decreases_to!(before => before.children@[i as int]));
            }
            let t = self.children[i].update_size();
            sum = sum + t;
            i = i + 1;
        }
        proof {
            assert(kids.take(n as int) =~= kids);
        }
        self.size = sum;
        proof {
            let after = self.children@;
            lemma_trees_of_index(after);
            assert(trees_of(after) =~= resized_all(kids));
        }
        sum
    }

    /// Takes the entry called `name` out of the directory reached along `path`
    /// (the first such entry, if any). Every name of `path` must be found.
    /// Directories whose entries had distinct names keep them distinct, and
    /// when the target directory's entries had distinct names, none is called
    /// `name` afterwards.
    pub fn remove_entry(&mut self, path: &Vec<String>, name: &String)
        requires
            path_exists(old(self)@, strings_view(path@)),
        ensures
            final(self)@ == removed_at(old(self)@, strings_view(path@), name@),
            names_unique_everywhere(old(self)@) ==> names_unique_everywhere(final(self)@),
            names_unique(descend(old(self)@, strings_view(path@)).children) ==> !has_name(
                descend(final(self)@, strings_view(path@)).children,
                name@,
            ),
    {
        proof {
            assert(strings_view(path@).skip(0) =~= strings_view(path@));
            if names_unique_everywhere(old(self)@) {
                lemma_removed_keeps_unique(old(self)@, strings_view(path@), name@);
            }
        }
        self.remove_entry_from(path, 0, name);
        proof {
            let p = strings_view(path@);
            let dir = descend(old(self)@, p).children;
            if names_unique(dir) {
                law_removal_acts_on_target_directory(old(self)@, p, name@);
                law_remove_is_map_remove(dir, name@);
                assert(!entry_map(without(dir, name@)).contains_key(name@));
            }
        }
    }

    fn remove_entry_from(&mut self, path: &Vec<String>, depth: usize, name: &String)
        requires
            depth <= path@.len(),
            path_exists(old(self)@, strings_view(path@).skip(depth as int)),
        ensures
            final(self)@ == removed_at(old(self)@, strings_view(path@).skip(depth as int), name@),
        decreases path@.len() - depth,
    {
        let ghost rest = strings_view(path@).skip(depth as int);
        let ghost before = self@;
        proof {
            lemma_trees_of_index(self.children@);
        }
        if depth == path.len() {
            match find_child(self, name) {
                Some(k) => {
                    let ghost kids = self.children@;
                    self.children.remove(k);
                    proof {
                        lemma_trees_of_index(self.children@);
                        assert(trees_of(self.children@) =~= trees_of(kids).remove(k as int));
                    }
                },
                None => {},
            }
        } else {
            proof {
                assert(rest[0] == path@[depth as int]@);
                assert(rest.drop_first() =~= strings_view(path@).skip(depth as int + 1));
            }
            match find_child(self, &path[depth]) {
                Some(k) => {
                    let ghost kids = self.children@;
                    self.children[k].remove_entry_from(path, depth + 1, name);
                    proof {
                        lemma_trees_of_index(self.children@);
                        assert(trees_of(self.children@) =~= trees_of(kids).update(
                            k as int,
                            removed_at(trees_of(kids)[k as int], rest.drop_first(), name@),
                        ));
                    }
                },
                None => {},
            }
        }
    }
}

impl Default for Node {
    /// An unnamed file with an empty path, size zero and unknown times.
    fn default() -> (n: Node)
        ensures
            n@ == (Tree {
                name: Seq::empty(),
                path: Seq::empty(),
                size: 0,
                is_dir: false,
                children: Seq::empty(),
                modified: 0,
                accessed: 0,
            }),
    {
        Node::new(String::new(), String::new(), false)
    }
}

} // verus!
