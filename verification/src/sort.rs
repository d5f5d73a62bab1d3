//! Stable ordering of a directory's entries by a key, ascending or descending.
//!
//! The order is computed as a permutation of positions: position `i` comes
//! before position `j` when its key is smaller in the chosen direction, or when
//! the keys are equal and `i < j` (ties keep the order they had).
use vstd::prelude::*;
use crate::text::{Order, seq_order, lemma_seq_order_antisym, lemma_seq_order_trans, compare_chars};

verus! {

/// A value entries are ordered by: a number (sizes and times) or a text
/// (names, already case-folded).
pub enum SortKey {
    Number(i128),
    Text(Vec<char>),
    Parts(Vec<PathPart>),
}

/// One component of a path, told apart as `std::path::Component` does on
/// Unix: the root, a leading `.`, `..`, or a plain name.
#[derive(Clone, Debug)]
pub enum PathPart {
    RootDir,
    CurDir,
    ParentDir,
    Normal(Vec<char>),
}

/// The mathematical value of a [`PathPart`].
pub enum PartValue {
    RootDir,
    CurDir,
    ParentDir,
    Normal(Seq<char>),
}

/// The value of a path component.
pub open spec fn part_value(p: PathPart) -> PartValue {
    match p {
        PathPart::RootDir => PartValue::RootDir,
        PathPart::CurDir => PartValue::CurDir,
        PathPart::ParentDir => PartValue::ParentDir,
        PathPart::Normal(n) => PartValue::Normal(n@),
    }
}

/// The values of a sequence of path components.
pub open spec fn part_values(s: Seq<PathPart>) -> Seq<PartValue> {
    s.map_values(|p: PathPart| part_value(p))
}

/// Where a kind of component stands in `Component`'s order: the root, then
/// `.`, then `..`, then plain names.
pub open spec fn part_rank(p: PartValue) -> int {
    match p {
        PartValue::RootDir => 0,
        PartValue::CurDir => 1,
        PartValue::ParentDir => 2,
        PartValue::Normal(_) => 3,
    }
}

/// The order of path components: by kind, and plain names by their text.
pub open spec fn part_order(a: PartValue, b: PartValue) -> Order {
    if part_rank(a) < part_rank(b) {
        Order::Less
    } else if part_rank(a) > part_rank(b) {
        Order::Greater
    } else {
        match (a, b) {
            (PartValue::Normal(x), PartValue::Normal(y)) => seq_order(x, y),
            _ => Order::Equal,
        }
    }
}

/// The order of paths, as `Path`'s: their components compared one by one,
/// a path that runs out first being the smaller.
pub open spec fn parts_order(a: Seq<PartValue>, b: Seq<PartValue>) -> Order
    decreases a.len(),
{
    if a.len() == 0 && b.len() == 0 {
        Order::Equal
    } else if a.len() == 0 {
        Order::Less
    } else if b.len() == 0 {
        Order::Greater
    } else if part_order(a[0], b[0]) != Order::Equal {
        part_order(a[0], b[0])
    } else {
        parts_order(a.drop_first(), b.drop_first())
    }
}

/// Swapping the sides of [`part_order`] flips it; only equal components
/// are equal.
pub proof fn lemma_part_order_antisym(a: PartValue, b: PartValue)
    ensures
        part_order(b, a) == part_order(a, b).flip(),
        part_order(a, b) == Order::Equal <==> a == b,
{
    match (a, b) {
        (PartValue::Normal(x), PartValue::Normal(y)) => {
            lemma_seq_order_antisym(x, y);
        },
        _ => {},
    }
}

/// [`part_order`] orders transitively.
pub proof fn lemma_part_order_trans(a: PartValue, b: PartValue, c: PartValue)
    requires
        part_order(a, b) == Order::Less,
        part_order(b, c) == Order::Less,
    ensures
        part_order(a, c) == Order::Less,
{
    match (a, b, c) {
        (PartValue::Normal(x), PartValue::Normal(y), PartValue::Normal(z)) => {
            lemma_seq_order_trans(x, y, z);
        },
        _ => {},
    }
}

/// Swapping the sides of [`parts_order`] flips it; only equal paths (as
/// component sequences) are equal.
pub proof fn lemma_parts_order_antisym(a: Seq<PartValue>, b: Seq<PartValue>)
    ensures
        parts_order(b, a) == parts_order(a, b).flip(),
        parts_order(a, b) == Order::Equal <==> a == b,
    decreases a.len(),
{
    if a.len() > 0 && b.len() > 0 {
        lemma_part_order_antisym(a[0], b[0]);
        if a[0] == b[0] {
            lemma_parts_order_antisym(a.drop_first(), b.drop_first());
            if a.drop_first() == b.drop_first() {
                assert forall|i: int| 0 <= i < a.len() implies a[i] == b[i] by {
                    if i > 0 {
                        assert(a[i] == a.drop_first()[i - 1]);
                        assert(b[i] == b.drop_first()[i - 1]);
                    }
                }
                assert(a =~= b);
            }
        }
    }
    if a.len() == 0 && b.len() == 0 {
        assert(a =~= b);
    }
}

/// [`parts_order`] orders transitively.
pub proof fn lemma_parts_order_trans(a: Seq<PartValue>, b: Seq<PartValue>, c: Seq<PartValue>)
    requires
        parts_order(a, b) == Order::Less,
        parts_order(b, c) == Order::Less,
    ensures
        parts_order(a, c) == Order::Less,
    decreases a.len(),
{
    if a.len() > 0 && b.len() > 0 && c.len() > 0 {
        lemma_part_order_antisym(a[0], b[0]);
        lemma_part_order_antisym(b[0], c[0]);
        lemma_part_order_antisym(a[0], c[0]);
        if part_order(a[0], b[0]) == Order::Less && part_order(b[0], c[0]) == Order::Less {
            lemma_part_order_trans(a[0], b[0], c[0]);
        } else if a[0] == b[0] && b[0] == c[0] {
            lemma_parts_order_trans(a.drop_first(), b.drop_first(), c.drop_first());
        }
    }
}

/// The mathematical value of a [`SortKey`].
pub enum KeyValue {
    Number(int),
    Text(Seq<char>),
    Parts(Seq<PartValue>),
}

/// Where a kind of key stands when keys of two kinds are compared (which no
/// listing does): numbers, then texts, then paths.
pub open spec fn key_rank(k: KeyValue) -> int {
    match k {
        KeyValue::Number(_) => 0,
        KeyValue::Text(_) => 1,
        KeyValue::Parts(_) => 2,
    }
}

impl View for SortKey {
    type V = KeyValue;

    open spec fn view(&self) -> KeyValue {
        match self {
            SortKey::Number(x) => KeyValue::Number(*x as int),
            SortKey::Text(t) => KeyValue::Text(t@),
            SortKey::Parts(p) => KeyValue::Parts(part_values(p@)),
        }
    }
}

/// The values of a sequence of keys.
pub open spec fn key_values(keys: Seq<SortKey>) -> Seq<KeyValue> {
    keys.map_values(|k: SortKey| k@)
}

/// The order of keys: numbers by value, texts lexicographically, paths by
/// their components, and keys of different kinds by [`key_rank`].
pub open spec fn key_order(a: KeyValue, b: KeyValue) -> Order {
    if key_rank(a) < key_rank(b) {
        Order::Less
    } else if key_rank(a) > key_rank(b) {
        Order::Greater
    } else {
        same_kind_order(a, b)
    }
}

/// The order of two keys of one kind.
pub open spec fn same_kind_order(a: KeyValue, b: KeyValue) -> Order {
    match (a, b) {
        (KeyValue::Number(x), KeyValue::Number(y)) => if x < y {
            Order::Less
        } else if x > y {
            Order::Greater
        } else {
            Order::Equal
        },
        (KeyValue::Text(x), KeyValue::Text(y)) => seq_order(x, y),
        (KeyValue::Parts(x), KeyValue::Parts(y)) => parts_order(x, y),
        _ => Order::Equal,
    }
}

/// `o` read in ascending (`desc == false`) or descending direction.
pub open spec fn directed(o: Order, desc: bool) -> Order {
    if desc {
        o.flip()
    } else {
        o
    }
}

/// Position `i` comes before position `j`: its key is smaller in the chosen
/// direction, or the keys are equal and `i` was first.
pub open spec fn goes_before(keys: Seq<KeyValue>, desc: bool, i: int, j: int) -> bool {
    let o = directed(key_order(keys[i], keys[j]), desc);
    o == Order::Less || (o == Order::Equal && i < j)
}

/// `p` lists every position of `keys` exactly once, each before the next.
pub open spec fn is_sort_order(keys: Seq<KeyValue>, desc: bool, p: Seq<int>) -> bool {
    &&& p.len() == keys.len()
    &&& forall|a: int| 0 <= a < p.len() ==> 0 <= #[trigger] p[a] < keys.len()
    &&& forall|x: int| 0 <= x < keys.len() ==> #[trigger] p.contains(x)
    &&& forall|a: int, b: int| 0 <= a < b < p.len() ==> goes_before(keys, desc, #[trigger] p[a], #[trigger] p[b])
}

/// Swapping the sides of [`key_order`] flips it; only equal keys are equal.
pub proof fn lemma_key_order_antisym(a: KeyValue, b: KeyValue)
    ensures
        key_order(b, a) == key_order(a, b).flip(),
        key_order(a, b) == Order::Equal <==> a == b,
{
    match (a, b) {
        (KeyValue::Text(x), KeyValue::Text(y)) => {
            lemma_seq_order_antisym(x, y);
        },
        (KeyValue::Parts(x), KeyValue::Parts(y)) => {
            lemma_parts_order_antisym(x, y);
        },
        _ => {},
    }
}

/// [`key_order`] orders transitively.
pub proof fn lemma_key_order_trans(a: KeyValue, b: KeyValue, c: KeyValue)
    requires
        key_order(a, b) == Order::Less,
        key_order(b, c) == Order::Less,
    ensures
        key_order(a, c) == Order::Less,
{
    match (a, b, c) {
        (KeyValue::Text(x), KeyValue::Text(y), KeyValue::Text(z)) => {
            lemma_seq_order_trans(x, y, z);
        },
        (KeyValue::Parts(x), KeyValue::Parts(y), KeyValue::Parts(z)) => {
            lemma_parts_order_trans(x, y, z);
        },
        _ => {},
    }
}

/// [`goes_before`] is a strict total order on the positions of `keys`.
pub proof fn lemma_goes_before(keys: Seq<KeyValue>, desc: bool, i: int, j: int, k: int)
    ensures
        i != j ==> goes_before(keys, desc, i, j) || goes_before(keys, desc, j, i),
        !(goes_before(keys, desc, i, j) && goes_before(keys, desc, j, i)),
        !goes_before(keys, desc, i, i),
        goes_before(keys, desc, i, j) && goes_before(keys, desc, j, k) ==> goes_before(keys, desc, i, k),
{
    lemma_key_order_antisym(keys[i], keys[j]);
    lemma_key_order_antisym(keys[j], keys[k]);
    lemma_key_order_antisym(keys[i], keys[k]);
    lemma_key_order_antisym(keys[i], keys[i]);
    if goes_before(keys, desc, i, j) && goes_before(keys, desc, j, k) {
        if desc {
            if key_order(keys[j], keys[i]) == Order::Less && key_order(keys[k], keys[j]) == Order::Less {
                lemma_key_order_trans(keys[k], keys[j], keys[i]);
            }
        } else {
            if key_order(keys[i], keys[j]) == Order::Less && key_order(keys[j], keys[k]) == Order::Less {
                lemma_key_order_trans(keys[i], keys[j], keys[k]);
            }
        }
    }
}

/// Two orders that both satisfy [`is_sort_order`] are the same: the sorted
/// order is determined by the keys and the direction.
pub proof fn law_sort_order_unique(keys: Seq<KeyValue>, desc: bool, p: Seq<int>, q: Seq<int>)
    requires
        is_sort_order(keys, desc, p),
        is_sort_order(keys, desc, q),
    ensures
        p == q,
{
    assert forall|a: int| 0 <= a < p.len() implies p[a] == q[a] by {
        lemma_sort_order_agree(keys, desc, p, q, a);
    }
    assert(p =~= q);
}

proof fn lemma_sort_order_agree(keys: Seq<KeyValue>, desc: bool, p: Seq<int>, q: Seq<int>, a: int)
    requires
        is_sort_order(keys, desc, p),
        is_sort_order(keys, desc, q),
        0 <= a < p.len(),
    ensures
        p[a] == q[a],
    decreases a,
{
    if a > 0 {
        lemma_sort_order_agree(keys, desc, p, q, a - 1);
    }
    assert forall|c: int| 0 <= c < a implies p[c] == q[c] by {
        lemma_sort_order_agree(keys, desc, p, q, c);
    }
    let x = q[a];
    assert(0 <= x < keys.len());
    assert(p.contains(x));
    let b = choose|b: int| 0 <= b < p.len() && #[trigger] p[b] == x;
    let y = p[a];
    assert(q.contains(y));
    let c = choose|c: int| 0 <= c < q.len() && #[trigger] q[c] == y;
    lemma_goes_before(keys, desc, x, y, x);
    lemma_goes_before(keys, desc, y, y, y);
    lemma_goes_before(keys, desc, x, x, x);
    if b < a {
        assert(q[b] == x);
        assert(goes_before(keys, desc, q[b], q[a]));
    }
    if c < a {
        assert(p[c] == y);
        assert(goes_before(keys, desc, p[c], p[a]));
    }
    if b > a && c > a {
        assert(goes_before(keys, desc, p[a], p[b]));
        assert(goes_before(keys, desc, q[a], q[c]));
    }
    if b > a && c == a {
        assert(goes_before(keys, desc, p[a], p[b]));
    }
    if b == a {
        assert(p[a] == q[a]);
    }
}

/// Where `x` goes in an order `p` of the positions below `x`: every position
/// before the returned one goes before `x`, and `x` goes before every other.
proof fn lemma_insert_position(keys: Seq<KeyValue>, desc: bool, p: Seq<int>, x: int, a: int) -> (pos: int)
    requires
        0 <= x < keys.len(),
        0 <= a <= p.len(),
        forall|b: int| 0 <= b < p.len() ==> 0 <= #[trigger] p[b] < x,
        forall|b: int, c: int| 0 <= b < c < p.len() ==> goes_before(keys, desc, #[trigger] p[b], #[trigger] p[c]),
        forall|b: int| 0 <= b < a ==> goes_before(keys, desc, #[trigger] p[b], x),
    ensures
        a <= pos <= p.len(),
        forall|b: int| 0 <= b < pos ==> goes_before(keys, desc, #[trigger] p[b], x),
        forall|b: int| pos <= b < p.len() ==> goes_before(keys, desc, x, #[trigger] p[b]),
    decreases p.len() - a,
{
    if a == p.len() {
        a
    } else if goes_before(keys, desc, x, p[a]) {
        assert forall|b: int| a <= b < p.len() implies goes_before(keys, desc, x, #[trigger] p[b]) by {
            if b > a {
                lemma_goes_before(keys, desc, x, p[a], p[b]);
            }
        }
        a
    } else {
        lemma_goes_before(keys, desc, x, p[a], x);
        lemma_insert_position(keys, desc, p, x, a + 1)
    }
}

/// An order of the first `k` positions of `keys` (all when `k` is the length).
pub proof fn lemma_sort_order_exists(keys: Seq<KeyValue>, desc: bool, k: int) -> (p: Seq<int>)
    requires
        0 <= k <= keys.len(),
    ensures
        p.len() == k,
        forall|a: int| 0 <= a < p.len() ==> 0 <= #[trigger] p[a] < k,
        forall|x: int| 0 <= x < k ==> #[trigger] p.contains(x),
        forall|a: int, b: int| 0 <= a < b < p.len() ==> goes_before(keys, desc, #[trigger] p[a], #[trigger] p[b]),
    decreases k,
{
    if k == 0 {
        Seq::empty()
    } else {
        let x = k - 1;
        let p0 = lemma_sort_order_exists(keys, desc, x);
        let pos = lemma_insert_position(keys, desc, p0, x, 0);
        let p = p0.insert(pos, x);
        assert forall|a: int| 0 <= a < p.len() implies 0 <= #[trigger] p[a] < k by {
            if a < pos {
                assert(p[a] == p0[a]);
            } else if a > pos {
                assert(p[a] == p0[a - 1]);
            }
        }
        assert forall|y: int| 0 <= y < k implies #[trigger] p.contains(y) by {
            if y == x {
                assert(p[pos] == y);
            } else {
                assert(p0.contains(y));
                let a0 = choose|a: int| 0 <= a < p0.len() && p0[a] == y;
                if a0 < pos {
                    assert(p[a0] == y);
                } else {
                    assert(p[a0 + 1] == y);
                }
            }
        }
        assert forall|a: int, b: int| 0 <= a < b < p.len() implies goes_before(keys, desc, #[trigger] p[a], #[trigger] p[b]) by {
            if a < pos && b < pos {
                assert(p[a] == p0[a] && p[b] == p0[b]);
            } else if a < pos && b == pos {
                assert(p[a] == p0[a]);
            } else if a < pos {
                assert(p[a] == p0[a] && p[b] == p0[b - 1]);
            } else if a == pos {
                assert(p[b] == p0[b - 1]);
            } else {
                assert(p[a] == p0[a - 1] && p[b] == p0[b - 1]);
            }
        }
        p
    }
}

/// Where a kind of component stands in the order of components.
fn rank_of(p: &PathPart) -> (r: u8)
    ensures
        r as int == part_rank(part_value(*p)),
{
    match p {
        PathPart::RootDir => 0,
        PathPart::CurDir => 1,
        PathPart::ParentDir => 2,
        PathPart::Normal(_) => 3,
    }
}

/// Compares two path components by [`part_order`].
pub fn compare_part(a: &PathPart, b: &PathPart) -> (r: Order)
    ensures
        r == part_order(part_value(*a), part_value(*b)),
{
    let ra = rank_of(a);
    let rb = rank_of(b);
    if ra < rb {
        Order::Less
    } else if ra > rb {
        Order::Greater
    } else {
        match (a, b) {
            (PathPart::Normal(x), PathPart::Normal(y)) => compare_chars(x, y),
            _ => Order::Equal,
        }
    }
}

/// Compares two paths, given as components, by [`parts_order`].
pub fn compare_parts(a: &Vec<PathPart>, b: &Vec<PathPart>) -> (r: Order)
    ensures
        r == parts_order(part_values(a@), part_values(b@)),
{
    let ghost av = part_values(a@);
    let ghost bv = part_values(b@);
    let mut i: usize = 0;
    assert(av.skip(0) =~= av);
    assert(bv.skip(0) =~= bv);
    while i < a.len() && i < b.len()
        invariant
            av == part_values(a@),
            bv == part_values(b@),
            0 <= i <= a@.len(),
            i <= b@.len(),
            parts_order(av, bv) == parts_order(av.skip(i as int), bv.skip(i as int)),
        decreases a@.len() - i,
    {
        let o = compare_part(&a[i], &b[i]);
        proof {
            assert(av.skip(i as int)[0] == part_value(a@[i as int]));
            assert(bv.skip(i as int)[0] == part_value(b@[i as int]));
        }
        match o {
            Order::Equal => {},
            _ => {
                return o;
            },
        }
        proof {
            assert(av.skip(i as int).drop_first() =~= av.skip(i as int + 1));
            assert(bv.skip(i as int).drop_first() =~= bv.skip(i as int + 1));
        }
        i = i + 1;
    }
    if a.len() == b.len() {
        Order::Equal
    } else if i == a.len() {
        Order::Less
    } else {
        Order::Greater
    }
}

/// Compares two keys by [`key_order`].
pub fn compare_keys(a: &SortKey, b: &SortKey) -> (r: Order)
    ensures
        r == key_order(a@, b@),
{
    match (a, b) {
        (SortKey::Number(x), SortKey::Number(y)) => {
            if *x < *y {
                Order::Less
            } else if *x > *y {
                Order::Greater
            } else {
                Order::Equal
            }
        },
        (SortKey::Text(x), SortKey::Text(y)) => compare_chars(x, y),
        (SortKey::Parts(x), SortKey::Parts(y)) => compare_parts(x, y),
        (SortKey::Number(_), _) => Order::Less,
        (SortKey::Parts(_), _) => Order::Greater,
        (SortKey::Text(_), SortKey::Number(_)) => Order::Greater,
        (SortKey::Text(_), SortKey::Parts(_)) => Order::Less,
    }
}

/// Whether position `i` comes before position `j` ([`goes_before`]).
fn comes_before(keys: &Vec<SortKey>, desc: bool, i: usize, j: usize) -> (r: bool)
    requires
        i < keys@.len(),
        j < keys@.len(),
    ensures
        r == goes_before(key_values(keys@), desc, i as int, j as int),
{
    let o = compare_keys(&keys[i], &keys[j]);
    let d = if desc {
        match o {
            Order::Less => Order::Greater,
            Order::Equal => Order::Equal,
            Order::Greater => Order::Less,
        }
    } else {
        o
    };
    match d {
        Order::Less => true,
        Order::Equal => i < j,
        Order::Greater => false,
    }
}

/// The stable order of the positions of `keys`, ascending or (`desc`)
/// descending: a permutation in which each position comes before the next in
/// the sense of [`goes_before`] (there is exactly one such permutation, see
/// [`law_sort_order_unique`]).
pub fn sort_order(keys: &Vec<SortKey>, desc: bool) -> (order: Vec<usize>)
    ensures
        is_sort_order(key_values(keys@), desc, order@.map_values(|i: usize| i as int)),
{
    let ghost kv = key_values(keys@);
    let n = keys.len();
    let mut order: Vec<usize> = Vec::new();
    let mut k: usize = 0;
    while k < n
        invariant
            n == keys@.len(),
            kv == key_values(keys@),
            kv.len() == n,
            0 <= k <= n,
            order@.len() == k,
            forall|a: int| 0 <= a < k ==> #[trigger] order@[a] < k,
            forall|x: usize| x < k ==> #[trigger] order@.contains(x),
            forall|a: int, b: int|
                0 <= a < b < k ==> goes_before(kv, desc, #[trigger] order@[a] as int, #[trigger] order@[b] as int),
        decreases n - k,
    {
        let len = order.len();
        let mut lo: usize = 0;
        let mut hi: usize = len;
        while lo < hi
            invariant
                n == keys@.len(),
                kv == key_values(keys@),
                k < n,
                order@.len() == k,
                len == k,
                0 <= lo <= hi <= len,
                forall|a: int| 0 <= a < k ==> #[trigger] order@[a] < k,
                forall|a: int, b: int|
                    0 <= a < b < k ==> goes_before(kv, desc, #[trigger] order@[a] as int, #[trigger] order@[b] as int),
                forall|a: int| 0 <= a < lo ==> goes_before(kv, desc, #[trigger] order@[a] as int, k as int),
                forall|a: int| hi <= a < len ==> goes_before(kv, desc, k as int, #[trigger] order@[a] as int),
            decreases hi - lo,
        {
            let mid = lo + (hi - lo) / 2;
            let m = order[mid];
            if comes_before(keys, desc, k, m) {
                proof {
                    assert forall|a: int| mid <= a < len implies goes_before(kv, desc, k as int, #[trigger] order@[a] as int) by {
                        if a > mid {
                            lemma_goes_before(kv, desc, k as int, m as int, order@[a] as int);
                        }
                    }
                }
                hi = mid;
            } else {
                proof {
                    lemma_goes_before(kv, desc, k as int, m as int, k as int);
                    assert forall|a: int| 0 <= a <= mid implies goes_before(kv, desc, #[trigger] order@[a] as int, k as int) by {
                        if a < mid {
                            lemma_goes_before(kv, desc, order@[a] as int, m as int, k as int);
                        }
                    }
                }
                lo = mid + 1;
            }
        }
        let ghost old_order = order@;
        order.insert(lo, k);
        proof {
            let p = lo as int;
            assert forall|a: int| 0 <= a < k + 1 implies #[trigger] order@[a] < k + 1 by {
                if a < p {
                    assert(order@[a] == old_order[a]);
                } else if a > p {
                    assert(order@[a] == old_order[a - 1]);
                }
            }
            assert forall|x: usize| x < k + 1 implies #[trigger] order@.contains(x) by {
                if x == k {
                    assert(order@[p] == x);
                } else {
                    assert(old_order.contains(x));
                    let a0 = choose|a: int| 0 <= a < k && #[trigger] old_order[a] == x;
                    if a0 < p {
                        assert(order@[a0] == x);
                    } else {
                        assert(order@[a0 + 1] == x);
                    }
                }
            }
            assert forall|a: int, b: int| 0 <= a < b < k + 1 implies goes_before(kv, desc, #[trigger] order@[a] as int, #[trigger] order@[b] as int) by {
                if a < p && b < p {
                    assert(order@[a] == old_order[a] && order@[b] == old_order[b]);
                } else if a < p && b == p {
                    assert(order@[a] == old_order[a]);
                } else if a < p {
                    assert(order@[a] == old_order[a] && order@[b] == old_order[b - 1]);
                } else if a == p {
                    assert(order@[b] == old_order[b - 1]);
                } else {
                    assert(order@[a] == old_order[a - 1] && order@[b] == old_order[b - 1]);
                }
            }
        }
        k = k + 1;
    }
    proof {
        let p = order@.map_values(|i: usize| i as int);
        assert forall|x: int| 0 <= x < kv.len() implies #[trigger] p.contains(x) by {
            assert(order@.contains(x as usize));
            let a = choose|a: int| 0 <= a < n && #[trigger] order@[a] == x as usize;
            assert(p[a] == x);
        }
        assert forall|a: int, b: int| 0 <= a < b < p.len() implies goes_before(kv, desc, #[trigger] p[a], #[trigger] p[b]) by {
            assert(p[a] == order@[a] as int);
            assert(p[b] == order@[b] as int);
        }
    }
    order
}

} // verus!
