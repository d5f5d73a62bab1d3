//! Reading the mount table: the drives offered for browsing, the device a
//! path lives on, and whether a block device is a solid-state drive.
use vstd::prelude::*;
use crate::sort::{
    SortKey, KeyValue, PathPart, PartValue, part_values, part_order, parts_order, lemma_parts_order_antisym,
    lemma_parts_order_trans, compare_parts, is_sort_order, sort_order, law_sort_order_unique,
    lemma_sort_order_exists, goes_before,
};
use crate::text::{chars_of, push_char, Order};
use crate::paths::{path_parts, parts_of, path_starts_with, parts_start_with, is_plain_piece};
use crate::tree::strings_view;

verus! {

/// Unicode white space, the characters `char::is_whitespace` accepts.
pub open spec fn is_space(c: char) -> bool {
    ||| ('\u{9}' <= c && c <= '\u{d}')
    ||| c == ' '
    ||| c == '\u{85}'
    ||| c == '\u{a0}'
    ||| c == '\u{1680}'
    ||| ('\u{2000}' <= c && c <= '\u{200a}')
    ||| c == '\u{2028}'
    ||| c == '\u{2029}'
    ||| c == '\u{202f}'
    ||| c == '\u{205f}'
    ||| c == '\u{3000}'
}

/// Whether `c` is Unicode white space.
pub fn is_space_char(c: char) -> (r: bool)
    ensures
        r == is_space(c),
{
    ('\u{9}' <= c && c <= '\u{d}') || c == ' ' || c == '\u{85}' || c == '\u{a0}' || c == '\u{1680}'
        || ('\u{2000}' <= c && c <= '\u{200a}') || c == '\u{2028}' || c == '\u{2029}' || c == '\u{202f}'
        || c == '\u{205f}' || c == '\u{3000}'
}

/// The pieces of `s` between occurrences of `sep`, in order; there is one more
/// piece than there are separators, and pieces may be empty.
pub open spec fn split_on(s: Seq<char>, sep: char) -> Seq<Seq<char>>
    decreases s.len(),
{
    if s.len() == 0 {
        seq![Seq::empty()]
    } else {
        let prev = split_on(s.drop_last(), sep);
        if s.last() == sep {
            prev.push(Seq::empty())
        } else {
            prev.update(prev.len() - 1, prev.last().push(s.last()))
        }
    }
}

/// [`split_on`] never gives an empty sequence of pieces.
pub proof fn lemma_split_on_nonempty(s: Seq<char>, sep: char)
    ensures
        split_on(s, sep).len() > 0,
    decreases s.len(),
{
    if s.len() > 0 {
        lemma_split_on_nonempty(s.drop_last(), sep);
    }
}

/// The pieces of `s` between occurrences of `sep`.
pub fn split_chars(s: &Vec<char>, sep: char) -> (r: Vec<Vec<char>>)
    ensures
        r@.len() == split_on(s@, sep).len(),
        forall|i: int| 0 <= i < r@.len() ==> #[trigger] r@[i]@ == split_on(s@, sep)[i],
{
    let mut r: Vec<Vec<char>> = Vec::new();
    let mut cur: Vec<char> = Vec::new();
    let mut i: usize = 0;
    proof {
        assert(s@.take(0) =~= Seq::<char>::empty());
    }
    while i < s.len()
        invariant
            0 <= i <= s@.len(),
            r@.len() + 1 == split_on(s@.take(i as int), sep).len(),
            forall|j: int| 0 <= j < r@.len() ==> #[trigger] r@[j]@ == split_on(s@.take(i as int), sep)[j],
            cur@ == split_on(s@.take(i as int), sep).last(),
        decreases s@.len() - i,
    {
        let c = s[i];
        proof {
            lemma_split_on_nonempty(s@.take(i as int), sep);
            assert(s@.take(i as int + 1).drop_last() =~= s@.take(i as int));
            assert(s@.take(i as int + 1).last() == c);
        }
        if c == sep {
            let mut done: Vec<char> = Vec::new();
            std::mem::swap(&mut done, &mut cur);
            r.push(done);
        } else {
            cur.push(c);
        }
        i = i + 1;
    }
    proof {
        assert(s@.take(s@.len() as int) =~= s@);
    }
    r.push(cur);
    r
}

/// The maximal runs of non-space characters of `s`, in order
/// (what `str::split_whitespace` yields).
pub open spec fn fields(s: Seq<char>) -> Seq<Seq<char>>
    decreases s.len(),
{
    if s.len() == 0 {
        Seq::empty()
    } else {
        let prev = fields(s.drop_last());
        let c = s.last();
        if is_space(c) {
            prev
        } else if s.len() >= 2 && !is_space(s[s.len() - 2]) {
            prev.update(prev.len() - 1, prev.last().push(c))
        } else {
            prev.push(seq![c])
        }
    }
}

/// The maximal runs of non-space characters of `s`.
pub fn split_fields(s: &Vec<char>) -> (r: Vec<Vec<char>>)
    ensures
        r@.len() == fields(s@).len(),
        forall|i: int| 0 <= i < r@.len() ==> #[trigger] r@[i]@ == fields(s@)[i],
{
    let mut r: Vec<Vec<char>> = Vec::new();
    let mut cur: Vec<char> = Vec::new();
    let mut in_field = false;
    let mut i: usize = 0;
    proof {
        assert(s@.take(0) =~= Seq::<char>::empty());
    }
    while i < s.len()
        invariant
            0 <= i <= s@.len(),
            in_field == (i > 0 && !is_space(s@[i - 1])),
            in_field ==> r@.len() + 1 == fields(s@.take(i as int)).len() && cur@ == fields(s@.take(i as int)).last(),
            !in_field ==> r@.len() == fields(s@.take(i as int)).len(),
            forall|j: int| 0 <= j < r@.len() ==> #[trigger] r@[j]@ == fields(s@.take(i as int))[j],
        decreases s@.len() - i,
    {
        let c = s[i];
        let ghost t = s@.take(i as int + 1);
        proof {
            assert(t.drop_last() =~= s@.take(i as int));
            assert(t.last() == c);
            if i > 0 {
                assert(t[t.len() - 2] == s@[i - 1]);
            }
        }
        if is_space_char(c) {
            if in_field {
                let mut done: Vec<char> = Vec::new();
            std::mem::swap(&mut done, &mut cur);
                r.push(done);
            }
            in_field = false;
        } else {
            if in_field {
                cur.push(c);
            } else {
                cur = Vec::new();
                cur.push(c);
                proof {
                    assert(cur@ =~= seq![c]);
                }
            }
            in_field = true;
        }
        i = i + 1;
    }
    proof {
        assert(s@.take(s@.len() as int) =~= s@);
    }
    if in_field {
        r.push(cur);
    }
    r
}

/// `prefix` is an initial part of `s`.
pub open spec fn starts_with(s: Seq<char>, prefix: Seq<char>) -> bool {
    prefix.len() <= s.len() && s.take(prefix.len() as int) == prefix
}

/// Whether `prefix` is an initial part of `s`.
pub fn starts_with_chars(s: &Vec<char>, prefix: &[char]) -> (r: bool)
    ensures
        r == starts_with(s@, prefix@),
{
    if prefix.len() > s.len() {
        return false;
    }
    let mut i: usize = 0;
    while i < prefix.len()
        invariant
            prefix@.len() <= s@.len(),
            0 <= i <= prefix@.len(),
            forall|j: int| 0 <= j < i ==> s@[j] == prefix@[j],
        decreases prefix@.len() - i,
    {
        if s[i] != prefix[i] {
            proof {
                assert(s@.take(prefix@.len() as int)[i as int] != prefix@[i as int]);
            }
            return false;
        }
        i = i + 1;
    }
    proof {
        assert(s@.take(prefix@.len() as int) =~= prefix@);
    }
    true
}

/// Whether two character sequences are equal.
pub fn same_chars(a: &Vec<char>, b: &[char]) -> (r: bool)
    ensures
        r == (a@ == b@),
{
    if a.len() != b.len() {
        return false;
    }
    let r = starts_with_chars(a, b);
    proof {
        assert(a@.take(b@.len() as int) =~= a@);
    }
    r
}

/// A string made of the given characters.
pub fn string_of(chars: &Vec<char>) -> (r: String)
    ensures
        r@ == chars@,
{
    let mut r = String::new();
    let mut i: usize = 0;
    while i < chars.len()
        invariant
            0 <= i <= chars@.len(),
            r@ == chars@.take(i as int),
        decreases chars@.len() - i,
    {
        push_char(&mut r, chars[i]);
        proof {
            assert(chars@.take(i as int + 1) =~= chars@.take(i as int).push(chars@[i as int]));
        }
        i = i + 1;
    }
    proof {
        assert(chars@.take(chars@.len() as int) =~= chars@);
    }
    r
}

/// A line of the mount table names a drive worth offering: it has a device,
/// a mount point and a file system type, the device is under `/dev/` or the
/// file system is ZFS, and the mount point is not under `/proc`, `/sys` or
/// `/dev` (compared as text).
pub open spec fn offered(f: Seq<Seq<char>>) -> bool {
    &&& f.len() >= 3
    &&& (starts_with(f[0], seq!['/', 'd', 'e', 'v', '/']) || f[2] == seq!['z', 'f', 's'])
    &&& !starts_with(f[1], seq!['/', 'p', 'r', 'o', 'c'])
    &&& !starts_with(f[1], seq!['/', 's', 'y', 's'])
    &&& !starts_with(f[1], seq!['/', 'd', 'e', 'v'])
}

/// The mount points of the offered lines, in order.
pub open spec fn offered_mounts(lines: Seq<Seq<char>>) -> Seq<Seq<char>>
    decreases lines.len(),
{
    if lines.len() == 0 {
        Seq::empty()
    } else {
        let prev = offered_mounts(lines.drop_last());
        let f = fields(lines.last());
        if offered(f) {
            prev.push(f[1])
        } else {
            prev
        }
    }
}

/// What paths are ordered and compared by: their components (see
/// [`path_parts`]), as `Path`'s order and equality go by them.
pub open spec fn path_sort_key(s: Seq<char>) -> KeyValue {
    KeyValue::Parts(path_parts(s))
}

/// Paths in ascending order of their components, equal ones keeping their
/// order.
pub open spec fn sorted_paths(s: Seq<Seq<char>>) -> Seq<Seq<char>> {
    let keys = s.map_values(|x: Seq<char>| path_sort_key(x));
    let p = choose|p: Seq<int>| is_sort_order(keys, false, p);
    p.map_values(|i: int| s[i])
}

/// Paths with each run of consecutive equal ones (equal components) cut to
/// its first.
pub open spec fn deduped_paths(s: Seq<Seq<char>>) -> Seq<Seq<char>>
    decreases s.len(),
{
    if s.len() <= 1 {
        s
    } else {
        let prev = deduped_paths(s.drop_last());
        if path_parts(s.last()) == path_parts(s[s.len() - 2]) {
            prev
        } else {
            prev.push(s.last())
        }
    }
}

/// The character sequences of a sequence of character vectors.
pub open spec fn vecs_view(v: Seq<Vec<char>>) -> Seq<Seq<char>> {
    v.map_values(|x: Vec<char>| x@)
}

/// Paths in nondecreasing order of their components.
pub open spec fn paths_nondecreasing(s: Seq<Seq<char>>) -> bool {
    forall|a: int, b: int|
        0 <= a < b < s.len() ==> parts_order(path_parts(#[trigger] s[a]), path_parts(#[trigger] s[b])) != Order::Greater
}

/// Paths in strictly increasing order of their components.
pub open spec fn paths_increasing(s: Seq<Seq<char>>) -> bool {
    forall|a: int, b: int|
        0 <= a < b < s.len() ==> parts_order(path_parts(#[trigger] s[a]), path_parts(#[trigger] s[b])) == Order::Less
}

/// Cutting the runs of a nondecreasing sequence leaves it strictly increasing,
/// starting with the input's first path and ending with one of the same
/// components as the input's last.
proof fn lemma_deduped_increasing(s: Seq<Seq<char>>)
    requires
        paths_nondecreasing(s),
    ensures
        paths_increasing(deduped_paths(s)),
        s.len() > 0 ==> deduped_paths(s).len() > 0 && path_parts(deduped_paths(s).last()) == path_parts(s.last())
            && deduped_paths(s)[0] == s[0],
        deduped_paths(s).len() <= s.len(),
    decreases s.len(),
{
    if s.len() > 1 {
        let t = s.drop_last();
        assert forall|a: int, b: int| 0 <= a < b < t.len() implies parts_order(
            path_parts(#[trigger] t[a]),
            path_parts(#[trigger] t[b]),
        ) != Order::Greater by {
            assert(t[a] == s[a] && t[b] == s[b]);
        }
        lemma_deduped_increasing(t);
        let d = deduped_paths(t);
        let n = s.len() as int;
        lemma_parts_order_antisym(path_parts(s[n - 2]), path_parts(s[n - 1]));
        if path_parts(s.last()) != path_parts(s[n - 2]) {
            let r = d.push(s.last());
            assert(parts_order(path_parts(s[n - 2]), path_parts(s[n - 1])) == Order::Less);
            assert forall|a: int, b: int| 0 <= a < b < r.len() implies parts_order(
                path_parts(#[trigger] r[a]),
                path_parts(#[trigger] r[b]),
            ) == Order::Less by {
                if b == r.len() - 1 {
                    if a < d.len() - 1 {
                        assert(parts_order(path_parts(d[a]), path_parts(d.last())) == Order::Less);
                        lemma_parts_order_trans(path_parts(d[a]), path_parts(d.last()), path_parts(s.last()));
                    }
                } else {
                    assert(r[a] == d[a] && r[b] == d[b]);
                }
            }
        }
    }
}

/// The candidates for the drives: the root `/`, then the offered mount points
/// of the mount table if it could be read.
pub open spec fn drive_candidates(mount_table: Option<Seq<char>>) -> Seq<Seq<char>> {
    let mounts = match mount_table {
        Some(t) => offered_mounts(split_on(t, '\n')),
        None => Seq::empty(),
    };
    seq![seq!['/']] + mounts
}

/// The candidates in sorted order: some sort order exists, and the sorted
/// candidates are nondecreasing.
proof fn lemma_sorted_candidates(c: Seq<Seq<char>>) -> (p: Seq<int>)
    ensures
        is_sort_order(c.map_values(|x: Seq<char>| path_sort_key(x)), false, p),
        sorted_paths(c) == p.map_values(|i: int| c[i]),
        paths_nondecreasing(sorted_paths(c)),
{
    let keys = c.map_values(|x: Seq<char>| path_sort_key(x));
    let w = lemma_sort_order_exists(keys, false, keys.len() as int);
    let p = choose|p: Seq<int>| is_sort_order(keys, false, p);
    law_sort_order_unique(keys, false, w, p);
    let sorted = sorted_paths(c);
    assert(sorted == p.map_values(|i: int| c[i]));
    assert forall|a: int, b: int| 0 <= a < b < sorted.len() implies parts_order(
        path_parts(#[trigger] sorted[a]),
        path_parts(#[trigger] sorted[b]),
    ) != Order::Greater by {
        assert(goes_before(keys, false, p[a], p[b]));
        assert(keys[p[a]] == path_sort_key(sorted[a]));
        assert(keys[p[b]] == path_sort_key(sorted[b]));
    }
    p
}

/// The drives are sorted by their components with no two alike: each comes
/// strictly before the next.
pub proof fn law_drives_sorted_without_repeats(mount_table: Option<Seq<char>>)
    ensures
        paths_increasing(drives(mount_table)),
{
    lemma_sorted_candidates(drive_candidates(mount_table));
    lemma_deduped_increasing(sorted_paths(drive_candidates(mount_table)));
}

/// The first piece of a text that does not start with the separator is not
/// empty.
proof fn lemma_split_on_first(s: Seq<char>, sep: char)
    requires
        s.len() > 0,
        s[0] != sep,
    ensures
        split_on(s, sep)[0].len() > 0,
    decreases s.len(),
{
    lemma_split_on_nonempty(s, sep);
    let prev = split_on(s.drop_last(), sep);
    lemma_split_on_nonempty(s.drop_last(), sep);
    if s.len() == 1 {
        assert(s.drop_last() =~= Seq::<char>::empty());
        assert(prev == seq![Seq::<char>::empty()]);
        assert(split_on(s, sep)[0] == prev[0].push(s[0]));
    } else {
        assert(s.drop_last()[0] == s[0]);
        lemma_split_on_first(s.drop_last(), sep);
        if s.last() == sep {
            assert(split_on(s, sep)[0] == prev[0]);
        } else {
            let u = prev.update(prev.len() - 1, prev.last().push(s.last()));
            assert(split_on(s, sep) == u);
            if prev.len() == 1 {
                assert(u[0] == prev.last().push(s.last()));
            } else {
                assert(u[0] == prev[0]);
            }
        }
    }
}

/// The root `/` has the root as its one component.
proof fn lemma_root_parts()
    ensures
        path_parts(seq!['/']) == seq![PartValue::RootDir],
{
    let r = seq!['/'];
    let e = Seq::<char>::empty();
    assert(r.drop_last() =~= e);
    assert(split_on(e, '/') == seq![e]);
    let pr = split_on(r, '/');
    assert(pr =~= seq![e, e]);
    let pred = |p: Seq<char>| is_plain_piece(p);
    assert(pr.all(|x: Seq<char>| !pred(x)));
    pr.lemma_all_neg_filter_empty(pred);
    assert(path_parts(r) =~= seq![PartValue::RootDir]);
}

/// No path of at least one character has components smaller than those of
/// the root `/`.
proof fn lemma_root_least(s: Seq<char>)
    requires
        s.len() > 0,
    ensures
        parts_order(path_parts(seq!['/']), path_parts(s)) != Order::Greater,
{
    lemma_root_parts();
    let root = path_parts(seq!['/']);
    let ps = split_on(s, '/');
    lemma_split_on_nonempty(s, '/');
    let q = path_parts(s);
    let pred = |p: Seq<char>| is_plain_piece(p);
    reveal_with_fuel(parts_order, 2);
    assert(root[0] == PartValue::RootDir && root.len() == 1);
    if s[0] == '/' {
        assert(q.len() > 0 && q[0] == PartValue::RootDir);
        assert(part_order(root[0], q[0]) == Order::Equal);
        assert(root.drop_first() =~= Seq::<PartValue>::empty());
        assert(parts_order(root.drop_first(), q.drop_first()) != Order::Greater);
    } else {
        lemma_split_on_first(s, '/');
        if ps[0] != seq!['.'] {
            ps.lemma_filter_contains(pred, 0);
            assert(ps.filter(pred).len() > 0);
        }
        assert(q.len() > 0);
        assert(q[0] != PartValue::RootDir);
        assert(part_order(root[0], q[0]) == Order::Less);
    }
}

/// Every field of a text is non-empty; a text ending in a non-space
/// character has a field.
proof fn lemma_fields_nonempty(s: Seq<char>)
    ensures
        forall|i: int| 0 <= i < fields(s).len() ==> #[trigger] fields(s)[i].len() > 0,
        s.len() > 0 && !is_space(s.last()) ==> fields(s).len() > 0,
    decreases s.len(),
{
    if s.len() > 0 {
        let prev = fields(s.drop_last());
        lemma_fields_nonempty(s.drop_last());
        let c = s.last();
        if is_space(c) {
        } else if s.len() >= 2 && !is_space(s[s.len() - 2]) {
            assert(s.drop_last().last() == s[s.len() - 2]);
            let u = prev.update(prev.len() - 1, prev.last().push(c));
            assert(fields(s) == u);
            assert forall|i: int| 0 <= i < u.len() implies #[trigger] u[i].len() > 0 by {
                if i != prev.len() - 1 {
                    assert(u[i] == prev[i]);
                }
            }
        } else {
            let u = prev.push(seq![c]);
            assert(fields(s) == u);
            assert forall|i: int| 0 <= i < u.len() implies #[trigger] u[i].len() > 0 by {
                if i < prev.len() {
                    assert(u[i] == prev[i]);
                }
            }
        }
    }
}

/// Every offered mount point is non-empty.
proof fn lemma_offered_nonempty(lines: Seq<Seq<char>>)
    ensures
        forall|i: int| 0 <= i < offered_mounts(lines).len() ==> #[trigger] offered_mounts(lines)[i].len() > 0,
    decreases lines.len(),
{
    if lines.len() > 0 {
        let prev = offered_mounts(lines.drop_last());
        lemma_offered_nonempty(lines.drop_last());
        let f = fields(lines.last());
        lemma_fields_nonempty(lines.last());
        if offered(f) {
            let u = prev.push(f[1]);
            assert(f[1].len() > 0);
            assert forall|i: int| 0 <= i < u.len() implies #[trigger] u[i].len() > 0 by {
                if i < prev.len() {
                    assert(u[i] == prev[i]);
                }
            }
        }
    }
}

/// The root `/` is always the first drive.
pub proof fn law_drives_start_at_root(mount_table: Option<Seq<char>>)
    ensures
        drives(mount_table).len() > 0,
        drives(mount_table)[0] == seq!['/'],
{
    let c = drive_candidates(mount_table);
    let keys = c.map_values(|x: Seq<char>| path_sort_key(x));
    let p = lemma_sorted_candidates(c);
    match mount_table {
        Some(t) => lemma_offered_nonempty(split_on(t, '\n')),
        None => {},
    }
    assert forall|i: int| 0 <= i < c.len() implies #[trigger] c[i].len() > 0 by {
        if i > 0 {
            assert(c[i] == c.drop_first()[i - 1]);
        }
    }
    assert(p.contains(0));
    let b = choose|b: int| 0 <= b < p.len() && p[b] == 0;
    if b > 0 {
        let x = p[0];
        assert(goes_before(keys, false, x, p[b]));
        lemma_root_least(c[x]);
        lemma_parts_order_antisym(path_parts(c[0]), path_parts(c[x]));
        assert(false);
    }
    lemma_deduped_increasing(sorted_paths(c));
}

/// Some path of `s` has the same components as `x` (is the same path to
/// `Path`'s equality).
pub open spec fn has_same_path(s: Seq<Seq<char>>, x: Seq<char>) -> bool {
    exists|i: int| 0 <= i < s.len() && path_parts(#[trigger] s[i]) == path_parts(x)
}

/// Cutting runs keeps only paths of the input, and leaves for each path of
/// the input one with the same components.
proof fn lemma_deduped_members(s: Seq<Seq<char>>)
    ensures
        forall|i: int| 0 <= i < deduped_paths(s).len() ==> s.contains(#[trigger] deduped_paths(s)[i]),
        forall|j: int| 0 <= j < s.len() ==> has_same_path(deduped_paths(s), #[trigger] s[j]),
    decreases s.len(),
{
    let d = deduped_paths(s);
    if s.len() <= 1 {
        assert forall|j: int| 0 <= j < s.len() implies has_same_path(d, #[trigger] s[j]) by {
            assert(path_parts(d[j]) == path_parts(s[j]));
        }
    } else {
        let t = s.drop_last();
        let prev = deduped_paths(t);
        let n = s.len() as int;
        lemma_deduped_members(t);
        assert forall|i: int| 0 <= i < d.len() implies s.contains(#[trigger] d[i]) by {
            if i < prev.len() {
                assert(d[i] == prev[i]);
                assert(t.contains(prev[i]));
                let k = choose|k: int| 0 <= k < t.len() && t[k] == prev[i];
                assert(s[k] == t[k]);
            } else {
                assert(d[i] == s[n - 1]);
            }
        }
        assert forall|j: int| 0 <= j < s.len() implies has_same_path(d, #[trigger] s[j]) by {
            let jj = if j == n - 1 { n - 2 } else { j };
            assert(t[jj] == s[jj]);
            assert(has_same_path(prev, t[jj]));
            let i = choose|i: int| 0 <= i < prev.len() && path_parts(#[trigger] prev[i]) == path_parts(t[jj]);
            if j == n - 1 && path_parts(s.last()) != path_parts(s[n - 2]) {
                assert(d[prev.len() as int] == s[j]);
            } else {
                assert(d[i] == prev[i]);
            }
        }
    }
}

/// The drives are exactly the candidates, up to equal paths: each drive is
/// the root or an offered mount point, and each of those is among the drives
/// as the same path.
pub proof fn law_drives_are_the_candidates(mount_table: Option<Seq<char>>)
    ensures
        forall|i: int|
            0 <= i < drives(mount_table).len() ==> drive_candidates(mount_table).contains(
                #[trigger] drives(mount_table)[i],
            ),
        forall|j: int|
            0 <= j < drive_candidates(mount_table).len() ==> has_same_path(
                drives(mount_table),
                #[trigger] drive_candidates(mount_table)[j],
            ),
{
    let c = drive_candidates(mount_table);
    let p = lemma_sorted_candidates(c);
    let sorted = sorted_paths(c);
    let d = drives(mount_table);
    lemma_deduped_members(sorted);
    assert forall|i: int| 0 <= i < d.len() implies c.contains(#[trigger] d[i]) by {
        assert(sorted.contains(d[i]));
        let k = choose|k: int| 0 <= k < sorted.len() && sorted[k] == d[i];
        assert(sorted[k] == c[p[k]]);
    }
    assert forall|j: int| 0 <= j < c.len() implies has_same_path(d, #[trigger] c[j]) by {
        assert(p.contains(j));
        let k = choose|k: int| 0 <= k < p.len() && p[k] == j;
        assert(sorted[k] == c[j]);
        assert(has_same_path(d, sorted[k]));
    }
}

/// The drives offered for browsing: the root `/` and the offered mount points
/// of the mount table, if it could be read, sorted by their components and
/// without repeats.
pub open spec fn drives(mount_table: Option<Seq<char>>) -> Seq<Seq<char>> {
    deduped_paths(sorted_paths(drive_candidates(mount_table)))
}


/// Whether a line's fields name a drive worth offering (see [`offered`]).
fn is_offered(f: &Vec<Vec<char>>) -> (r: bool)
    ensures
        r == offered(vecs_view(f@)),
{
    if f.len() < 3 {
        return false;
    }
    let ghost v = vecs_view(f@);
    proof {
        assert(v[0] == f@[0]@ && v[1] == f@[1]@ && v[2] == f@[2]@);
        assert(['/', 'd', 'e', 'v', '/']@ =~= seq!['/', 'd', 'e', 'v', '/']);
        assert(['z', 'f', 's']@ =~= seq!['z', 'f', 's']);
        assert(['/', 'p', 'r', 'o', 'c']@ =~= seq!['/', 'p', 'r', 'o', 'c']);
        assert(['/', 's', 'y', 's']@ =~= seq!['/', 's', 'y', 's']);
        assert(['/', 'd', 'e', 'v']@ =~= seq!['/', 'd', 'e', 'v']);
    }
    let from_dev = starts_with_chars(&f[0], &['/', 'd', 'e', 'v', '/']);
    let zfs = same_chars(&f[2], &['z', 'f', 's']);
    let proc_dir = starts_with_chars(&f[1], &['/', 'p', 'r', 'o', 'c']);
    let sys_dir = starts_with_chars(&f[1], &['/', 's', 'y', 's']);
    let dev_dir = starts_with_chars(&f[1], &['/', 'd', 'e', 'v']);
    (from_dev || zfs) && !proc_dir && !sys_dir && !dev_dir
}

/// The drives offered for browsing (see [`drives`]): `/` and the offered
/// mount points of the mount table, when it could be read, sorted by their
/// components and without repeats. Without a mount table this is just `/`.
pub fn get_available_drives(mount_table: Option<&str>) -> (r: Vec<String>)
    ensures
        strings_view(r@) == drives(
            match mount_table {
                Some(t) => Some(t@),
                None => None,
            },
        ),
{
    let ghost table = match mount_table {
        Some(t) => Some(t@),
        None => None,
    };
    let ghost mounts = match table {
        Some(t) => offered_mounts(split_on(t, '\n')),
        None => Seq::<Seq<char>>::empty(),
    };
    assert(drive_candidates(table) == seq![seq!['/']] + mounts);
    let ghost start = seq![seq!['/']];
    let mut cands: Vec<Vec<char>> = Vec::new();
    let mut root: Vec<char> = Vec::new();
    root.push('/');
    cands.push(root);
    proof {
        assert(vecs_view(cands@) =~= start);
    }
    match mount_table {
        Some(t) => {
            let text = chars_of(t);
            let lines = split_chars(&text, '\n');
            let ghost all = split_on(t@, '\n');
            let mut i: usize = 0;
            proof {
                assert(all.take(0) =~= Seq::<Seq<char>>::empty());
            }
            while i < lines.len()
                invariant
                    all == split_on(t@, '\n'),
                    lines@.len() == all.len(),
                    forall|j: int| 0 <= j < lines@.len() ==> #[trigger] lines@[j]@ == all[j],
                    0 <= i <= lines@.len(),
                    vecs_view(cands@) == start + offered_mounts(all.take(i as int)),
                decreases lines@.len() - i,
            {
                let f = split_fields(&lines[i]);
                let ok = is_offered(&f);
                proof {
                    assert(all.take(i as int + 1).drop_last() =~= all.take(i as int));
                    assert(all.take(i as int + 1).last() == lines@[i as int]@);
                    assert(vecs_view(f@) =~= fields(lines@[i as int]@));
                }
                if ok {
                    let ghost before = vecs_view(cands@);
                    cands.push(f[1].clone());
                    proof {
                        assert(vecs_view(cands@) =~= before.push(f@[1]@));
                    }
                }
                i = i + 1;
            }
            proof {
                assert(all.take(lines@.len() as int) =~= all);
            }
        },
        None => {
            proof {
                assert(start + mounts =~= start);
            }
        },
    }
    let ghost cv = vecs_view(cands@);
    assert(cv == start + mounts);
    // Order the candidates by their components.
    let n = cands.len();
    let mut keys: Vec<SortKey> = Vec::new();
    let mut parts: Vec<Vec<PathPart>> = Vec::new();
    let mut i: usize = 0;
    while i < n
        invariant
            n == cands@.len(),
            cv == vecs_view(cands@),
            0 <= i <= n,
            keys@.len() == i,
            parts@.len() == i,
            forall|j: int| 0 <= j < i ==> #[trigger] keys@[j]@ == path_sort_key(cv[j]),
            forall|j: int| 0 <= j < i ==> #[trigger] part_values(parts@[j]@) == path_parts(cv[j]),
        decreases n - i,
    {
        let k = parts_of(&cands[i]);
        parts.push(parts_of(&cands[i]));
        keys.push(SortKey::Parts(k));
        i = i + 1;
    }
    let ghost kv = cv.map_values(|x: Seq<char>| path_sort_key(x));
    proof {
        assert(crate::sort::key_values(keys@) =~= kv);
    }
    let order = sort_order(&keys, false);
    let ghost p = order@.map_values(|x: usize| x as int);
    proof {
        let q = choose|q: Seq<int>| is_sort_order(kv, false, q);
        law_sort_order_unique(kv, false, p, q);
    }
    let ghost sorted = sorted_paths(cv);
    assert(cv == drive_candidates(table));
    assert(sorted == p.map_values(|j: int| cv[j]));
    // Keep the first of each run of equal paths.
    let mut out: Vec<String> = Vec::new();
    let mut a: usize = 0;
    proof {
        assert(sorted.take(0) =~= Seq::<Seq<char>>::empty());
        assert(strings_view(out@) =~= deduped_paths(sorted.take(0)));
    }
    while a < n
        invariant
            n == cands@.len(),
            cv == vecs_view(cands@),
            is_sort_order(kv, false, p),
            kv.len() == n,
            p == order@.map_values(|x: usize| x as int),
            order@.len() == n,
            sorted == p.map_values(|j: int| cv[j]),
            parts@.len() == n,
            forall|j: int| 0 <= j < n ==> #[trigger] part_values(parts@[j]@) == path_parts(cv[j]),
            0 <= a <= n,
            strings_view(out@) == deduped_paths(sorted.take(a as int)),
        decreases n - a,
    {
        let idx = order[a];
        assert(p[a as int] == idx as int);
        let keep = if a == 0 {
            true
        } else {
            let prev = order[a - 1];
            assert(p[a - 1] == prev as int);
            let o = compare_parts(&parts[idx], &parts[prev]);
            proof {
                lemma_parts_order_antisym(part_values(parts@[idx as int]@), part_values(parts@[prev as int]@));
            }
            match o {
                Order::Equal => false,
                _ => true,
            }
        };
        proof {
            let t = sorted.take(a as int + 1);
            assert(t.drop_last() =~= sorted.take(a as int));
            assert(t.last() == cv[idx as int]);
            if a > 0 {
                assert(t[t.len() - 2] == cv[p[a - 1]]);
            }
        }
        if keep {
            let ghost before = strings_view(out@);
            let name = string_of(&cands[idx]);
            out.push(name);
            proof {
                assert(strings_view(out@) =~= before.push(cv[idx as int]));
            }
        }
        a = a + 1;
    }
    proof {
        assert(sorted.take(n as int) =~= sorted);
    }
    out
}

/// The number of bytes a character takes in UTF-8.
pub open spec fn utf8_width(c: char) -> nat {
    if c <= '\u{7f}' {
        1
    } else if c <= '\u{7ff}' {
        2
    } else if c <= '\u{ffff}' {
        3
    } else {
        4
    }
}

/// The number of bytes a text takes in UTF-8.
pub open spec fn utf8_len(s: Seq<char>) -> nat
    decreases s.len(),
{
    if s.len() == 0 {
        0
    } else {
        utf8_len(s.drop_last()) + utf8_width(s.last())
    }
}

/// The number of bytes `s` takes in UTF-8.
pub fn utf8_len_of(s: &Vec<char>) -> (n: u128)
    ensures
        n == utf8_len(s@),
{
    let mut n: u128 = 0;
    let mut i: usize = 0;
    while i < s.len()
        invariant
            0 <= i <= s@.len(),
            n == utf8_len(s@.take(i as int)),
            n <= 4 * i,
        decreases s@.len() - i,
    {
        let c = s[i];
        let w: u128 = if c <= '\u{7f}' {
            1
        } else if c <= '\u{7ff}' {
            2
        } else if c <= '\u{ffff}' {
            3
        } else {
            4
        };
        proof {
            assert(s@.take(i as int + 1).drop_last() =~= s@.take(i as int));
        }
        n = n + w;
        i = i + 1;
    }
    proof {
        assert(s@.take(s@.len() as int) =~= s@);
    }
    n
}

/// The device of the mount whose mount point is the longest (in bytes) one
/// that `path` lies under, scanning the lines in order; on a tie the later
/// line wins. Lines with fewer than two fields are skipped.
pub open spec fn best_mount(lines: Seq<Seq<char>>, path: Seq<char>) -> Option<(nat, Seq<char>)>
    decreases lines.len(),
{
    if lines.len() == 0 {
        None
    } else {
        let prev = best_mount(lines.drop_last(), path);
        let f = fields(lines.last());
        if f.len() >= 2 && path_starts_with(path, f[1]) {
            let len = utf8_len(f[1]);
            match prev {
                Some((best, _)) => if len >= best { Some((len, f[0])) } else { prev },
                None => Some((len, f[0])),
            }
        } else {
            prev
        }
    }
}

/// The device holding `path` according to the mount table (see
/// [`best_mount`]).
pub open spec fn device_for(mount_table: Seq<char>, path: Seq<char>) -> Option<Seq<char>> {
    match best_mount(split_on(mount_table, '\n'), path) {
        Some((_, dev)) => Some(dev),
        None => None,
    }
}

/// A line of the mount table is a mount that `path` lies under: it has a
/// device and a mount point, and the path's components begin with the mount
/// point's.
pub open spec fn covers(line: Seq<char>, path: Seq<char>) -> bool {
    let f = fields(line);
    f.len() >= 2 && path_starts_with(path, f[1])
}

/// Line `i` holds the mount `path` is found on: it covers the path, no line
/// that covers it has a longer mount point (in bytes), and every later line
/// that covers it has a shorter one.
pub open spec fn is_chosen_mount(lines: Seq<Seq<char>>, path: Seq<char>, i: int) -> bool {
    &&& 0 <= i < lines.len()
    &&& covers(lines[i], path)
    &&& forall|j: int|
        0 <= j < lines.len() && #[trigger] covers(lines[j], path) ==> utf8_len(fields(lines[j])[1]) <= utf8_len(
            fields(lines[i])[1],
        )
    &&& forall|j: int|
        i < j < lines.len() && #[trigger] covers(lines[j], path) ==> utf8_len(fields(lines[j])[1]) < utf8_len(
            fields(lines[i])[1],
        )
}

/// What [`best_mount`] finds, line by line.
proof fn lemma_best_mount(lines: Seq<Seq<char>>, path: Seq<char>)
    ensures
        best_mount(lines, path) is None <==> (forall|j: int| 0 <= j < lines.len() ==> !#[trigger] covers(lines[j], path)),
        best_mount(lines, path) matches Some((l, d)) ==> exists|i: int|
            #[trigger] is_chosen_mount(lines, path, i) && fields(lines[i])[0] == d && utf8_len(fields(lines[i])[1]) == l,
    decreases lines.len(),
{
    if lines.len() > 0 {
        let n = lines.len() as int;
        let t = lines.drop_last();
        lemma_best_mount(t, path);
        assert forall|j: int| 0 <= j < n - 1 implies lines[j] == t[j] by {}
        let last_covers = covers(lines[n - 1], path);
        assert(lines.last() == lines[n - 1]);
        match best_mount(t, path) {
            None => {
                if last_covers {
                    assert(is_chosen_mount(lines, path, n - 1)) by {
                        assert forall|j: int| 0 <= j < n && #[trigger] covers(lines[j], path) implies j == n - 1 by {
                            if j < n - 1 {
                                assert(!covers(t[j], path));
                            }
                        }
                    }
                } else {
                    assert forall|j: int| 0 <= j < n implies !#[trigger] covers(lines[j], path) by {
                        if j < n - 1 {
                            assert(!covers(t[j], path));
                        }
                    }
                }
            },
            Some((best, d0)) => {
                let i0 = choose|i: int| #[trigger] is_chosen_mount(t, path, i) && fields(t[i])[0] == d0 && utf8_len(
                    fields(t[i])[1],
                ) == best;
                assert(covers(lines[i0], path));
                let len = utf8_len(fields(lines[n - 1])[1]);
                if last_covers && len >= best {
                    assert(is_chosen_mount(lines, path, n - 1)) by {
                        assert forall|j: int| 0 <= j < n && #[trigger] covers(lines[j], path) implies utf8_len(
                            fields(lines[j])[1],
                        ) <= len by {
                            if j < n - 1 {
                                assert(covers(t[j], path));
                            }
                        }
                    }
                } else {
                    assert(is_chosen_mount(lines, path, i0)) by {
                        assert forall|j: int| 0 <= j < n && #[trigger] covers(lines[j], path) implies utf8_len(
                            fields(lines[j])[1],
                        ) <= best by {
                            if j < n - 1 {
                                assert(covers(t[j], path));
                            }
                        }
                        assert forall|j: int| i0 < j < n && #[trigger] covers(lines[j], path) implies utf8_len(
                            fields(lines[j])[1],
                        ) < best by {
                            if j < n - 1 {
                                assert(covers(t[j], path));
                            }
                        }
                    }
                }
            },
        }
    }
}

/// The device found for a path is that of the mount it lies under with the
/// longest mount point in bytes, the last such line of the table winning a
/// tie; there is none exactly when no line of the table is a mount the path
/// lies under.
pub proof fn law_device_is_on_longest_mount_point(mount_table: Seq<char>, path: Seq<char>)
    ensures
        device_for(mount_table, path) is None <==> (forall|j: int|
            0 <= j < split_on(mount_table, '\n').len() ==> !#[trigger] covers(split_on(mount_table, '\n')[j], path)),
        device_for(mount_table, path) matches Some(d) ==> exists|i: int|
            #[trigger] is_chosen_mount(split_on(mount_table, '\n'), path, i) && fields(split_on(mount_table, '\n')[i])[0]
                == d,
{
    lemma_best_mount(split_on(mount_table, '\n'), path);
}

/// The device holding `path` according to the mount table: the device of the
/// longest mount point (in bytes) that `path` lies under, the later line
/// winning a tie (see [`device_for`]).
pub fn mount_device_for(mount_table: &str, path: &str) -> (dev: Option<String>)
    ensures
        match dev {
            Some(d) => device_for(mount_table@, path@) == Some(d@),
            None => device_for(mount_table@, path@) is None,
        },
{
    let text = chars_of(mount_table);
    let path_chars = chars_of(path);
    let path_comps = parts_of(&path_chars);
    let lines = split_chars(&text, '\n');
    let ghost all = split_on(mount_table@, '\n');
    let mut best_len: u128 = 0;
    let mut best: Option<Vec<char>> = None;
    let mut i: usize = 0;
    proof {
        assert(all.take(0) =~= Seq::<Seq<char>>::empty());
    }
    while i < lines.len()
        invariant
            all == split_on(mount_table@, '\n'),
            lines@.len() == all.len(),
            forall|j: int| 0 <= j < lines@.len() ==> #[trigger] lines@[j]@ == all[j],
            part_values(path_comps@) == path_parts(path@),
            0 <= i <= lines@.len(),
            match best_mount(all.take(i as int), path@) {
                Some((l, d)) => best matches Some(b) && b@ == d && best_len == l,
                None => best is None,
            },
        decreases lines@.len() - i,
    {
        let f = split_fields(&lines[i]);
        proof {
            assert(all.take(i as int + 1).drop_last() =~= all.take(i as int));
            assert(all.take(i as int + 1).last() == lines@[i as int]@);
            assert(vecs_view(f@) =~= fields(lines@[i as int]@));
        }
        if f.len() >= 2 {
            let mount_comps = parts_of(&f[1]);
            if parts_start_with(&path_comps, &mount_comps) {
                let len = utf8_len_of(&f[1]);
                let better = match &best {
                    Some(_) => len >= best_len,
                    None => true,
                };
                if better {
                    best_len = len;
                    best = Some(f[0].clone());
                }
            }
        }
        i = i + 1;
    }
    proof {
        assert(all.take(lines@.len() as int) =~= all);
    }
    match best {
        Some(b) => Some(string_of(&b)),
        None => None,
    }
}

/// The root of the Windows drive with letter number `i` (`0` for `A`): the
/// letter, a colon and a backslash.
pub open spec fn drive_root(i: nat) -> Seq<char> {
    seq![(65 + i) as char, ':', '\\']
}

/// The roots of the drives whose bits are set among the lowest `n` bits of
/// a logical-drive mask, in letter order.
pub open spec fn mask_drives(mask: u32, n: nat) -> Seq<Seq<char>>
    decreases n,
{
    if n == 0 {
        Seq::empty()
    } else {
        let prev = mask_drives(mask, (n - 1) as nat);
        if (mask >> ((n - 1) as u32)) & 1 == 1 {
            prev.push(drive_root((n - 1) as nat))
        } else {
            prev
        }
    }
}

/// The Windows drives a logical-drive mask names: for each of the letters
/// `A` to `Z` whose bit is set (bit 0 for `A`), in order, the root `X:\`.
pub fn drive_paths_from_mask(mask: u32) -> (r: Vec<String>)
    ensures
        strings_view(r@) == mask_drives(mask, 26),
{
    let mut r: Vec<String> = Vec::new();
    let mut i: u32 = 0;
    while i < 26
        invariant
            0 <= i <= 26,
            strings_view(r@) == mask_drives(mask, i as nat),
        decreases 26 - i,
    {
        if (mask >> i) & 1 == 1 {
            let letter = (65u8 + i as u8) as char;
            let mut root: Vec<char> = Vec::new();
            root.push(letter);
            root.push(':');
            root.push('\\');
            let ghost before = strings_view(r@);
            r.push(string_of(&root));
            proof {
                assert(root@ =~= drive_root(i as nat));
                assert(strings_view(r@) =~= before.push(drive_root(i as nat)));
            }
        }
        i = i + 1;
    }
    r
}

/// The drive letter a Windows path starts with: its first character when
/// the second byte of the path is a colon, that is when the first character
/// is ASCII and the second is `:`.
pub open spec fn drive_letter(path: Seq<char>) -> Option<char> {
    if path.len() >= 2 && path[0] <= '\u{7f}' && path[1] == ':' {
        Some(path[0])
    } else {
        None
    }
}

/// The drive letter a Windows path starts with (see [`drive_letter`]).
pub fn drive_letter_of(path: &str) -> (r: Option<char>)
    ensures
        r == drive_letter(path@),
{
    let chars = chars_of(path);
    if chars.len() >= 2 && chars[0] <= '\u{7f}' && chars[1] == ':' {
        Some(chars[0])
    } else {
        None
    }
}

/// `s` without its leading white space.
pub open spec fn trim_start(s: Seq<char>) -> Seq<char>
    decreases s.len(),
{
    if s.len() > 0 && is_space(s[0]) {
        trim_start(s.drop_first())
    } else {
        s
    }
}

/// `s` without its trailing white space.
pub open spec fn trim_end(s: Seq<char>) -> Seq<char>
    decreases s.len(),
{
    if s.len() > 0 && is_space(s.last()) {
        trim_end(s.drop_last())
    } else {
        s
    }
}

/// Whether a device is a solid-state drive, from the content of its
/// `queue/rotational` file when one could be read: it is when the content,
/// without surrounding white space, is `0`. `None` when nothing was read.
pub fn detect_is_ssd(rotational: Option<&str>) -> (ssd: Option<bool>)
    ensures
        match rotational {
            Some(c) => ssd == Some(trim_end(trim_start(c@)) == seq!['0']),
            None => ssd is None,
        },
{
    match rotational {
        None => None,
        Some(c) => {
            let chars = chars_of(c);
            let mut lo: usize = 0;
            proof {
                assert(chars@.skip(0) =~= chars@);
            }
            while lo < chars.len() && is_space_char(chars[lo])
                invariant
                    0 <= lo <= chars@.len(),
                    trim_start(chars@) == trim_start(chars@.skip(lo as int)),
                decreases chars@.len() - lo,
            {
                proof {
                    assert(chars@.skip(lo as int).drop_first() =~= chars@.skip(lo as int + 1));
                }
                lo = lo + 1;
            }
            let ghost start = chars@.skip(lo as int);
            assert(trim_start(chars@) == start);
            let mut hi: usize = chars.len();
            proof {
                assert(start.take(start.len() as int) =~= start);
            }
            while hi > lo && is_space_char(chars[hi - 1])
                invariant
                    lo <= hi <= chars@.len(),
                    start == chars@.skip(lo as int),
                    trim_end(start) == trim_end(start.take(hi - lo)),
                decreases hi - lo,
            {
                proof {
                    assert(start.take(hi - lo).drop_last() =~= start.take(hi - lo - 1));
                    assert(start.take(hi - lo).last() == chars@[hi - 1]);
                }
                hi = hi - 1;
            }
            let ghost trimmed = start.take(hi - lo);
            assert(trim_end(start) == trimmed);
            let r = hi > lo && hi - lo == 1 && chars[lo] == '0';
            proof {
                if r {
                    assert(trimmed =~= seq!['0']);
                }
                if trimmed == seq!['0'] {
                    assert(trimmed.len() == 1);
                }
            }
            Some(r)
        },
    }
}

} // verus!
