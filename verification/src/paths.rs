//! Paths as `std::path::Path` reads them on Unix: their components, how one
//! path begins another, the last component as a file name, and what is left
//! of a path below `/dev`.
use vstd::prelude::*;
use crate::sort::{PathPart, PartValue, part_value, part_values, compare_part, lemma_part_order_antisym};
use crate::text::Order;
use crate::mounts::{split_on, split_chars, same_chars, string_of, lemma_split_on_nonempty};

verus! {

/// A piece between slashes that yields a component: not empty and not `.`.
pub open spec fn is_plain_piece(p: Seq<char>) -> bool {
    p.len() > 0 && p != seq!['.']
}

/// The component a plain piece yields: `..` or a plain name.
pub open spec fn piece_part(p: Seq<char>) -> PartValue {
    if p == seq!['.', '.'] {
        PartValue::ParentDir
    } else {
        PartValue::Normal(p)
    }
}

/// The path starts at the root.
pub open spec fn has_root(s: Seq<char>) -> bool {
    s.len() > 0 && s[0] == '/'
}

/// The components of a path, as `Path::components` gives them on Unix: the
/// root when the path starts with `/`; `.` when a relative path starts with
/// a `.` piece; then, for every other piece between slashes that is neither
/// empty nor `.`, `..` or the plain name.
pub open spec fn path_parts(s: Seq<char>) -> Seq<PartValue> {
    let pieces = split_on(s, '/');
    let root: Seq<PartValue> = if has_root(s) { seq![PartValue::RootDir] } else { Seq::empty() };
    let cur: Seq<PartValue> = if !has_root(s) && pieces[0] == seq!['.'] {
        seq![PartValue::CurDir]
    } else {
        Seq::empty()
    };
    root + cur + pieces.filter(|p: Seq<char>| is_plain_piece(p)).map_values(|p: Seq<char>| piece_part(p))
}

/// The components of a path (see [`path_parts`]).
pub fn parts_of(s: &Vec<char>) -> (r: Vec<PathPart>)
    ensures
        part_values(r@) == path_parts(s@),
{
    let ghost pred = |p: Seq<char>| is_plain_piece(p);
    let ghost f = |p: Seq<char>| piece_part(p);
    let pieces = split_chars(s, '/');
    let ghost all = split_on(s@, '/');
    proof {
        lemma_split_on_nonempty(s@, '/');
        assert(['.']@ =~= seq!['.']);
        assert(['.', '.']@ =~= seq!['.', '.']);
    }
    let rooted = s.len() > 0 && s[0] == '/';
    let mut r: Vec<PathPart> = Vec::new();
    if rooted {
        r.push(PathPart::RootDir);
    } else if same_chars(&pieces[0], &['.']) {
        r.push(PathPart::CurDir);
    }
    let ghost head = part_values(r@);
    proof {
        assert(head =~= (if has_root(s@) { seq![PartValue::RootDir] } else { Seq::<PartValue>::empty() })
            + (if !has_root(s@) && all[0] == seq!['.'] { seq![PartValue::CurDir] } else { Seq::<PartValue>::empty() }));
        assert(all.take(0) =~= Seq::<Seq<char>>::empty());
        reveal_with_fuel(Seq::filter, 1);
        assert(part_values(r@) =~= head + all.take(0).filter(pred).map_values(f));
    }
    let mut j: usize = 0;
    while j < pieces.len()
        invariant
            all == split_on(s@, '/'),
            pieces@.len() == all.len(),
            forall|i: int| 0 <= i < pieces@.len() ==> #[trigger] pieces@[i]@ == all[i],
            0 <= j <= pieces@.len(),
            pred == (|p: Seq<char>| is_plain_piece(p)),
            f == (|p: Seq<char>| piece_part(p)),
            ['.']@ == seq!['.'],
            ['.', '.']@ == seq!['.', '.'],
            part_values(r@) == head + all.take(j as int).filter(pred).map_values(f),
        decreases pieces@.len() - j,
    {
        let piece = &pieces[j];
        let dot = same_chars(piece, &['.']);
        let ghost t = all.take(j as int + 1);
        proof {
            reveal_with_fuel(Seq::filter, 1);
            assert(t.drop_last() =~= all.take(j as int));
            assert(t.last() == piece@);
        }
        if piece.len() > 0 && !dot {
            let ghost before = part_values(r@);
            let ghost kept = all.take(j as int).filter(pred);
            let part = if same_chars(piece, &['.', '.']) {
                PathPart::ParentDir
            } else {
                PathPart::Normal(piece.clone())
            };
            r.push(part);
            proof {
                assert(t.filter(pred) == kept.push(piece@));
                assert(kept.push(piece@).map_values(f) =~= kept.map_values(f).push(piece_part(piece@)));
                assert(part_values(r@) =~= before.push(part_value(part)));
            }
        }
        j = j + 1;
    }
    proof {
        assert(all.take(pieces@.len() as int) =~= all);
    }
    r
}

/// `base`'s components come first among `path`'s (`Path::starts_with`).
pub open spec fn path_starts_with(path: Seq<char>, base: Seq<char>) -> bool {
    let b = path_parts(base);
    let p = path_parts(path);
    b.len() <= p.len() && p.take(b.len() as int) == b
}

/// Whether the components `base` come first among the components `path`.
pub fn parts_start_with(path: &Vec<PathPart>, base: &Vec<PathPart>) -> (r: bool)
    ensures
        r == (part_values(base@).len() <= part_values(path@).len() && part_values(path@).take(
            part_values(base@).len() as int,
        ) == part_values(base@)),
{
    let ghost b = part_values(base@);
    let ghost p = part_values(path@);
    if base.len() > path.len() {
        return false;
    }
    let mut i: usize = 0;
    while i < base.len()
        invariant
            b == part_values(base@),
            p == part_values(path@),
            base@.len() <= path@.len(),
            0 <= i <= base@.len(),
            forall|j: int| 0 <= j < i ==> p[j] == b[j],
        decreases base@.len() - i,
    {
        let o = compare_part(&path[i], &base[i]);
        proof {
            lemma_part_order_antisym(p[i as int], b[i as int]);
        }
        match o {
            Order::Equal => {},
            _ => {
                proof {
                    assert(p.take(b.len() as int)[i as int] != b[i as int]);
                }
                return false;
            },
        }
        i = i + 1;
    }
    proof {
        assert(p.take(b.len() as int) =~= b);
    }
    true
}

/// The last component of a path when it is a plain name (`Path::file_name`).
pub open spec fn file_name(s: Seq<char>) -> Option<Seq<char>> {
    let p = path_parts(s);
    if p.len() > 0 {
        match p.last() {
            PartValue::Normal(n) => Some(n),
            _ => None,
        }
    } else {
        None
    }
}

/// The plain name the path ends in, if it ends in one.
fn file_name_of(path: &str) -> (n: Option<String>)
    ensures
        match n {
            Some(x) => file_name(path@) == Some(x@),
            None => file_name(path@) is None,
        },
{
    let chars = crate::text::chars_of(path);
    let parts = parts_of(&chars);
    if parts.len() == 0 {
        return None;
    }
    let last = parts.len() - 1;
    proof {
        assert(part_values(parts@).last() == part_value(parts@[last as int]));
    }
    match &parts[last] {
        PathPart::Normal(x) => Some(string_of(x)),
        _ => None,
    }
}

/// The name of a scanned entry: the file name of its path, or the whole path
/// when it has none (as for `/`).
pub fn entry_name(path: &str) -> (n: String)
    ensures
        n@ == (match file_name(path@) {
            Some(x) => x,
            None => path@,
        }),
{
    match file_name_of(path) {
        Some(x) => x,
        None => String::from_str(path),
    }
}

/// The name of the root of a browsed tree: the file name of its path, or `/`
/// when it has none.
pub fn root_name(path: &str) -> (n: String)
    ensures
        n@ == (match file_name(path@) {
            Some(x) => x,
            None => "/"@,
        }),
{
    match file_name_of(path) {
        Some(x) => x,
        None => String::from_str("/"),
    }
}

/// Pieces joined with `sep` between consecutive ones.
pub open spec fn joined(list: Seq<Seq<char>>, sep: char) -> Seq<char>
    decreases list.len(),
{
    if list.len() == 0 {
        Seq::empty()
    } else if list.len() == 1 {
        list[0]
    } else {
        joined(list.drop_last(), sep).push(sep) + list.last()
    }
}

/// The position of the first plain piece, or `-1`.
pub open spec fn first_plain(pieces: Seq<Seq<char>>) -> int
    decreases pieces.len(),
{
    if pieces.len() == 0 {
        -1
    } else if is_plain_piece(pieces[0]) {
        0
    } else {
        let r = first_plain(pieces.drop_first());
        if r < 0 {
            -1
        } else {
            r + 1
        }
    }
}

/// Pieces without the empty and `.` ones at the front.
pub open spec fn trim_front(p: Seq<Seq<char>>) -> Seq<Seq<char>>
    decreases p.len(),
{
    if p.len() > 0 && !is_plain_piece(p[0]) {
        trim_front(p.drop_first())
    } else {
        p
    }
}

/// Pieces without the empty and `.` ones at the back.
pub open spec fn trim_back(p: Seq<Seq<char>>) -> Seq<Seq<char>>
    decreases p.len(),
{
    if p.len() > 0 && !is_plain_piece(p.last()) {
        trim_back(p.drop_last())
    } else {
        p
    }
}

/// What `Path::strip_prefix("/dev/")` leaves of a device path: for a path
/// from the root whose first component is `dev`, the text after that
/// component, without empty and `.` pieces at either end; `None` otherwise.
pub open spec fn device_name(device_path: Seq<char>) -> Option<Seq<char>> {
    let pieces = split_on(device_path, '/');
    let k = first_plain(pieces);
    if has_root(device_path) && k >= 0 && pieces[k] == seq!['d', 'e', 'v'] {
        Some(joined(trim_back(trim_front(pieces.skip(k + 1))), '/'))
    } else {
        None
    }
}

/// The value of `first_plain` read off a scan from the front.
proof fn lemma_first_plain(p: Seq<Seq<char>>, i: int)
    requires
        0 <= i <= p.len(),
        forall|j: int| 0 <= j < i ==> !is_plain_piece(#[trigger] p[j]),
        i < p.len() ==> is_plain_piece(p[i]),
    ensures
        first_plain(p) == (if i < p.len() { i } else { -1 }),
    decreases i,
{
    if p.len() > 0 && i > 0 {
        assert forall|j: int| 0 <= j < i - 1 implies !is_plain_piece(#[trigger] p.drop_first()[j]) by {
            assert(p.drop_first()[j] == p[j + 1]);
        }
        lemma_first_plain(p.drop_first(), i - 1);
    }
}

/// Appends the characters of `b` to `a`.
pub(crate) fn append_chars(a: &mut Vec<char>, b: &Vec<char>)
    ensures
        final(a)@ == old(a)@ + b@,
{
    let mut i: usize = 0;
    while i < b.len()
        invariant
            0 <= i <= b@.len(),
            a@ == old(a)@ + b@.take(i as int),
        decreases b@.len() - i,
    {
        a.push(b[i]);
        proof {
            assert(b@.take(i as int + 1) =~= b@.take(i as int).push(b@[i as int]));
        }
        i = i + 1;
    }
    proof {
        assert(b@.take(b@.len() as int) =~= b@);
    }
}

/// What is left of a device path below `/dev` (for `/dev/sda1`, `sda1`), or
/// `None` when the path is not under `/dev` (see [`device_name`]).
pub fn device_name_of(device_path: &str) -> (name: Option<String>)
    ensures
        match name {
            Some(n) => device_name(device_path@) == Some(n@),
            None => device_name(device_path@) is None,
        },
{
    let chars = crate::text::chars_of(device_path);
    if chars.len() == 0 || chars[0] != '/' {
        return None;
    }
    let pieces = split_chars(&chars, '/');
    let ghost all = split_on(device_path@, '/');
    proof {
        assert(['.']@ =~= seq!['.']);
        assert(['d', 'e', 'v']@ =~= seq!['d', 'e', 'v']);
    }
    let n = pieces.len();
    let mut k: usize = 0;
    while k < n && (pieces[k].len() == 0 || same_chars(&pieces[k], &['.']))
        invariant
            all == split_on(device_path@, '/'),
            n == pieces@.len(),
            n == all.len(),
            forall|i: int| 0 <= i < n ==> #[trigger] pieces@[i]@ == all[i],
            ['.']@ == seq!['.'],
            0 <= k <= n,
            forall|j: int| 0 <= j < k ==> !is_plain_piece(#[trigger] all[j]),
        decreases n - k,
    {
        k = k + 1;
    }
    proof {
        if k < n {
            assert(is_plain_piece(all[k as int]));
        }
        lemma_first_plain(all, k as int);
    }
    if k == n || !same_chars(&pieces[k], &['d', 'e', 'v']) {
        return None;
    }
    let ghost rest = all.skip(k + 1);
    let mut lo: usize = k + 1;
    proof {
        assert(rest.skip(0) =~= rest);
    }
    while lo < n && (pieces[lo].len() == 0 || same_chars(&pieces[lo], &['.']))
        invariant
            all == split_on(device_path@, '/'),
            n == pieces@.len(),
            n == all.len(),
            forall|i: int| 0 <= i < n ==> #[trigger] pieces@[i]@ == all[i],
            ['.']@ == seq!['.'],
            rest == all.skip(k + 1),
            k + 1 <= lo <= n,
            trim_front(rest) == trim_front(rest.skip(lo - k - 1)),
        decreases n - lo,
    {
        proof {
            let r = rest.skip(lo - k - 1);
            assert(r[0] == all[lo as int]);
            assert(r.drop_first() =~= rest.skip(lo - k));
        }
        lo = lo + 1;
    }
    let ghost front = rest.skip(lo - k - 1);
    proof {
        if lo < n {
            assert(front[0] == all[lo as int]);
        }
    }
    assert(trim_front(rest) == front);
    let mut hi: usize = n;
    proof {
        assert(front.take(front.len() as int) =~= front);
    }
    while hi > lo && (pieces[hi - 1].len() == 0 || same_chars(&pieces[hi - 1], &['.']))
        invariant
            all == split_on(device_path@, '/'),
            n == pieces@.len(),
            n == all.len(),
            forall|i: int| 0 <= i < n ==> #[trigger] pieces@[i]@ == all[i],
            ['.']@ == seq!['.'],
            front == all.skip(lo as int),
            k + 1 <= lo <= hi <= n,
            trim_back(front) == trim_back(front.take(hi - lo)),
        decreases hi - lo,
    {
        proof {
            let t = front.take(hi - lo);
            assert(t.last() == all[hi - 1]);
            assert(t.drop_last() =~= front.take(hi - lo - 1));
        }
        hi = hi - 1;
    }
    let ghost kept = front.take(hi - lo);
    proof {
        if hi > lo {
            assert(kept.last() == all[hi - 1]);
        }
    }
    assert(trim_back(front) == kept);
    let mut out: Vec<char> = Vec::new();
    let mut j: usize = lo;
    proof {
        assert(kept.take(0) =~= Seq::<Seq<char>>::empty());
    }
    while j < hi
        invariant
            n == pieces@.len(),
            n == all.len(),
            forall|i: int| 0 <= i < n ==> #[trigger] pieces@[i]@ == all[i],
            kept == all.skip(lo as int).take(hi - lo),
            lo <= j <= hi <= n,
            out@ == joined(kept.take(j - lo), '/'),
        decreases hi - j,
    {
        if j > lo {
            out.push('/');
        }
        append_chars(&mut out, &pieces[j]);
        proof {
            let t = kept.take(j - lo + 1);
            assert(t.drop_last() =~= kept.take(j - lo));
            assert(t.last() == all[j as int]);
            if j == lo {
                assert(out@ =~= t[0]);
            }
        }
        j = j + 1;
    }
    proof {
        assert(kept.take(hi - lo) =~= kept);
    }
    Some(string_of(&out))
}

} // verus!
