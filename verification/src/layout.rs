//! What the browser screen shows, computed from plain values: which columns
//! fit, the header labels, the name cell of a row, and the texts of the
//! progress, header and footer lines.
use vstd::prelude::*;
use unicode_width::UnicodeWidthStr;
use ratatui::layout::{Constraint, Direction, Layout, Rect};
use crate::browse::{SortColumn, SortDirection};
use crate::text::push_char;
use vstd::string::StrSliceExecFns;

verus! {

/// Which columns of the listing fit in a width, and how wide names may be.
pub struct Columns {
    pub show_bar: bool,
    pub show_modified: bool,
    pub show_accessed: bool,
    pub name_max_width: usize,
}

/// The width the fixed columns take: 12 for the size, and 2 of spacing plus
/// 17 for the usage bar, 16 for each date shown.
pub open spec fn reserved_width(width: nat) -> nat {
    12 + (if width > 70 { 19nat } else { 0nat }) + (if width > 90 { 18nat } else { 0nat }) + (if width > 115 {
        18nat
    } else {
        0nat
    })
}

/// The columns shown in a listing `width` columns wide: the usage bar above
/// 70, the modification date above 90, the access date above 115; names get
/// what is left after the fixed columns and 6 more, or 10 when that leaves
/// no more than 10.
pub fn column_layout(width: usize) -> (c: Columns)
    ensures
        c.show_bar == (width > 70),
        c.show_modified == (width > 90),
        c.show_accessed == (width > 115),
        c.name_max_width == (if width > reserved_width(width as nat) + 10 {
            width - reserved_width(width as nat) - 6
        } else {
            10
        }),
{
    let show_accessed = width > 115;
    let show_modified = width > 90;
    let show_bar = width > 70;
    let mut reserved: usize = 12;
    if show_bar {
        reserved = reserved + 2 + 17;
    }
    if show_modified {
        reserved = reserved + 2 + 16;
    }
    if show_accessed {
        reserved = reserved + 2 + 16;
    }
    let name_max_width = if width > reserved && width - reserved > 10 {
        width - reserved - 6
    } else {
        10
    };
    Columns { show_bar, show_modified, show_accessed, name_max_width }
}

/// The arrow that marks the sorted column: up when ascending, down when
/// descending.
pub open spec fn arrow(direction: SortDirection) -> Seq<char> {
    if direction == SortDirection::Ascending {
        seq!['\u{25b2}']
    } else {
        seq!['\u{25bc}']
    }
}

/// The header of a column: its label, followed by a space and the direction
/// arrow when the listing is sorted by it.
pub fn header_label(column: SortColumn, label: &str, current: SortColumn, direction: SortDirection) -> (h: String)
    ensures
        h@ == (if column == current { label@ + seq![' '] + arrow(direction) } else { label@ }),
{
    let mut h = String::from_str(label);
    if column == current {
        push_char(&mut h, ' ');
        if direction == SortDirection::Ascending {
            push_char(&mut h, '\u{25b2}');
        } else {
            push_char(&mut h, '\u{25bc}');
        }
        proof {
            assert(h@ =~= label@ + seq![' '] + arrow(direction));
        }
    }
    h
}

/// What `UnicodeWidthStr::width` gives for a text: the number of terminal
/// columns it takes.
pub uninterp spec fn display_width(s: Seq<char>) -> usize;

/// Calls `unicode_width::UnicodeWidthStr::width`, a function of the text's
/// characters alone (the column widths of Unicode Standard Annex #11, with
/// ambiguous characters one column wide), named [`display_width`].
#[verifier::external_body]
fn text_width(s: &str) -> (w: usize)
    ensures
        w == display_width(s@),
{
    UnicodeWidthStr::width(s)
}

/// `n` spaces.
pub fn spaces(n: usize) -> (s: String)
    ensures
        s@ == Seq::new(n as nat, |i: int| ' '),
{
    let mut s = String::new();
    let mut i: usize = 0;
    while i < n
        invariant
            0 <= i <= n,
            s@ == Seq::new(i as nat, |j: int| ' '),
        decreases n - i,
    {
        push_char(&mut s, ' ');
        proof {
            assert(s@ =~= Seq::new((i + 1) as nat, |j: int| ' '));
        }
        i = i + 1;
    }
    s
}

/// The mark in front of a name: an arrow for a directory, blanks for a file.
pub open spec fn name_prefix(is_dir: bool) -> Seq<char> {
    if is_dir {
        seq!['\u{25ba}', ' ']
    } else {
        seq![' ', ' ']
    }
}

/// The name shown in a row: the mark and the name; when that is wider than
/// `max_width` columns, the mark, the first `max_width - 5` characters of the
/// name (none if `max_width < 5`) and `...`.
pub open spec fn shown_name(name: Seq<char>, is_dir: bool, max_width: usize) -> Seq<char> {
    let full = name_prefix(is_dir) + name;
    if display_width(full) > max_width {
        let keep = if max_width >= 5 { (max_width - 5) as int } else { 0 };
        let kept = if keep <= name.len() { name.take(keep) } else { name };
        name_prefix(is_dir) + kept + seq!['.', '.', '.']
    } else {
        full
    }
}

/// The cell of a row that holds the name: [`shown_name`], padded with spaces
/// to `max_width + 4` columns (no padding when it is already as wide).
pub open spec fn name_cell_text(name: Seq<char>, is_dir: bool, max_width: usize) -> Seq<char> {
    let shown = shown_name(name, is_dir, max_width);
    shown + Seq::new(pad_count(display_width(shown) as int, max_width), |i: int| ' ')
}

/// How many spaces fill a cell to `max_width + 4` columns (the sum capped at
/// the largest `usize`) when `used` columns are taken.
pub open spec fn pad_count(used: int, max_width: usize) -> nat {
    let target = if max_width as int + 4 > usize::MAX { usize::MAX as int } else { max_width as int + 4 };
    if target > used {
        (target - used) as nat
    } else {
        0
    }
}

/// The name cell of a row (see [`name_cell_text`]).
pub fn name_cell(name: &str, is_dir: bool, max_width: usize) -> (cell: String)
    ensures
        cell@ == name_cell_text(name@, is_dir, max_width),
{
    let mut full = String::new();
    if is_dir {
        push_char(&mut full, '\u{25ba}');
        push_char(&mut full, ' ');
    } else {
        push_char(&mut full, ' ');
        push_char(&mut full, ' ');
    }
    proof {
        assert(full@ =~= name_prefix(is_dir));
    }
    let prefix = full.clone();
    full.append(name);
    let mut shown = full;
    if text_width(shown.as_str()) > max_width {
        let keep: usize = if max_width >= 5 { max_width - 5 } else { 0 };
        let mut cut = prefix;
        let mut count: usize = 0;
        let ghost kept = if keep <= name@.len() { name@.take(keep as int) } else { name@ };
        for c in it: name.chars()
            invariant
                count <= keep,
                it.seq() == name@,
                count <= it.index(),
                count < keep ==> count == it.index(),
                cut@ == name_prefix(is_dir) + it.seq().take(count as int),
        {
            if count < keep {
                push_char(&mut cut, c);
                proof {
                    assert(it.seq().take(count as int + 1) =~= it.seq().take(count as int).push(c));
                }
                count = count + 1;
            }
        }
        proof {
            assert(name@.take(count as int) =~= kept);
        }
        cut.append("...");
        proof {
            reveal_strlit("...");
            assert(cut@ =~= name_prefix(is_dir) + kept + seq!['.', '.', '.']);
        }
        shown = cut;
    }
    let w = text_width(shown.as_str());
    let target = max_width.saturating_add(4);
    let pad: usize = if target > w { target - w } else { 0 };
    let padding = spaces(pad);
    shown.append(padding.as_str());
    shown
}

/// The character of a decimal digit.
pub open spec fn digit_char(d: nat) -> char {
    if d == 0 {
        '0'
    } else if d == 1 {
        '1'
    } else if d == 2 {
        '2'
    } else if d == 3 {
        '3'
    } else if d == 4 {
        '4'
    } else if d == 5 {
        '5'
    } else if d == 6 {
        '6'
    } else if d == 7 {
        '7'
    } else if d == 8 {
        '8'
    } else {
        '9'
    }
}

/// The decimal digits of `n`, most significant first, without leading zeros
/// (`0` for zero).
pub open spec fn decimal(n: nat) -> Seq<char>
    decreases n,
{
    if n < 10 {
        seq![digit_char(n)]
    } else {
        decimal(n / 10).push(digit_char(n % 10))
    }
}

/// The character of the digit `d` (below 10).
fn digit_of(d: u64) -> (c: char)
    requires
        d < 10,
    ensures
        c == digit_char(d as nat),
{
    if d == 0 {
        '0'
    } else if d == 1 {
        '1'
    } else if d == 2 {
        '2'
    } else if d == 3 {
        '3'
    } else if d == 4 {
        '4'
    } else if d == 5 {
        '5'
    } else if d == 6 {
        '6'
    } else if d == 7 {
        '7'
    } else if d == 8 {
        '8'
    } else {
        '9'
    }
}

/// `n` written in decimal.
pub fn decimal_string(n: u64) -> (s: String)
    ensures
        s@ == decimal(n as nat),
    decreases n,
{
    if n < 10 {
        let mut s = String::new();
        push_char(&mut s, digit_of(n));
        proof {
            assert(s@ =~= seq![digit_char(n as nat)]);
        }
        s
    } else {
        let mut s = decimal_string(n / 10);
        push_char(&mut s, digit_of(n % 10));
        s
    }
}

/// `n` in decimal, with a leading zero when it has one digit (`{:02}`).
pub open spec fn two_digits(n: nat) -> Seq<char> {
    if n < 10 {
        seq!['0'] + decimal(n)
    } else {
        decimal(n)
    }
}

/// `n` in decimal, at least two digits wide.
fn two_digit_string(n: u64) -> (s: String)
    ensures
        s@ == two_digits(n as nat),
{
    if n < 10 {
        let mut s = String::new();
        push_char(&mut s, '0');
        let d = decimal_string(n);
        s.append(d.as_str());
        proof {
            assert(s@ =~= seq!['0'] + decimal(n as nat));
        }
        s
    } else {
        decimal_string(n)
    }
}

/// The time a scan has taken, as minutes and seconds (`mm:ss`, minutes
/// growing past two digits when needed).
pub fn elapsed_label(seconds: u64) -> (s: String)
    ensures
        s@ == two_digits((seconds / 60) as nat) + seq![':'] + two_digits((seconds % 60) as nat),
{
    let mut s = two_digit_string(seconds / 60);
    push_char(&mut s, ':');
    let rest = two_digit_string(seconds % 60);
    s.append(rest.as_str());
    s
}

/// Items scanned per second, in whole items; zero before the first second.
pub fn scan_rate(items: u64, seconds: u64) -> (r: u64)
    ensures
        r == (if seconds > 0 { items / seconds } else { 0 }),
{
    if seconds > 0 {
        items / seconds
    } else {
        0
    }
}

/// The note after the total size about entries that could not be read: none
/// when there were none.
pub fn skipped_note(skipped: u64) -> (s: String)
    ensures
        s@ == (if skipped > 0 {
            " (Skipped "@ + decimal(skipped as nat) + " unreadable items due to permissions)"@
        } else {
            Seq::empty()
        }),
{
    if skipped > 0 {
        let mut s = String::from_str(" (Skipped ");
        let n = decimal_string(skipped);
        s.append(n.as_str());
        s.append(" unreadable items due to permissions)");
        s
    } else {
        String::new()
    }
}

/// The footer of the browser: the search line while typing a search, the
/// active filter with the keys that apply when one is set, and the list of
/// keys otherwise.
pub fn footer_text(search_active: bool, query: &str) -> (s: String)
    ensures
        s@ == (if search_active {
            " SEARCH: "@ + query@ + "_ (Press Enter to apply, Esc to clear)"@
        } else if query@.len() > 0 {
            " FILTER ACTIVE: "@ + query@
                + " (Press / to edit, Esc to clear) | [Enter/l/\u{2192}] Enter  [BS/h/\u{2190}] Back  [q] Quit"@
        } else {
            " [Enter/l/\u{2192}] Enter  [BS/h/\u{2190}] Back  [d/Del] DELETE  [Tab/s] Column  [Space/r] Order  [?/F1] Help  [q] Quit"@
        }),
{
    if search_active {
        let mut s = String::from_str(" SEARCH: ");
        s.append(query);
        s.append("_ (Press Enter to apply, Esc to clear)");
        s
    } else if !query.is_empty() {
        let mut s = String::from_str(" FILTER ACTIVE: ");
        s.append(query);
        s.append(" (Press / to edit, Esc to clear) | [Enter/l/\u{2192}] Enter  [BS/h/\u{2190}] Back  [q] Quit");
        s
    } else {
        String::from_str(
            " [Enter/l/\u{2192}] Enter  [BS/h/\u{2190}] Back  [d/Del] DELETE  [Tab/s] Column  [Space/r] Order  [?/F1] Help  [q] Quit",
        )
    }
}

/// The kind of drive shown while scanning.
pub fn drive_type_label(is_ssd: bool) -> (s: String)
    ensures
        s@ == (if is_ssd { "SSD (Solid State)"@ } else { "HDD (Rotational)"@ }),
{
    if is_ssd {
        String::from_str("SSD (Solid State)")
    } else {
        String::from_str("HDD (Rotational)")
    }
}

/// The header of the name column padded with spaces to `max_width + 4`
/// characters (no padding when it is already as long).
pub fn header_name_cell(header: &str, max_width: usize) -> (cell: String)
    ensures
        cell@ == header@ + Seq::new(pad_count(header@.len() as int, max_width), |i: int| ' '),
{
    let n = header.unicode_len();
    let target = max_width.saturating_add(4);
    let pad: usize = if target > n { target - n } else { 0 };
    let mut cell = String::from_str(header);
    let padding = spaces(pad);
    cell.append(padding.as_str());
    cell
}

/// A rectangle of the terminal: its top-left corner and its size, in cells.
#[derive(Clone, Copy, Debug, PartialEq, Eq, Structural)]
pub struct Area {
    pub x: u16,
    pub y: u16,
    pub width: u16,
    pub height: u16,
}

/// The column just past the right edge of `a` (`Rect::right`, which stops at
/// the largest `u16`).
pub open spec fn right_of(a: Area) -> int {
    if a.x + a.width > u16::MAX { u16::MAX as int } else { a.x + a.width }
}

/// The row just below the bottom edge of `a` (`Rect::bottom`, which stops at
/// the largest `u16`).
pub open spec fn bottom_of(a: Area) -> int {
    if a.y + a.height > u16::MAX { u16::MAX as int } else { a.y + a.height }
}

/// `part` is a piece of a cut of `area` in the given direction: across the
/// cut it spans `area` exactly, and along it it lies within `area`.
pub open spec fn cut_from(vertical: bool, area: Area, part: Area) -> bool {
    if vertical {
        &&& part.x == area.x
        &&& part.width == area.width
        &&& area.y <= part.y
        &&& part.y + part.height <= bottom_of(area)
    } else {
        &&& part.y == area.y
        &&& part.height == area.height
        &&& area.x <= part.x
        &&& part.x + part.width <= right_of(area)
    }
}

/// `inner` lies within `outer`.
pub open spec fn lies_within(inner: Area, outer: Area) -> bool {
    &&& outer.x <= inner.x
    &&& inner.x + inner.width <= right_of(outer)
    &&& outer.y <= inner.y
    &&& inner.y + inner.height <= bottom_of(outer)
}

/// Calls `ratatui::layout::Layout::split` with three percentage constraints
/// (`outer`, `middle`, `outer`) in the given direction, without margin.
/// What its source shows for every outcome: one part per constraint; each
/// part takes the area's position and size across the cut (`changes_to_rects`);
/// along the cut each part starts and ends within the area (the required
/// constraints that keep every variable between the area's start and end,
/// and each part's end after its start). Which part gets a cell that the
/// percentages leave over is decided by the constraint solver, whose tables
/// are hash maps seeded per process, so it is not stated, and neither is the
/// order of the parts along the cut, which the solver holds only with less
/// than required strength.
#[verifier::external_body]
fn split_thirds(vertical: bool, outer: u16, middle: u16, area: Area) -> (parts: Vec<Area>)
    ensures
        parts@.len() == 3,
        forall|i: int| 0 <= i < 3 ==> cut_from(vertical, area, #[trigger] parts@[i]),
{
    let direction = if vertical { Direction::Vertical } else { Direction::Horizontal };
    let rects = Layout::default()
        .direction(direction)
        .constraints([Constraint::Percentage(outer), Constraint::Percentage(middle), Constraint::Percentage(outer)])
        .split(Rect { x: area.x, y: area.y, width: area.width, height: area.height });
    rects.iter().map(|r| Area { x: r.x, y: r.y, width: r.width, height: r.height }).collect()
}

/// The middle of `r` for a popup: the middle row of a cut into
/// `(100 - percent_y) / 2`, `percent_y` and `(100 - percent_y) / 2` percent,
/// then the middle column of that row cut the same way by `percent_x`. Where
/// the cut puts a left-over cell is the layout solver's choice; the result
/// always lies within `r`.
pub fn centered_rect(percent_x: u16, percent_y: u16, r: Area) -> (c: Area)
    requires
        percent_x <= 100,
        percent_y <= 100,
    ensures
        lies_within(c, r),
{
    let rows = split_thirds(true, (100 - percent_y) / 2, percent_y, r);
    let row = rows[1];
    let columns = split_thirds(false, (100 - percent_x) / 2, percent_x, row);
    let c = columns[1];
    assert(cut_from(true, r, rows@[1]));
    assert(cut_from(false, row, columns@[1]));
    c
}

} // verus!
