use cmdirstat::browse::{SortColumn, SortDirection};
use cmdirstat::layout::{
    column_layout, decimal_string, drive_type_label, elapsed_label, footer_text, header_label,
    header_name_cell, name_cell, scan_rate, skipped_note, spaces,
};

#[test]
fn narrow_layout_shows_only_size() {
    let c = column_layout(60);
    assert!(!c.show_bar && !c.show_modified && !c.show_accessed);
    assert_eq!(c.name_max_width, 42);
    assert_eq!(column_layout(20).name_max_width, 10);
    assert_eq!(column_layout(22).name_max_width, 10);
    assert_eq!(column_layout(23).name_max_width, 5);
}

#[test]
fn wide_layout_shows_all_columns() {
    let c = column_layout(120);
    assert!(c.show_bar && c.show_modified && c.show_accessed);
    assert_eq!(c.name_max_width, 120 - (12 + 19 + 18 + 18) - 6);
    let m = column_layout(100);
    assert!(m.show_bar && m.show_modified && !m.show_accessed);
    assert_eq!(m.name_max_width, 100 - (12 + 19 + 18) - 6);
    let b = column_layout(71);
    assert!(b.show_bar && !b.show_modified);
    assert_eq!(b.name_max_width, 71 - 31 - 6);
    assert!(!column_layout(70).show_bar);
}

#[test]
fn header_labels_mark_the_sorted_column() {
    assert_eq!(header_label(SortColumn::Size, "Size", SortColumn::Size, SortDirection::Descending), "Size ▼");
    assert_eq!(header_label(SortColumn::Name, "Name", SortColumn::Name, SortDirection::Ascending), "Name ▲");
    assert_eq!(header_label(SortColumn::Name, "Name", SortColumn::Size, SortDirection::Ascending), "Name");
}

#[test]
fn name_cell_pads_short_names() {
    assert_eq!(name_cell("abc", true, 10), format!("► abc{}", " ".repeat(9)));
    assert_eq!(name_cell("abc", false, 10), format!("  abc{}", " ".repeat(9)));
}

#[test]
fn name_cell_truncates_long_names() {
    assert_eq!(name_cell("abcdefghijklmnop", false, 10), format!("  abcde...{}", " ".repeat(4)));
    assert_eq!(name_cell("abcdefghijklmnop", true, 3), "► ...  ".to_string());
}

#[test]
fn name_cell_measures_wide_characters() {
    // Each of these characters takes two columns.
    assert_eq!(name_cell("日本語", false, 8), format!("  日本語{}", " ".repeat(4)));
    assert_eq!(name_cell("日本語日本語", false, 8), "  日本語... ".to_string());
}

#[test]
fn decimal_and_elapsed_time() {
    assert_eq!(decimal_string(0), "0");
    assert_eq!(decimal_string(1234567890), "1234567890");
    assert_eq!(decimal_string(u64::MAX), u64::MAX.to_string());
    assert_eq!(elapsed_label(0), "00:00");
    assert_eq!(elapsed_label(75), "01:15");
    assert_eq!(elapsed_label(6000), "100:00");
}

#[test]
fn rate_is_zero_before_a_second() {
    assert_eq!(scan_rate(500, 0), 0);
    assert_eq!(scan_rate(500, 3), 166);
}

#[test]
fn skipped_note_only_when_something_was_skipped() {
    assert_eq!(skipped_note(0), "");
    assert_eq!(skipped_note(3), " (Skipped 3 unreadable items due to permissions)");
}

#[test]
fn footer_follows_search_state() {
    assert_eq!(footer_text(true, "ab"), " SEARCH: ab_ (Press Enter to apply, Esc to clear)");
    assert_eq!(
        footer_text(false, "ab"),
        " FILTER ACTIVE: ab (Press / to edit, Esc to clear) | [Enter/l/→] Enter  [BS/h/←] Back  [q] Quit"
    );
    assert_eq!(
        footer_text(false, ""),
        " [Enter/l/→] Enter  [BS/h/←] Back  [d/Del] DELETE  [Tab/s] Column  [Space/r] Order  [?/F1] Help  [q] Quit"
    );
}

#[test]
fn drive_type_labels() {
    assert_eq!(drive_type_label(true), "SSD (Solid State)");
    assert_eq!(drive_type_label(false), "HDD (Rotational)");
}

#[test]
fn header_name_cell_pads_by_characters() {
    assert_eq!(header_name_cell("Name ▲", 10), format!("Name ▲{}", " ".repeat(8)));
    assert_eq!(header_name_cell("Name", 0), "Name");
    assert_eq!(spaces(3), "   ");
}

#[test]
fn centered_rect_takes_the_middle() {
    let r = cmdirstat::layout::Area { x: 0, y: 0, width: 100, height: 50 };
    let c = cmdirstat::layout::centered_rect(60, 40, r);
    assert_eq!((c.x, c.y, c.width, c.height), (20, 15, 60, 20));
    let full = cmdirstat::layout::centered_rect(100, 100, r);
    assert_eq!(full, r);
}

#[test]
fn centered_rect_stays_inside_when_percentages_leave_a_cell_over() {
    let r = cmdirstat::layout::Area { x: 3, y: 4, width: 97, height: 41 };
    for (px, py) in [(65, 25), (60, 25), (65, 60), (1, 99), (0, 0)] {
        let c = cmdirstat::layout::centered_rect(px, py, r);
        assert!(c.x >= r.x && c.x + c.width <= r.x + r.width, "{:?}", (px, py, c));
        assert!(c.y >= r.y && c.y + c.height <= r.y + r.height, "{:?}", (px, py, c));
    }
}
