use garou::filetree::FileTreeEntry;
use garou::screen::{
    build_overlay_info, frame_layout, header_line, is_image_size_limit_error, message_center_position,
    message_line_position,
    message_line, message_placement, overlay_box, overlay_shown, pad_to_width, placement_to_pixel_size,
    render_filetree, skipped_image_cleared, statusbar_line, statusbar_plan, truncate_plain,
    truncate_to_width, truncate_with_ellipsis, MessagePlacement, RowStyle, StatusbarPlan,
};

#[test]
fn ellipsis_truncation() {
    assert_eq!(truncate_with_ellipsis("hello world", 5), "hell\u{2026}");
    assert_eq!(truncate_with_ellipsis("hello", 5), "hello");
    assert_eq!(truncate_with_ellipsis("hello", 0), "");
    assert_eq!(truncate_with_ellipsis("hello", 1), ".");
    assert_eq!(truncate_with_ellipsis("日本語テキスト", 6), "日本\u{2026}");
}

#[test]
fn dotted_and_plain_truncation() {
    assert_eq!(truncate_to_width("abcdefgh", 6), "abc...");
    assert_eq!(truncate_to_width("abc", 6), "abc");
    assert_eq!(truncate_to_width("abcdef", 2), "...");
    assert_eq!(truncate_plain("abcdef", 4), "abcd");
    assert_eq!(truncate_plain("ab", 4), "ab");
    let mut s = "ab".to_string();
    pad_to_width(&mut s, 5);
    assert_eq!(s, "ab   ");
    let mut t = "abcdef".to_string();
    pad_to_width(&mut t, 3);
    assert_eq!(t, "abcdef");
}

#[test]
fn header_shows_neighbours_and_position() {
    let files: Vec<String> = vec!["d/a.png".into(), "d/b.png".into(), "d/c.png".into()];
    assert_eq!(header_line(&files, 1, 40), format!("{:<40}", " a.png <- b.png -> c.png (2/3)"));
    assert_eq!(header_line(&files, 0, 40), format!("{:<40}", " c.png <- a.png -> b.png (1/3)"));
    assert_eq!(header_line(&files, 2, 12), " b.png <- c\u{2026}");
    assert_eq!(header_line(&Vec::new(), 0, 40), format!("{:<40}", " unknown <- unknown -> unknown (1/0)"));
}

#[test]
fn status_bar_line() {
    assert_eq!(
        statusbar_line(31, "12.3", (800, 600), (400, 300), None),
        format!("{:<30}", "12.3ms | 800x600 | 400x300")
    );
    assert_eq!(statusbar_line(6, "0.0", (1, 1), (1, 1), Some("Loading")), "Loadi");
    assert_eq!(statusbar_line(0, "0.0", (1, 1), (1, 1), Some("x")), "");
}

#[test]
fn message_lines() {
    assert_eq!(message_line(0, "hi"), None);
    assert_eq!(message_line(6, "hello"), Some("hell".to_string()));
    assert_eq!(message_line(10, "hi"), Some("hi      ".to_string()));
    assert_eq!(message_line(2, "hi"), Some("h".to_string()));
    assert_eq!(message_center_position(20, 60, 30, 8), (46, 16));
    assert_eq!(message_center_position(u16::MAX, 60, 30, 8), (u16::MAX, 16));
}

#[test]
fn overlay_box_is_centred() {
    let info = build_overlay_info("d/photo.jpg", (640, 480), Some(2048));
    assert_eq!(info.file_name, "photo.jpg");
    assert_eq!(info.format, "JPG");
    assert_eq!(info.file_size_bytes, Some(2048));
    let unknown = build_overlay_info("d/README", (1, 1), None);
    assert_eq!(unknown.format, "UNKNOWN");
    assert!(overlay_box(7, 20, &info, "2.0 KiB").is_none());
    assert!(overlay_box(80, 5, &info, "2.0 KiB").is_none());
    let b = overlay_box(80, 24, &info, "2.0 KiB").unwrap();
    assert_eq!(b.rows.len(), 6);
    let border = format!("+{}+", "-".repeat(20));
    assert_eq!(b.rows[0], border);
    assert_eq!(b.rows[5], border);
    assert_eq!(b.rows[1], format!("|{:<20}|", "Name: photo.jpg"));
    assert_eq!(b.rows[3], format!("|{:<20}|", "Dimensions: 640x480"));
    assert_eq!((b.start_x, b.start_y), (29, 9));
    let narrow = overlay_box(10, 24, &info, "2.0 KiB").unwrap();
    assert_eq!(narrow.rows[3], "|Dimensions: 640x480 |");
}

fn entry(name: &str, depth: usize, is_dir: bool, expanded: bool, cursor: bool, current: bool) -> FileTreeEntry {
    FileTreeEntry {
        name: name.to_string(),
        depth,
        is_dir,
        is_expanded: expanded,
        is_cursor: cursor,
        is_current_image: current,
    }
}

#[test]
fn sidebar_rows() {
    let entries = vec![
        entry("sub", 0, true, true, false, false),
        entry("x.png", 1, false, false, false, true),
        entry("a-very-long-name.png", 0, false, false, true, false),
    ];
    let rows = render_filetree(&entries, 12, 6);
    assert_eq!(rows.len(), 4);
    assert_eq!(rows[0], (" - sub/     ".to_string(), RowStyle::Normal));
    assert_eq!(rows[1], ("     x.png  ".to_string(), RowStyle::CurrentImage));
    assert_eq!(rows[2], (">  a-very-l\u{2026}".to_string(), RowStyle::Cursor));
    assert_eq!(rows[3], ("            ".to_string(), RowStyle::Normal));
}

#[test]
fn sidebar_scrolls_to_the_cursor() {
    let mut entries = Vec::new();
    for i in 0..10 {
        entries.push(entry(&format!("f{}", i), 0, false, false, i == 8, false));
    }
    let rows = render_filetree(&entries, 6, 5);
    assert_eq!(rows.len(), 3);
    assert_eq!(rows[0].0, "   f7 ");
    assert_eq!(rows[1].0, ">  f8 ");
    assert_eq!(rows[2].0, "   f9 ");
    assert!(render_filetree(&entries, 6, 1).is_empty());
}

#[test]
fn frame_layout_and_plans() {
    let l = frame_layout(100, 40, true, 20);
    assert_eq!((l.image_start_x, l.available_width, l.available_height, l.sidebar_width), (20, 80, 38, 20));
    let h = frame_layout(100, 1, false, 0);
    assert_eq!((h.image_start_x, h.available_width, h.available_height, h.sidebar_width), (0, 100, 0, 1));
    assert_eq!(frame_layout(10, 40, true, 30).available_width, 0);
    assert!(is_image_size_limit_error(Some("Image size exceeds limit")));
    assert!(!is_image_size_limit_error(Some("Loading")));
    assert!(!is_image_size_limit_error(None));
    assert_eq!(placement_to_pixel_size((0, 1, 10, 5)), (80, 80));
    assert_eq!(placement_to_pixel_size((0, 1, u32::MAX, u32::MAX)), (u32::MAX, u32::MAX));
    assert_eq!(message_placement(true, true, true), MessagePlacement::TopLeft);
    assert_eq!(message_placement(true, false, false), MessagePlacement::Center);
    assert_eq!(message_placement(true, false, true), MessagePlacement::Nowhere);
    assert_eq!(message_placement(false, true, false), MessagePlacement::Nowhere);
    assert_eq!(statusbar_plan(false, true, true, true), StatusbarPlan::Cleared);
    assert_eq!(statusbar_plan(true, true, false, false), StatusbarPlan::SizeLimit);
    assert_eq!(statusbar_plan(true, false, true, false), StatusbarPlan::Unchanged);
    assert_eq!(statusbar_plan(true, false, true, true), StatusbarPlan::Normal);
    assert!(skipped_image_cleared(true, true));
    assert!(!skipped_image_cleared(false, true));
    assert!(overlay_shown(true, false, 0, 1));
    assert!(!overlay_shown(true, false, 1, 1));
    assert!(!overlay_shown(true, true, 0, 1));
}

#[test]
fn centred_message_goes_by_display_width() {
    assert_eq!(message_line_position(2, 20, 10, "abcd"), (10, 6));
    // two wide characters take four cells, though six bytes
    assert_eq!(message_line_position(2, 20, 10, "日本"), (10, 6));
    assert_eq!(message_line_position(0, 3, 0, "wider than the area"), (0, 1));
}

#[test]
fn truncated_text_fits_its_width() {
    let cut = truncate_plain("日本語テキスト", 5);
    assert_eq!(cut, "日本");
    assert!(unicode_width::UnicodeWidthStr::width(cut.as_str()) <= 5);
    let cut = truncate_with_ellipsis("日本語テキスト", 6);
    assert_eq!(cut, "日本\u{2026}");
    assert!(unicode_width::UnicodeWidthStr::width(cut.as_str()) <= 6);
    assert_eq!(truncate_plain("short", 10), "short");
}
