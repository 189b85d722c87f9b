use std::sync::Arc;
use xuzzel::config::Config;
use xuzzel::model::{attach_icons, Entry, EntrySource, IconBitmap, MatchResult, SearchData};
use xuzzel::paint::{
    corner_radius, frame_in_range, frame_ops, hint_positions, icon_pixels, match_counter_text,
    message_lines, rgb, rounded_rectangles, window_layout, window_layout_in_range, window_x,
    DrawOp, TextSource, WindowLayout,
};

fn row(label: &str, icon: bool, marks: Vec<usize>) -> MatchResult {
    MatchResult {
        entry: Entry {
            id: label.to_string(),
            index: 0,
            label: label.to_string(),
            raw_text: label.to_string(),
            icon_name: None,
            icon: if icon {
                Some(Arc::new(IconBitmap { width: 1, height: 1, rgba: vec![0, 0, 0, 255] }))
            } else {
                None
            },
            exec_line: None,
            path: None,
            terminal: false,
            working_dir: None,
            search: SearchData::default(),
            source: EntrySource::Dmenu,
        },
        score: 0,
        matched_indices: marks,
    }
}

#[test]
fn colors_keep_their_rgb_part() {
    assert_eq!(rgb(0x80fdf6e3), 0x00fdf6e3);
    assert_eq!(rgb(0x00123456), 0x00123456);
}

#[test]
fn window_shape_rows() {
    assert_eq!(corner_radius(100, 40, 10), 10);
    assert_eq!(corner_radius(100, 12, 10), 6);
    assert!(rounded_rectangles(0, 10, 3, &vec![]).is_empty());
    let whole = rounded_rectangles(70000, 30, 0, &vec![]);
    assert_eq!(whole.len(), 1);
    assert_eq!((whole[0].x, whole[0].y, whole[0].width, whole[0].height), (0, 0, 0xffff, 30));
    // Four rows; the first and last are cut in by 2 on each side, a row
    // whose inset leaves nothing is dropped.
    let rects = rounded_rectangles(10, 4, 2, &vec![2, 5, 0, 2]);
    let spans: Vec<(i16, i16, u16, u16)> = rects.iter().map(|r| (r.x, r.y, r.width, r.height)).collect();
    assert_eq!(spans, vec![(2, 0, 6, 1), (0, 2, 10, 1), (2, 3, 6, 1)]);
}

#[test]
fn icon_pixels_blend_over_the_background() {
    // One opaque red pixel and one transparent pixel, over 0x102030.
    let icon = IconBitmap { width: 2, height: 1, rgba: vec![255, 0, 0, 255, 9, 9, 9, 0] };
    assert_eq!(icon_pixels(&icon, 0x00102030), vec![0, 0, 255, 0, 0x30, 0x20, 0x10, 0]);
    // Half-opaque white over black: 255 * 128 / 255 = 128.
    let half = IconBitmap { width: 1, height: 1, rgba: vec![255, 255, 255, 128] };
    assert_eq!(icon_pixels(&half, 0), vec![128, 128, 128, 0]);
}

#[test]
fn window_layout_values() {
    let config = Config::default();
    let lay = window_layout(&config, 15, 8, 3, 11);
    // 2 * 40 + 30 * 8 wide; 2 * 8 + (1 + 15) * 22 + 0 high.
    assert_eq!(lay.width, 320);
    assert_eq!(lay.height, 368);
    assert_eq!(lay.row_height, 22);
    assert_eq!(lay.content_x, 40);
    assert_eq!(lay.content_width, 240);
    assert_eq!(lay.baseline_offset, 16);
    assert_eq!(lay.icon_size, 11);
    assert_eq!(lay.icon_gap, 10);
    let mut c2 = Config::default();
    c2.icons_enabled = false;
    c2.message = "a\nb".to_string();
    c2.inner_pad = 3;
    let lay2 = window_layout(&c2, 0, 8, 40, 11);
    // 2 * 8 + (1 + 2 + 1) * 22 + 3 * 3.
    assert_eq!(lay2.height, 113);
    assert_eq!(lay2.baseline_offset, 40);
    assert_eq!(lay2.icon_size, 0);
    assert_eq!(window_x(&config, 1920, 320), 800);
    assert_eq!(window_x(&config, 100, 320), 0);
    let mut placed = Config::default();
    placed.window_x = 12;
    assert_eq!(window_x(&placed, 1920, 320), 12);
}

#[test]
fn frame_operations() {
    let mut config = Config::default();
    config.match_counter = true;
    let lay = WindowLayout {
        width: 300,
        height: 200,
        row_height: 20,
        content_x: 10,
        content_width: 280,
        baseline_offset: 15,
        icon_size: 12,
        icon_gap: 10,
    };
    let rows = vec![row("one", false, vec![]), row("two", true, vec![0])];
    let ops = frame_ops(&config, &lay, "", &rows, 1, 30, 25);
    let bg = 0x00fdf6e3;
    let expected = vec![
        DrawOp::Fill { x: 0, y: 0, width: 300, height: 116, color: bg },
        DrawOp::Text { x: 10, y: 23, source: TextSource::Prompt, color: 0x586e75, background: bg },
        DrawOp::Text { x: 44, y: 23, source: TextSource::Input, color: 0x657b83, background: bg },
        DrawOp::Text { x: 235, y: 23, source: TextSource::Counter, color: 0x93a1a1, background: bg },
        DrawOp::Text { x: 10, y: 43, source: TextSource::Label(0), color: 0x657b83, background: bg },
        DrawOp::Fill { x: 10, y: 48, width: 280, height: 19, color: 0xeee8d5 },
        DrawOp::Icon { row: 1, x: 10, y: 52, background: bg },
        DrawOp::Text { x: 32, y: 63, source: TextSource::Label(1), color: 0x586e75, background: 0xeee8d5 },
        DrawOp::Hint { row: 1, x: 32, y: 63, background: 0xeee8d5, color: 0xcb4b16 },
    ];
    assert_eq!(ops, expected);
    config.placeholder = "type".to_string();
    config.message = "hi".to_string();
    config.match_counter = false;
    let ops2 = frame_ops(&config, &lay, "", &[], 0, 3, 0);
    assert_eq!(ops2.len(), 4);
    assert_eq!(ops2[1], DrawOp::Text { x: 10, y: 23, source: TextSource::MessageLine(0), color: 0x657b83, background: bg });
    assert_eq!(ops2[3], DrawOp::Text { x: 22, y: 43, source: TextSource::Placeholder, color: 0x93a1a1, background: bg });
}

#[test]
fn counter_and_message_text() {
    assert_eq!(match_counter_text(3, 120), "3/120");
    let mut config = Config::default();
    assert!(message_lines(&config).is_empty());
    config.message = "one\ntwo\r\n".to_string();
    assert_eq!(message_lines(&config), vec!["one", "two"]);
}

#[test]
fn icons_attach_to_named_entries() {
    let mut a = row("a", false, vec![]).entry;
    a.icon_name = Some("firefox".to_string());
    let b = row("b", false, vec![]).entry;
    let mut entries = vec![a, b];
    let bitmap = Arc::new(IconBitmap { width: 1, height: 1, rgba: vec![1, 2, 3, 4] });
    attach_icons(&mut entries, &vec![Some(bitmap.clone()), Some(bitmap)]);
    assert!(entries[0].icon.is_some());
    assert!(entries[1].icon.is_none());
    assert_eq!(entries[0].label, "a");
}

#[test]
fn range_checks() {
    let mut config = Config::default();
    assert!(window_layout_in_range(&config, 15));
    config.line_height = Some(u32::MAX);
    assert!(!window_layout_in_range(&config, 15));
    let config = Config::default();
    let lay = WindowLayout {
        width: 300,
        height: 200,
        row_height: 20,
        content_x: 10,
        content_width: 280,
        baseline_offset: 15,
        icon_size: 12,
        icon_gap: 10,
    };
    let rows = vec![row("one", true, vec![])];
    assert!(frame_in_range(&config, &lay, &rows, 30, 25));
    let far = WindowLayout { content_x: i32::MAX - 5, ..lay };
    assert!(!frame_in_range(&config, &far, &rows, 30, 25));
    let low = WindowLayout { baseline_offset: i32::MAX, ..lay };
    assert!(!frame_in_range(&config, &low, &rows, 30, 25));
}

#[test]
fn hint_glyph_positions() {
    // Glyphs 4, 10 and 12 wide advance by 8, 10 and 12.
    let marks = hint_positions(100, &vec![4, 10, 12], &vec![0, 2, 9]).unwrap();
    assert_eq!(marks, vec![(0, 100), (2, 118)]);
    assert!(hint_positions(i32::MAX - 10, &vec![4, 4], &vec![]).is_none());
    assert_eq!(hint_positions(0, &vec![], &vec![0]).unwrap(), vec![]);
}
