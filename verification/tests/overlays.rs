//! The overlay: selection, geometry, drawing, and what the pointer hits.

use xwitcher::config::Layout;
use xwitcher::geometry::{
    border_rect, overlay_geometry, to_i16, CoordinateOverflow, OverlayGeometry, Rect, ScreenSize,
};
use xwitcher::icons::Icon;
use xwitcher::overlay::{Direction, OverlayState, OverlayWindow, WindowEntry};
use xwitcher::palette::{line_stroke, overlay_palette, Paint, Stroke};
use xwitcher::scene::{redraw_overlay, text_bytes, DrawOp};
use xwitcher::slots::{item_index_at_position, make_grid, place_column, place_row};
use xwitcher::style::Style;
use xwitcher::util::sanitize_ascii;

fn entry(window: u32, title: &str) -> WindowEntry {
    WindowEntry { window, title: title.to_string(), icon: None }
}

fn overlay(layout: Layout, width: u16, height: u16, visible_capacity: usize) -> OverlayWindow {
    OverlayWindow {
        window: 99,
        text_gc: 1,
        selected_text_gc: 2,
        hover_text_gc: 3,
        highlight_gc: 4,
        hover_gc: 5,
        background_gc: 6,
        icon_gc: 7,
        border_gc: None,
        item_border_gc: None,
        item_selected_border_gc: None,
        width,
        height,
        layout,
        visible_capacity,
    }
}

fn state(layout: Layout, count: u32, capacity: usize) -> OverlayState {
    let windows = (0..count).map(|w| entry(w + 1, "title")).collect();
    OverlayState::new(windows, overlay(layout, 600, 200, capacity))
}

fn rect(x: i16, y: i16, width: u16, height: u16) -> Rect {
    Rect { x, y, width, height }
}

#[test]
fn a_new_overlay_selects_the_first_window() {
    let state = state(Layout::Vertical, 3, 2);
    assert_eq!((state.current, state.first_visible, state.alt_count), (0, 0, 0));
    assert_eq!(state.hovered, None);
    assert_eq!(state.selected_window(), Some(1));
    assert_eq!(state.visible_range(), 0..2);
}

#[test]
fn the_selection_goes_round_and_stays_in_view() {
    let mut state = state(Layout::Vertical, 3, 2);
    state.advance(Direction::Forward);
    assert_eq!((state.current, state.first_visible), (1, 0));
    state.advance(Direction::Forward);
    assert_eq!((state.current, state.first_visible), (2, 1));
    assert_eq!(state.visible_range(), 1..3);
    state.advance(Direction::Forward);
    assert_eq!((state.current, state.first_visible), (0, 0));
    state.advance(Direction::Backward);
    assert_eq!((state.current, state.first_visible), (2, 1));
    state.advance(Direction::Backward);
    assert_eq!((state.current, state.first_visible), (1, 1));
}

#[test]
fn forward_and_backward_undo_each_other() {
    let mut state = state(Layout::Vertical, 5, 5);
    state.advance(Direction::Backward);
    state.advance(Direction::Forward);
    assert_eq!(state.current, 0);
    for _ in 0..5 {
        state.advance(Direction::Forward);
    }
    assert_eq!(state.current, 0);
    let mut seen = Vec::new();
    for _ in 0..5 {
        state.advance(Direction::Backward);
        seen.push(state.current);
    }
    assert_eq!(seen, vec![4, 3, 2, 1, 0]);
}

#[test]
fn an_empty_overlay_does_not_move() {
    let mut state = state(Layout::Vertical, 0, 2);
    state.advance(Direction::Forward);
    assert_eq!(state.current, 0);
    assert_eq!(state.selected_window(), None);
    assert_eq!(state.visible_range(), 0..0);
}

#[test]
fn a_capacity_of_zero_counts_as_one() {
    let mut state = state(Layout::Vertical, 3, 0);
    assert_eq!(state.visible_range(), 0..1);
    state.current = 2;
    state.ensure_visible();
    assert_eq!(state.visible_range(), 2..3);
}

#[test]
fn hovering_tells_whether_it_is_news() {
    let mut state = state(Layout::Vertical, 3, 3);
    assert!(!state.set_hovered(None));
    assert!(state.set_hovered(Some(1)));
    assert!(!state.set_hovered(Some(1)));
    assert!(state.set_hovered(None));
    state.set_current(2);
    assert_eq!(state.selected_window(), Some(3));
}

#[test]
fn text_is_drawn_in_ascii() {
    assert_eq!(sanitize_ascii("caf\u{e9} \u{1f600}"), "caf? ?");
    assert_eq!(sanitize_ascii("caf? ?"), "caf? ?");
    assert_eq!(text_bytes("\u{e9}a"), b"?a".to_vec());
    assert_eq!(text_bytes(&"x".repeat(300)), vec![b'x'; 255]);
}

#[test]
fn coordinates_that_do_not_fit() {
    assert_eq!(to_i16(-32768), Ok(i16::MIN));
    assert_eq!(to_i16(32768), Err(CoordinateOverflow));
}

#[test]
fn points_in_a_rectangle() {
    let r = rect(-2, 3, 4, 1);
    assert!(r.rect_contains(-2, 3));
    assert!(r.rect_contains(1, 3));
    assert!(!r.rect_contains(2, 3));
    assert!(!r.rect_contains(0, 4));
    assert!(!r.rect_contains(-3, 3));
}

#[test]
fn borders_lie_inside() {
    assert_eq!(border_rect(rect(10, 20, 100, 50), 3), Ok(Some(rect(11, 21, 97, 47))));
    assert_eq!(border_rect(rect(10, 20, 100, 50), 0), Ok(None));
    assert_eq!(border_rect(rect(10, 20, 3, 50), 3), Ok(None));
    assert_eq!(border_rect(rect(32767, 0, 100, 50), 4), Err(CoordinateOverflow));
}

#[test]
fn a_vertical_overlay_has_a_row_for_each_window() {
    let style = Style::default();
    let screen = ScreenSize { width: 1920, height: 1080 };
    assert_eq!(
        overlay_geometry(&style, Layout::Vertical, screen, 4),
        Ok(OverlayGeometry { x: 660, y: 412, width: 600, height: 256, visible_capacity: 4 })
    );
    // No more rows than the screen has room for.
    assert_eq!(
        overlay_geometry(&style, Layout::Vertical, screen, 40),
        Ok(OverlayGeometry { x: 660, y: 48, width: 600, height: 984, visible_capacity: 17 })
    );
    // A small screen still shows one row.
    let small = ScreenSize { width: 300, height: 90 };
    assert_eq!(
        overlay_geometry(&style, Layout::Vertical, small, 3),
        Ok(OverlayGeometry { x: 0, y: 0, width: 300, height: 200, visible_capacity: 3 })
    );
    let low = ScreenSize { width: 300, height: 110 };
    assert_eq!(
        overlay_geometry(&style, Layout::Vertical, low, 3),
        Ok(OverlayGeometry { x: 0, y: 11, width: 300, height: 88, visible_capacity: 1 })
    );
}

#[test]
fn a_horizontal_overlay_has_a_column_for_each_window() {
    let style = Style::default();
    let screen = ScreenSize { width: 1920, height: 1080 };
    assert_eq!(
        overlay_geometry(&style, Layout::Horizontal, screen, 4),
        Ok(OverlayGeometry { x: 704, y: 478, width: 512, height: 124, visible_capacity: 4 })
    );
    assert_eq!(
        overlay_geometry(&style, Layout::Horizontal, screen, 40),
        Ok(OverlayGeometry { x: 104, y: 478, width: 1712, height: 124, visible_capacity: 14 })
    );
    assert_eq!(
        overlay_geometry(&style, Layout::Horizontal, screen, 0),
        Ok(OverlayGeometry { x: 884, y: 478, width: 152, height: 124, visible_capacity: 1 })
    );
}

#[test]
fn a_style_with_huge_icons_has_no_geometry() {
    let style = Style { icon_max_size: 65535, icon_margin: 1, ..Style::default() };
    let screen = ScreenSize { width: 1920, height: 1080 };
    assert_eq!(
        overlay_geometry(&style, Layout::Vertical, screen, 1),
        Err(CoordinateOverflow)
    );
}

#[test]
fn rows_and_columns_have_their_places() {
    let style = Style::default();
    let vertical = overlay(Layout::Vertical, 600, 256, 4);
    assert_eq!(place_row(&style, &vertical, 2), Ok(rect(16, 128, 568, 56)));
    let horizontal = overlay(Layout::Horizontal, 512, 124, 4);
    match make_grid(&style, &horizontal, 120, true) {
        Ok(grid) => {
            assert_eq!((grid.cell, grid.height, grid.leading), (120, 92, 16));
            assert_eq!(place_column(&style, &grid, 3), Ok(rect(376, 16, 120, 92)));
        }
        Err(_) => panic!("the columns fit"),
    }
    // With less room the columns share it.
    let narrow = overlay(Layout::Horizontal, 235, 124, 4);
    match make_grid(&style, &narrow, 120, true) {
        Ok(grid) => assert_eq!((grid.cell, grid.leading), (50, 17)),
        Err(_) => panic!("the columns fit"),
    }
}

#[test]
fn the_pointer_finds_rows() {
    let style = Style::default();
    let mut state = state(Layout::Vertical, 5, 3);
    state.first_visible = 1;
    assert_eq!(item_index_at_position(&style, &state, 16, 16), Ok(Some(1)));
    assert_eq!(item_index_at_position(&style, &state, 100, 16 + 56), Ok(Some(2)));
    assert_eq!(item_index_at_position(&style, &state, 583, 16 + 3 * 56 - 1), Ok(Some(3)));
    assert_eq!(item_index_at_position(&style, &state, 100, 16 + 3 * 56), Ok(None));
    assert_eq!(item_index_at_position(&style, &state, 15, 20), Ok(None));
    assert_eq!(item_index_at_position(&style, &state, 584, 20), Ok(None));
    let flat = Style { row_height: 0, ..Style::default() };
    assert_eq!(item_index_at_position(&flat, &state, 16, 16), Ok(None));
}

#[test]
fn the_pointer_finds_columns() {
    let style = Style::default();
    let state = state(Layout::Horizontal, 3, 4);
    // The columns take 480 of 568, so that 44 are left on either side.
    assert_eq!(item_index_at_position(&style, &state, 60, 20), Ok(Some(0)));
    assert_eq!(item_index_at_position(&style, &state, 59, 20), Ok(None));
    assert_eq!(item_index_at_position(&style, &state, 300, 20), Ok(Some(2)));
    assert_eq!(item_index_at_position(&style, &state, 430, 20), Ok(None));
}

#[test]
fn the_pointer_may_miss_the_range_of_coordinates() {
    let style = Style { row_height: 32767, padding: 32767, ..Style::default() };
    let state = state(Layout::Vertical, 3, 3);
    assert_eq!(item_index_at_position(&style, &state, 0, 0), Err(CoordinateOverflow));
}

#[test]
fn the_palette_follows_the_style() {
    let style = Style {
        overlay_background: 0x101010,
        highlight_background: 0x303030,
        text_color: 1,
        text_selected_color: 2,
        overlay_border_width: 3,
        overlay_border_color: 4,
        ..Style::default()
    };
    let palette = overlay_palette(&style);
    let paint = |foreground, background| Paint { foreground, background };
    assert_eq!(palette.background, paint(0x101010, 0x101010));
    assert_eq!(palette.text, paint(1, 0x101010));
    assert_eq!(palette.hover_text, paint(1, 0x202020));
    assert_eq!(palette.selected_text, paint(2, 0x303030));
    assert_eq!(palette.highlight, paint(0x303030, 0x303030));
    assert_eq!(palette.hover, paint(0x202020, 0x101010));
    assert_eq!(palette.icon, paint(0x101010, 0x101010));
    assert_eq!(palette.border, Some(Stroke { paint: paint(4, 0x101010), line_width: 3 }));
    assert_eq!(palette.item_border, None);
    assert_eq!(palette.item_selected_border, None);
    assert_eq!(line_stroke(5, 6, 1), Some(Stroke { paint: paint(5, 6), line_width: 1 }));
}

fn ops(style: &Style, state: &OverlayState) -> Vec<DrawOp> {
    match redraw_overlay(style, state) {
        Ok(ops) => ops,
        Err(_) => panic!("the overlay can be drawn"),
    }
}

#[test]
fn a_vertical_overlay_is_drawn() {
    let style = Style { item_border_width: 2, overlay_border_width: 4, ..Style::default() };
    let mut overlay = overlay(Layout::Vertical, 600, 144, 2);
    overlay.border_gc = Some(8);
    overlay.item_border_gc = Some(9);
    overlay.item_selected_border_gc = Some(10);
    let icon = Icon { width: 40, height: 20, pixels: vec![0; 800] };
    let windows = vec![
        WindowEntry { window: 1, title: "one".to_string(), icon: Some(icon) },
        entry(2, "two"),
        entry(3, "three"),
    ];
    let mut state = OverlayState::new(windows, overlay);
    state.hovered = Some(1);
    let first = rect(16, 16, 568, 56);
    let second = rect(16, 72, 568, 56);
    assert_eq!(
        ops(&style, &state),
        vec![
            DrawOp::Fill { gc: 6, rect: rect(0, 0, 600, 144) },
            DrawOp::Fill { gc: 4, rect: first },
            DrawOp::Icon { index: 0, x: 24, y: 34, background: 0xffffff },
            DrawOp::Outline { gc: 10, rect: rect(17, 17, 566, 54) },
            DrawOp::Text { gc: 2, x: 80, y: 50, bytes: b"one".to_vec() },
            DrawOp::Fill { gc: 5, rect: second },
            DrawOp::Outline { gc: 9, rect: rect(17, 73, 566, 54) },
            DrawOp::Text { gc: 3, x: 80, y: 106, bytes: b"two".to_vec() },
            DrawOp::Outline { gc: 8, rect: rect(2, 2, 596, 140) },
        ]
    );
}

#[test]
fn a_horizontal_overlay_is_drawn() {
    let style = Style::default();
    let overlay = overlay(Layout::Horizontal, 272, 124, 2);
    let icon = Icon { width: 40, height: 20, pixels: vec![0; 800] };
    let windows = vec![
        entry(1, "a title that is too long"),
        WindowEntry { window: 2, title: "two".to_string(), icon: Some(icon) },
    ];
    let mut state = OverlayState::new(windows, overlay);
    state.hovered = Some(1);
    assert_eq!(
        ops(&style, &state),
        vec![
            DrawOp::Fill { gc: 6, rect: rect(0, 0, 272, 124) },
            DrawOp::Fill { gc: 4, rect: rect(16, 16, 120, 92) },
            DrawOp::Text { gc: 2, x: 27, y: 98, bytes: b"a title tha...".to_vec() },
            DrawOp::Fill { gc: 5, rect: rect(136, 16, 120, 92) },
            DrawOp::Icon { index: 1, x: 176, y: 34, background: 0x7f7f7f },
            DrawOp::Text { gc: 3, x: 185, y: 98, bytes: b"two".to_vec() },
        ]
    );
}

#[test]
fn labels_stand_in_the_middle_of_their_column() {
    let style = Style { horizontal_text_offset: 50, ..Style::default() };
    let overlay = overlay(Layout::Horizontal, 152, 124, 1);
    let state = OverlayState::new(vec![entry(1, "xx")], overlay);
    let drawn = ops(&style, &state);
    assert_eq!(
        drawn.last(),
        Some(&DrawOp::Text { gc: 2, x: 69, y: 98, bytes: b"xx".to_vec() })
    );
    let wide = Style { horizontal_text_offset: 58, ..Style::default() };
    let overlay = self::overlay(Layout::Horizontal, 152, 124, 1);
    let state = OverlayState::new(vec![entry(1, "x")], overlay);
    assert_eq!(
        ops(&wide, &state).last(),
        Some(&DrawOp::Text { gc: 2, x: 74, y: 98, bytes: b"x".to_vec() })
    );
}

#[test]
fn an_overlay_beyond_the_coordinates_is_not_drawn() {
    let style = Style { vertical_text_gap: i16::MAX, ..Style::default() };
    let state = state(Layout::Vertical, 1, 1);
    assert_eq!(redraw_overlay(&style, &state), Err(CoordinateOverflow));
    let style = Style { padding: 40000, ..Style::default() };
    let state = self::state(Layout::Horizontal, 1, 1);
    assert_eq!(redraw_overlay(&style, &state), Err(CoordinateOverflow));
}

#[test]
fn entries_are_hit_where_they_are_drawn() {
    let style = Style::default();
    for layout in [Layout::Vertical, Layout::Horizontal] {
        let mut state = state(layout, 4, 3);
        state.set_current(3);
        let drawn = ops(&style, &state);
        let rect = match drawn.iter().find(|op| matches!(op, DrawOp::Fill { gc: 4, .. })) {
            Some(DrawOp::Fill { rect, .. }) => *rect,
            _ => panic!("the selection is drawn"),
        };
        assert_eq!(item_index_at_position(&style, &state, rect.x, rect.y), Ok(Some(3)));
    }
}
