//! Keys and events, from the first Alt+Tab to the window that gets the focus.

use std::collections::HashSet;
use x11rb::protocol::xproto::{KeyButMask, ModMask};
use xwitcher::config::Layout;
use xwitcher::geometry::{CoordinateOverflow, ScreenSize};
use xwitcher::keys::{
    build_modifier_masks, keycode_count, keycodes_for_keysym, KeyBindings, KeyGrab,
    KeyboardMapping, LOCK, MOD1, MOD2, MOD5, SHIFT, XK_ALT_L, XK_ALT_R, XK_ESCAPE, XK_TAB,
};
use xwitcher::overlay::{Direction, OverlayWindow, WindowEntry};
use xwitcher::style::Style;
use xwitcher::switcher::{arrange, AltTab, Event, Reaction};

const TAB: u8 = 23;
const ALT: u8 = 64;
const ALT_R: u8 = 108;
const ESCAPE: u8 = 9;

fn mapping() -> KeyboardMapping {
    // Two symbols for each key from code 9 to code 108.
    let mut keysyms = vec![0u32; 200];
    keysyms[0] = XK_ESCAPE;
    keysyms[2 * 14 + 1] = XK_TAB;
    keysyms[2 * 55] = XK_ALT_L;
    keysyms[2 * 99] = XK_ALT_R;
    KeyboardMapping { min_keycode: 9, keysyms_per_keycode: 2, keysyms }
}

fn switcher(style: Style) -> AltTab {
    AltTab::new(Layout::Vertical, style, KeyBindings::load(&mapping()), Vec::new(), 77)
}

fn entry(window: u32) -> WindowEntry {
    WindowEntry { window, title: format!("window {window}"), icon: None }
}

fn windows(entries: &[WindowEntry]) -> Vec<u32> {
    entries.iter().map(|e| e.window).collect()
}

fn overlay(width: u16, height: u16, visible_capacity: usize) -> OverlayWindow {
    OverlayWindow {
        window: 99,
        text_gc: 1,
        selected_text_gc: 2,
        hover_text_gc: 3,
        highlight_gc: 4,
        hover_gc: 5,
        background_gc: 6,
        icon_gc: 7,
        border_gc: None,
        item_border_gc: None,
        item_selected_border_gc: None,
        width,
        height,
        layout: Layout::Vertical,
        visible_capacity,
    }
}

fn handle(switcher: &mut AltTab, event: Event) -> Reaction {
    match switcher.handle(event) {
        Ok(reaction) => reaction,
        Err(_) => panic!("the event can be handled"),
    }
}

fn press(switcher: &mut AltTab, keycode: u8, modifiers: u16) -> Reaction {
    handle(switcher, Event::KeyPress { keycode, modifiers })
}

fn release(switcher: &mut AltTab, keycode: u8) -> Reaction {
    handle(switcher, Event::KeyRelease { keycode })
}

/// Presses Alt+Tab over some windows and opens the overlay.
fn open(switcher: &mut AltTab, listed: &[u32], active: u32) {
    let direction = match press(switcher, TAB, MOD1) {
        Reaction::Start(direction) => direction,
        _ => panic!("the overlay starts"),
    };
    let mut entries: Vec<WindowEntry> = listed.iter().map(|w| entry(*w)).collect();
    xwitcher::mru::apply_mru_order(&switcher.mru, &mut entries);
    let screen = ScreenSize { width: 1920, height: 1080 };
    match switcher.plan_overlay(entries, Some(active), screen) {
        Ok(Some(plan)) => {
            let g = plan.geometry;
            let overlay = overlay(g.width, g.height, g.visible_capacity);
            switcher.open_overlay(plan.entries, overlay, direction);
        }
        _ => panic!("there is something to show"),
    }
}

fn target(reaction: Reaction) -> Option<u32> {
    match reaction {
        Reaction::Close { overlay, target } => {
            assert_eq!(overlay.window, 99);
            target
        }
        _ => panic!("the overlay closes"),
    }
}

fn current(switcher: &AltTab) -> Option<usize> {
    switcher.state.as_ref().map(|state| state.current)
}

#[test]
fn key_symbols_and_modifiers_are_those_of_the_server() {
    assert_eq!(XK_TAB, x11::keysym::XK_Tab);
    assert_eq!(XK_ESCAPE, x11::keysym::XK_Escape);
    assert_eq!(XK_ALT_L, x11::keysym::XK_Alt_L);
    assert_eq!(XK_ALT_R, x11::keysym::XK_Alt_R);
    assert_eq!(SHIFT, u16::from(ModMask::SHIFT));
    assert_eq!(LOCK, u16::from(ModMask::LOCK));
    assert_eq!(MOD1, u16::from(ModMask::M1));
    assert_eq!(MOD2, u16::from(ModMask::M2));
    assert_eq!(MOD5, u16::from(ModMask::M5));
    assert_eq!(SHIFT, u16::from(KeyButMask::SHIFT));
    assert_eq!(MOD1, u16::from(KeyButMask::MOD1));
}

#[test]
fn key_codes_are_found_by_symbol() {
    let mapping = mapping();
    assert_eq!(keycodes_for_keysym(&mapping, XK_TAB), vec![TAB]);
    assert_eq!(keycodes_for_keysym(&mapping, 0xabcd), vec![]);
    let odd = KeyboardMapping {
        min_keycode: 250,
        keysyms_per_keycode: 3,
        keysyms: vec![1, 0, 0, 0, 1, 1, 2, 0, 0, 0, 0, 0, 0, 0, 0, 0, 0, 0, 0, 1],
    };
    assert_eq!(keycodes_for_keysym(&odd, 1), vec![250, 251, 0]);
    assert_eq!(keycode_count(8, 255), 248);
    assert_eq!(keycode_count(0, 255), 0);
}

#[test]
fn keys_are_bound() {
    let bindings = KeyBindings::load(&mapping());
    assert_eq!(bindings.tab, vec![TAB]);
    assert_eq!(bindings.alt, HashSet::from([ALT, ALT_R]));
    assert_eq!(bindings.escape, Some(ESCAPE));
    assert!(bindings.is_tab(TAB) && !bindings.is_tab(ALT));
    assert!(bindings.is_alt(ALT_R) && !bindings.is_alt(TAB));
    assert!(bindings.is_escape(ESCAPE) && !bindings.is_escape(TAB));
}

#[test]
fn tab_is_grabbed_whatever_the_locks() {
    let masks: Vec<u16> = build_modifier_masks();
    assert_eq!(masks, vec![0, 0x02, 0x10, 0x80, 0x12, 0x82, 0x90, 0x92]);
    let grabs = KeyBindings::load(&mapping()).tab_grabs();
    assert_eq!(grabs.len(), 16);
    let pairs: Vec<(u8, u16)> = grabs.iter().map(|g: &KeyGrab| (g.keycode, g.modifiers)).collect();
    assert_eq!(pairs[0], (TAB, 0x08));
    assert_eq!(pairs[1], (TAB, 0x09));
    assert_eq!(pairs[15], (TAB, 0x9b));
}

#[test]
fn the_active_window_is_arranged_first() {
    let entries = || [1, 2, 3].into_iter().map(entry).collect::<Vec<_>>();
    assert_eq!(windows(&arrange(entries(), Some(2))), vec![2, 3, 1]);
    assert_eq!(windows(&arrange(entries(), Some(4))), vec![1, 2, 3]);
    assert_eq!(windows(&arrange(entries(), None)), vec![1, 2, 3]);
}

#[test]
fn alt_tab_goes_back_and_forth_between_two_windows() {
    let mut switcher = switcher(Style::default());
    for window in [3, 2, 1] {
        switcher.refresh_active_window(Some(window));
    }
    assert_eq!(switcher.mru, vec![1, 2, 3]);
    open(&mut switcher, &[3, 1, 2], 1);
    assert_eq!(target(release(&mut switcher, ALT)), Some(2));
    assert_eq!(switcher.mru, vec![2, 1, 3]);
    open(&mut switcher, &[3, 1, 2], 2);
    assert_eq!(target(release(&mut switcher, ALT)), Some(1));
    assert_eq!(switcher.mru, vec![1, 2, 3]);
}

#[test]
fn each_tab_goes_one_further() {
    let mut switcher = switcher(Style::default());
    open(&mut switcher, &[1, 2, 3], 1);
    assert_eq!(current(&switcher), Some(1));
    assert!(matches!(press(&mut switcher, TAB, MOD1), Reaction::Redraw));
    assert_eq!(current(&switcher), Some(2));
    assert!(matches!(press(&mut switcher, TAB, MOD1), Reaction::Redraw));
    assert_eq!(current(&switcher), Some(0));
    assert!(matches!(press(&mut switcher, TAB, MOD1 | SHIFT), Reaction::Redraw));
    assert_eq!(current(&switcher), Some(2));
    assert_eq!(target(release(&mut switcher, ALT)), Some(3));
    assert_eq!(switcher.mru, vec![3]);
}

#[test]
fn escape_changes_nothing() {
    let mut switcher = switcher(Style::default());
    switcher.refresh_active_window(Some(1));
    open(&mut switcher, &[1, 2], 1);
    assert_eq!(target(press(&mut switcher, ESCAPE, MOD1)), None);
    assert!(switcher.state.is_none());
    assert_eq!(switcher.mru, vec![1]);
    assert!(matches!(press(&mut switcher, ESCAPE, MOD1), Reaction::Nothing));
}

#[test]
fn the_last_alt_key_counts() {
    let mut switcher = switcher(Style::default());
    open(&mut switcher, &[1, 2], 1);
    assert!(matches!(press(&mut switcher, ALT_R, 0), Reaction::Nothing));
    assert!(matches!(release(&mut switcher, ALT), Reaction::Nothing));
    assert!(matches!(release(&mut switcher, TAB), Reaction::Nothing));
    assert_eq!(target(release(&mut switcher, ALT_R)), Some(2));
    assert!(matches!(release(&mut switcher, ALT_R), Reaction::Nothing));
}

#[test]
fn tab_alone_opens_nothing() {
    let mut switcher = switcher(Style::default());
    assert!(matches!(press(&mut switcher, TAB, SHIFT), Reaction::Nothing));
    assert!(matches!(press(&mut switcher, ALT, 0), Reaction::Nothing));
    assert!(matches!(
        press(&mut switcher, TAB, MOD1 | SHIFT),
        Reaction::Start(Direction::Backward)
    ));
}

#[test]
fn opening_backward_selects_the_last_window() {
    let mut switcher = switcher(Style::default());
    switcher.open_overlay(vec![entry(1), entry(2), entry(3)], overlay(600, 200, 3), Direction::Backward);
    assert_eq!(current(&switcher), Some(2));
    let mut single = self::switcher(Style::default());
    single.open_overlay(vec![entry(1)], overlay(600, 200, 3), Direction::Forward);
    assert_eq!(current(&single), Some(0));
    assert_eq!(target(release(&mut single, ALT)), Some(1));
}

#[test]
fn there_may_be_nothing_to_show() {
    let mut switcher = switcher(Style::default());
    let screen = ScreenSize { width: 800, height: 600 };
    assert!(matches!(switcher.plan_overlay(Vec::new(), None, screen), Ok(None)));
    open(&mut switcher, &[1, 2], 1);
    assert!(matches!(switcher.plan_overlay(vec![entry(1)], None, screen), Ok(None)));
    let huge = self::switcher(Style { icon_max_size: 65535, ..Style::default() });
    assert!(matches!(
        huge.plan_overlay(vec![entry(1)], None, screen),
        Err(CoordinateOverflow)
    ));
}

#[test]
fn the_pointer_hovers_and_clicks() {
    let mut switcher = switcher(Style::default());
    open(&mut switcher, &[1, 2, 3], 1);
    let at = |y: i16| Event::PointerAt { window: 99, x: 50, y };
    assert!(matches!(handle(&mut switcher, at(20 + 2 * 56)), Reaction::Redraw));
    assert!(matches!(handle(&mut switcher, at(21 + 2 * 56)), Reaction::Nothing));
    assert!(matches!(
        handle(&mut switcher, Event::PointerAt { window: 5, x: 50, y: 20 }),
        Reaction::Nothing
    ));
    assert_eq!(switcher.state.as_ref().and_then(|s| s.hovered), Some(2));
    assert!(matches!(
        handle(&mut switcher, Event::PointerLeft { window: 99 }),
        Reaction::Redraw
    ));
    assert!(matches!(
        handle(&mut switcher, Event::PointerLeft { window: 99 }),
        Reaction::Nothing
    ));
    let click = |button: u8, y: i16| Event::ButtonReleased { button, window: 99, x: 50, y };
    assert!(matches!(handle(&mut switcher, click(3, 20)), Reaction::Nothing));
    assert!(matches!(handle(&mut switcher, click(1, 2)), Reaction::Nothing));
    assert_eq!(target(handle(&mut switcher, click(1, 20 + 2 * 56))), Some(3));
    assert_eq!(switcher.mru, vec![3]);
}

#[test]
fn places_beyond_the_coordinates_are_errors() {
    let mut switcher = switcher(Style { padding: 32767, row_height: 32767, ..Style::default() });
    switcher.open_overlay(vec![entry(1), entry(2)], overlay(600, 200, 2), Direction::Forward);
    assert!(switcher.handle(Event::PointerAt { window: 99, x: 0, y: 0 }).is_err());
    let click = Event::ButtonReleased { button: 1, window: 99, x: 0, y: 0 };
    assert!(switcher.handle(click).is_err());
    assert!(switcher.redraw_overlay().is_err());
    assert_eq!(current(&switcher), Some(1));
}

#[test]
fn windows_come_and_go() {
    let mut switcher = switcher(Style::default());
    assert!(matches!(switcher.redraw_overlay(), Ok(ops) if ops.is_empty()));
    assert!(matches!(handle(&mut switcher, Event::Exposed { window: 99 }), Reaction::Nothing));
    open(&mut switcher, &[1, 2], 1);
    assert!(matches!(switcher.redraw_overlay(), Ok(ops) if ops.len() == 4));
    assert!(matches!(handle(&mut switcher, Event::Exposed { window: 99 }), Reaction::Redraw));
    assert!(matches!(handle(&mut switcher, Event::Exposed { window: 1 }), Reaction::Nothing));
    assert!(matches!(handle(&mut switcher, Event::Destroyed { window: 1 }), Reaction::Nothing));
    assert!(switcher.state.is_some());
    switcher.refresh_active_window(Some(99));
    switcher.refresh_active_window(None);
    assert!(switcher.mru.is_empty());
    assert!(matches!(handle(&mut switcher, Event::Destroyed { window: 99 }), Reaction::Nothing));
    assert!(switcher.state.is_none());
    switcher.refresh_active_window(Some(99));
    assert_eq!(switcher.mru, vec![99]);
}

#[test]
fn other_news_ask_for_reading() {
    let mut switcher = switcher(Style::default());
    assert!(matches!(handle(&mut switcher, Event::MappingChanged), Reaction::Rebind));
    assert!(matches!(
        handle(&mut switcher, Event::PropertyChanged { atom: 77 }),
        Reaction::ReadActive
    ));
    assert!(matches!(
        handle(&mut switcher, Event::PropertyChanged { atom: 78 }),
        Reaction::Nothing
    ));
    let other = KeyboardMapping { min_keycode: 8, keysyms_per_keycode: 1, keysyms: vec![XK_TAB] };
    switcher.rebind(&other);
    assert!(switcher.bindings.is_tab(8) && !switcher.bindings.is_tab(TAB));
}
