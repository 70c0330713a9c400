//! Windows: their properties, their order, and how they are found out about.

use xwitcher::collect::{Attributes, Collection, Question, WindowSource};
use xwitcher::icons::Icon;
use xwitcher::mru::{apply_mru_order, update_mru};
use xwitcher::overlay::WindowEntry;
use xwitcher::properties::{
    activation_message, active_window, numbered_title, string_property, title_step, utf8_property,
    window_class_names, window_icon, window_list, TitleProperty, TitleStep,
};
use xwitcher::text::white_space;

fn entry(window: u32) -> WindowEntry {
    WindowEntry { window, title: String::new(), icon: None }
}

fn windows(entries: &[WindowEntry]) -> Vec<u32> {
    entries.iter().map(|e| e.window).collect()
}

fn done(step: TitleStep) -> Option<String> {
    match step {
        TitleStep::Done(title) => Some(title),
        TitleStep::Ask(_) => None,
    }
}

#[test]
fn white_space_is_what_std_says() {
    for value in 0..=0x10ffffu32 {
        if let Some(c) = char::from_u32(value) {
            assert_eq!(white_space(c), c.is_whitespace(), "{value:#x}");
        }
    }
}

#[test]
fn the_last_used_window_comes_first() {
    let mut mru = vec![1, 2, 3];
    update_mru(&mut mru, 3, None);
    assert_eq!(mru, vec![3, 1, 2]);
    update_mru(&mut mru, 4, Some(9));
    assert_eq!(mru, vec![4, 3, 1, 2]);
    update_mru(&mut mru, 0, None);
    update_mru(&mut mru, 9, Some(9));
    assert_eq!(mru, vec![4, 3, 1, 2]);
}

#[test]
fn using_the_second_window_swaps_the_first_two() {
    let mut mru = vec![1, 2, 3];
    update_mru(&mut mru, 2, None);
    assert_eq!(mru, vec![2, 1, 3]);
    update_mru(&mut mru, 1, None);
    assert_eq!(mru, vec![1, 2, 3]);
}

#[test]
fn windows_are_ordered_by_use() {
    let mut entries: Vec<WindowEntry> = [5, 1, 6, 2, 3].into_iter().map(entry).collect();
    apply_mru_order(&vec![3, 9, 2, 1], &mut entries);
    assert_eq!(windows(&entries), vec![3, 2, 1, 5, 6]);
}

#[test]
fn utf8_properties() {
    assert_eq!(utf8_property(Some(b"abc\0def")), Some("abc".to_string()));
    assert_eq!(utf8_property(Some("caf\u{e9}".as_bytes())), Some("caf\u{e9}".to_string()));
    assert_eq!(utf8_property(Some(b"\0abc")), Some(String::new()));
    assert_eq!(utf8_property(Some(b"a\xff")), None);
    assert_eq!(utf8_property(Some(b"a\0\xff")), Some("a".to_string()));
    assert_eq!(utf8_property(Some(b"")), None);
    assert_eq!(utf8_property(None), None);
}

#[test]
fn plain_properties() {
    assert_eq!(string_property(Some(b"abc\0def")), Some("abc".to_string()));
    assert_eq!(string_property(Some(b"a\xe9b")), Some("a\u{fffd}b".to_string()));
    assert_eq!(string_property(Some(b"\0abc")), None);
    assert_eq!(string_property(Some(b"")), None);
    assert_eq!(string_property(None), None);
}

#[test]
fn numbers_stand_in_for_titles() {
    assert_eq!(numbered_title(0), "0x0");
    assert_eq!(numbered_title(0x2a), "0x2a");
    assert_eq!(numbered_title(0x1000), "0x1000");
    assert_eq!(numbered_title(u32::MAX), "0xffffffff");
}

#[test]
fn the_first_good_title_is_taken() {
    let visible = TitleProperty::VisibleName;
    assert_eq!(done(title_step(1, visible, Some(b" a "))), Some(" a ".to_string()));
    assert!(matches!(
        title_step(1, visible, Some(b" \t")),
        TitleStep::Ask(TitleProperty::Name)
    ));
    assert!(matches!(
        title_step(1, TitleProperty::Name, None),
        TitleStep::Ask(TitleProperty::PlainName)
    ));
    assert_eq!(
        done(title_step(1, TitleProperty::PlainName, Some(b"\xff"))),
        Some("\u{fffd}".to_string())
    );
    assert_eq!(done(title_step(31, TitleProperty::PlainName, Some(b" "))), Some("0x1f".to_string()));
}

#[test]
fn class_names_come_in_three_forms() {
    assert_eq!(
        window_class_names(Some(b"navigator\0Fire Fox\0")),
        vec!["navigator", "Fire Fox", "fire fox", "fire-fox"]
    );
    assert_eq!(window_class_names(Some(b" X \0\0 \0x")), vec!["X", "x"]);
    assert_eq!(
        window_class_names(Some("\u{c9}t\u{e9}".as_bytes())),
        vec!["\u{c9}t\u{e9}", "\u{e9}t\u{e9}"]
    );
    assert!(window_class_names(Some(b"")).is_empty());
    assert!(window_class_names(None).is_empty());
}

#[test]
fn window_lists_have_no_zeros() {
    assert_eq!(window_list(Some(&[1, 0, 2, 0])), vec![1, 2]);
    assert!(window_list(None).is_empty());
}

#[test]
fn icon_properties_need_more_than_a_size() {
    assert!(window_icon(Some(&[1, 1]), 8).is_none());
    assert!(window_icon(None, 8).is_none());
    match window_icon(Some(&[1, 1, 7]), 8) {
        Some(icon) => assert_eq!(icon.pixels, vec![7]),
        None => panic!("there is an icon"),
    }
}

#[test]
fn the_active_window_is_the_first_word() {
    assert_eq!(active_window(Some(&[5, 6])), Some(5));
    assert_eq!(active_window(Some(&[0, 6])), None);
    assert_eq!(active_window(Some(&[])), None);
    assert_eq!(active_window(None), None);
}

#[test]
fn the_message_names_the_window() {
    assert_eq!(activation_message(7), [1, 0, 7, 0, 0]);
}

const SHOWN: Option<Attributes> = Some(Attributes { viewable: true, override_redirect: false });

/// Finds out about all windows; window 3 is hidden, window 4 unmanaged, window 5 gone.
fn collected(lists: [&[u32]; 3], overlay: Option<u32>) -> (Vec<WindowEntry>, Vec<String>) {
    let mut collection = Collection::new(overlay, 8);
    let mut asked = Vec::new();
    loop {
        let question = collection.question();
        asked.push(format!("{question:?}"));
        collection = match question {
            Question::List(WindowSource::Stacking) => collection.listed(Some(lists[0])),
            Question::List(WindowSource::Clients) => collection.listed(Some(lists[1])),
            Question::List(WindowSource::Children) => collection.listed(Some(lists[2])),
            Question::Attributes(window) => collection.attributes(match window {
                3 => Some(Attributes { viewable: false, override_redirect: false }),
                4 => Some(Attributes { viewable: true, override_redirect: true }),
                5 => None,
                _ => SHOWN,
            }),
            Question::Title(1, TitleProperty::VisibleName) => collection.titled(Some(b"one")),
            Question::Title(2, TitleProperty::PlainName) => collection.titled(Some(b"two")),
            Question::Title(_, _) => collection.titled(None),
            Question::Icon(1) => collection.iconified(Some(&[1, 1, 11])),
            Question::Icon(_) => collection.iconified(None),
            Question::Classes(2) => collection.classified(Some(b"Two")),
            Question::Classes(_) => collection.classified(None),
            Question::Theme(names) => collection.themed(if names == ["Two", "two"] {
                Some(Icon { width: 1, height: 1, pixels: vec![22] })
            } else {
                None
            }),
            Question::Nothing => break,
        };
    }
    (collection.finish(&vec![6, 2]), asked)
}

#[test]
fn windows_are_found_out_about() {
    let (entries, _) = collected([&[1, 0, 3, 4, 5, 9, 2, 6], &[], &[]], Some(9));
    assert_eq!(windows(&entries), vec![6, 2, 1]);
    let titles: Vec<&str> = entries.iter().map(|e| e.title.as_str()).collect();
    assert_eq!(titles, vec!["0x6", "two", "one"]);
    let icons: Vec<Option<u32>> =
        entries.iter().map(|e| e.icon.as_ref().map(|icon| icon.pixels[0])).collect();
    assert_eq!(icons, vec![None, Some(22), Some(11)]);
}

#[test]
fn lists_stand_in_for_each_other() {
    assert_eq!(windows(&collected([&[0], &[7], &[8]], None).0), vec![7]);
    assert_eq!(windows(&collected([&[], &[0], &[8, 7]], None).0), vec![8, 7]);
    assert!(collected([&[], &[], &[]], None).0.is_empty());
}

#[test]
fn only_what_is_needed_is_asked_for() {
    let (_, asked) = collected([&[1, 3], &[], &[]], None);
    assert_eq!(
        asked,
        vec![
            "List(Stacking)",
            "Attributes(1)",
            "Title(1, VisibleName)",
            "Icon(1)",
            "Attributes(3)",
            "Nothing",
        ]
    );
}
