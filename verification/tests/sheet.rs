//! Style sheets: comments, rules, colours, lengths and what they set.

use xwitcher::config::{CliError, CliOptions, Layout};
use xwitcher::css::{parse_css_rules, parse_declarations, strip_css_comments, CssRules};
use xwitcher::style::{css_number_texts, Style};
use xwitcher::textmap::TextMap;
use xwitcher::values::{
    number_texts, parse_color, parse_i16_px, parse_u16_px, ProblemKind, Readings, StyleError,
};

fn read(texts: Vec<String>) -> Readings {
    let mut readings: Readings = TextMap::new();
    for text in texts {
        let bits = text.parse::<f64>().ok().map(f64::to_bits);
        readings.insert(text, bits);
    }
    readings
}

fn color(value: &str) -> Result<u32, StyleError> {
    parse_color(value, &read(number_texts(value)))
}

fn length(value: &str) -> Result<u16, StyleError> {
    parse_u16_px(value, &read(number_texts(value)))
}

fn offset(value: &str) -> Result<i16, StyleError> {
    parse_i16_px(value, &read(number_texts(value)))
}

fn kind_and_message<T>(result: Result<T, StyleError>) -> (ProblemKind, String) {
    match result {
        Ok(_) => panic!("expected an error"),
        Err(error) => (error.kind, error.message()),
    }
}

fn rules(source: &str) -> CssRules {
    match parse_css_rules(source) {
        Ok(rules) => rules,
        Err(error) => panic!("{}", error.message()),
    }
}

fn styled(source: &str) -> Result<Style, StyleError> {
    let rules = rules(source);
    let readings = read(css_number_texts(&rules));
    let mut style = Style::default();
    match style.apply_rules(&rules, &readings) {
        Ok(()) => Ok(style),
        Err(error) => Err(error),
    }
}

fn value(rules: &CssRules, selector: &str, name: &str) -> Option<String> {
    rules.get(selector).and_then(|d| d.get(name)).cloned()
}

fn text(chars: Vec<char>) -> String {
    chars.into_iter().collect()
}

#[test]
fn comments_are_removed() {
    assert_eq!(text(strip_css_comments("a/* x */b")), "ab");
    assert_eq!(text(strip_css_comments("a/**/b/* { } */c")), "abc");
    assert_eq!(text(strip_css_comments("a / b * c")), "a / b * c");
    assert_eq!(text(strip_css_comments("/* /* */ */")), " */");
}

#[test]
fn an_open_comment_keeps_its_last_byte() {
    assert_eq!(text(strip_css_comments("a/*bc")), "ac");
    assert_eq!(text(strip_css_comments("a/*")), "a");
    assert_eq!(text(strip_css_comments("a/*/")), "a/");
}

#[test]
fn bytes_beyond_ascii_become_single_characters() {
    assert_eq!(text(strip_css_comments("\u{e9}")), "\u{c3}\u{a9}");
}

#[test]
fn declarations_are_trimmed_and_unquoted() {
    let block: Vec<char> = " Color : \"red\" ; width: '3px';bad;:x; empty: ; color: blue "
        .chars()
        .collect();
    let map = parse_declarations(&block);
    assert_eq!(map.len(), 2);
    assert_eq!(map.get("color").map(|v| v.as_str()), Some("blue"));
    assert_eq!(map.get("width").map(|v| v.as_str()), Some("3px"));
    assert_eq!(map.key_at(0), "color");
    assert_eq!(map.value_at(1), "3px");
}

#[test]
fn rules_are_collected_by_selector() {
    let rules = rules("Overlay , item { width: 10px } , { x: y } overlay { width: 20; color: red }");
    assert_eq!(rules.len(), 2);
    assert_eq!(value(&rules, "overlay", "width"), Some("20".to_string()));
    assert_eq!(value(&rules, "overlay", "color"), Some("red".to_string()));
    assert_eq!(value(&rules, "item", "width"), Some("10px".to_string()));
    assert_eq!(value(&rules, "item", "color"), None);
}

#[test]
fn later_declarations_win_over_earlier_ones() {
    let rules = rules("item { height: 1; height: 2 } item { height: 3 }");
    assert_eq!(value(&rules, "item", "height"), Some("3".to_string()));
}

#[test]
fn text_without_a_block_is_ignored() {
    assert_eq!(rules("  ").len(), 0);
    assert_eq!(rules("overlay").len(), 0);
}

#[test]
fn nested_braces_belong_to_the_block() {
    let rules = rules("a { x: { y } z: 1 } b { w: 2 }");
    assert_eq!(value(&rules, "a", "x"), Some("{ y } z: 1".to_string()));
    assert_eq!(value(&rules, "b", "w"), Some("2".to_string()));
}

#[test]
fn an_open_block_is_an_error() {
    let error = match parse_css_rules("a { x: 1") {
        Ok(_) => panic!("expected an error"),
        Err(error) => error,
    };
    assert_eq!(error.kind, ProblemKind::UnmatchedBraces);
    assert_eq!(error.message(), "unmatched braces in css");
}

#[test]
fn selectors_are_put_in_lower_case_beyond_ascii() {
    // One byte of the two of a letter outside ASCII stands for a letter of its own.
    let rules = rules("\u{c9} { a: b }");
    let selector: String = "\u{c3}\u{89}".to_lowercase();
    assert_eq!(selector, "\u{e3}\u{89}");
    assert_eq!(value(&rules, &selector, "a"), Some("b".to_string()));
}

#[test]
fn hexadecimal_colors() {
    assert_eq!(color("#1a2b3c").unwrap_or(1), 0x1a2b3c);
    assert_eq!(color(" #ABC ").unwrap_or(1), 0xaabbcc);
    assert_eq!(color("#abcd").unwrap_or(1), 0xaabbcc);
    assert_eq!(color("#11223344").unwrap_or(1), 0x112233);
    assert_eq!(color("# 000001").unwrap_or(0), 1);
    assert_eq!(color("#+12345").unwrap_or(0), 0x12345);
}

#[test]
fn wrong_hexadecimal_colors() {
    assert_eq!(
        kind_and_message(color("#xyz")),
        (ProblemKind::InvalidHexColor, "invalid hex color: #xyz".to_string())
    );
    assert_eq!(kind_and_message(color("#")).0, ProblemKind::InvalidHexColor);
    assert_eq!(kind_and_message(color("#123456789")).0, ProblemKind::InvalidHexColor);
    assert_eq!(
        kind_and_message(color("# 12345")),
        (
            ProblemKind::UnsupportedHexLength,
            "unsupported hex color length: #12345".to_string()
        )
    );
}

#[test]
fn rgb_colors() {
    assert_eq!(color("rgb(1, 2,3)").unwrap_or(0), 0x010203);
    assert_eq!(color("rgb(254.5,0.4,255)").unwrap_or(0), 0xff00ff);
    assert_eq!(color("rgb(-0,1e2,2.5)").unwrap_or(1), 0x006403);
}

#[test]
fn wrong_rgb_colors() {
    assert_eq!(
        kind_and_message(color("rgb(1,2)")),
        (
            ProblemKind::RgbComponentCount,
            "rgb() expects three components: rgb(1,2)".to_string()
        )
    );
    assert_eq!(
        kind_and_message(color("rgb(1, x ,2)")),
        (ProblemKind::InvalidRgbComponent, "invalid rgb component: x".to_string())
    );
    assert_eq!(
        kind_and_message(color("rgb(1,2,255.5)")),
        (
            ProblemKind::RgbComponentOutOfRange,
            "rgb component out of range: 255.5".to_string()
        )
    );
    assert_eq!(
        kind_and_message(color("rgb(NaN,2,5)")).0,
        ProblemKind::RgbComponentOutOfRange
    );
    assert_eq!(kind_and_message(color("rgb(-1,2,5)")).0, ProblemKind::RgbComponentOutOfRange);
}

#[test]
fn named_colors() {
    assert_eq!(color("Black").unwrap_or(1), 0);
    assert_eq!(color(" WHITE ").unwrap_or(1), 0xffffff);
    assert_eq!(color("red").unwrap_or(1), 0xff0000);
    assert_eq!(color("green").unwrap_or(1), 0x008000);
    assert_eq!(color("blue").unwrap_or(1), 0x0000ff);
    assert_eq!(
        kind_and_message(color(" Pink ")),
        (ProblemKind::UnsupportedColor, "unsupported color value: pink".to_string())
    );
    assert_eq!(kind_and_message(color("rgb(1,2,3")).0, ProblemKind::UnsupportedColor);
}

#[test]
fn lengths() {
    assert_eq!(length("12px").unwrap_or(0), 12);
    assert_eq!(length(" 12.5 PX ").unwrap_or(0), 13);
    assert_eq!(length("7").unwrap_or(0), 7);
    assert_eq!(length("65535").unwrap_or(0), 65535);
    assert_eq!(length("1e3").unwrap_or(0), 1000);
    assert_eq!(length("NaN").unwrap_or(1), 0);
    assert_eq!(length("-0").unwrap_or(1), 0);
    assert_eq!(length("0.49999999999999994").unwrap_or(1), 0);
}

#[test]
fn wrong_lengths() {
    assert_eq!(
        kind_and_message(length("px")),
        (ProblemKind::InvalidLength, "invalid length value: px".to_string())
    );
    assert_eq!(
        kind_and_message(length(" -1px")),
        (ProblemKind::NegativeLength, "length cannot be negative:  -1px".to_string())
    );
    assert_eq!(
        kind_and_message(length("65535.1")),
        (ProblemKind::LengthTooLarge, "length too large: 65535.1".to_string())
    );
    assert_eq!(kind_and_message(length("inf")).0, ProblemKind::LengthTooLarge);
    assert_eq!(kind_and_message(length("-inf")).0, ProblemKind::NegativeLength);
}

#[test]
fn offsets() {
    assert_eq!(offset("-5px").unwrap_or(0), -5);
    assert_eq!(offset("-2.5").unwrap_or(0), -3);
    assert_eq!(offset("-32768").unwrap_or(0), i16::MIN);
    assert_eq!(offset("32767").unwrap_or(0), i16::MAX);
    assert_eq!(offset("nan").unwrap_or(1), 0);
    assert_eq!(
        kind_and_message(offset("32767.5")),
        (ProblemKind::LengthOutOfRange, "length out of range: 32767.5".to_string())
    );
    assert_eq!(kind_and_message(offset("-32768.5")).0, ProblemKind::LengthOutOfRange);
    assert_eq!(kind_and_message(offset("left")).0, ProblemKind::InvalidLength);
}

#[test]
fn the_default_style() {
    let style = Style::default();
    assert_eq!(style.overlay_background, 0);
    assert_eq!(style.highlight_background, 0xffffff);
    assert_eq!(style.text_color, 0xffffff);
    assert_eq!(style.text_selected_color, 0);
    assert_eq!((style.overlay_width, style.row_height), (600, 56));
    assert_eq!((style.padding, style.screen_margin), (16, 96));
    assert_eq!((style.icon_max_size, style.icon_margin), (40, 8));
    assert_eq!((style.vertical_text_gap, style.vertical_text_baseline), (8, 34));
    assert_eq!((style.horizontal_item_width, style.horizontal_item_height), (120, 92));
    assert_eq!((style.horizontal_text_offset, style.horizontal_text_baseline), (8, 82));
    assert_eq!(style.horizontal_char_width_estimate, 7);
    assert_eq!((style.overlay_border_width, style.item_border_width), (0, 0));
    assert_eq!(style.overlay_border_color, 0xffffff);
    assert_eq!(style.item_border_color, 0xffffff);
    assert_eq!(style.item_selected_border_color, 0xffffff);
    assert_eq!(style.icon_area(), 56);
    assert_eq!(style.vertical_text_offset(), 64);
}

#[test]
fn a_full_sheet_sets_everything() {
    let source = "
        :root { --overlay-background: #010101; --row-height: 1; --unknown: 5 }
        overlay { background: #020202; width: 700px; padding: 3; screen-margin: 4;
                  border-width: 5; border-color: #050505 }
        item { height: 60; icon-size: 32; icon-margin: 6; border-width: 2; border-color: #060606 }
        item:selected { background: #070707; color: #080808; border-color: #090909 }
        label { color: #0a0a0a }
        label:selected { color: #0b0b0b }
        horizontal { item-width: 100; item-height: 90; text-offset: -1; text-baseline: 70;
                     char-width: 6 }
        vertical { text-gap: -2; text-baseline: 30 }";
    let style = match styled(source) {
        Ok(style) => style,
        Err(error) => panic!("{}", error.message()),
    };
    assert_eq!(style.overlay_background, 0x020202);
    assert_eq!((style.overlay_width, style.padding, style.screen_margin), (700, 3, 4));
    assert_eq!((style.overlay_border_width, style.overlay_border_color), (5, 0x050505));
    assert_eq!((style.row_height, style.icon_max_size, style.icon_margin), (60, 32, 6));
    assert_eq!((style.item_border_width, style.item_border_color), (2, 0x060606));
    assert_eq!(style.highlight_background, 0x070707);
    assert_eq!(style.item_selected_border_color, 0x090909);
    assert_eq!(style.text_color, 0x0a0a0a);
    assert_eq!(style.text_selected_color, 0x0b0b0b);
    assert_eq!((style.horizontal_item_width, style.horizontal_item_height), (100, 90));
    assert_eq!((style.horizontal_text_offset, style.horizontal_text_baseline), (-1, 70));
    assert_eq!(style.horizontal_char_width_estimate, 6);
    assert_eq!((style.vertical_text_gap, style.vertical_text_baseline), (-2, 30));
}

#[test]
fn variables_in_the_root_rule() {
    let source = ":root {
        --overlay-background: #010101; --highlight-background: #020202; --text-color: #030303;
        --text-selected-color: #040404; --overlay-width: 5; --padding: 6; --screen-margin: 7;
        --row-height: 8; --icon-size: 9; --icon-margin: 10; --overlay-border-width: 11;
        --overlay-border-color: #0c0c0c; --vertical-text-gap: -13; --vertical-text-baseline: 14;
        --horizontal-item-width: 15; --horizontal-item-height: 16; --horizontal-text-offset: 17;
        --horizontal-text-baseline: -18; --horizontal-char-width: 19; --item-border-width: 20;
        --item-border-color: #151515; --item-selected-border-color: #161616 }";
    let style = match styled(source) {
        Ok(style) => style,
        Err(error) => panic!("{}", error.message()),
    };
    assert_eq!(style.overlay_background, 0x010101);
    assert_eq!(style.highlight_background, 0x020202);
    assert_eq!(style.text_color, 0x030303);
    assert_eq!(style.text_selected_color, 0x040404);
    assert_eq!((style.overlay_width, style.padding, style.screen_margin), (5, 6, 7));
    assert_eq!((style.row_height, style.icon_max_size, style.icon_margin), (8, 9, 10));
    assert_eq!((style.overlay_border_width, style.overlay_border_color), (11, 0x0c0c0c));
    assert_eq!((style.vertical_text_gap, style.vertical_text_baseline), (-13, 14));
    assert_eq!((style.horizontal_item_width, style.horizontal_item_height), (15, 16));
    assert_eq!((style.horizontal_text_offset, style.horizontal_text_baseline), (17, -18));
    assert_eq!((style.horizontal_char_width_estimate, style.item_border_width), (19, 20));
    assert_eq!(style.item_border_color, 0x151515);
    assert_eq!(style.item_selected_border_color, 0x161616);
}

#[test]
fn a_wrong_value_stops_the_sheet() {
    let error = match styled("overlay { width: wide } item { height: 3 }") {
        Ok(_) => panic!("expected an error"),
        Err(error) => error,
    };
    assert_eq!(error.kind, ProblemKind::InvalidLength);
    assert_eq!(error.text, "wide");
}

#[test]
fn no_rules_leave_the_default_style() {
    let style = match styled("other { width: 3 }") {
        Ok(style) => style,
        Err(error) => panic!("{}", error.message()),
    };
    assert_eq!(style.overlay_width, 600);
    assert_eq!(style.row_height, 56);
}

#[test]
fn number_texts_of_a_sheet() {
    let texts = css_number_texts(&rules("item { height: 12px; border-color: rgb(1, 2, 3) }"));
    for wanted in ["12", "1", "2", "3"] {
        assert!(texts.iter().any(|t| t == wanted), "{wanted} is missing");
    }
}

#[test]
fn labels_are_cut_to_their_cell() {
    let style = Style::default();
    // (120 - 16) / 7 characters fit.
    assert_eq!(style.fit_horizontal_label("short", 120), ("short".to_string(), 35));
    assert_eq!(
        style.fit_horizontal_label("a title that is too long", 120),
        ("a title tha...".to_string(), 98)
    );
    assert_eq!(style.fit_horizontal_label("abcd", 37), ("...".to_string(), 21));
    assert_eq!(style.fit_horizontal_label("abcd", 20), (".".to_string(), 4));
    assert_eq!(style.fit_horizontal_label("abcd", 16), (String::new(), 0));
    assert_eq!(style.fit_horizontal_label("", 120), (String::new(), 0));
    assert_eq!(style.fit_horizontal_label("\u{e9}t\u{e9}", 120), ("?t?".to_string(), 21));
}

#[test]
fn command_line_layouts() {
    let parse = |args: &[&str]| CliOptions::parse(args.iter().map(|a| a.to_string()).collect());
    assert!(matches!(parse(&[]), Ok(options) if options.layout == Layout::default()));
    assert!(matches!(parse(&["-h"]), Ok(options) if options.layout == Layout::Horizontal));
    assert!(matches!(parse(&["--vertical"]), Ok(options) if options.layout == Layout::Vertical));
    assert!(
        matches!(parse(&["-v", "--horizontal"]), Ok(options) if options.layout == Layout::Horizontal)
    );
}

#[test]
fn command_line_errors() {
    let parse = |args: &[&str]| CliOptions::parse(args.iter().map(|a| a.to_string()).collect());
    match parse(&["-v", "--css", "-x"]) {
        Err(error) => {
            assert!(matches!(error, CliError::CssUnsupported));
            assert_eq!(
                error.message(),
                "--css is no longer supported, use ~/.config/xwitcher/style.css"
            );
        }
        Ok(_) => panic!("expected an error"),
    }
    match parse(&["extra", "-c"]) {
        Err(error) => {
            assert_eq!(error.message(), "unknown option: extra");
            assert!(matches!(error, CliError::UnknownOption(option) if option == "extra"));
        }
        Ok(_) => panic!("expected an error"),
    }
}

#[test]
fn texts_are_found_in_a_map() {
    let mut map: TextMap<String> = TextMap::new();
    map.insert("a".to_string(), "1".to_string());
    map.insert("b".to_string(), "2".to_string());
    map.insert("a".to_string(), "3".to_string());
    assert_eq!(map.len(), 2);
    assert_eq!(map.get("a").map(|v| v.as_str()), Some("3"));
    assert_eq!(map.get("b").map(|v| v.as_str()), Some("2"));
    assert!(map.get("c").is_none());
    let copy = map.copy();
    assert_eq!((copy.key_at(0).as_str(), copy.value_at(0).as_str()), ("a", "3"));
}

#[test]
fn other_readings_do_not_matter() {
    let mut readings = read(number_texts("12px"));
    readings.insert("13".to_string(), Some(0));
    assert_eq!(parse_u16_px("12px", &readings).unwrap_or(0), 12);
    // A text that was not read counts as no number.
    assert_eq!(
        kind_and_message(parse_u16_px("14px", &readings)).0,
        ProblemKind::InvalidLength
    );
}

#[test]
fn joined_blocks_hold_the_later_values() {
    let parse = |block: &str| parse_declarations(&block.chars().collect::<Vec<char>>());
    let (a, b) = ("Color: red; width: 1", " height: 2; color : blue; x: ");
    let joined = parse(&format!("{a};{b}"));
    assert_eq!(joined.len(), 3);
    for name in ["color", "width", "height", "x"] {
        let later = parse(b).get(name).cloned();
        assert_eq!(joined.get(name).cloned(), later.or(parse(a).get(name).cloned()), "{name}");
    }
    for i in 0..joined.len() {
        let (name, value) = (joined.key_at(i), joined.value_at(i));
        assert!(!name.is_empty() && !value.is_empty());
        assert_eq!(*name, name.trim().to_lowercase());
    }
}
