//! Icons by name: directories, desktop files and what is remembered.

use image::{ColorType, ImageEncoder};
use xwitcher::desktop::{
    build_desktop_index, is_desktop_file, parse_desktop_file, DesktopFile, IconSource, Sources,
};
use xwitcher::icons::{Icon, IconFile};
use xwitcher::paths::{data_dirs, default_style_path, desktop_entry_dirs, icon_search_roots, join};
use xwitcher::search::{
    icon_file_matches, icon_file_names, DirEntry, EntryKind, FileName, Listing, Search, SearchStep,
};
use xwitcher::textmap::TextMap;
use xwitcher::theme::{IconRequest, IconTheme, LookupStep};

fn file_name(stem: &str, extension: &str) -> FileName {
    FileName { stem: Some(stem.to_string()), extension: Some(extension.to_string()) }
}

fn names(list: &[&str]) -> Vec<String> {
    list.iter().map(|n| n.to_string()).collect()
}

fn texts(paths: Vec<Vec<u8>>) -> Vec<String> {
    paths.into_iter().map(|p| String::from_utf8_lossy(&p).into_owned()).collect()
}

fn icon(pixel: u32) -> Icon {
    Icon { width: 1, height: 1, pixels: vec![pixel] }
}

#[test]
fn icon_names_have_variants() {
    assert_eq!(icon_file_names("firefox"), vec!["firefox"]);
    assert_eq!(icon_file_names("org.gnome.Maps"), vec!["org.gnome.maps", "maps"]);
    assert_eq!(icon_file_names("a-B_c"), vec!["a-b_c", "ab_c", "a-b-c"]);
    assert_eq!(icon_file_names("dot."), vec!["dot.", ""]);
}

#[test]
fn icon_files_start_with_a_name() {
    let wanted = names(&["maps", "fox"]);
    assert!(icon_file_matches(&file_name("maps", "png"), &wanted));
    assert!(icon_file_matches(&file_name("Fox-symbolic", "JPEG"), &wanted));
    assert!(icon_file_matches(&file_name("fox", "jpg"), &wanted));
    assert!(!icon_file_matches(&file_name("fire-fox", "png"), &wanted));
    assert!(!icon_file_matches(&file_name("fox", "svg"), &wanted));
    assert!(!icon_file_matches(&FileName { stem: None, extension: Some("png".into()) }, &wanted));
    assert!(!icon_file_matches(&FileName { stem: Some("fox".into()), extension: None }, &wanted));
    assert!(!icon_file_matches(&file_name("fox", "png"), &Vec::new()));
}

fn directory(token: usize) -> DirEntry {
    DirEntry { token, kind: EntryKind::Directory }
}

fn file(token: usize, stem: &str) -> DirEntry {
    DirEntry { token, kind: EntryKind::File(file_name(stem, "png")) }
}

/// Searches two directories; the answers come by token.
fn search(answer: impl Fn(usize) -> Listing) -> (Option<usize>, Vec<usize>) {
    let mut asked = Vec::new();
    let mut step = Search::start(names(&["fox"]), 2);
    loop {
        step = match step {
            SearchStep::List(search) => {
                asked.push(search.token);
                let listing = answer(search.token);
                search.listed(listing)
            }
            SearchStep::Found(token) => return (Some(token), asked),
            SearchStep::NotFound => return (None, asked),
        };
    }
}

#[test]
fn directories_are_searched_in_their_place() {
    let found = search(|token| match token {
        0 => Listing::Entries(vec![file(10, "cat"), directory(11), file(12, "fox")]),
        11 => Listing::Entries(vec![
            DirEntry { token: 13, kind: EntryKind::Other },
            directory(14),
            file(15, "foxes"),
        ]),
        _ => Listing::Missing,
    });
    assert_eq!(found, (Some(15), vec![0, 11, 14]));
}

#[test]
fn the_next_icon_directory_is_searched_too() {
    let found = search(|token| match token {
        0 => Listing::Entries(vec![directory(10)]),
        1 => Listing::Entries(vec![file(20, "fox")]),
        _ => Listing::Entries(Vec::new()),
    });
    assert_eq!(found, (Some(20), vec![0, 10, 1]));
}

#[test]
fn a_directory_may_turn_out_to_be_a_file() {
    let found = search(|token| match token {
        0 => Listing::File(file_name("cat", "png")),
        _ => Listing::File(file_name("fox", "png")),
    });
    assert_eq!(found, (Some(1), vec![0, 1]));
}

#[test]
fn the_search_does_not_go_too_deep() {
    // Each directory holds one more; the file lies below the sixth one.
    let below = |depth: usize| {
        search(move |token| {
            let level = if token == 0 { 0 } else { token - 100 };
            if token == 1 {
                Listing::Missing
            } else if level == depth {
                Listing::Entries(vec![file(7, "fox")])
            } else {
                Listing::Entries(vec![directory(101 + level)])
            }
        })
        .0
    };
    assert_eq!(below(0), Some(7));
    assert_eq!(below(5), Some(7));
    assert_eq!(below(6), None);
}

#[test]
fn nothing_is_found_in_missing_directories() {
    assert_eq!(search(|_| Listing::Missing), (None, vec![0, 1]));
}

fn keys_and_source(text: &str, stem: Option<&str>) -> Option<(Vec<String>, String)> {
    parse_desktop_file(text, stem).map(|(keys, source)| {
        let source = match source {
            IconSource::Path(path) => format!("path {path}"),
            IconSource::Name(name) => format!("name {name}"),
        };
        (keys, source)
    })
}

#[test]
fn desktop_files_are_read() {
    let text = "[Desktop Entry]\r\n Name = no\n Name= Fire Fox \nGenericName=Web\n# Icon=none\n\
                Icon=old\n Icon= firefox \nStartupWMClass=Navigator\nName=\nName=web";
    assert_eq!(
        keys_and_source(text, Some("FireFox.Beta")),
        Some((
            names(&["fire fox", "fire-fox", "web", "navigator", "firefox.beta"]),
            "name firefox".to_string()
        ))
    );
}

#[test]
fn desktop_files_may_name_a_file() {
    assert_eq!(
        keys_and_source("Icon=/opt/fox.png", None),
        Some((names(&[""]), "path /opt/fox.png".to_string()))
    );
    assert_eq!(keys_and_source("Name=x", Some("x")), None);
    assert_eq!(keys_and_source("Icon=", Some("x")).map(|found| found.1), Some("name ".to_string()));
}

#[test]
fn desktop_files_are_told_by_their_extension() {
    assert!(is_desktop_file(Some("desktop")));
    assert!(!is_desktop_file(Some("Desktop")));
    assert!(!is_desktop_file(None));
}

fn desktop(stem: &str, text: &str) -> DesktopFile {
    DesktopFile { stem: Some(stem.to_string()), text: Some(text.to_string()) }
}

fn source_names(index: &TextMap<Sources>, key: &str) -> Vec<String> {
    match index.get(key) {
        Some(sources) => sources
            .list
            .iter()
            .map(|s| match s {
                IconSource::Path(path) => path.clone(),
                IconSource::Name(name) => name.clone(),
            })
            .collect(),
        None => Vec::new(),
    }
}

#[test]
fn applications_are_indexed_by_name() {
    let index = build_desktop_index(&vec![
        desktop("one", "Name=Both\nIcon=a"),
        DesktopFile { stem: Some("gone".to_string()), text: None },
        desktop("none", "Name=Both"),
        desktop("both", "Name=Both\nIcon=/b"),
    ]);
    assert_eq!(index.len(), 2);
    assert_eq!(source_names(&index, "both"), vec!["a", "/b", "/b"]);
    assert_eq!(source_names(&index, "one"), vec!["a"]);
    assert!(source_names(&index, "gone").is_empty());
}

/// Runs a lookup and notes what is asked for. The theme has an icon for `fox` and for
/// the file `/cat.png`.
fn look_up(theme: &mut IconTheme, wanted: &[&str]) -> (Option<u32>, Vec<String>) {
    let mut asked = Vec::new();
    let mut step = theme.lookup(&names(wanted));
    loop {
        step = match step {
            LookupStep::Ask(lookup, request) => {
                asked.push(format!("{request:?}"));
                match request {
                    IconRequest::Named(names) => {
                        let found = if names.iter().any(|n| n == "fox") { Some(icon(1)) } else { None };
                        theme.resume(lookup, found)
                    }
                    IconRequest::File(path) => {
                        let found = if path == "/cat.png" { Some(icon(2)) } else { None };
                        theme.resume(lookup, found)
                    }
                    IconRequest::DesktopIndex => {
                        let index = build_desktop_index(&vec![
                            desktop("cat", "Icon=/missing.png"),
                            desktop("cat", "Icon=other"),
                            desktop("cat", "Icon=/cat.png"),
                        ]);
                        theme.resume_with_index(lookup, index)
                    }
                }
            }
            LookupStep::Done(icon) => return (icon.map(|icon| icon.pixels[0]), asked),
        };
    }
}

#[test]
fn icons_are_looked_up_by_name() {
    let mut theme = IconTheme::new(8, Vec::new());
    assert_eq!(
        look_up(&mut theme, &["", "Fox", "cat"]),
        (Some(1), vec!["Named([\"fox\"])".to_string()])
    );
    assert_eq!(look_up(&mut theme, &["FOX"]), (Some(1), Vec::new()));
}

#[test]
fn icons_are_looked_up_among_the_applications() {
    let mut theme = IconTheme::new(8, Vec::new());
    let first = look_up(&mut theme, &["dog", "Cat"]);
    assert_eq!(first.0, Some(2));
    assert_eq!(
        first.1,
        vec![
            "Named([\"dog\"])",
            "DesktopIndex",
            "Named([\"cat\"])",
            "File(\"/missing.png\")",
            "Named([\"other\"])",
            "File(\"/cat.png\")",
        ]
    );
    // What was found, and what was not, is remembered.
    assert_eq!(look_up(&mut theme, &["dog", "cat"]), (Some(2), Vec::new()));
    assert_eq!(look_up(&mut theme, &["dog"]), (None, Vec::new()));
    assert_eq!(look_up(&mut theme, &["cow"]), (None, vec!["Named([\"cow\"])".to_string()]));
    assert_eq!(look_up(&mut theme, &[]), (None, Vec::new()));
}

#[test]
fn a_new_theme_keeps_its_settings() {
    let theme = IconTheme::new(8, vec![b"/icons".to_vec()]);
    assert_eq!(theme.max_icon_size, 8);
    assert_eq!(theme.search_roots, vec![b"/icons".to_vec()]);
    assert_eq!(theme.cache.len(), 0);
    assert!(theme.desktop_index.is_none());
}

#[test]
fn paths_are_joined() {
    assert_eq!(join(b"/home/me", "x"), b"/home/me/x".to_vec());
    assert_eq!(join(b"/", "x"), b"/x".to_vec());
    assert_eq!(join(b"", "x"), b"x".to_vec());
}

#[test]
fn data_directories_are_listed() {
    assert_eq!(texts(data_dirs(None)), vec!["/usr/local/share", "/usr/share"]);
    assert_eq!(texts(data_dirs(Some(b"/a:/b/"))), vec!["/a", "/b/"]);
    assert_eq!(texts(data_dirs(Some(b":"))), vec!["", ""]);
}

#[test]
fn icon_directories_are_listed() {
    assert_eq!(
        texts(icon_search_roots(Some(b"/h"), None, None)),
        vec![
            "/h/.icons",
            "/h/.local/share/icons",
            "/h/.local/share/icons",
            "/usr/local/share/icons",
            "/usr/share/icons",
            "/usr/share/pixmaps",
        ]
    );
    assert_eq!(
        texts(icon_search_roots(Some(b"/h"), Some(b"/d"), Some(b"/s"))),
        vec!["/h/.icons", "/h/.local/share/icons", "/d/icons", "/s/icons", "/usr/share/pixmaps"]
    );
    assert_eq!(
        texts(icon_search_roots(None, None, Some(b""))),
        vec!["icons", "/usr/share/pixmaps"]
    );
}

#[test]
fn application_directories_are_listed() {
    assert_eq!(
        texts(desktop_entry_dirs(Some(b"/h"), None, Some(b"/a:/b"))),
        vec!["/h/.local/share/applications", "/a/applications", "/b/applications"]
    );
    assert_eq!(
        texts(desktop_entry_dirs(None, Some(b"/d"), None)),
        vec!["/d/applications", "/usr/local/share/applications", "/usr/share/applications"]
    );
}

#[test]
fn the_style_sheet_has_its_place() {
    assert_eq!(
        default_style_path(Some(b"/c"), Some(b"/h")),
        Some(b"/c/xwitcher/style.css".to_vec())
    );
    assert_eq!(
        default_style_path(None, Some(b"/h/")),
        Some(b"/h/.config/xwitcher/style.css".to_vec())
    );
    assert_eq!(default_style_path(None, None), None);
}

#[test]
fn several_names_give_the_first_single_hit() {
    let single = |name: &str| look_up(&mut IconTheme::new(8, Vec::new()), &[name]).0;
    for wanted in [
        vec!["dog", "cat", "fox"],
        vec!["", "Fox", "cat"],
        vec!["cow", "dog"],
        vec!["", ""],
        vec![],
    ] {
        let whole = look_up(&mut IconTheme::new(8, Vec::new()), &wanted).0;
        assert_eq!(whole, wanted.iter().find_map(|name| single(name)), "{wanted:?}");
    }
    assert_eq!(single(""), None);
}

#[test]
fn every_spelling_of_a_name_is_remembered() {
    let mut theme = IconTheme::new(8, Vec::new());
    let found = look_up(&mut theme, &["Fox"]).0;
    let missed = look_up(&mut theme, &["Cow"]).0;
    look_up(&mut theme, &["cat"]);
    assert_eq!((found, missed), (Some(1), None));
    assert_eq!(look_up(&mut theme, &["fOX"]), (found, Vec::new()));
    assert_eq!(look_up(&mut theme, &["COW"]), (missed, Vec::new()));
}

#[test]
fn empty_names_are_answered_alike() {
    let mut theme = IconTheme::new(8, Vec::new());
    assert_eq!(look_up(&mut theme, &[""]), (None, Vec::new()));
    look_up(&mut theme, &["fox"]);
    assert_eq!(look_up(&mut theme, &[""]), (None, Vec::new()));
}

/// An opaque red image file.
fn red_file(side: u32, extension: Option<&str>) -> IconFile {
    let mut bytes: Vec<u8> = Vec::new();
    let rgba: Vec<u8> = [255, 0, 0, 255].repeat((side * side) as usize);
    let encoder = image::codecs::png::PngEncoder::new(&mut bytes);
    match encoder.write_image(&rgba, side, side, ColorType::Rgba8.into()) {
        Ok(()) => IconFile { extension: extension.map(str::to_string), bytes },
        Err(error) => panic!("{error}"),
    }
}

/// The icon of one name, for which this file is found.
fn icon_in_file(theme: &mut IconTheme, name: &str, file: Option<IconFile>) -> Option<Icon> {
    match theme.lookup(&names(&[name])) {
        LookupStep::Ask(lookup, _) => match theme.resume_with_file(lookup, file) {
            LookupStep::Ask(lookup, _) => {
                match theme.resume_with_index(lookup, build_desktop_index(&Vec::new())) {
                    LookupStep::Ask(_, request) => panic!("{request:?}"),
                    LookupStep::Done(icon) => icon,
                }
            }
            LookupStep::Done(icon) => icon,
        },
        LookupStep::Done(icon) => icon,
    }
}

#[test]
fn icons_in_files_keep_to_the_limit() {
    for limit in [0, 1, 2, 3, 9] {
        let mut theme = IconTheme::new(limit, Vec::new());
        let found = icon_in_file(&mut theme, "Fox", Some(red_file(3, Some("png"))));
        let again = icon_in_file(&mut theme, "fox", None);
        for icon in [found, again] {
            let icon = icon.expect("there is an icon");
            assert_eq!((icon.width, icon.height), (limit.clamp(1, 3), limit.clamp(1, 3)));
            assert_eq!(icon.pixels, vec![0xffff0000; icon.width as usize * icon.height as usize]);
        }
    }
}

#[test]
fn files_without_an_image_give_no_icon() {
    for file in [
        None,
        Some(red_file(1, None)),
        Some(red_file(1, Some("txt"))),
        Some(IconFile { extension: Some("png".to_string()), bytes: vec![1, 2, 3] }),
    ] {
        let mut theme = IconTheme::new(8, Vec::new());
        assert!(icon_in_file(&mut theme, "fox", file).is_none());
        // That there is none is remembered.
        assert!(icon_in_file(&mut theme, "FOX", Some(red_file(1, Some("png")))).is_none());
    }
}
