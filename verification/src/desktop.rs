//! Desktop files: which icons the applications have.

use crate::properties::{add_name, lemma_with_name, with_name};
use crate::text::{
    blank_texts_trim_to_nothing, chars_of, has_char, has_prefix, is_blank,
    joined_texts_split_apart, lowercase, lowercased, prefixes_are_followed_by_the_rest, replace,
    replaced, replacing_leaves_none, replacing_one_for_one, same_text, slices, split,
    split_at_char, starts_with, string_of, text_of, trim, trimmed, views,
};
use crate::textmap::{distinct_keys, putting_is_found, value_of, with_pair, Pairs, TextMap};
use vstd::prelude::*;
use vstd::slice::slice_subrange;

verus! {

/// Where the icon of an application is.
#[derive(Debug)]
pub enum IconSource {
    /// In this file.
    Path(String),
    /// In the icon theme, under this name.
    Name(String),
}

/// Where the icon of an application is.
pub enum Source {
    Path(Seq<char>),
    Name(Seq<char>),
}

impl View for IconSource {
    type V = Source;

    open spec fn view(&self) -> Source {
        match self {
            IconSource::Path(path) => Source::Path(path@),
            IconSource::Name(name) => Source::Name(name@),
        }
    }
}

impl IconSource {
    /// A second source that is the same.
    pub fn copy(&self) -> (r: Self)
        ensures
            r@ == self@,
    {
        match self {
            IconSource::Path(path) => IconSource::Path(text_of(path.as_str())),
            IconSource::Name(name) => IconSource::Name(text_of(name.as_str())),
        }
    }
}

/// Where an icon can be, in the order in which to try.
pub struct Sources {
    pub list: Vec<IconSource>,
}

/// Where an icon can be.
pub open spec fn source_views(list: Seq<IconSource>) -> Seq<Source> {
    list.map_values(|s: IconSource| s@)
}

impl View for Sources {
    type V = Seq<Source>;

    open spec fn view(&self) -> Seq<Source> {
        source_views(self.list@)
    }
}

impl Sources {
    /// A second list of the same sources.
    pub fn copy(&self) -> (r: Self)
        ensures
            r@ == self@,
    {
        let mut list: Vec<IconSource> = Vec::new();
        let mut i: usize = 0;
        while i < self.list.len()
            invariant
                i <= self.list@.len(),
                source_views(list@) == self@.take(i as int),
            decreases self.list@.len() - i,
        {
            let ghost before = list@;
            let source = self.list[i].copy();
            list.push(source);
            proof {
                assert(source_views(list@) =~= source_views(before).push(source@));
                assert(self@.take(i + 1) =~= self@.take(i as int).push(self@[i as int]));
            }
            i = i + 1;
        }
        proof {
            assert(self@.take(i as int) =~= self@);
        }
        Sources { list }
    }
}

/// What is taken from the lines of a desktop file.
pub struct Lines {
    /// The names under which the application is found, each one once.
    pub names: Seq<Seq<char>>,
    /// The icon that was named last.
    pub icon: Option<Seq<char>>,
}

/// `names` with what an entry for a name or a startup class stands for: its
/// value in lower case, and the same with `-` for each space.
pub open spec fn with_variants(names: Seq<Seq<char>>, text: Seq<char>) -> Seq<Seq<char>> {
    let name = lowercase(trim(text));
    if trim(text).len() == 0 {
        names
    } else {
        with_name(with_name(names, name), replace(name, ' ', seq!['-']))
    }
}

/// What follows a prefix.
pub open spec fn after_prefix(line: Seq<char>, prefix: Seq<char>) -> Seq<char> {
    line.skip(prefix.len() as int)
}

/// What is taken from one more line.
pub open spec fn with_line(lines: Lines, line: Seq<char>) -> Lines {
    let line = trim(line);
    if line.len() > 0 && line[0] == '#' {
        lines
    } else if has_prefix(line, "Name="@) {
        Lines { names: with_variants(lines.names, after_prefix(line, "Name="@)), ..lines }
    } else if has_prefix(line, "GenericName="@) {
        Lines { names: with_variants(lines.names, after_prefix(line, "GenericName="@)), ..lines }
    } else if has_prefix(line, "StartupWMClass="@) {
        Lines {
            names: with_variants(lines.names, after_prefix(line, "StartupWMClass="@)),
            ..lines
        }
    } else if has_prefix(line, "Icon="@) {
        Lines { icon: Some(trim(after_prefix(line, "Icon="@))), ..lines }
    } else {
        lines
    }
}

/// What is taken from the first `n` lines.
pub open spec fn with_lines(all: Seq<Seq<char>>, n: int) -> Lines
    decreases n,
{
    if n <= 0 {
        Lines { names: Seq::empty(), icon: None }
    } else {
        with_line(with_lines(all, n - 1), all[n - 1])
    }
}

/// What is taken from the text of a desktop file.
pub open spec fn lines_of(text: Seq<char>) -> Lines {
    let all = split(text, '\n');
    with_lines(all, all.len() as int)
}

/// The source that the value of an icon entry names: a file if it holds a slash.
pub open spec fn icon_source(icon: Seq<char>) -> Source {
    if icon.contains('/') {
        Source::Path(icon)
    } else {
        Source::Name(icon)
    }
}

/// The view of a text, empty if there is none.
pub open spec fn text_or_empty(text: Option<&str>) -> Seq<char> {
    match text {
        Some(text) => text@,
        None => Seq::empty(),
    }
}

/// The names under which a desktop file is found: those in its text, and that
/// of the file in lower case.
pub open spec fn file_keys(text: Seq<char>, stem: Seq<char>) -> Seq<Seq<char>> {
    lines_of(text).names.push(lowercase(stem))
}

/// Adds what an entry for a name or a startup class stands for.
fn push_variants(names: &mut Vec<String>, text: &[char])
    ensures
        views(final(names)@) == with_variants(views(old(names)@), text@),
{
    let text = trimmed(text);
    if text.len() == 0 {
        return ;
    }
    let name = lowercased(text);
    let chars = chars_of(name.as_str());
    let mut dash: Vec<char> = Vec::new();
    dash.push('-');
    proof {
        assert(dash@ =~= seq!['-']);
    }
    let dashed = replaced(chars.as_slice(), ' ', dash.as_slice());
    add_name(names, name);
    add_name(names, string_of(dashed.as_slice()));
}

/// What follows a prefix, if it is there.
fn strip_prefix<'a>(line: &'a [char], prefix: &str) -> (r: Option<&'a [char]>)
    ensures
        match r {
            Some(rest) => has_prefix(line@, prefix@) && rest@ == after_prefix(line@, prefix@),
            None => !has_prefix(line@, prefix@),
        },
{
    let prefix = chars_of(prefix);
    if starts_with(line, prefix.as_slice()) {
        let rest = slice_subrange(line, prefix.len(), line.len());
        proof {
            assert(rest@ =~= line@.skip(prefix@.len() as int));
        }
        Some(rest)
    } else {
        None
    }
}

/// Takes what one more line holds.
fn take_line(names: &mut Vec<String>, icon: &mut Option<String>, line: &[char])
    ensures
        ({
            let before = Lines {
                names: views(old(names)@),
                icon: crate::properties::some_string(*old(icon)),
            };
            let after = with_line(before, line@);
            &&& views(final(names)@) == after.names
            &&& crate::properties::some_string(*final(icon)) == after.icon
        }),
{
    let line = trimmed(line);
    if line.len() > 0 && line[0] == '#' {
        return ;
    }
    match strip_prefix(line, "Name=") {
        Some(rest) => {
            push_variants(names, rest);
            return ;
        },
        None => {},
    }
    match strip_prefix(line, "GenericName=") {
        Some(rest) => {
            push_variants(names, rest);
            return ;
        },
        None => {},
    }
    match strip_prefix(line, "StartupWMClass=") {
        Some(rest) => {
            push_variants(names, rest);
            return ;
        },
        None => {},
    }
    match strip_prefix(line, "Icon=") {
        Some(rest) => {
            *icon = Some(string_of(trimmed(rest)));
        },
        None => {},
    }
}

/// Reads a desktop file, given its text and its name without extension: the
/// names under which it is found, and its icon. Without an icon entry there is
/// nothing in it.
pub fn parse_desktop_file(text: &str, stem: Option<&str>) -> (r: Option<(Vec<String>, IconSource)>)
    ensures
        match r {
            None => lines_of(text@).icon is None,
            Some((keys, source)) => {
                &&& lines_of(text@).icon is Some
                &&& source@ == icon_source(lines_of(text@).icon->0)
                &&& views(keys@) == file_keys(text@, text_or_empty(stem))
            },
        },
{
    let chars = chars_of(text);
    let parts = split_at_char(chars.as_slice(), '\n');
    let ghost all = split(text@, '\n');
    let mut names: Vec<String> = Vec::new();
    let mut icon: Option<String> = None;
    let mut i: usize = 0;
    proof {
        assert(views(names@) =~= Seq::<Seq<char>>::empty());
    }
    while i < parts.len()
        invariant
            i <= parts@.len(),
            slices(parts@) == all,
            views(names@) == with_lines(all, i as int).names,
            crate::properties::some_string(icon) == with_lines(all, i as int).icon,
        decreases parts@.len() - i,
    {
        proof {
            assert(slices(parts@)[i as int] == parts@[i as int]@);
        }
        take_line(&mut names, &mut icon, parts[i]);
        i = i + 1;
    }
    proof {
        assert(slices(parts@).len() == parts@.len());
    }
    let icon = match icon {
        Some(icon) => icon,
        None => {
            return None;
        },
    };
    let icon_chars = chars_of(icon.as_str());
    let source = if has_char(icon_chars.as_slice(), '/') {
        IconSource::Path(icon)
    } else {
        IconSource::Name(icon)
    };
    let key = match stem {
        Some(stem) => crate::text::to_lowercase(stem),
        None => crate::text::to_lowercase(""),
    };
    proof {
        reveal_strlit("");
        assert(""@ =~= Seq::<char>::empty());
        assert(views(names@.push(key)) =~= views(names@).push(key@));
    }
    names.push(key);
    Some((names, source))
}

/// A file in an application directory: its name in two parts, and its text, as
/// far as these are valid.
#[derive(Debug)]
pub struct DesktopFile {
    pub stem: Option<String>,
    pub text: Option<String>,
}

/// Whether a file is a desktop file, by its extension.
pub fn is_desktop_file(extension: Option<&str>) -> (r: bool)
    ensures
        r == (extension matches Some(extension) && extension@ == "desktop"@),
{
    match extension {
        Some(extension) => same_text(extension, "desktop"),
        None => false,
    }
}

/// What a desktop file holds.
pub struct FileText {
    pub stem: Seq<char>,
    pub text: Option<Seq<char>>,
}

impl View for DesktopFile {
    type V = FileText;

    open spec fn view(&self) -> FileText {
        FileText {
            stem: match self.stem {
                Some(stem) => stem@,
                None => Seq::empty(),
            },
            text: match self.text {
                Some(text) => Some(text@),
                None => None,
            },
        }
    }
}

/// The sources under a key.
pub open spec fn sources_of(index: Pairs<Seq<Source>>, key: Seq<char>) -> Seq<Source> {
    match value_of(index, key) {
        Some(sources) => sources,
        None => Seq::empty(),
    }
}

/// The index with one more source under a key.
pub open spec fn with_source(
    index: Pairs<Seq<Source>>,
    key: Seq<char>,
    source: Source,
) -> Pairs<Seq<Source>> {
    with_pair(index, key, sources_of(index, key).push(source))
}

/// The index with one more source under each of the first `n` keys.
pub open spec fn with_keys(
    index: Pairs<Seq<Source>>,
    keys: Seq<Seq<char>>,
    n: int,
    source: Source,
) -> Pairs<Seq<Source>>
    decreases n,
{
    if n <= 0 {
        index
    } else {
        with_source(with_keys(index, keys, n - 1, source), keys[n - 1], source)
    }
}

/// The index with what a desktop file holds.
pub open spec fn with_file(index: Pairs<Seq<Source>>, file: FileText) -> Pairs<Seq<Source>> {
    match file.text {
        Some(text) => match lines_of(text).icon {
            Some(icon) => {
                let keys = file_keys(text, file.stem);
                with_keys(index, keys, keys.len() as int, icon_source(icon))
            },
            None => index,
        },
        None => index,
    }
}

/// The index of the first `n` desktop files.
pub open spec fn index_of(files: Seq<DesktopFile>, n: int) -> Pairs<Seq<Source>>
    decreases n,
{
    if n <= 0 {
        Seq::empty()
    } else {
        with_file(index_of(files, n - 1), files[n - 1]@)
    }
}

/// Adds a source under a key.
fn add_source(index: &mut TextMap<Sources>, key: &str, source: &IconSource)
    ensures
        final(index)@ == with_source(old(index)@, key@, source@),
{
    let mut sources = match index.get(key) {
        Some(sources) => sources.copy(),
        None => Sources { list: Vec::new() },
    };
    proof {
        assert(sources@ =~= sources_of(index@, key@));
    }
    let one = source.copy();
    let ghost before = sources.list@;
    sources.list.push(one);
    proof {
        assert(source_views(sources.list@) =~= source_views(before).push(source@));
    }
    index.insert(text_of(key), sources);
}

/// Adds what a desktop file holds.
fn add_file(index: &mut TextMap<Sources>, file: &DesktopFile)
    ensures
        final(index)@ == with_file(old(index)@, file@),
{
    let text = match &file.text {
        Some(text) => text,
        None => {
            return ;
        },
    };
    let stem = match &file.stem {
        Some(stem) => Some(stem.as_str()),
        None => None,
    };
    match parse_desktop_file(text.as_str(), stem) {
        Some((keys, source)) => {
            let ghost start = index@;
            let mut i: usize = 0;
            while i < keys.len()
                invariant
                    i <= keys@.len(),
                    index@ == with_keys(start, views(keys@), i as int, source@),
                decreases keys@.len() - i,
            {
                add_source(index, keys[i].as_str(), &source);
                i = i + 1;
            }
        },
        None => {},
    }
}

/// The icons of all applications by the names they are found under: what each
/// desktop file holds, in the given order.
pub fn build_desktop_index(files: &Vec<DesktopFile>) -> (r: TextMap<Sources>)
    ensures
        r@ == index_of(files@, files@.len() as int),
{
    let mut index: TextMap<Sources> = TextMap::new();
    let mut i: usize = 0;
    while i < files.len()
        invariant
            i <= files@.len(),
            index@ == index_of(files@, i as int),
        decreases files@.len() - i,
    {
        add_file(&mut index, &files[i]);
        i = i + 1;
    }
    index
}

/// What one more source under each of so many keys leaves and adds.
proof fn lemma_with_keys(
    index: Pairs<Seq<Source>>,
    keys: Seq<Seq<char>>,
    n: int,
    source: Source,
    key: Seq<char>,
)
    requires
        0 <= n <= keys.len(),
        distinct_keys(index),
    ensures
        distinct_keys(with_keys(index, keys, n, source)),
        sources_of(index, key).is_prefix_of(sources_of(with_keys(index, keys, n, source), key)),
        !keys.take(n).contains(key) ==> sources_of(with_keys(index, keys, n, source), key)
            == sources_of(index, key),
        keys.take(n).contains(key) ==> sources_of(
            with_keys(index, keys, n, source),
            key,
        ).contains(source),
    decreases n,
{
    if n > 0 {
        lemma_with_keys(index, keys, n - 1, source, key);
        let before = with_keys(index, keys, n - 1, source);
        let last = keys[n - 1];
        let more = sources_of(before, last).push(source);
        putting_is_found(before, last, more, key);
        let after = with_keys(index, keys, n, source);
        assert(keys.take(n) =~= keys.take(n - 1).push(last));
        if key == last {
            assert(keys.take(n)[n - 1] == key);
            assert(sources_of(after, key) == more);
            assert(more[more.len() - 1] == source);
        } else {
            assert(sources_of(after, key) == sources_of(before, key));
            if keys.take(n).contains(key) {
                let k = choose|k: int| 0 <= k < n && keys.take(n)[k] == key;
                assert(keys.take(n - 1)[k] == key);
            }
            if keys.take(n - 1).contains(key) {
                let fewer = keys.take(n - 1);
                let k = choose|k: int| 0 <= k < fewer.len() && fewer[k] == key;
                assert(keys.take(n)[k] == key);
            }
        }
    }
}

/// A desktop file with an icon is found under each of its names; under other
/// names nothing changes, and what was there stays ahead.
pub proof fn a_desktop_file_is_found_by_its_names(
    index: Pairs<Seq<Source>>,
    file: FileText,
    key: Seq<char>,
)
    requires
        distinct_keys(index),
        file.text is Some,
        lines_of(file.text->0).icon is Some,
    ensures
        ({
            let keys = file_keys(file.text->0, file.stem);
            let source = icon_source(lines_of(file.text->0).icon->0);
            let after = with_file(index, file);
            &&& distinct_keys(after)
            &&& keys.contains(key) ==> sources_of(after, key).contains(source)
            &&& !keys.contains(key) ==> sources_of(after, key) == sources_of(index, key)
            &&& sources_of(index, key).is_prefix_of(sources_of(after, key))
        }),
{
    let keys = file_keys(file.text->0, file.stem);
    let source = icon_source(lines_of(file.text->0).icon->0);
    lemma_with_keys(index, keys, keys.len() as int, source, key);
    assert(keys.take(keys.len() as int) =~= keys);
}

/// A line of a desktop file says what it starts with: a name, a generic name or a
/// window class is a name of the application, and an icon is its icon. Comments,
/// and lines that start with anything else, say nothing.
pub proof fn lines_say_what_they_start_with(lines: Lines, line: Seq<char>, rest: Seq<char>)
    ensures
        ({
            let text = trim(line);
            let named = Lines { names: with_variants(lines.names, rest), icon: lines.icon };
            &&& text == "Name="@ + rest ==> with_line(lines, line) == named
            &&& text == "GenericName="@ + rest ==> with_line(lines, line) == named
            &&& text == "StartupWMClass="@ + rest ==> with_line(lines, line) == named
            &&& text == "Icon="@ + rest ==> with_line(lines, line) == (Lines {
                names: lines.names,
                icon: Some(trim(rest)),
            })
            &&& text.len() > 0 && text[0] == '#' ==> with_line(lines, line) == lines
            &&& !has_prefix(text, "Name="@) && !has_prefix(text, "GenericName="@) && !has_prefix(
                text,
                "StartupWMClass="@,
            ) && !has_prefix(text, "Icon="@) ==> with_line(lines, line) == lines
        }),
{
    let text = trim(line);
    reveal_strlit("Name=");
    reveal_strlit("GenericName=");
    reveal_strlit("StartupWMClass=");
    reveal_strlit("Icon=");
    assert("Name="@[0] == 'N' && "GenericName="@[0] == 'G' && "StartupWMClass="@[0] == 'S'
        && "Icon="@[0] == 'I');
    prefixes_are_followed_by_the_rest(text, "Name="@, rest);
    prefixes_are_followed_by_the_rest(text, "GenericName="@, rest);
    prefixes_are_followed_by_the_rest(text, "StartupWMClass="@, rest);
    prefixes_are_followed_by_the_rest(text, "Icon="@, rest);
    if text == "Name="@ + rest {
        assert(text[0] == 'N');
    }
    if text == "GenericName="@ + rest {
        assert(text[0] == 'G');
        lemma_other_start(text, "Name="@);
    }
    if text == "StartupWMClass="@ + rest {
        assert(text[0] == 'S');
        lemma_other_start(text, "Name="@);
        lemma_other_start(text, "GenericName="@);
    }
    if text == "Icon="@ + rest {
        assert(text[0] == 'I');
        lemma_other_start(text, "Name="@);
        lemma_other_start(text, "GenericName="@);
        lemma_other_start(text, "StartupWMClass="@);
    }
}

/// A text does not start with one that starts otherwise.
proof fn lemma_other_start(text: Seq<char>, p: Seq<char>)
    requires
        text.len() > 0,
        p.len() > 0,
        text[0] != p[0],
    ensures
        !has_prefix(text, p),
{
    if has_prefix(text, p) {
        assert(text.take(p.len() as int)[0] == text[0]);
    }
}

/// A name that is not blank is found by two keys: itself in lower case, and that
/// with a dash for every space. The second one has no spaces left, and is the first
/// one at every other place. Keys that were there before stay, and none is there
/// twice; a blank name adds none.
pub proof fn a_name_gives_two_keys(
    names: Seq<Seq<char>>,
    text: Seq<char>,
    key: Seq<char>,
    i: int,
)
    requires
        names.no_duplicates(),
    ensures
        ({
            let name = lowercase(trim(text));
            let dashed = replace(name, ' ', seq!['-']);
            let after = with_variants(names, text);
            &&& after.no_duplicates()
            &&& after.len() >= names.len() && after.take(names.len() as int) == names
            &&& is_blank(text) ==> after == names
            &&& !is_blank(text) ==> (after.contains(key) <==> names.contains(key) || key == name
                || key == dashed)
            &&& !dashed.contains(' ')
            &&& dashed.len() == name.len()
            &&& 0 <= i < name.len() && name[i] == ' ' ==> dashed[i] == '-'
            &&& 0 <= i < name.len() && name[i] != ' ' ==> dashed[i] == name[i]
        }),
{
    let name = lowercase(trim(text));
    let dashed = replace(name, ' ', seq!['-']);
    blank_texts_trim_to_nothing(text);
    replacing_one_for_one(name, ' ', '-');
    assert(!seq!['-'].contains(' '));
    replacing_leaves_none(name, ' ', seq!['-']);
    lemma_with_name(names, name, key);
    lemma_with_name(with_name(names, name), dashed, key);
    let one = with_name(names, name);
    let two = with_name(one, dashed);
    assert(two.take(names.len() as int) =~= one.take(names.len() as int));
    assert(names.take(names.len() as int) =~= names);
}

/// What the lines of two texts joined by a line end say is what those of the first
/// say and then those of the second: the names of both are listed, each one once,
/// and the last icon that is named counts.
pub proof fn the_last_icon_counts(a: Seq<char>, b: Seq<char>, key: Seq<char>)
    ensures
        ({
            let all = lines_of(a.push('\n') + b);
            &&& lines_of(b).icon is Some ==> all.icon == lines_of(b).icon
            &&& lines_of(b).icon is None ==> all.icon == lines_of(a).icon
            &&& all.names.contains(key) <==> lines_of(a).names.contains(key) || lines_of(
                b,
            ).names.contains(key)
            &&& all.names.no_duplicates()
        }),
{
    joined_texts_split_apart(a, b, '\n');
    let first = split(a, '\n');
    let second = split(b, '\n');
    lemma_lines_joined(first, second, second.len() as int, key);
    lemma_lines_before(first, second, first.len() as int);
}

proof fn lemma_lines_before(first: Seq<Seq<char>>, second: Seq<Seq<char>>, n: int)
    requires
        0 <= n <= first.len(),
    ensures
        with_lines(first + second, n) == with_lines(first, n),
    decreases n,
{
    if n > 0 {
        lemma_lines_before(first, second, n - 1);
        assert((first + second)[n - 1] == first[n - 1]);
    }
}

proof fn lemma_lines_joined(
    first: Seq<Seq<char>>,
    second: Seq<Seq<char>>,
    m: int,
    key: Seq<char>,
)
    requires
        0 <= m <= second.len(),
    ensures
        ({
            let before = with_lines(first, first.len() as int);
            let own = with_lines(second, m);
            let all = with_lines(first + second, first.len() + m);
            &&& before.names.no_duplicates() && own.names.no_duplicates()
                && all.names.no_duplicates()
            &&& own.icon is Some ==> all.icon == own.icon
            &&& own.icon is None ==> all.icon == before.icon
            &&& all.names.contains(key) <==> before.names.contains(key) || own.names.contains(key)
        }),
    decreases m,
{
    let n = first.len() as int;
    lemma_lines_before(first, second, n);
    lemma_lines_differ(first, n);
    lemma_lines_differ(second, m);
    lemma_lines_differ(first + second, n + m);
    if m > 0 {
        lemma_lines_joined(first, second, m - 1, key);
        lemma_lines_differ(second, m - 1);
        lemma_lines_differ(first + second, n + m - 1);
        assert((first + second)[n + m - 1] == second[m - 1]);
        let text = trim(second[m - 1]);
        let own = with_lines(second, m - 1).names;
        let all = with_lines(first + second, n + m - 1).names;
        a_name_gives_two_keys(own, after_prefix(text, "Name="@), key, 0);
        a_name_gives_two_keys(all, after_prefix(text, "Name="@), key, 0);
        a_name_gives_two_keys(own, after_prefix(text, "GenericName="@), key, 0);
        a_name_gives_two_keys(all, after_prefix(text, "GenericName="@), key, 0);
        a_name_gives_two_keys(own, after_prefix(text, "StartupWMClass="@), key, 0);
        a_name_gives_two_keys(all, after_prefix(text, "StartupWMClass="@), key, 0);
    }
}

proof fn lemma_lines_differ(all: Seq<Seq<char>>, n: int)
    requires
        0 <= n <= all.len(),
    ensures
        with_lines(all, n).names.no_duplicates(),
    decreases n,
{
    if n > 0 {
        lemma_lines_differ(all, n - 1);
        let names = with_lines(all, n - 1).names;
        let text = trim(all[n - 1]);
        a_name_gives_two_keys(names, after_prefix(text, "Name="@), Seq::empty(), 0);
        a_name_gives_two_keys(names, after_prefix(text, "GenericName="@), Seq::empty(), 0);
        a_name_gives_two_keys(names, after_prefix(text, "StartupWMClass="@), Seq::empty(), 0);
    }
}

/// An icon with a slash is the path of a file, and any other one a name in the
/// theme. The keys of an application are its names and then its file's name in
/// lower case.
pub proof fn paths_have_slashes(icon: Seq<char>, text: Seq<char>, stem: Seq<char>)
    ensures
        icon.contains('/') ==> icon_source(icon) == Source::Path(icon),
        !icon.contains('/') ==> icon_source(icon) == Source::Name(icon),
        file_keys(text, stem).len() == lines_of(text).names.len() + 1,
        file_keys(text, stem).last() == lowercase(stem),
        file_keys(text, stem).drop_last() == lines_of(text).names,
{
    assert(file_keys(text, stem).drop_last() =~= lines_of(text).names);
}

/// A file that cannot be read or names no icon adds nothing, and of two files the
/// later one's icon is tried later.
pub proof fn files_are_indexed_in_their_order(
    index: Pairs<Seq<Source>>,
    file: FileText,
    files: Seq<DesktopFile>,
    n: int,
)
    requires
        0 < n <= files.len(),
    ensures
        file.text is None ==> with_file(index, file) == index,
        file.text matches Some(text) ==> lines_of(text).icon is None ==> with_file(index, file)
            == index,
        index_of(files, 0).len() == 0,
        index_of(files, n) == with_file(index_of(files, n - 1), files[n - 1]@),
{
}

} // verus!
