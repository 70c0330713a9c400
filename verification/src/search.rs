//! The search for icon files below the icon directories.

use crate::text::{
    chars_of, has_char, has_prefix, lowercase, lowercased, prefixes_are_followed_by_the_rest,
    replace, replaced, replacing_by_nothing_removes, same_text, starts_with, views,
};
use vstd::prelude::*;
use vstd::slice::slice_subrange;

verus! {

/// How deep below an icon directory files are looked for.
pub const MAX_ICON_SEARCH_DEPTH: usize = 5;

/// The name of a file in two parts, each as far as it is valid text.
#[derive(Debug)]
pub struct FileName {
    pub stem: Option<String>,
    pub extension: Option<String>,
}

/// The name of a file in two parts.
pub struct NameParts {
    pub stem: Option<Seq<char>>,
    pub extension: Option<Seq<char>>,
}

impl View for FileName {
    type V = NameParts;

    open spec fn view(&self) -> NameParts {
        NameParts {
            stem: match self.stem {
                Some(stem) => Some(stem@),
                None => None,
            },
            extension: match self.extension {
                Some(extension) => Some(extension@),
                None => None,
            },
        }
    }
}

/// What a directory entry is.
#[derive(Debug)]
pub enum EntryKind {
    Directory,
    File(FileName),
    Other,
}

/// An entry of a directory; the token names its path.
#[derive(Debug)]
pub struct DirEntry {
    pub token: usize,
    pub kind: EntryKind,
}

/// What a directory entry is.
pub enum Kind {
    Directory,
    File(NameParts),
    Other,
}

/// An entry of a directory.
pub struct Item {
    pub token: usize,
    pub kind: Kind,
}

impl View for DirEntry {
    type V = Item;

    open spec fn view(&self) -> Item {
        Item {
            token: self.token,
            kind: match self.kind {
                EntryKind::Directory => Kind::Directory,
                EntryKind::File(name) => Kind::File(name@),
                EntryKind::Other => Kind::Other,
            },
        }
    }
}

/// What is found where a directory is looked for. Entries count up to the first
/// one that cannot be read.
#[derive(Debug)]
pub enum Listing {
    /// Nothing, or a directory that cannot be read.
    Missing,
    /// A file.
    File(FileName),
    /// A directory.
    Entries(Vec<DirEntry>),
}

/// What is found where a directory is looked for.
pub enum Contents {
    Missing,
    File(NameParts),
    Items(Seq<Item>),
}

/// The entries of a directory.
pub open spec fn items_of(entries: Seq<DirEntry>) -> Seq<Item> {
    entries.map_values(|e: DirEntry| e@)
}

impl View for Listing {
    type V = Contents;

    open spec fn view(&self) -> Contents {
        match self {
            Listing::Missing => Contents::Missing,
            Listing::File(name) => Contents::File(name@),
            Listing::Entries(entries) => Contents::Items(items_of(entries@)),
        }
    }
}

/// Whether some name is a prefix of a text.
pub open spec fn some_prefix(text: Seq<char>, names: Seq<Seq<char>>) -> bool {
    exists|i: int| 0 <= i < names.len() && has_prefix(text, #[trigger] names[i])
}

/// Whether a file holds an icon for one of the names: a PNG or JPEG file whose
/// name starts with it, in lower case.
pub open spec fn file_matches(file: NameParts, names: Seq<Seq<char>>) -> bool {
    &&& file.extension matches Some(extension) && {
        ||| lowercase(extension) == "png"@
        ||| lowercase(extension) == "jpg"@
        ||| lowercase(extension) == "jpeg"@
    }
    &&& file.stem matches Some(stem) && some_prefix(lowercase(stem), names)
}

/// Whether a file holds an icon for one of the names.
pub fn icon_file_matches(file: &FileName, names: &Vec<String>) -> (r: bool)
    ensures
        r == file_matches(file@, views(names@)),
{
    let extension = match &file.extension {
        Some(extension) => crate::text::to_lowercase(extension.as_str()),
        None => {
            return false;
        },
    };
    if !same_text(extension.as_str(), "png") && !same_text(extension.as_str(), "jpg") && !same_text(
        extension.as_str(),
        "jpeg",
    ) {
        return false;
    }
    let stem = match &file.stem {
        Some(stem) => crate::text::to_lowercase(stem.as_str()),
        None => {
            return false;
        },
    };
    let stem = chars_of(stem.as_str());
    let mut i: usize = 0;
    while i < names.len()
        invariant
            i <= names@.len(),
            file@.stem is Some,
            stem@ == lowercase(file@.stem->0),
            file@.extension is Some,
            ({
                ||| lowercase(file@.extension->0) == "png"@
                ||| lowercase(file@.extension->0) == "jpg"@
                ||| lowercase(file@.extension->0) == "jpeg"@
            }),
            forall|k: int| 0 <= k < i ==> !has_prefix(stem@, #[trigger] views(names@)[k]),
        decreases names@.len() - i,
    {
        let name = chars_of(names[i].as_str());
        if starts_with(stem.as_slice(), name.as_slice()) {
            proof {
                assert(has_prefix(stem@, views(names@)[i as int]));
            }
            return true;
        }
        i = i + 1;
    }
    false
}

/// The last position of `c` before `end`, or -1.
pub open spec fn last_position(s: Seq<char>, c: char, end: int) -> int
    decreases end,
{
    if end <= 0 {
        -1
    } else if s[end - 1] == c {
        end - 1
    } else {
        last_position(s, c, end - 1)
    }
}

/// What follows the last `c` in `s`; all of `s` if there is none.
pub open spec fn after_last(s: Seq<char>, c: char) -> Seq<char> {
    s.skip(last_position(s, c, s.len() as int) + 1)
}

/// The file names that stand for an icon name: the name itself, what follows its
/// last dot, the name without its dashes, and with dashes for underscores, as
/// far as these apply; all in lower case. Their order is of no importance.
pub open spec fn icon_names(name: Seq<char>) -> Seq<Seq<char>> {
    seq![lowercase(name)] + (if after_last(name, '.') != name {
        seq![lowercase(after_last(name, '.'))]
    } else {
        Seq::empty()
    }) + (if name.contains('-') {
        seq![lowercase(replace(name, '-', Seq::empty()))]
    } else {
        Seq::empty()
    }) + (if name.contains('_') {
        seq![lowercase(replace(name, '_', seq!['-']))]
    } else {
        Seq::empty()
    })
}

/// What follows the last `c` in `s`.
fn tail_after<'a>(s: &'a [char], c: char) -> (r: &'a [char])
    ensures
        r@ == after_last(s@, c),
        r@.len() == s@.len() <==> after_last(s@, c) == s@,
{
    let mut end: usize = s.len();
    while end > 0
        invariant
            end <= s@.len(),
            last_position(s@, c, s@.len() as int) == last_position(s@, c, end as int),
        decreases end,
    {
        if s[end - 1] == c {
            let r = slice_subrange(s, end, s.len());
            proof {
                assert(r@ =~= after_last(s@, c));
            }
            return r;
        }
        end = end - 1;
    }
    proof {
        assert(s@.skip(0) =~= s@);
    }
    s
}

/// Adds a text to a list.
proof fn lemma_views_push(list: Seq<String>, text: String)
    ensures
        views(list.push(text)) == views(list).push(text@),
{
    assert(views(list.push(text)) =~= views(list).push(text@));
}

/// The file names that stand for an icon name.
pub fn icon_file_names(name: &str) -> (r: Vec<String>)
    ensures
        views(r@) == icon_names(name@),
{
    let chars = chars_of(name);
    let chars = chars.as_slice();
    let mut names: Vec<String> = Vec::new();
    let first = lowercased(chars);
    proof {
        lemma_views_push(names@, first);
        assert(views(names@) =~= Seq::<Seq<char>>::empty());
    }
    names.push(first);
    let last = tail_after(chars, '.');
    if last.len() != chars.len() {
        let text = lowercased(last);
        proof {
            lemma_views_push(names@, text);
        }
        names.push(text);
    }
    if has_char(chars, '-') {
        let nothing: Vec<char> = Vec::new();
        let text = replaced(chars, '-', nothing.as_slice());
        let text = lowercased(text.as_slice());
        proof {
            assert(nothing@ =~= Seq::<char>::empty());
            lemma_views_push(names@, text);
        }
        names.push(text);
    }
    if has_char(chars, '_') {
        let mut dash: Vec<char> = Vec::new();
        dash.push('-');
        let text = replaced(chars, '_', dash.as_slice());
        let text = lowercased(text.as_slice());
        proof {
            assert(dash@ =~= seq!['-']);
            lemma_views_push(names@, text);
        }
        names.push(text);
    }
    proof {
        assert(views(names@) =~= icon_names(name@));
    }
    names
}

/// The number of entries that are found.
pub open spec fn item_count(contents: Contents) -> int {
    match contents {
        Contents::Items(items) => items.len() as int,
        _ => 0,
    }
}

/// The first icon file among the entries of a directory from position `i` on,
/// each subdirectory searched in its place. `path` is the directory as the
/// positions that lead to it, and `depth` the depth of its subdirectories.
pub open spec fn find_from(
    tree: spec_fn(Seq<int>) -> Contents,
    names: Seq<Seq<char>>,
    path: Seq<int>,
    items: Seq<Item>,
    i: int,
    depth: int,
) -> Option<usize>
    decreases MAX_ICON_SEARCH_DEPTH + 2 - depth, items.len() - i,
{
    if i >= items.len() {
        None
    } else {
        let here = match items[i].kind {
            Kind::Directory => if depth > MAX_ICON_SEARCH_DEPTH {
                None
            } else {
                find_below(tree, names, path.push(i), items[i].token, depth + 1)
            },
            Kind::File(file) => if file_matches(file, names) {
                Some(items[i].token)
            } else {
                None
            },
            Kind::Other => None,
        };
        match here {
            Some(token) => Some(token),
            None => find_from(tree, names, path, items, i + 1, depth),
        }
    }
}

/// The first icon file where a directory is looked for; `depth` is the depth of
/// its subdirectories.
pub open spec fn find_below(
    tree: spec_fn(Seq<int>) -> Contents,
    names: Seq<Seq<char>>,
    path: Seq<int>,
    token: usize,
    depth: int,
) -> Option<usize>
    decreases MAX_ICON_SEARCH_DEPTH + 2 - depth, item_count(tree(path)) + 1,
{
    match tree(path) {
        Contents::Missing => None,
        Contents::File(file) => if file_matches(file, names) {
            Some(token)
        } else {
            None
        },
        Contents::Items(items) => find_from(tree, names, path, items, 0, depth),
    }
}

/// A directory on the way to the one that is looked for, with its entries and
/// the position of the next one to look at.
pub struct Frame {
    pub entries: Vec<DirEntry>,
    pub next: usize,
}

/// A directory on the way.
pub struct Way {
    pub items: Seq<Item>,
    pub next: int,
}

impl View for Frame {
    type V = Way;

    open spec fn view(&self) -> Way {
        Way { items: items_of(self.entries@), next: self.next as int }
    }
}

/// The directories on the way.
pub open spec fn ways(frames: Seq<Frame>) -> Seq<Way> {
    frames.map_values(|f: Frame| f@)
}

/// The position in the tree that the first `n` directories on the way lead to.
pub open spec fn path_to(way: Seq<Way>, n: int) -> Seq<int> {
    Seq::new(n as nat, |k: int| way[k].next - 1)
}

/// The first icon file in what is still to be looked at of the first `n`
/// directories on the way, the last one first.
pub open spec fn find_on(
    tree: spec_fn(Seq<int>) -> Contents,
    names: Seq<Seq<char>>,
    way: Seq<Way>,
    n: int,
) -> Option<usize>
    decreases n,
{
    if n <= 0 {
        None
    } else {
        let top = way[n - 1];
        match find_from(tree, names, path_to(way, n - 1), top.items, top.next, n - 1) {
            Some(token) => Some(token),
            None => find_on(tree, names, way, n - 1),
        }
    }
}

/// Whether one position in the tree comes after another one when directories
/// are searched in their place.
pub open spec fn comes_after(later: Seq<int>, earlier: Seq<int>) -> bool {
    exists|k: int|
        0 <= k < later.len() && k <= earlier.len() && #[trigger] later.take(k) == earlier.take(k)
            && (k == earlier.len() || later[k] > earlier[k])
}

/// A search that waits for a directory.
pub struct Search {
    /// The file names to look for.
    pub names: Vec<String>,
    /// The directories on the way; the first one stands for all icon
    /// directories together.
    pub frames: Vec<Frame>,
    /// The token of the directory.
    pub token: usize,
}

/// What to do in a search.
pub enum SearchStep {
    /// Look into the directory that the search waits for.
    List(Search),
    /// Take this file.
    Found(usize),
    /// There is no file.
    NotFound,
}

impl Search {
    /// Whether the directory is on the way and not too deep.
    pub open spec fn wf(self) -> bool {
        &&& 0 < self.frames@.len() <= MAX_ICON_SEARCH_DEPTH + 1
        &&& forall|k: int| 0 <= k < self.frames@.len() ==> (#[trigger] self.frames@[k]).next > 0
    }

    /// The position in the tree of the directory.
    pub open spec fn path(self) -> Seq<int> {
        path_to(ways(self.frames@), self.frames@.len() as int)
    }

    /// The file that will be found.
    pub open spec fn outcome(self, tree: spec_fn(Seq<int>) -> Contents) -> Option<usize> {
        let n = self.frames@.len() as int;
        match find_below(tree, views(self.names@), self.path(), self.token, n) {
            Some(token) => Some(token),
            None => find_on(tree, views(self.names@), ways(self.frames@), n),
        }
    }
}

impl SearchStep {
    /// The file that will be found.
    pub open spec fn outcome(self, tree: spec_fn(Seq<int>) -> Contents) -> Option<usize> {
        match self {
            SearchStep::List(search) => search.outcome(tree),
            SearchStep::Found(token) => Some(token),
            SearchStep::NotFound => None,
        }
    }
}

/// Directories further on do not matter for the way to one.
proof fn lemma_same_way(
    tree: spec_fn(Seq<int>) -> Contents,
    names: Seq<Seq<char>>,
    a: Seq<Way>,
    b: Seq<Way>,
    n: int,
)
    requires
        0 <= n <= a.len(),
        n <= b.len(),
        forall|k: int| 0 <= k < n ==> #[trigger] a[k] == b[k],
    ensures
        path_to(a, n) == path_to(b, n),
        find_on(tree, names, a, n) == find_on(tree, names, b, n),
    decreases n,
{
    assert(path_to(a, n) =~= path_to(b, n));
    if n > 0 {
        lemma_same_way(tree, names, a, b, n - 1);
    }
}

/// Goes on with what is still to be looked at.
fn go_on(names: Vec<String>, frames: Vec<Frame>, Ghost(earlier): Ghost<Seq<int>>) -> (r: SearchStep)
    requires
        frames@.len() <= earlier.len() + 1,
        frames@.len() <= MAX_ICON_SEARCH_DEPTH + 2,
        forall|k: int|
            0 <= k < frames@.len() && k < earlier.len() ==> (#[trigger] frames@[k]).next - 1
                >= earlier[k],
        forall|k: int|
            0 <= k < frames@.len() - 1 ==> (#[trigger] frames@[k]).next - 1 == earlier[k]
                && frames@[k].next > 0,
    ensures
        r matches SearchStep::List(search) ==> search.wf() && comes_after(search.path(), earlier)
            && views(search.names@) == views(names@),
        forall|tree: spec_fn(Seq<int>) -> Contents| #[trigger]
            r.outcome(tree) == find_on(
                tree,
                views(names@),
                ways(frames@),
                frames@.len() as int,
            ),
{
    let ghost start = frames@;
    let ghost wanted = views(names@);
    let mut frames = frames;
    #[verifier::loop_isolation(false)]
    while frames.len() > 0
        invariant
            frames@.len() <= earlier.len() + 1,
            frames@.len() <= MAX_ICON_SEARCH_DEPTH + 2,
            wanted == views(names@),
            forall|k: int|
                0 <= k < frames@.len() && k < earlier.len() ==> (#[trigger] frames@[k]).next - 1
                    >= earlier[k],
            forall|k: int|
                0 <= k < frames@.len() - 1 ==> (#[trigger] frames@[k]).next - 1 == earlier[k]
                    && frames@[k].next > 0,
            forall|tree: spec_fn(Seq<int>) -> Contents| #[trigger]
                find_on(tree, wanted, ways(start), start.len() as int) == find_on(
                    tree,
                    wanted,
                    ways(frames@),
                    frames@.len() as int,
                ),
        decreases frames@.len(), ways(frames@).last().items.len() - ways(frames@).last().next,
    {
        let ghost before = frames@;
        let ghost n = before.len() as int;
        let ghost way = ways(before);
        let mut frame = match frames.pop() {
            Some(frame) => frame,
            None => {
                return SearchStep::NotFound;
            },
        };
        proof {
            assert(frames@ == before.drop_last());
            assert forall|k: int| 0 <= k < frames@.len() implies #[trigger] frames@[k]
                == before[k] by {}
            assert(frame == before[n - 1]);
            assert(way[n - 1] == frame@);
            assert forall|tree: spec_fn(Seq<int>) -> Contents| #[trigger]
                find_on(tree, wanted, way, n - 1) == find_on(
                    tree,
                    wanted,
                    ways(frames@),
                    n - 1,
                ) by {
                lemma_same_way(tree, wanted, way, ways(frames@), n - 1);
            }
        }
        if frame.next >= frame.entries.len() {
            proof {
                assert forall|tree: spec_fn(Seq<int>) -> Contents| #[trigger]
                    find_on(tree, wanted, ways(start), start.len() as int) == find_on(
                        tree,
                        wanted,
                        ways(frames@),
                        frames@.len() as int,
                    ) by {
                    assert(find_on(tree, wanted, way, n) == find_on(tree, wanted, way, n - 1));
                }
            }
            continue;
        }
        let ghost old_frame = frame;
        let at: usize = frame.next;
        let token: usize = frame.entries[at].token;
        let ghost item = frame.entries@[at as int]@;
        proof {
            assert(old_frame@.items[at as int] == item);
        }
        let mut found = false;
        let mut descend = false;
        match &frame.entries[at].kind {
            EntryKind::Directory => {
                descend = frames.len() <= MAX_ICON_SEARCH_DEPTH;
            },
            EntryKind::File(name) => {
                found = icon_file_matches(name, &names);
            },
            EntryKind::Other => {},
        }
        if found {
            let r = SearchStep::Found(token);
            proof {
                assert forall|tree: spec_fn(Seq<int>) -> Contents| #[trigger]
                    r.outcome(tree) == find_on(
                        tree,
                        wanted,
                        ways(start),
                        start.len() as int,
                    ) by {
                    assert(find_on(tree, wanted, way, n) == Some(token));
                }
            }
            return r;
        }
        frame.next = at + 1;
        frames.push(frame);
        let ghost after = ways(frames@);
        proof {
            assert forall|k: int| 0 <= k < n - 1 implies #[trigger] after[k] == way[k] by {
                assert(frames@[k] == before[k]);
            }
            assert(after[n - 1] == frame@);
            assert(frame@.items == old_frame@.items);
        }
        if descend {
            let ghost prefix = path_to(after, n - 1);
            let r = SearchStep::List(Search { names, frames, token });
            proof {
                let search = r->List_0;
                assert(search.path() =~= prefix.push(at as int));
                assert(search.path().take(n - 1) =~= earlier.take(n - 1)) by {
                    assert forall|k: int| 0 <= k < n - 1 implies search.path()[k] == earlier[k] by {
                        assert(frames@[k] == before[k]);
                    }
                }
                assert(comes_after(search.path(), earlier)) by {
                    if n - 1 < earlier.len() {
                        assert(before[n - 1].next - 1 >= earlier[n - 1]);
                    }
                }
                assert(search.wf()) by {
                    assert forall|k: int| 0 <= k < frames@.len() implies (
                    #[trigger] search.frames@[k]).next > 0 by {
                        if k < n - 1 {
                            assert(frames@[k] == before[k]);
                        }
                    }
                }
                assert forall|tree: spec_fn(Seq<int>) -> Contents| #[trigger]
                    r.outcome(tree) == find_on(
                        tree,
                        wanted,
                        ways(start),
                        start.len() as int,
                    ) by {
                    lemma_same_way(tree, wanted, way, after, n - 1);
                    assert(find_on(tree, wanted, way, n) == r.outcome(tree));
                }
            }
            return r;
        }
        proof {
            assert forall|tree: spec_fn(Seq<int>) -> Contents| #[trigger]
                find_on(tree, wanted, ways(start), start.len() as int) == find_on(
                    tree,
                    wanted,
                    ways(frames@),
                    frames@.len() as int,
                ) by {
                lemma_same_way(tree, wanted, way, after, n - 1);
                assert(find_on(tree, wanted, way, n) == find_on(tree, wanted, after, n));
            }
            assert forall|k: int| 0 <= k < frames@.len() - 1 implies (
            #[trigger] frames@[k]).next - 1 == earlier[k] && frames@[k].next > 0 by {
                assert(frames@[k] == before[k]);
            }
            assert forall|k: int|
                0 <= k < frames@.len() && k < earlier.len() implies (
            #[trigger] frames@[k]).next - 1 >= earlier[k] by {
                if k < n - 1 {
                    assert(frames@[k] == before[k]);
                } else {
                    assert(before[n - 1].next - 1 >= earlier[n - 1]);
                }
            }
        }
    }
    SearchStep::NotFound
}

/// All icon directories together, as the entries of one; their tokens are their
/// positions.
pub open spec fn root_items(roots: int) -> Seq<Item> {
    Seq::new(roots as nat, |i: int| Item { token: i as usize, kind: Kind::Directory })
}

impl Search {
    /// Starts to look for one of the file names in so many icon directories.
    pub fn start(names: Vec<String>, roots: usize) -> (r: SearchStep)
        ensures
            r matches SearchStep::List(search) ==> search.wf() && views(search.names@) == views(
                names@,
            ),
            forall|tree: spec_fn(Seq<int>) -> Contents| #[trigger]
                r.outcome(tree) == find_from(
                    tree,
                    views(names@),
                    Seq::empty(),
                    root_items(roots as int),
                    0,
                    0,
                ),
    {
        let mut entries: Vec<DirEntry> = Vec::new();
        let mut token: usize = 0;
        proof {
            assert(items_of(entries@) =~= root_items(0));
        }
        while token < roots
            invariant
                token <= roots,
                items_of(entries@) == root_items(token as int),
            decreases roots - token,
        {
            let ghost before = entries@;
            entries.push(DirEntry { token, kind: EntryKind::Directory });
            proof {
                assert(items_of(entries@) =~= items_of(before).push(entries@.last()@));
                assert(root_items(token + 1) =~= root_items(token as int).push(entries@.last()@));
            }
            token = token + 1;
        }
        let mut frames: Vec<Frame> = Vec::new();
        frames.push(Frame { entries, next: 0 });
        let ghost way = ways(frames@);
        let r = go_on(names, frames, Ghost(Seq::empty()));
        proof {
            assert forall|tree: spec_fn(Seq<int>) -> Contents| #[trigger]
                r.outcome(tree) == find_from(
                    tree,
                    views(names@),
                    Seq::empty(),
                    root_items(roots as int),
                    0,
                    0,
                ) by {
                assert(path_to(way, 0) =~= Seq::<int>::empty());
                assert(way[0] == frames@[0]@);
                assert(find_on(tree, views(names@), way, 0) is None);
            }
        }
        r
    }

    /// Goes on once the directory has been looked into.
    pub fn listed(self, listing: Listing) -> (r: SearchStep)
        requires
            self.wf(),
        ensures
            r matches SearchStep::List(search) ==> search.wf() && comes_after(
                search.path(),
                self.path(),
            ) && views(search.names@) == views(self.names@),
            forall|tree: spec_fn(Seq<int>) -> Contents|
                tree(self.path()) == listing@ ==> #[trigger] r.outcome(tree) == self.outcome(tree),
    {
        let ghost start = self;
        let ghost path = self.path();
        let ghost n = self.frames@.len() as int;
        let Search { names, frames, token } = self;
        let mut frames = frames;
        let r = match listing {
            Listing::Missing => go_on(names, frames, Ghost(path)),
            Listing::File(name) => {
                if icon_file_matches(&name, &names) {
                    SearchStep::Found(token)
                } else {
                    go_on(names, frames, Ghost(path))
                }
            },
            Listing::Entries(entries) => {
                frames.push(Frame { entries, next: 0 });
                proof {
                    assert forall|k: int| 0 <= k < n implies #[trigger] frames@[k]
                        == start.frames@[k] by {}
                }
                go_on(names, frames, Ghost(path))
            },
        };
        proof {
            assert forall|tree: spec_fn(Seq<int>) -> Contents|
                tree(path) == listing@ implies #[trigger] r.outcome(tree) == start.outcome(
                tree,
            ) by {
                if frames@.len() == n + 1 {
                    lemma_same_way(
                        tree,
                        views(names@),
                        ways(frames@),
                        ways(start.frames@),
                        n,
                    );
                    assert(ways(frames@)[n] == frames@[n]@);
                }
            }
        }
        r
    }
}

/// The token of the entry at position `p` below the directory at `path` with the
/// given entries, if there is one there that is not too deep and holds an icon
/// for one of the names.
pub open spec fn icon_at(
    tree: spec_fn(Seq<int>) -> Contents,
    names: Seq<Seq<char>>,
    path: Seq<int>,
    items: Seq<Item>,
    depth: int,
    p: Seq<int>,
) -> Option<usize>
    decreases p.len(),
{
    if p.len() == 0 || p[0] < 0 || p[0] >= items.len() {
        None
    } else {
        let here = path.push(p[0]);
        let token = items[p[0]].token;
        match items[p[0]].kind {
            Kind::File(file) => if p.len() == 1 && file_matches(file, names) {
                Some(token)
            } else {
                None
            },
            Kind::Directory => if depth > MAX_ICON_SEARCH_DEPTH {
                None
            } else {
                match tree(here) {
                    Contents::Missing => None,
                    Contents::File(file) => if p.len() == 1 && file_matches(file, names) {
                        Some(token)
                    } else {
                        None
                    },
                    Contents::Items(inner) => icon_at(
                        tree,
                        names,
                        here,
                        inner,
                        depth + 1,
                        p.skip(1),
                    ),
                }
            },
            Kind::Other => None,
        }
    }
}

/// Whether one position comes before another one, neither leading to the other.
pub open spec fn precedes(q: Seq<int>, p: Seq<int>) -> bool {
    exists|k: int|
        0 <= k < q.len() && k < p.len() && #[trigger] q.take(k) == p.take(k) && q[k] < p[k]
}

/// Where nothing is found there is no icon for any of the names.
pub proof fn nothing_found_means_no_icon(
    tree: spec_fn(Seq<int>) -> Contents,
    names: Seq<Seq<char>>,
    path: Seq<int>,
    items: Seq<Item>,
    i: int,
    depth: int,
)
    requires
        0 <= i,
        find_from(tree, names, path, items, i, depth) is None,
    ensures
        forall|q: Seq<int>|
            q.len() > 0 && q[0] >= i ==> #[trigger] icon_at(
                tree,
                names,
                path,
                items,
                depth,
                q,
            ) is None,
    decreases MAX_ICON_SEARCH_DEPTH + 2 - depth, items.len() - i,
{
    reveal_with_fuel(find_from, 2);
    reveal_with_fuel(find_below, 2);
    if i < items.len() {
        nothing_found_means_no_icon(tree, names, path, items, i + 1, depth);
        let here = path.push(i);
        if items[i].kind is Directory && depth <= MAX_ICON_SEARCH_DEPTH {
            match tree(here) {
                Contents::Items(inner) => {
                    nothing_found_means_no_icon(tree, names, here, inner, 0, depth + 1);
                },
                _ => {},
            }
        }
        assert forall|q: Seq<int>| q.len() > 0 && q[0] >= i implies #[trigger] icon_at(
            tree,
            names,
            path,
            items,
            depth,
            q,
        ) is None by {
            reveal_with_fuel(icon_at, 2);
            if q[0] == i {
                let tail = q.skip(1);
                if items[i].kind is Directory && tree(here) is Items {
                    let inner = tree(here)->Items_0;
                    let below = icon_at(tree, names, here, inner, depth + 1, tail);
                    assert(depth <= MAX_ICON_SEARCH_DEPTH ==> below is None);
                }
            }
        }
    }
}

/// What is found is the first icon for one of the names in the order in which
/// the directories are searched, each in its place.
pub proof fn the_first_icon_is_found(
    tree: spec_fn(Seq<int>) -> Contents,
    names: Seq<Seq<char>>,
    path: Seq<int>,
    items: Seq<Item>,
    i: int,
    depth: int,
) -> (p: Seq<int>)
    requires
        0 <= i,
        find_from(tree, names, path, items, i, depth) is Some,
    ensures
        p.len() > 0,
        p[0] >= i,
        icon_at(tree, names, path, items, depth, p) == find_from(
            tree,
            names,
            path,
            items,
            i,
            depth,
        ),
        forall|q: Seq<int>|
            q.len() > 0 && q[0] >= i && #[trigger] icon_at(
                tree,
                names,
                path,
                items,
                depth,
                q,
            ) is Some ==> !precedes(q, p),
    decreases MAX_ICON_SEARCH_DEPTH + 2 - depth, items.len() - i,
{
    reveal_with_fuel(find_from, 2);
    reveal_with_fuel(find_below, 2);
    let here = path.push(i);
    let deeper = items[i].kind is Directory && depth <= MAX_ICON_SEARCH_DEPTH;
    if deeper && find_below(tree, names, here, items[i].token, depth + 1) is Some {
        match tree(here) {
            Contents::Items(inner) => {
                let rest = the_first_icon_is_found(tree, names, here, inner, 0, depth + 1);
                let p = seq![i] + rest;
                assert(p.skip(1) =~= rest);
                assert forall|q: Seq<int>|
                    q.len() > 0 && q[0] >= i && #[trigger] icon_at(
                        tree,
                        names,
                        path,
                        items,
                        depth,
                        q,
                    ) is Some implies !precedes(q, p) by {
                    if precedes(q, p) {
                        let k = choose|k: int|
                            0 <= k < q.len() && k < p.len() && #[trigger] q.take(k) == p.take(k)
                                && q[k] < p[k];
                        assert(k > 0);
                        assert(q.take(k)[0] == p.take(k)[0]);
                        let tail = q.skip(1);
                        assert(tail.take(k - 1) =~= q.take(k).skip(1));
                        assert(rest.take(k - 1) =~= p.take(k).skip(1));
                        assert(tail[k - 1] < rest[k - 1]);
                        assert(precedes(tail, rest));
                        assert(icon_at(tree, names, here, inner, depth + 1, tail) is Some);
                        assert(tail[0] >= 0);
                    }
                }
                p
            },
            _ => {
                let p = seq![i];
                assert(p.skip(1).len() == 0);
                p
            },
        }
    } else if items[i].kind is File && file_matches(items[i].kind->File_0, names) {
        seq![i]
    } else {
        let p = the_first_icon_is_found(tree, names, path, items, i + 1, depth);
        if deeper {
            match tree(here) {
                Contents::Items(inner) => {
                    nothing_found_means_no_icon(tree, names, here, inner, 0, depth + 1);
                },
                _ => {},
            }
        }
        assert forall|q: Seq<int>|
            q.len() > 0 && q[0] >= i && #[trigger] icon_at(
                tree,
                names,
                path,
                items,
                depth,
                q,
            ) is Some implies !precedes(q, p) by {
            if q[0] == i {
                let tail = q.skip(1);
                if tail.len() > 0 && tail[0] >= 0 {
                    assert(tree(here) is Items ==> icon_at(
                        tree,
                        names,
                        here,
                        tree(here)->Items_0,
                        depth + 1,
                        tail,
                    ) is None);
                }
            }
        }
        p
    }
}

/// What stands behind the last separator is the rest of the text; a text without
/// the separator is all rest.
pub proof fn the_rest_stands_behind_the_last_separator(front: Seq<char>, tail: Seq<char>, c: char)
    requires
        !tail.contains(c),
    ensures
        after_last(front.push(c) + tail, c) == tail,
        after_last(tail, c) == tail,
{
    let all = front.push(c) + tail;
    let n = front.len() as int;
    assert forall|k: int| 0 <= k < tail.len() implies #[trigger] tail[k] != c by {
        assert(tail.contains(tail[k]));
    }
    assert forall|k: int| n < k < all.len() implies #[trigger] all[k] != c by {
        assert(all[k] == tail[k - n - 1]);
    }
    assert(all[n] == c);
    lemma_last_is(all, c, all.len() as int, n);
    lemma_last_is(tail, c, tail.len() as int, -1);
    assert(all.skip(n + 1) =~= tail);
    assert(tail.skip(0) =~= tail);
}

proof fn lemma_last_is(s: Seq<char>, c: char, end: int, at: int)
    requires
        -1 <= at < end || (at == -1 && end == 0),
        0 <= end <= s.len(),
        at >= 0 ==> s[at] == c,
        forall|k: int| at < k < end ==> #[trigger] s[k] != c,
    ensures
        last_position(s, c, end) == at,
    decreases end,
{
    if end > 0 && at < end - 1 {
        assert(s[end - 1] != c);
        lemma_last_is(s, c, end - 1, at);
    }
}

/// Icon files are looked for under the name in lower case, under what stands behind
/// its last dot, under the name without its dashes, and under the name with dashes
/// for its underscores; under nothing else, and first of all under the name itself.
pub proof fn icons_are_named_in_four_ways(name: Seq<char>, wanted: Seq<char>)
    ensures
        icon_names(name).len() > 0,
        icon_names(name)[0] == lowercase(name),
        icon_names(name).contains(wanted) <==> {
            ||| wanted == lowercase(name)
            ||| name.contains('.') && wanted == lowercase(after_last(name, '.'))
            ||| name.contains('-') && wanted == lowercase(name.filter(|c: char| c != '-'))
            ||| name.contains('_') && wanted == lowercase(replace(name, '_', seq!['-']))
        },
{
    replacing_by_nothing_removes(name, '-');
    lemma_dotted(name);
    let a = seq![lowercase(name)];
    let b = if after_last(name, '.') != name {
        seq![lowercase(after_last(name, '.'))]
    } else {
        Seq::empty()
    };
    let c = if name.contains('-') {
        seq![lowercase(replace(name, '-', Seq::empty()))]
    } else {
        Seq::empty()
    };
    let d = if name.contains('_') {
        seq![lowercase(replace(name, '_', seq!['-']))]
    } else {
        Seq::empty()
    };
    let all = a + b + c + d;
    assert(icon_names(name) == all);
    assert(all[0] == a[0]);
    if b.len() > 0 {
        assert(all[1] == b[0]);
    }
    if c.len() > 0 {
        assert(all[1 + b.len() as int] == c[0]);
    }
    if d.len() > 0 {
        assert(all[1 + b.len() as int + c.len() as int] == d[0]);
    }
    if all.contains(wanted) {
        let i = choose|i: int| 0 <= i < all.len() && all[i] == wanted;
        assert(i == 0 || (i == 1 && b.len() > 0) || (i == 1 + b.len() && c.len() > 0) || (i == 1
            + b.len() + c.len() && d.len() > 0));
    }
}

proof fn lemma_dotted(name: Seq<char>)
    ensures
        after_last(name, '.') != name <==> name.contains('.'),
{
    let at = last_position(name, '.', name.len() as int);
    lemma_last_bounds(name, '.', name.len() as int);
    if name.contains('.') {
        let i = choose|i: int| 0 <= i < name.len() && name[i] == '.';
        assert(at >= i);
        assert(after_last(name, '.').len() < name.len());
    } else {
        if at >= 0 {
            assert(name.contains(name[at]));
        }
        assert(name.skip(0) =~= name);
    }
}

proof fn lemma_last_bounds(s: Seq<char>, c: char, end: int)
    requires
        0 <= end <= s.len(),
    ensures
        -1 <= last_position(s, c, end) < end || end == 0 && last_position(s, c, end) == -1,
        last_position(s, c, end) >= 0 ==> s[last_position(s, c, end)] == c,
        forall|k: int| last_position(s, c, end) < k < end ==> s[k] != c,
    decreases end,
{
    if end > 0 && s[end - 1] != c {
        lemma_last_bounds(s, c, end - 1);
    }
}

/// A file is an icon for one of the names if it is a PNG or JPEG by its extension,
/// and if its name starts with that name; capitals and small letters count alike.
pub proof fn icon_files_are_pictures_with_the_name(
    stem: Seq<char>,
    extension: Seq<char>,
    names: Seq<Seq<char>>,
    i: int,
    rest: Seq<char>,
)
    requires
        0 <= i < names.len(),
    ensures
        ({
            let file = NameParts { stem: Some(stem), extension: Some(extension) };
            let picture = seq!["png"@, "jpg"@, "jpeg"@].contains(lowercase(extension));
            &&& picture && lowercase(stem) == names[i] + rest ==> file_matches(file, names)
            &&& file_matches(file, names) ==> picture && exists|k: int|
                0 <= k < names.len() && lowercase(stem) == #[trigger] names[k] + lowercase(
                    stem,
                ).skip(names[k].len() as int)
            &&& !file_matches(NameParts { stem: None, extension: Some(extension) }, names)
            &&& !file_matches(NameParts { stem: Some(stem), extension: None }, names)
        }),
{
    let file = NameParts { stem: Some(stem), extension: Some(extension) };
    let pictures = seq!["png"@, "jpg"@, "jpeg"@];
    assert(pictures[0] == "png"@ && pictures[1] == "jpg"@ && pictures[2] == "jpeg"@);
    let text = lowercase(stem);
    prefixes_are_followed_by_the_rest(text, names[i], rest);
    if pictures.contains(lowercase(extension)) && text == names[i] + rest {
        let k = choose|k: int| 0 <= k < pictures.len() && pictures[k] == lowercase(extension);
        assert(k == 0 || k == 1 || k == 2);
        assert(has_prefix(text, names[i]));
        assert(some_prefix(text, names));
    }
    if file_matches(file, names) {
        let k = choose|k: int| 0 <= k < names.len() && has_prefix(text, #[trigger] names[k]);
        prefixes_are_followed_by_the_rest(text, names[k], rest);
    }
}

} // verus!
