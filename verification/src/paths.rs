//! Where files are looked for, given what the environment says. Paths are the
//! bytes of Unix paths.

use crate::properties::some_bytes;
use crate::text::chars_of;
use vstd::prelude::*;
use vstd::slice::slice_subrange;

verus! {

/// The bytes of an ASCII text.
pub open spec fn ascii_bytes(text: Seq<char>) -> Seq<u8> {
    text.map_values(|c: char| c as u8)
}

/// The bytes of an ASCII text.
fn bytes_of(text: &str) -> (r: Vec<u8>)
    ensures
        r@ == ascii_bytes(text@),
{
    let chars = chars_of(text);
    let mut r: Vec<u8> = Vec::new();
    let mut i: usize = 0;
    while i < chars.len()
        invariant
            i <= chars@.len(),
            chars@ == text@,
            r@ == ascii_bytes(text@).take(i as int),
        decreases chars@.len() - i,
    {
        r.push(chars[i] as u8);
        proof {
            assert(r@ =~= ascii_bytes(text@).take(i + 1));
        }
        i = i + 1;
    }
    proof {
        assert(ascii_bytes(text@).take(i as int) =~= ascii_bytes(text@));
    }
    r
}

/// The path `name` inside the directory `base`: a slash stands between them
/// unless `base` is empty or ends in one.
pub open spec fn inside(base: Seq<u8>, name: Seq<char>) -> Seq<u8> {
    if base.len() == 0 || base.last() == 0x2f {
        base + ascii_bytes(name)
    } else {
        base.push(0x2f) + ascii_bytes(name)
    }
}

/// The path `name` inside the directory `base`.
pub fn join(base: &[u8], name: &str) -> (r: Vec<u8>)
    ensures
        r@ == inside(base@, name@),
{
    let mut path = vstd::slice::slice_to_vec(base);
    if base.len() > 0 && base[base.len() - 1] != 0x2f {
        path.push(0x2f);
    }
    let mut tail = bytes_of(name);
    path.append(&mut tail);
    path
}

/// The first position of a colon from `from` on, or the number of bytes.
pub open spec fn colon_from(bytes: Seq<u8>, from: int) -> int
    decreases bytes.len() - from,
{
    if from >= bytes.len() {
        bytes.len() as int
    } else if bytes[from] == 0x3a {
        from
    } else {
        colon_from(bytes, from + 1)
    }
}

/// The directories of a list from `from` on, which colons part.
pub open spec fn dirs_from(bytes: Seq<u8>, from: int) -> Seq<Seq<u8>>
    decreases bytes.len() - from,
{
    let at = colon_from(bytes, from);
    if 0 <= from <= at < bytes.len() {
        seq![bytes.subrange(from, at)] + dirs_from(bytes, at + 1)
    } else {
        seq![bytes.skip(from)]
    }
}

/// The shared data directories: those that are given, or else the usual ones.
pub open spec fn data_dirs_of(dirs: Option<Seq<u8>>) -> Seq<Seq<u8>> {
    match dirs {
        Some(dirs) => dirs_from(dirs, 0),
        None => seq![ascii_bytes("/usr/local/share"@), ascii_bytes("/usr/share"@)],
    }
}

/// The views of paths.
pub open spec fn path_views(paths: Seq<Vec<u8>>) -> Seq<Seq<u8>> {
    paths.map_values(|p: Vec<u8>| p@)
}

/// A path `name` inside each of the directories.
pub open spec fn inside_each(dirs: Seq<Seq<u8>>, name: Seq<char>) -> Seq<Seq<u8>> {
    dirs.map_values(|dir: Seq<u8>| inside(dir, name))
}

/// `.local/share` in the home directory.
pub open spec fn local_share(home: Seq<u8>) -> Seq<u8> {
    inside(inside(home, ".local"@), "share"@)
}

/// One path more.
proof fn lemma_path_pushed(paths: Seq<Vec<u8>>, path: Vec<u8>)
    ensures
        path_views(paths.push(path)) == path_views(paths).push(path@),
{
    assert(path_views(paths.push(path)) =~= path_views(paths).push(path@));
}

/// Adds a path to a list.
fn push_path(paths: &mut Vec<Vec<u8>>, path: Vec<u8>)
    ensures
        path_views(final(paths)@) == path_views(old(paths)@).push(path@),
{
    proof {
        lemma_path_pushed(paths@, path);
    }
    paths.push(path);
}

/// The position of a colon.
fn find_colon(bytes: &[u8], from: usize) -> (r: usize)
    requires
        from <= bytes@.len(),
    ensures
        r == colon_from(bytes@, from as int),
        from <= r <= bytes@.len(),
{
    let mut i: usize = from;
    while i < bytes.len()
        invariant
            from <= i <= bytes@.len(),
            colon_from(bytes@, from as int) == colon_from(bytes@, i as int),
        decreases bytes@.len() - i,
    {
        if bytes[i] == 0x3a {
            return i;
        }
        i = i + 1;
    }
    i
}

/// The shared data directories.
pub fn data_dirs(dirs: Option<&[u8]>) -> (r: Vec<Vec<u8>>)
    ensures
        path_views(r@) == data_dirs_of(some_bytes(dirs)),
{
    let mut paths: Vec<Vec<u8>> = Vec::new();
    proof {
        assert(path_views(paths@) =~= Seq::<Seq<u8>>::empty());
    }
    let bytes: &[u8] = match dirs {
        Some(bytes) => bytes,
        None => {
            push_path(&mut paths, bytes_of("/usr/local/share"));
            push_path(&mut paths, bytes_of("/usr/share"));
            proof {
                assert(path_views(paths@) =~= data_dirs_of(None));
            }
            return paths;
        },
    };
    let mut from: usize = 0;
    let mut at = find_colon(bytes, 0);
    proof {
        assert(path_views(paths@) + dirs_from(bytes@, 0) =~= dirs_from(bytes@, 0));
    }
    while at < bytes.len()
        invariant
            from <= at <= bytes@.len(),
            at == colon_from(bytes@, from as int),
            path_views(paths@) + dirs_from(bytes@, from as int) == dirs_from(bytes@, 0),
        decreases bytes@.len() - from,
    {
        let ghost before = path_views(paths@);
        let part = slice_subrange(bytes, from, at);
        push_path(&mut paths, vstd::slice::slice_to_vec(part));
        from = at + 1;
        proof {
            assert(path_views(paths@) + dirs_from(bytes@, from as int) =~= before + (seq![part@]
                + dirs_from(bytes@, from as int)));
        }
        at = find_colon(bytes, from);
    }
    let rest = slice_subrange(bytes, from, bytes.len());
    proof {
        assert(rest@ =~= bytes@.skip(from as int));
    }
    let ghost before = path_views(paths@);
    push_path(&mut paths, vstd::slice::slice_to_vec(rest));
    proof {
        assert(path_views(paths@) =~= before + seq![rest@]);
    }
    paths
}

/// Adds a path inside each of the directories.
fn push_inside_each(paths: &mut Vec<Vec<u8>>, dirs: &Vec<Vec<u8>>, name: &str)
    ensures
        path_views(final(paths)@) == path_views(old(paths)@) + inside_each(
            path_views(dirs@),
            name@,
        ),
{
    let ghost start = path_views(paths@);
    let ghost all = inside_each(path_views(dirs@), name@);
    let mut i: usize = 0;
    proof {
        assert(start =~= start + all.take(0));
    }
    while i < dirs.len()
        invariant
            i <= dirs@.len(),
            all == inside_each(path_views(dirs@), name@),
            path_views(paths@) == start + all.take(i as int),
        decreases dirs@.len() - i,
    {
        push_path(paths, join(dirs[i].as_slice(), name));
        proof {
            assert(all.take(i + 1) =~= all.take(i as int).push(inside(dirs@[i as int]@, name@)));
            assert(path_views(paths@) =~= start + all.take(i + 1));
        }
        i = i + 1;
    }
    proof {
        assert(all.take(i as int) =~= all);
    }
}

/// Where icon directories can be, in the order in which they are searched:
/// `.icons` and `.local/share/icons` in the home directory, `icons` in the
/// user's and in the shared data directories, and the directory of pixmaps.
pub open spec fn icon_roots(
    home: Option<Seq<u8>>,
    data_home: Option<Seq<u8>>,
    dirs: Option<Seq<u8>>,
) -> Seq<Seq<u8>> {
    (match home {
        Some(home) => seq![inside(home, ".icons"@), inside(local_share(home), "icons"@)],
        None => Seq::empty(),
    }) + (match (data_home, home) {
        (Some(dir), _) => seq![inside(dir, "icons"@)],
        (None, Some(home)) => seq![inside(local_share(home), "icons"@)],
        (None, None) => Seq::empty(),
    }) + inside_each(data_dirs_of(dirs), "icons"@) + seq![ascii_bytes("/usr/share/pixmaps"@)]
}

/// Where icon directories can be, given `HOME`, `XDG_DATA_HOME` and
/// `XDG_DATA_DIRS`.
pub fn icon_search_roots(
    home: Option<&[u8]>,
    data_home: Option<&[u8]>,
    dirs: Option<&[u8]>,
) -> (r: Vec<Vec<u8>>)
    ensures
        path_views(r@) == icon_roots(some_bytes(home), some_bytes(data_home), some_bytes(dirs)),
{
    let mut roots: Vec<Vec<u8>> = Vec::new();
    proof {
        assert(path_views(roots@) =~= Seq::<Seq<u8>>::empty());
    }
    let share = match home {
        Some(home) => {
            let local = join(home, ".local");
            let share = join(local.as_slice(), "share");
            push_path(&mut roots, join(home, ".icons"));
            push_path(&mut roots, join(share.as_slice(), "icons"));
            Some(share)
        },
        None => None,
    };
    match data_home {
        Some(dir) => {
            push_path(&mut roots, join(dir, "icons"));
        },
        None => {
            match &share {
                Some(share) => {
                    push_path(&mut roots, join(share.as_slice(), "icons"));
                },
                None => {},
            }
        },
    }
    push_inside_each(&mut roots, &data_dirs(dirs), "icons");
    push_path(&mut roots, bytes_of("/usr/share/pixmaps"));
    proof {
        assert(path_views(roots@) =~= icon_roots(
            some_bytes(home),
            some_bytes(data_home),
            some_bytes(dirs),
        ));
    }
    roots
}

/// Where desktop files can be: `applications` in the user's and in the shared
/// data directories.
pub open spec fn application_dirs(
    home: Option<Seq<u8>>,
    data_home: Option<Seq<u8>>,
    dirs: Option<Seq<u8>>,
) -> Seq<Seq<u8>> {
    (match home {
        Some(home) => seq![inside(local_share(home), "applications"@)],
        None => Seq::empty(),
    }) + (match data_home {
        Some(dir) => seq![inside(dir, "applications"@)],
        None => Seq::empty(),
    }) + inside_each(data_dirs_of(dirs), "applications"@)
}

/// Where desktop files can be, given `HOME`, `XDG_DATA_HOME` and
/// `XDG_DATA_DIRS`.
pub fn desktop_entry_dirs(
    home: Option<&[u8]>,
    data_home: Option<&[u8]>,
    dirs: Option<&[u8]>,
) -> (r: Vec<Vec<u8>>)
    ensures
        path_views(r@) == application_dirs(
            some_bytes(home),
            some_bytes(data_home),
            some_bytes(dirs),
        ),
{
    let mut paths: Vec<Vec<u8>> = Vec::new();
    proof {
        assert(path_views(paths@) =~= Seq::<Seq<u8>>::empty());
    }
    match home {
        Some(home) => {
            let local = join(home, ".local");
            let share = join(local.as_slice(), "share");
            push_path(&mut paths, join(share.as_slice(), "applications"));
        },
        None => {},
    }
    match data_home {
        Some(dir) => {
            push_path(&mut paths, join(dir, "applications"));
        },
        None => {},
    }
    push_inside_each(&mut paths, &data_dirs(dirs), "applications");
    proof {
        assert(path_views(paths@) =~= application_dirs(
            some_bytes(home),
            some_bytes(data_home),
            some_bytes(dirs),
        ));
    }
    paths
}

/// Where the style sheet is: `xwitcher/style.css` in the configuration
/// directory, or else in `.config` in the home directory.
pub open spec fn style_path(config_home: Option<Seq<u8>>, home: Option<Seq<u8>>) -> Option<
    Seq<u8>,
> {
    match (config_home, home) {
        (Some(dir), _) => Some(inside(inside(dir, "xwitcher"@), "style.css"@)),
        (None, Some(home)) => Some(
            inside(inside(inside(home, ".config"@), "xwitcher"@), "style.css"@),
        ),
        (None, None) => None,
    }
}

/// Where the style sheet is, given `XDG_CONFIG_HOME` and `HOME`.
pub fn default_style_path(config_home: Option<&[u8]>, home: Option<&[u8]>) -> (r: Option<Vec<u8>>)
    ensures
        match r {
            Some(path) => style_path(some_bytes(config_home), some_bytes(home)) == Some(path@),
            None => style_path(some_bytes(config_home), some_bytes(home)) is None,
        },
{
    let base = match config_home {
        Some(dir) => vstd::slice::slice_to_vec(dir),
        None => match home {
            Some(home) => join(home, ".config"),
            None => {
                return None;
            },
        },
    };
    let dir = join(base.as_slice(), "xwitcher");
    Some(join(dir.as_slice(), "style.css"))
}

/// Icons are looked for in `.icons` and `.local/share/icons` in the home
/// directory, in `icons` in every shared data directory, and among the pixmaps.
pub proof fn the_usual_icon_directories_are_searched(
    home: Seq<u8>,
    data_home: Option<Seq<u8>>,
    dirs: Option<Seq<u8>>,
)
    ensures
        ({
            let roots = icon_roots(Some(home), data_home, dirs);
            &&& roots.contains(inside(home, ".icons"@))
            &&& roots.contains(inside(local_share(home), "icons"@))
            &&& forall|k: int|
                0 <= k < data_dirs_of(dirs).len() ==> roots.contains(
                    inside(#[trigger] data_dirs_of(dirs)[k], "icons"@),
                )
            &&& roots.contains(ascii_bytes("/usr/share/pixmaps"@))
        }),
{
    let roots = icon_roots(Some(home), data_home, dirs);
    let shared = data_dirs_of(dirs);
    assert(roots[0] == inside(home, ".icons"@));
    assert(roots[1] == inside(local_share(home), "icons"@));
    assert(roots[roots.len() - 1] == ascii_bytes("/usr/share/pixmaps"@));
    assert forall|k: int| 0 <= k < shared.len() implies roots.contains(
        inside(#[trigger] shared[k], "icons"@),
    ) by {
        assert(roots[3 + k] == inside(shared[k], "icons"@));
    }
}

/// A name is put behind a directory with one slash between them: one is added
/// unless the directory ends in one already. Behind no directory it stands alone.
pub proof fn names_are_joined_by_one_slash(base: Seq<u8>, name: Seq<char>)
    ensures
        base.len() > 0 && base.last() != 47 ==> inside(base, name) == base + seq![47u8]
            + ascii_bytes(name),
        base.len() > 0 && base.last() != 47 ==> inside(base.push(47), name) == inside(base, name),
        base.len() > 0 && base.last() == 47 ==> inside(base, name) == base + ascii_bytes(name),
        inside(Seq::empty(), name) == ascii_bytes(name),
{
    assert(base.push(47) =~= base + seq![47u8]);
    assert(Seq::<u8>::empty() + ascii_bytes(name) =~= ascii_bytes(name));
}

/// The bytes of a text are its characters, one each.
pub proof fn characters_become_bytes(text: Seq<char>, i: int)
    requires
        0 <= i < text.len(),
        text[i] as u32 <= 127,
    ensures
        ascii_bytes(text).len() == text.len(),
        ascii_bytes(text)[i] as u32 == text[i] as u32,
{
    let c: char = text[i];
    assert(ascii_bytes(text)[i] == c as u8);
    lemma_byte_of(c);
}

proof fn lemma_byte_of(c: char)
    requires
        c as u32 <= 127,
    ensures
        (c as u8) as u32 == c as u32,
{
}

/// The shared data directories are what stands between the colons, in their order;
/// where none are given there are the two usual ones.
pub proof fn directories_stand_between_colons(first: Seq<u8>, rest: Seq<u8>)
    requires
        !first.contains(58),
    ensures
        data_dirs_of(Some(first)) == seq![first],
        data_dirs_of(Some(first.push(58) + rest)) == seq![first] + data_dirs_of(Some(rest)),
        data_dirs_of(None).len() == 2,
        data_dirs_of(None)[0] == ascii_bytes("/usr/local/share"@),
        data_dirs_of(None)[1] == ascii_bytes("/usr/share"@),
{
    let all = first.push(58) + rest;
    let n = first.len() as int;
    assert forall|k: int| 0 <= k < n implies #[trigger] first[k] != 58 by {
        assert(first.contains(first[k]));
    }
    assert forall|k: int| 0 <= k < n implies #[trigger] all[k] != 58 by {
        assert(all[k] == first[k]);
    }
    assert(all[n] == 58);
    lemma_colon_is(first, 0, n);
    lemma_colon_is(all, 0, n);
    assert(first.skip(0) =~= first);
    assert(all.subrange(0, n) =~= first);
    lemma_dirs_behind(first.push(58), rest, 0);
}

proof fn lemma_colon_is(bytes: Seq<u8>, from: int, at: int)
    requires
        0 <= from <= at <= bytes.len(),
        at < bytes.len() ==> bytes[at] == 58,
        forall|k: int| from <= k < at ==> #[trigger] bytes[k] != 58,
    ensures
        colon_from(bytes, from) == at,
    decreases at - from,
{
    if from < at {
        assert(bytes[from] != 58);
        lemma_colon_is(bytes, from + 1, at);
    }
}

proof fn lemma_colon_bounds(bytes: Seq<u8>, from: int)
    requires
        0 <= from <= bytes.len(),
    ensures
        from <= colon_from(bytes, from) <= bytes.len(),
        colon_from(bytes, from) < bytes.len() ==> bytes[colon_from(bytes, from)] == 58,
        forall|k: int| from <= k < colon_from(bytes, from) ==> #[trigger] bytes[k] != 58,
    decreases bytes.len() - from,
{
    if from < bytes.len() && bytes[from] != 58 {
        lemma_colon_bounds(bytes, from + 1);
    }
}

proof fn lemma_dirs_behind(start: Seq<u8>, rest: Seq<u8>, from: int)
    requires
        0 <= from <= rest.len(),
    ensures
        dirs_from(start + rest, start.len() + from) == dirs_from(rest, from),
    decreases rest.len() - from,
{
    let all = start + rest;
    let n = start.len() as int;
    let at = colon_from(rest, from);
    lemma_colon_bounds(rest, from);
    assert forall|k: int| n + from <= k < n + at implies #[trigger] all[k] != 58 by {
        assert(all[k] == rest[k - n]);
    }
    if at < rest.len() {
        assert(all[n + at] == rest[at]);
    }
    lemma_colon_is(all, n + from, n + at);
    if at < rest.len() {
        assert(all.subrange(n + from, n + at) =~= rest.subrange(from, at));
        lemma_dirs_behind(start, rest, at + 1);
    } else {
        assert(all.skip(n + from) =~= rest.skip(from));
    }
}

/// Icons are looked for in the user's own directories first, then in the shared
/// ones, and in the pixmaps last; desktop files in the user's own directories and
/// then in the shared ones.
pub proof fn directories_are_searched_in_their_order(
    home: Seq<u8>,
    data_home: Seq<u8>,
    dirs: Option<Seq<u8>>,
    k: int,
)
    requires
        0 <= k < data_dirs_of(dirs).len(),
    ensures
        ({
            let roots = icon_roots(Some(home), Some(data_home), dirs);
            let usual = icon_roots(Some(home), None, dirs);
            let homeless = icon_roots(None, None, dirs);
            let apps = application_dirs(Some(home), Some(data_home), dirs);
            let fewer = application_dirs(Some(home), None, dirs);
            let share = inside(inside(home, ".local"@), "share"@);
            let n = data_dirs_of(dirs).len() as int;
            let shared = data_dirs_of(dirs)[k];
            &&& roots.len() == n + 4 && usual.len() == n + 4 && homeless.len() == n + 1
            &&& roots[0] == inside(home, ".icons"@)
            &&& roots[1] == inside(share, "icons"@)
            &&& roots[2] == inside(data_home, "icons"@)
            &&& usual[2] == inside(share, "icons"@)
            &&& roots[3 + k] == inside(shared, "icons"@)
            &&& homeless[k] == inside(shared, "icons"@)
            &&& roots.last() == ascii_bytes("/usr/share/pixmaps"@)
            &&& homeless.last() == ascii_bytes("/usr/share/pixmaps"@)
            &&& apps.len() == n + 2 && fewer.len() == n + 1
            &&& apps[0] == inside(share, "applications"@)
            &&& apps[1] == inside(data_home, "applications"@)
            &&& apps[2 + k] == inside(shared, "applications"@)
            &&& fewer[0] == inside(share, "applications"@)
            &&& fewer[1 + k] == inside(shared, "applications"@)
        }),
{
}

/// The style sheet lies in the configuration directory that is named, or else in
/// the usual one in the user's home; without either there is none.
pub proof fn the_style_sheet_has_its_place(dir: Seq<u8>, home: Option<Seq<u8>>)
    ensures
        style_path(Some(dir), home) == Some(inside(inside(dir, "xwitcher"@), "style.css"@)),
        home matches Some(home) ==> style_path(None, Some(home)) == style_path(
            Some(inside(home, ".config"@)),
            None,
        ),
        style_path(None, None) is None,
{
}

/// Without a home directory only the directories that are named are searched.
pub proof fn a_home_is_not_needed(data_home: Seq<u8>, dirs: Option<Seq<u8>>, k: int)
    requires
        0 <= k < data_dirs_of(dirs).len(),
    ensures
        ({
            let roots = icon_roots(None, Some(data_home), dirs);
            let apps = application_dirs(None, Some(data_home), dirs);
            let fewer = application_dirs(None, None, dirs);
            let n = data_dirs_of(dirs).len() as int;
            let shared = data_dirs_of(dirs)[k];
            &&& roots.len() == n + 2 && apps.len() == n + 1 && fewer.len() == n
            &&& roots[0] == inside(data_home, "icons"@)
            &&& roots[1 + k] == inside(shared, "icons"@)
            &&& roots.last() == ascii_bytes("/usr/share/pixmaps"@)
            &&& apps[0] == inside(data_home, "applications"@)
            &&& apps[1 + k] == inside(shared, "applications"@)
            &&& fewer[k] == inside(shared, "applications"@)
        }),
{
}

} // verus!
