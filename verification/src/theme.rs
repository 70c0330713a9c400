//! The icon theme: which icon belongs to a name, and what was found before.

use crate::desktop::{sources_of, IconSource, Source, Sources};
use crate::icons::{
    copy_icon, decode_icon, file_icons_are_sized, icon_in, is_sized, shown, Icon, IconFile, IconImage,
    ImageFile,
};
use crate::search::{icon_file_names, icon_names};
use crate::text::{copy_texts, lowercase, text_of, to_lowercase, views};
use crate::textmap::{
    distinct_keys, key_position, lemma_key_position, putting_is_found, value_of, with_pair, Pairs, TextMap,
};
use vstd::prelude::*;

verus! {

/// The icon that was found for a name, if any.
pub struct CachedIcon {
    pub icon: Option<Icon>,
}

impl View for CachedIcon {
    type V = Option<IconImage>;

    open spec fn view(&self) -> Option<IconImage> {
        shown(self.icon)
    }
}

/// The icon theme.
pub struct IconTheme {
    /// What was found before, by name in lower case.
    pub cache: TextMap<CachedIcon>,
    /// The paths of the icon directories.
    pub search_roots: Vec<Vec<u8>>,
    /// The icons of the applications, once they have been looked up.
    pub desktop_index: Option<TextMap<Sources>>,
    pub max_icon_size: u16,
}

/// What the icon theme remembers.
pub struct Memory {
    pub cache: Pairs<Option<IconImage>>,
    pub index: Option<Pairs<Seq<Source>>>,
}

/// What to find out for a lookup.
#[derive(Debug)]
pub enum IconRequest {
    /// The icon in the first file with one of these names in the icon
    /// directories.
    Named(Vec<String>),
    /// The icon in the file with this path.
    File(String),
    /// The icons of the applications.
    DesktopIndex,
}

/// What to find out for a lookup.
pub enum Request {
    Named(Seq<Seq<char>>),
    File(Seq<char>),
    DesktopIndex,
}

impl View for IconRequest {
    type V = Request;

    open spec fn view(&self) -> Request {
        match self {
            IconRequest::Named(names) => Request::Named(views(names@)),
            IconRequest::File(path) => Request::File(path@),
            IconRequest::DesktopIndex => Request::DesktopIndex,
        }
    }
}

/// How far a lookup has come with a name.
pub enum LookupStage {
    /// Its own icon is asked for.
    Named,
    /// The icons of the applications are asked for.
    Index,
    /// The icon in one of the application's sources is asked for.
    Source(Sources, usize),
}

/// A lookup that waits for an answer.
pub struct IconLookup {
    pub names: Vec<String>,
    /// The position of the name in question.
    pub at: usize,
    pub stage: LookupStage,
}

/// What to do in a lookup.
pub enum LookupStep {
    /// Find this out.
    Ask(IconLookup, IconRequest),
    /// This is the icon.
    Done(Option<Icon>),
}

/// What there is to be found out: by the position of a name, the icon in the
/// files named after it, the icons of the applications when they are asked for,
/// and by its position the icon in a source.
pub struct Finds {
    pub named: spec_fn(int) -> Option<IconImage>,
    pub index: spec_fn(int) -> Pairs<Seq<Source>>,
    pub sourced: spec_fn(int, int) -> Option<IconImage>,
}

/// Whether an icon is within the limit, if there is one.
pub open spec fn is_sized_option(icon: Option<IconImage>, limit: int) -> bool {
    icon matches Some(icon) ==> is_sized(icon, limit)
}

impl Memory {
    /// Whether every icon that is remembered is within the limit.
    pub open spec fn is_sized(self, limit: int) -> bool {
        forall|i: int|
            0 <= i < self.cache.len() ==> is_sized_option((#[trigger] self.cache[i]).1, limit)
    }
}

/// What to find out for a source.
pub open spec fn source_request(source: Source) -> Request {
    match source {
        Source::Path(path) => Request::File(path),
        Source::Name(name) => Request::Named(icon_names(name)),
    }
}

impl Finds {
    /// The first icon in the sources from position `k` on.
    pub open spec fn first_in(self, sources: Seq<Source>, at: int, k: int) -> Option<IconImage>
        decreases sources.len() - k,
    {
        if k >= sources.len() {
            None
        } else {
            match (self.sourced)(at, k) {
                Some(icon) => Some(icon),
                None => self.first_in(sources, at, k + 1),
            }
        }
    }

    /// The icon of an application under a key.
    pub open spec fn in_index(
        self,
        index: Pairs<Seq<Source>>,
        key: Seq<char>,
        at: int,
    ) -> Option<IconImage> {
        match value_of(index, key) {
            Some(sources) => self.first_in(sources, at, 0),
            None => None,
        }
    }

    /// What a lookup comes to once `icon` has been found for the name at
    /// position `at`: it is remembered, and the lookup ends or goes on.
    pub open spec fn concluded(
        self,
        memory: Memory,
        names: Seq<Seq<char>>,
        at: int,
        icon: Option<IconImage>,
    ) -> (Option<IconImage>, Memory)
        decreases names.len() - at, 0int,
    {
        let memory = Memory {
            cache: with_pair(memory.cache, lowercase(names[at]), icon),
            ..memory
        };
        if icon is Some || at >= names.len() {
            (icon, memory)
        } else {
            self.looked_up(memory, names, at + 1)
        }
    }

    /// What a lookup comes to once nothing has been found in the files named
    /// after the name at position `at`: the icon of an application, from the
    /// index that is remembered or else from a new one, which is remembered.
    pub open spec fn unnamed(self, memory: Memory, names: Seq<Seq<char>>, at: int) -> (
        Option<IconImage>,
        Memory,
    )
        decreases names.len() - at, 1int,
    {
        let index = match memory.index {
            Some(index) => index,
            None => (self.index)(at),
        };
        self.concluded(
            Memory { index: Some(index), ..memory },
            names,
            at,
            self.in_index(index, lowercase(names[at]), at),
        )
    }

    /// What a lookup comes to, from the name at position `at` on: an icon, if
    /// any name has one, and what is remembered then. Empty names are passed
    /// over; for a name that was looked up before, what was found then counts.
    pub open spec fn looked_up(self, memory: Memory, names: Seq<Seq<char>>, at: int) -> (
        Option<IconImage>,
        Memory,
    )
        decreases names.len() - at, 2int,
    {
        if at >= names.len() {
            (None, memory)
        } else if names[at].len() == 0 {
            self.looked_up(memory, names, at + 1)
        } else {
            match value_of(memory.cache, lowercase(names[at])) {
                Some(Some(icon)) => (Some(icon), memory),
                Some(None) => self.looked_up(memory, names, at + 1),
                None => match (self.named)(at) {
                    Some(icon) => self.concluded(memory, names, at, Some(icon)),
                    None => self.unnamed(memory, names, at),
                },
            }
        }
    }
}

impl IconLookup {
    /// Whether there is a name in question.
    pub open spec fn wf(self) -> bool {
        &&& self.at < self.names@.len()
        &&& self.stage matches LookupStage::Source(sources, k) ==> k < sources@.len()
    }

    /// What the lookup will come to.
    pub open spec fn outcome(self, memory: Memory, finds: Finds) -> (Option<IconImage>, Memory) {
        let names = views(self.names@);
        let at = self.at as int;
        match self.stage {
            LookupStage::Named => match (finds.named)(at) {
                Some(icon) => finds.concluded(memory, names, at, Some(icon)),
                None => finds.unnamed(memory, names, at),
            },
            LookupStage::Index => finds.unnamed(Memory { index: None, ..memory }, names, at),
            LookupStage::Source(sources, k) => finds.concluded(
                memory,
                names,
                at,
                finds.first_in(sources@, at, k as int),
            ),
        }
    }

    /// What the lookup waits for.
    pub open spec fn request(self) -> Request {
        match self.stage {
            LookupStage::Named => Request::Named(
                icon_names(lowercase(self.names@[self.at as int]@)),
            ),
            LookupStage::Index => Request::DesktopIndex,
            LookupStage::Source(sources, k) => source_request(sources@[k as int]),
        }
    }

    /// What is there to be found of what the lookup waits for.
    pub open spec fn answer(self, finds: Finds) -> Option<IconImage> {
        match self.stage {
            LookupStage::Source(_, k) => (finds.sourced)(self.at as int, k as int),
            _ => (finds.named)(self.at as int),
        }
    }

    /// Whether the sources that are tried are those under the name in question.
    pub open spec fn is_drawn_from(self, memory: Memory) -> bool {
        self.stage matches LookupStage::Source(sources, _) ==> memory.index is Some && value_of(
            memory.index->0,
            lowercase(self.names@[self.at as int]@),
        ) == Some(sources@)
    }

    /// How far the lookup has come with the name in question.
    pub open spec fn rank(self) -> int {
        match self.stage {
            LookupStage::Named => 0,
            LookupStage::Index => 1,
            LookupStage::Source(_, k) => 2 + k,
        }
    }

    /// Whether this is further on than `before`.
    pub open spec fn further(self, before: Self) -> bool {
        self.at > before.at || (self.at == before.at && self.rank() > before.rank())
    }
}

impl LookupStep {
    /// Whether the request is what the lookup waits for.
    pub open spec fn wf(self) -> bool {
        match self {
            LookupStep::Ask(lookup, request) => lookup.wf() && request@ == lookup.request(),
            LookupStep::Done(_) => true,
        }
    }

    /// Whether the sources that are tried are those under the name in question.
    pub open spec fn is_drawn_from(self, memory: Memory) -> bool {
        self matches LookupStep::Ask(lookup, _) ==> lookup.is_drawn_from(memory)
    }

    /// Whether an icon that is returned is within the limit.
    pub open spec fn is_sized(self, limit: int) -> bool {
        self matches LookupStep::Done(icon) ==> is_sized_option(shown(icon), limit)
    }

    /// What the lookup will come to.
    pub open spec fn outcome(self, memory: Memory, finds: Finds) -> (Option<IconImage>, Memory) {
        match self {
            LookupStep::Ask(lookup, _) => lookup.outcome(memory, finds),
            LookupStep::Done(icon) => (shown(icon), memory),
        }
    }
}

/// What an image file holds, if there is one.
pub open spec fn content(file: Option<IconFile>) -> Option<ImageFile> {
    match file {
        Some(file) => Some(file@),
        None => None,
    }
}

/// A second icon that shows the same, if there is one.
fn copy_option(icon: &Option<Icon>) -> (r: Option<Icon>)
    ensures
        shown(r) == shown(*icon),
{
    match icon {
        Some(icon) => Some(copy_icon(icon)),
        None => None,
    }
}

impl IconTheme {
    /// What the theme remembers.
    pub open spec fn memory(self) -> Memory {
        Memory {
            cache: self.cache@,
            index: match self.desktop_index {
                Some(index) => Some(index@),
                None => None,
            },
        }
    }

    /// Whether every icon that is remembered is within the limit.
    pub open spec fn is_sized(self) -> bool {
        self.memory().is_sized(self.max_icon_size as int)
    }

    /// Whether nothing but what is remembered is different.
    pub open spec fn same_settings(self, other: Self) -> bool {
        self.search_roots == other.search_roots && self.max_icon_size == other.max_icon_size
    }

    /// A theme that remembers nothing.
    pub fn new(max_icon_size: u16, search_roots: Vec<Vec<u8>>) -> (r: Self)
        ensures
            r.max_icon_size == max_icon_size,
            r.search_roots == search_roots,
            r.memory() == (Memory { cache: Seq::empty(), index: None }),
            r.is_sized(),
            distinct_keys(r.memory().cache),
    {
        IconTheme { cache: TextMap::new(), search_roots, desktop_index: None, max_icon_size }
    }

    /// Looks for the icon of the first of the names that has one. The first name is
    /// empty exactly if it is so in lower case, and so are all its spellings then.
    pub fn lookup(&mut self, names: &[String]) -> (r: LookupStep)
        ensures
            r.wf(),
            names@.len() > 0 ==> (names@[0]@.len() == 0 <==> lowercase(names@[0]@).len() == 0),
            r.is_drawn_from(final(self).memory()),
            final(self).same_settings(*old(self)),
            old(self).is_sized() ==> final(self).is_sized() && r.is_sized(
                old(self).max_icon_size as int,
            ),
            forall|finds: Finds| #[trigger]
                r.outcome(final(self).memory(), finds) == finds.looked_up(
                    old(self).memory(),
                    views(names@),
                    0,
                ),
    {
        let wanted = copy_texts(names);
        proof {
            assert(views(wanted@).len() == views(names@).len());
            if names@.len() > 0 {
                assert(views(wanted@)[0] == wanted@[0]@);
                assert(views(names@)[0] == names@[0]@);
            }
        }
        self.look_from(wanted, 0)
    }

    /// Looks for an icon from the name at position `from` on.
    fn look_from(&mut self, names: Vec<String>, from: usize) -> (r: LookupStep)
        requires
            from <= names@.len(),
        ensures
            r.wf(),
            r matches LookupStep::Ask(lookup, _) ==> lookup.at >= from && lookup.stage is Named,
            from < names@.len() ==> (names@[from as int]@.len() == 0 <==> lowercase(
                names@[from as int]@,
            ).len() == 0),
            *final(self) == *old(self),
            old(self).is_sized() ==> r.is_sized(old(self).max_icon_size as int),
            forall|finds: Finds| #[trigger]
                r.outcome(final(self).memory(), finds) == finds.looked_up(
                    old(self).memory(),
                    views(names@),
                    from as int,
                ),
    {
        let ghost memory = self.memory();
        let ghost wanted = views(names@);
        let mut at: usize = from;
        #[verifier::loop_isolation(false)]
        while at < names.len()
            invariant
                from <= at <= names@.len(),
                from < at ==> (names@[from as int]@.len() == 0 <==> lowercase(
                    names@[from as int]@,
                ).len() == 0),
                forall|finds: Finds| #[trigger]
                    finds.looked_up(memory, wanted, from as int) == finds.looked_up(
                        memory,
                        wanted,
                        at as int,
                    ),
            decreases names@.len() - at,
        {
            proof {
                assert(wanted[at as int] == names@[at as int]@);
            }
            let key = to_lowercase(names[at].as_str());
            if !key.as_str().is_empty() {
                match self.cache.get(key.as_str()) {
                    Some(found) => {
                        proof {
                            lemma_key_position(memory.cache, key@, 0);
                            let place = key_position(memory.cache, key@, 0);
                            assert(memory.cache[place].1 == found@);
                        }
                        match &found.icon {
                            Some(icon) => {
                                return LookupStep::Done(Some(copy_icon(icon)));
                            },
                            None => {},
                        }
                    },
                    None => {
                        let request = IconRequest::Named(icon_file_names(key.as_str()));
                        let lookup = IconLookup { names, at, stage: LookupStage::Named };
                        return LookupStep::Ask(lookup, request);
                    },
                }
            }
            at = at + 1;
        }
        LookupStep::Done(None)
    }

    /// Remembers what was found for the name in question, and ends the lookup or
    /// goes on.
    fn conclude(&mut self, names: Vec<String>, at: usize, icon: Option<Icon>) -> (r: LookupStep)
        requires
            at < names@.len(),
        ensures
            r.wf(),
            r matches LookupStep::Ask(lookup, _) ==> lookup.at > at,
            icon is Some ==> r is Done && shown(r->Done_0) == shown(icon),
            r.is_drawn_from(final(self).memory()),
            final(self).same_settings(*old(self)),
            old(self).is_sized() && is_sized_option(shown(icon), old(self).max_icon_size as int)
                ==> final(self).is_sized() && r.is_sized(old(self).max_icon_size as int),
            forall|finds: Finds| #[trigger]
                r.outcome(final(self).memory(), finds) == finds.concluded(
                    old(self).memory(),
                    views(names@),
                    at as int,
                    shown(icon),
                ),
    {
        let ghost before = self.memory();
        let ghost wanted = views(names@);
        proof {
            assert(wanted[at as int] == names@[at as int]@);
            assert(at < names.len());
        }
        let key = to_lowercase(names[at].as_str());
        proof {
            lemma_key_position(self.cache@, key@, 0);
        }
        self.cache.insert(key, CachedIcon { icon: copy_option(&icon) });
        proof {
            let limit = self.max_icon_size as int;
            if before.is_sized(limit) && is_sized_option(shown(icon), limit) {
                let after = self.memory();
                assert forall|i: int| 0 <= i < after.cache.len() implies is_sized_option(
                    (#[trigger] after.cache[i]).1,
                    limit,
                ) by {
                    if i < before.cache.len() {
                        assert(is_sized_option(before.cache[i].1, limit));
                    }
                }
                assert(self.is_sized());
            }
        }
        match icon {
            Some(icon) => LookupStep::Done(Some(icon)),
            None => self.look_from(names, at + 1),
        }
    }

    /// Goes on with the sources of an application from position `k` on.
    fn try_source(
        &mut self,
        names: Vec<String>,
        at: usize,
        sources: Sources,
        k: usize,
    ) -> (r: LookupStep)
        requires
            at < names@.len(),
            k <= sources@.len(),
        ensures
            r.wf(),
            r matches LookupStep::Ask(lookup, _) ==> lookup.at > at || (lookup.at == at
                && lookup.stage is Source && lookup.rank() == 2 + k),
            old(self).desktop_index is Some && value_of(
                old(self).desktop_index->0@,
                lowercase(names@[at as int]@),
            ) == Some(sources@) ==> r.is_drawn_from(final(self).memory()),
            final(self).same_settings(*old(self)),
            old(self).is_sized() ==> final(self).is_sized() && r.is_sized(
                old(self).max_icon_size as int,
            ),
            forall|finds: Finds| #[trigger]
                r.outcome(final(self).memory(), finds) == finds.concluded(
                    old(self).memory(),
                    views(names@),
                    at as int,
                    finds.first_in(sources@, at as int, k as int),
                ),
    {
        if k >= sources.list.len() {
            let r = self.conclude(names, at, None);
            return r;
        }
        let request = match &sources.list[k] {
            IconSource::Path(path) => IconRequest::File(text_of(path.as_str())),
            IconSource::Name(name) => IconRequest::Named(icon_file_names(name.as_str())),
        };
        proof {
            assert(sources@[k as int] == sources.list@[k as int]@);
        }
        let lookup = IconLookup { names, at, stage: LookupStage::Source(sources, k) };
        LookupStep::Ask(lookup, request)
    }

    /// Goes on with the icons of the applications, which are known by now.
    fn try_index(&mut self, names: Vec<String>, at: usize) -> (r: LookupStep)
        requires
            at < names@.len(),
            old(self).desktop_index is Some,
        ensures
            r.wf(),
            r matches LookupStep::Ask(lookup, _) ==> lookup.at > at || (lookup.at == at
                && lookup.stage is Source),
            r.is_drawn_from(final(self).memory()),
            final(self).same_settings(*old(self)),
            old(self).is_sized() ==> final(self).is_sized() && r.is_sized(
                old(self).max_icon_size as int,
            ),
            forall|finds: Finds| #[trigger]
                r.outcome(final(self).memory(), finds) == finds.unnamed(
                    old(self).memory(),
                    views(names@),
                    at as int,
                ),
    {
        proof {
            assert(views(names@)[at as int] == names@[at as int]@);
        }
        let key = to_lowercase(names[at].as_str());
        let sources = match &self.desktop_index {
            Some(index) => match index.get(key.as_str()) {
                Some(sources) => Some(sources.copy()),
                None => None,
            },
            None => None,
        };
        match sources {
            Some(sources) => self.try_source(names, at, sources, 0),
            None => self.conclude(names, at, None),
        }
    }

    /// Goes on once an image file has been looked for, by name or by its path; there
    /// is none if nothing was found or the file cannot be read.
    pub fn resume_with_file(&mut self, lookup: IconLookup, file: Option<IconFile>) -> (r:
        LookupStep)
        requires
            lookup.wf(),
            !(lookup.stage is Index),
        ensures
            r.wf(),
            r matches LookupStep::Ask(next, _) ==> next.further(lookup),
            icon_in(content(file), old(self).max_icon_size as int) matches Some(icon) ==> r is Done
                && shown(r->Done_0) == Some(icon),
            lookup.is_drawn_from(old(self).memory()) ==> r.is_drawn_from(final(self).memory()),
            final(self).same_settings(*old(self)),
            old(self).is_sized() ==> final(self).is_sized() && r.is_sized(
                old(self).max_icon_size as int,
            ),
            forall|finds: Finds|
                lookup.answer(finds) == icon_in(content(file), old(self).max_icon_size as int)
                    ==> #[trigger] r.outcome(final(self).memory(), finds) == lookup.outcome(
                    old(self).memory(),
                    finds,
                ),
    {
        let icon = match &file {
            Some(file) => {
                let extension: Option<&str> = match &file.extension {
                    Some(extension) => Some(extension.as_str()),
                    None => None,
                };
                decode_icon(extension, file.bytes.as_slice(), self.max_icon_size)
            },
            None => None,
        };
        self.resume(lookup, icon)
    }

    /// Goes on once an icon has been asked for, by name or in a file.
    pub fn resume(&mut self, lookup: IconLookup, icon: Option<Icon>) -> (r: LookupStep)
        requires
            lookup.wf(),
            !(lookup.stage is Index),
        ensures
            r.wf(),
            r matches LookupStep::Ask(next, _) ==> next.further(lookup),
            icon is Some ==> r is Done && shown(r->Done_0) == shown(icon),
            lookup.is_drawn_from(old(self).memory()) ==> r.is_drawn_from(final(self).memory()),
            final(self).same_settings(*old(self)),
            old(self).is_sized() && is_sized_option(shown(icon), old(self).max_icon_size as int)
                ==> final(self).is_sized() && r.is_sized(old(self).max_icon_size as int),
            forall|finds: Finds|
                lookup.answer(finds) == shown(icon) ==> #[trigger] r.outcome(
                    final(self).memory(),
                    finds,
                ) == lookup.outcome(old(self).memory(), finds),
    {
        let IconLookup { names, at, stage } = lookup;
        match icon {
            Some(icon) => self.conclude(names, at, Some(icon)),
            None => match stage {
                LookupStage::Source(sources, k) => {
                    proof {
                        assert(k < sources.list.len());
                    }
                    self.try_source(names, at, sources, k + 1)
                },
                _ => {
                    if self.desktop_index.is_some() {
                        self.try_index(names, at)
                    } else {
                        let lookup = IconLookup { names, at, stage: LookupStage::Index };
                        LookupStep::Ask(lookup, IconRequest::DesktopIndex)
                    }
                },
            },
        }
    }

    /// Goes on once the icons of the applications have been asked for.
    pub fn resume_with_index(&mut self, lookup: IconLookup, index: TextMap<Sources>) -> (r:
        LookupStep)
        requires
            lookup.wf(),
            lookup.stage is Index,
        ensures
            r.wf(),
            r matches LookupStep::Ask(next, _) ==> next.further(lookup),
            r.is_drawn_from(final(self).memory()),
            final(self).same_settings(*old(self)),
            old(self).is_sized() ==> final(self).is_sized() && r.is_sized(
                old(self).max_icon_size as int,
            ),
            forall|finds: Finds|
                (finds.index)(lookup.at as int) == index@ ==> #[trigger] r.outcome(
                    final(self).memory(),
                    finds,
                ) == lookup.outcome(old(self).memory(), finds),
    {
        let IconLookup { names, at, stage: _ } = lookup;
        let ghost before = self.memory();
        self.desktop_index = Some(index);
        proof {
            let limit = self.max_icon_size as int;
            let after = self.memory();
            if before.is_sized(limit) {
                assert forall|i: int| 0 <= i < after.cache.len() implies is_sized_option(
                    (#[trigger] after.cache[i]).1,
                    limit,
                ) by {
                    assert(is_sized_option(before.cache[i].1, limit));
                }
                assert(self.is_sized());
            }
        }
        self.try_index(names, at)
    }
}

/// What was found for a name, an icon or none, stays remembered in every later
/// lookup.
pub proof fn what_was_found_stays_remembered(
    finds: Finds,
    memory: Memory,
    names: Seq<Seq<char>>,
    at: int,
    key: Seq<char>,
)
    requires
        distinct_keys(memory.cache),
    ensures
        ({
            let after = finds.looked_up(memory, names, at).1;
            &&& distinct_keys(after.cache)
            &&& value_of(memory.cache, key) is Some ==> value_of(after.cache, key) == value_of(
                memory.cache,
                key,
            )
        }),
    decreases names.len() - at,
{
    reveal_with_fuel(Finds::looked_up, 2);
    reveal_with_fuel(Finds::concluded, 2);
    reveal_with_fuel(Finds::unnamed, 2);
    if at < names.len() {
        let asked = lowercase(names[at]);
        if names[at].len() == 0 || value_of(memory.cache, asked) == Some(None::<IconImage>) {
            what_was_found_stays_remembered(finds, memory, names, at + 1, key);
        } else if value_of(memory.cache, asked) is None {
            let index = match memory.index {
                Some(index) => index,
                None => (finds.index)(at),
            };
            let (icon, kept) = match (finds.named)(at) {
                Some(icon) => (Some(icon), memory),
                None => (
                    finds.in_index(index, asked, at),
                    Memory { index: Some(index), ..memory },
                ),
            };
            putting_is_found(memory.cache, asked, icon, key);
            let next = Memory { cache: with_pair(kept.cache, asked, icon), ..kept };
            assert(finds.looked_up(memory, names, at) == finds.concluded(kept, names, at, icon));
            if icon is None {
                what_was_found_stays_remembered(finds, next, names, at + 1, key);
            }
        }
    }
}

/// A lookup that is made again comes to the same icon, whatever is there to be
/// found by then, and nothing new is remembered.
pub proof fn a_lookup_is_remembered(
    finds: Finds,
    memory: Memory,
    names: Seq<Seq<char>>,
    at: int,
    again: Finds,
)
    requires
        distinct_keys(memory.cache),
    ensures
        again.looked_up(finds.looked_up(memory, names, at).1, names, at) == finds.looked_up(
            memory,
            names,
            at,
        ),
    decreases names.len() - at,
{
    reveal_with_fuel(Finds::looked_up, 2);
    reveal_with_fuel(Finds::concluded, 2);
    reveal_with_fuel(Finds::unnamed, 2);
    if at < names.len() {
        let asked = lowercase(names[at]);
        let after = finds.looked_up(memory, names, at).1;
        if names[at].len() == 0 {
            a_lookup_is_remembered(finds, memory, names, at + 1, again);
        } else if value_of(memory.cache, asked) == Some(None::<IconImage>) {
            a_lookup_is_remembered(finds, memory, names, at + 1, again);
            what_was_found_stays_remembered(finds, memory, names, at + 1, asked);
        } else if value_of(memory.cache, asked) is None {
            let index = match memory.index {
                Some(index) => index,
                None => (finds.index)(at),
            };
            let (icon, kept) = match (finds.named)(at) {
                Some(icon) => (Some(icon), memory),
                None => (
                    finds.in_index(index, asked, at),
                    Memory { index: Some(index), ..memory },
                ),
            };
            putting_is_found(memory.cache, asked, icon, asked);
            let next = Memory { cache: with_pair(kept.cache, asked, icon), ..kept };
            assert(finds.looked_up(memory, names, at) == finds.concluded(kept, names, at, icon));
            if icon is None {
                a_lookup_is_remembered(finds, next, names, at + 1, again);
                what_was_found_stays_remembered(finds, next, names, at + 1, asked);
            }
        }
    }
}

/// A name that was looked up gives the same result again in any spelling that is
/// the same in lower case, whatever is there to be found by then, and whether an
/// icon was found or none; nothing new is remembered. Two empty names, too, give
/// the same result.
pub proof fn a_name_is_remembered_in_any_spelling(
    finds: Finds,
    memory: Memory,
    name: Seq<char>,
    spelling: Seq<char>,
    again: Finds,
)
    requires
        distinct_keys(memory.cache),
        name.len() == 0 <==> spelling.len() == 0,
        lowercase(name) == lowercase(spelling),
    ensures
        again.looked_up(finds.looked_up(memory, seq![name], 0).1, seq![spelling], 0)
            == finds.looked_up(memory, seq![name], 0),
{
    reveal_with_fuel(Finds::looked_up, 2);
    reveal_with_fuel(Finds::concluded, 2);
    reveal_with_fuel(Finds::unnamed, 2);
    let key = lowercase(name);
    let names = seq![name];
    assert(names[0] == name && seq![spelling][0] == spelling);
    if name.len() > 0 && value_of(memory.cache, key) is None {
        let index = match memory.index {
            Some(index) => index,
            None => (finds.index)(0),
        };
        let (icon, kept) = match (finds.named)(0) {
            Some(icon) => (Some(icon), memory),
            None => (finds.in_index(index, key, 0), Memory { index: Some(index), ..memory }),
        };
        putting_is_found(memory.cache, key, icon, key);
        assert(finds.looked_up(memory, names, 0) == finds.concluded(kept, names, 0, icon));
    }
}

/// The same after any other lookup in between: what was found for a name counts
/// for every spelling of it from then on.
pub proof fn a_spelling_is_remembered_later(
    finds: Finds,
    memory: Memory,
    name: Seq<char>,
    between: Finds,
    others: Seq<Seq<char>>,
    spelling: Seq<char>,
    again: Finds,
)
    requires
        distinct_keys(memory.cache),
        name.len() == 0 <==> spelling.len() == 0,
        lowercase(name) == lowercase(spelling),
    ensures
        ({
            let (icon, after) = finds.looked_up(memory, seq![name], 0);
            let later = between.looked_up(after, others, 0).1;
            again.looked_up(later, seq![spelling], 0) == (icon, later)
        }),
{
    reveal_with_fuel(Finds::looked_up, 2);
    let (icon, after) = finds.looked_up(memory, seq![name], 0);
    let key = lowercase(name);
    assert(seq![name][0] == name && seq![spelling][0] == spelling);
    if name.len() > 0 {
        what_was_found_stays_remembered(finds, memory, seq![name], 0, key);
        what_was_found_stays_remembered(between, after, others, 0, key);
        lemma_name_is_cached(finds, memory, name);
    }
}

/// After a lookup the cache holds what was found for the name.
proof fn lemma_name_is_cached(finds: Finds, memory: Memory, name: Seq<char>)
    requires
        distinct_keys(memory.cache),
        name.len() > 0,
    ensures
        ({
            let (icon, after) = finds.looked_up(memory, seq![name], 0);
            value_of(after.cache, lowercase(name)) == Some(icon)
        }),
{
    reveal_with_fuel(Finds::looked_up, 2);
    reveal_with_fuel(Finds::concluded, 2);
    reveal_with_fuel(Finds::unnamed, 2);
    let key = lowercase(name);
    let names = seq![name];
    assert(names[0] == name);
    if value_of(memory.cache, key) is None {
        let index = match memory.index {
            Some(index) => index,
            None => (finds.index)(0),
        };
        let (icon, kept) = match (finds.named)(0) {
            Some(icon) => (Some(icon), memory),
            None => (finds.in_index(index, key, 0), Memory { index: Some(index), ..memory }),
        };
        putting_is_found(memory.cache, key, icon, key);
        assert(finds.looked_up(memory, names, 0) == finds.concluded(kept, names, 0, icon));
    }
}

/// An icon that a lookup comes to is within the limit if every icon that is
/// remembered or found is, and so is then every icon that is remembered.
pub proof fn looked_up_icons_are_sized(
    finds: Finds,
    memory: Memory,
    names: Seq<Seq<char>>,
    at: int,
    limit: int,
)
    requires
        memory.is_sized(limit),
        forall|i: int| is_sized_option(#[trigger] (finds.named)(i), limit),
        forall|i: int, k: int| is_sized_option(#[trigger] (finds.sourced)(i, k), limit),
    ensures
        is_sized_option(finds.looked_up(memory, names, at).0, limit),
        finds.looked_up(memory, names, at).1.is_sized(limit),
    decreases names.len() - at,
{
    reveal_with_fuel(Finds::looked_up, 2);
    reveal_with_fuel(Finds::concluded, 2);
    reveal_with_fuel(Finds::unnamed, 2);
    if at < names.len() {
        let asked = lowercase(names[at]);
        lemma_key_position(memory.cache, asked, 0);
        if names[at].len() == 0 || value_of(memory.cache, asked) == Some(None::<IconImage>) {
            looked_up_icons_are_sized(finds, memory, names, at + 1, limit);
        } else if value_of(memory.cache, asked) is None {
            let index = match memory.index {
                Some(index) => index,
                None => (finds.index)(at),
            };
            let (icon, kept) = match (finds.named)(at) {
                Some(icon) => (Some(icon), memory),
                None => (
                    finds.in_index(index, asked, at),
                    Memory { index: Some(index), ..memory },
                ),
            };
            if (finds.named)(at) is None && value_of(index, asked) is Some {
                lemma_first_in_sized(finds, value_of(index, asked)->0, at, 0, limit);
            }
            assert(is_sized_option((finds.named)(at), limit));
            assert(is_sized_option(icon, limit));
            let next = Memory { cache: with_pair(kept.cache, asked, icon), ..kept };
            assert(next.is_sized(limit));
            assert(finds.looked_up(memory, names, at) == finds.concluded(kept, names, at, icon));
            if icon is None {
                looked_up_icons_are_sized(finds, next, names, at + 1, limit);
            }
        }
    }
}

/// The first icon in some sources is within the limit if all are.
proof fn lemma_first_in_sized(finds: Finds, sources: Seq<Source>, at: int, k: int, limit: int)
    requires
        forall|i: int, j: int| is_sized_option(#[trigger] (finds.sourced)(i, j), limit),
    ensures
        is_sized_option(finds.first_in(sources, at, k), limit),
    decreases sources.len() - k,
{
    if k < sources.len() {
        assert(is_sized_option((finds.sourced)(at, k), limit));
        lemma_first_in_sized(finds, sources, at, k + 1, limit);
    }
}

/// Icon files and desktop files that stay as they are: the image file that each
/// request comes to, and the icons of the applications; and the limit of the theme.
pub struct World {
    pub file: spec_fn(Request) -> Option<ImageFile>,
    pub index: Pairs<Seq<Source>>,
    pub limit: int,
}

impl World {
    /// The icon that a request comes to.
    pub open spec fn icon(self, request: Request) -> Option<IconImage> {
        icon_in((self.file)(request), self.limit)
    }

    /// The icons of the applications as a theme sees them: those it remembers, or
    /// else those that are there.
    pub open spec fn index_for(self, memory: Memory) -> Pairs<Seq<Source>> {
        match memory.index {
            Some(index) => index,
            None => self.index,
        }
    }

    /// What there is to be found out for some names.
    pub open spec fn finds(self, memory: Memory, names: Seq<Seq<char>>) -> Finds {
        Finds {
            named: |at: int| self.icon(Request::Named(icon_names(lowercase(names[at])))),
            index: |at: int| self.index,
            sourced: |at: int, k: int|
                self.icon(
                    source_request(sources_of(self.index_for(memory), lowercase(names[at]))[k]),
                ),
        }
    }

    /// The icon that a lookup of some names comes to.
    pub open spec fn lookup(self, memory: Memory, names: Seq<Seq<char>>) -> Option<IconImage> {
        self.finds(memory, names).looked_up(memory, names, 0).0
    }

    /// The icon that a lookup of one name comes to.
    pub open spec fn single(self, memory: Memory, name: Seq<char>) -> Option<IconImage> {
        self.lookup(memory, seq![name])
    }

    /// The first icon that a lookup of one of the names comes to, from position
    /// `at` on.
    pub open spec fn first_single(self, memory: Memory, names: Seq<Seq<char>>, at: int) -> Option<
        IconImage,
    >
        decreases names.len() - at,
    {
        if at >= names.len() {
            None
        } else {
            match self.single(memory, names[at]) {
                Some(icon) => Some(icon),
                None => self.first_single(memory, names, at + 1),
            }
        }
    }

    /// The first icon in the sources from position `k` on.
    spec fn first_source(self, sources: Seq<Source>, k: int) -> Option<IconImage>
        decreases sources.len() - k,
    {
        if k >= sources.len() {
            None
        } else {
            match self.icon(source_request(sources[k])) {
                Some(icon) => Some(icon),
                None => self.first_source(sources, k + 1),
            }
        }
    }

    /// The icon for a name in lower case.
    spec fn by_key(self, memory: Memory, key: Seq<char>) -> Option<IconImage> {
        match value_of(memory.cache, key) {
            Some(found) => found,
            None => match self.icon(Request::Named(icon_names(key))) {
                Some(icon) => Some(icon),
                None => self.first_source(sources_of(self.index_for(memory), key), 0),
            },
        }
    }

    /// The first icon for one of the names, from position `at` on.
    spec fn first_by_key(self, memory: Memory, names: Seq<Seq<char>>, at: int) -> Option<IconImage>
        decreases names.len() - at,
    {
        if at >= names.len() {
            None
        } else if names[at].len() > 0 && self.by_key(memory, lowercase(names[at])) is Some {
            self.by_key(memory, lowercase(names[at]))
        } else {
            self.first_by_key(memory, names, at + 1)
        }
    }

    /// Whether a theme remembers no more than what there was at the start, and that
    /// some names have no icon.
    spec fn follows(self, start: Memory, memory: Memory) -> bool {
        &&& distinct_keys(memory.cache)
        &&& self.index_for(memory) == self.index_for(start)
        &&& forall|key: Seq<char>|
            #![trigger value_of(memory.cache, key)]
            value_of(memory.cache, key) == value_of(start.cache, key) || (value_of(
                start.cache,
                key,
            ) is None && value_of(memory.cache, key) == Some(None::<IconImage>) && self.by_key(
                start,
                key,
            ) is None)
    }
}

/// The first icon in the sources of a name.
proof fn lemma_first_source(
    world: World,
    start: Memory,
    names: Seq<Seq<char>>,
    at: int,
    sources: Seq<Source>,
    k: int,
)
    requires
        0 <= k,
        sources == sources_of(world.index_for(start), lowercase(names[at])),
    ensures
        world.finds(start, names).first_in(sources, at, k) == world.first_source(sources, k),
    decreases sources.len() - k,
{
    if k < sources.len() {
        lemma_first_source(world, start, names, at, sources, k + 1);
    }
}

/// What a lookup comes to, name by name.
proof fn lemma_lookup_by_key(
    world: World,
    start: Memory,
    memory: Memory,
    names: Seq<Seq<char>>,
    at: int,
)
    requires
        0 <= at,
        world.follows(start, memory),
    ensures
        world.finds(start, names).looked_up(memory, names, at).0 == world.first_by_key(
            start,
            names,
            at,
        ),
    decreases names.len() - at,
{
    reveal_with_fuel(Finds::looked_up, 2);
    reveal_with_fuel(Finds::concluded, 2);
    reveal_with_fuel(Finds::unnamed, 2);
    let finds = world.finds(start, names);
    if at < names.len() {
        let key = lowercase(names[at]);
        let cached = value_of(memory.cache, key);
        if names[at].len() == 0 || cached == Some(None::<IconImage>) {
            lemma_lookup_by_key(world, start, memory, names, at + 1);
        } else if cached is None {
            let index = world.index_for(memory);
            let sources = sources_of(index, key);
            lemma_first_source(world, start, names, at, sources, 0);
            assert(finds.in_index(index, key, at) == world.first_source(sources, 0));
            let (icon, kept) = match (finds.named)(at) {
                Some(icon) => (Some(icon), memory),
                None => (
                    finds.in_index(index, key, at),
                    Memory { index: Some(index), ..memory },
                ),
            };
            assert(icon == world.by_key(start, key));
            assert(finds.looked_up(memory, names, at) == finds.concluded(kept, names, at, icon));
            if icon is None {
                let next = Memory { cache: with_pair(kept.cache, key, icon), ..kept };
                putting_is_found(memory.cache, key, icon, key);
                assert forall|other: Seq<char>|
                    #![trigger value_of(next.cache, other)]
                    value_of(next.cache, other) == value_of(start.cache, other) || (value_of(
                        start.cache,
                        other,
                    ) is None && value_of(next.cache, other) == Some(None::<IconImage>)
                        && world.by_key(start, other) is None) by {
                    putting_is_found(memory.cache, key, icon, other);
                }
                assert(world.follows(start, next));
                lemma_lookup_by_key(world, start, next, names, at + 1);
            }
        }
    }
}

/// What a lookup of one name comes to.
proof fn lemma_single(world: World, memory: Memory, name: Seq<char>)
    requires
        distinct_keys(memory.cache),
    ensures
        world.single(memory, name) == (if name.len() > 0 {
            world.by_key(memory, lowercase(name))
        } else {
            None
        }),
{
    let names = seq![name];
    lemma_lookup_by_key(world, memory, memory, names, 0);
    assert(names[0] == name);
    assert(world.first_by_key(memory, names, 1) is None);
}

/// What the single lookups come to, name by name.
proof fn lemma_first_single(world: World, memory: Memory, names: Seq<Seq<char>>, at: int)
    requires
        0 <= at,
        distinct_keys(memory.cache),
    ensures
        world.first_single(memory, names, at) == world.first_by_key(memory, names, at),
        world.first_single(memory, names, at) is None <==> forall|i: int|
            at <= i < names.len() ==> world.single(memory, #[trigger] names[i]) is None,
    decreases names.len() - at,
{
    if at < names.len() {
        lemma_first_single(world, memory, names, at + 1);
        lemma_single(world, memory, names[at]);
        if world.single(memory, names[at]) is None {
            assert forall|i: int|
                world.first_single(memory, names, at) is None && at <= i
                    < names.len() implies world.single(memory, #[trigger] names[i]) is None by {}
        } else {
            assert(!(forall|i: int|
                at <= i < names.len() ==> world.single(memory, #[trigger] names[i]) is None));
        }
    }
}

/// As long as icon files and desktop files stay as they are, a lookup of several
/// names comes to the first icon that a lookup of one of them comes to, and to
/// none exactly if each of them does; an empty name, and so an empty list, never
/// has an icon.
pub proof fn a_lookup_takes_the_first_single_hit(
    world: World,
    memory: Memory,
    names: Seq<Seq<char>>,
)
    requires
        distinct_keys(memory.cache),
    ensures
        world.lookup(memory, names) == world.first_single(memory, names, 0),
        world.lookup(memory, names) is None <==> forall|i: int|
            0 <= i < names.len() ==> world.single(memory, #[trigger] names[i]) is None,
        (forall|i: int| 0 <= i < names.len() ==> (#[trigger] names[i]).len() == 0)
            ==> world.lookup(memory, names) is None,
        world.single(memory, Seq::empty()) is None,
{
    lemma_lookup_by_key(world, memory, memory, names, 0);
    lemma_first_single(world, memory, names, 0);
    lemma_single(world, memory, Seq::empty());
    if forall|i: int| 0 <= i < names.len() ==> (#[trigger] names[i]).len() == 0 {
        assert forall|i: int| 0 <= i < names.len() implies world.single(
            memory,
            #[trigger] names[i],
        ) is None by {
            lemma_single(world, memory, names[i]);
        }
    }
}

/// What a lookup asks for on its way is what the files answer: to answer every
/// request with what is there is to find out what there is to be found.
pub proof fn requests_are_answered_by_the_files(
    world: World,
    start: Memory,
    memory: Memory,
    lookup: IconLookup,
)
    requires
        lookup.wf(),
        lookup.is_drawn_from(memory),
        world.index_for(memory) == world.index_for(start),
        !(lookup.stage is Index),
    ensures
        lookup.answer(world.finds(start, views(lookup.names@))) == world.icon(lookup.request()),
{
    assert(views(lookup.names@)[lookup.at as int] == lookup.names@[lookup.at as int]@);
}

/// The icon that a request comes to is within the limit.
proof fn lemma_icon_sized(world: World, request: Request)
    requires
        0 <= world.limit,
    ensures
        is_sized_option(world.icon(request), world.limit),
{
    match (world.file)(request) {
        Some(file) => file_icons_are_sized(file, world.limit),
        None => {},
    }
}

/// Whatever the files hold, the icon that a lookup comes to is within the limit,
/// and so is every icon that is remembered then.
pub proof fn lookups_keep_to_the_limit(world: World, memory: Memory, names: Seq<Seq<char>>)
    requires
        0 <= world.limit,
        memory.is_sized(world.limit),
    ensures
        is_sized_option(world.lookup(memory, names), world.limit),
        world.finds(memory, names).looked_up(memory, names, 0).1.is_sized(world.limit),
{
    let finds = world.finds(memory, names);
    assert forall|i: int| is_sized_option(#[trigger] (finds.named)(i), world.limit) by {
        lemma_icon_sized(world, Request::Named(icon_names(lowercase(names[i]))));
    }
    assert forall|i: int, k: int| is_sized_option(
        #[trigger] (finds.sourced)(i, k),
        world.limit,
    ) by {
        let source = sources_of(world.index_for(memory), lowercase(names[i]))[k];
        lemma_icon_sized(world, source_request(source));
    }
    looked_up_icons_are_sized(finds, memory, names, 0, world.limit);
}

/// For a name of which nothing is remembered, an icon in the files named after it
/// comes first. Only if there is none are the sources tried that its application
/// has, in their order, and the first one with an icon counts.
pub proof fn named_files_come_before_applications(
    world: World,
    memory: Memory,
    index: Pairs<Seq<Source>>,
    name: Seq<char>,
    k: int,
)
    requires
        distinct_keys(memory.cache),
        memory.index == Some(index) || (memory.index is None && world.index == index),
        name.len() > 0,
        value_of(memory.cache, lowercase(name)) is None,
    ensures
        ({
            let key = lowercase(name);
            let named = icon_in((world.file)(Request::Named(icon_names(key))), world.limit);
            let sources = sources_of(index, key);
            &&& named is Some ==> world.single(memory, name) == named
            &&& named is None && sources.len() == 0 ==> world.single(memory, name) is None
            &&& named is None && 0 <= k < sources.len() && (forall|j: int|
                0 <= j < k ==> world.icon(#[trigger] source_request(sources[j])) is None)
                && world.icon(source_request(sources[k])) is Some ==> world.single(memory, name)
                == world.icon(source_request(sources[k]))
            &&& named is None && (forall|j: int|
                0 <= j < sources.len() ==> world.icon(#[trigger] source_request(sources[j]))
                    is None) ==> world.single(memory, name) is None
        }),
{
    let key = lowercase(name);
    let sources = sources_of(index, key);
    assert(world.index_for(memory) == index);
    lemma_single(world, memory, name);
    lemma_no_source(world, Seq::empty(), 0);
    if sources.len() == 0 {
        assert(sources =~= Seq::empty());
    }
    if 0 <= k < sources.len() && (forall|j: int|
        0 <= j < k ==> world.icon(#[trigger] source_request(sources[j])) is None) && world.icon(
        source_request(sources[k]),
    ) is Some {
        lemma_first_source_is(world, sources, 0, k);
    }
    if forall|j: int|
        0 <= j < sources.len() ==> world.icon(#[trigger] source_request(sources[j])) is None {
        lemma_no_source(world, sources, 0);
    }
}

proof fn lemma_first_source_is(world: World, sources: Seq<Source>, from: int, k: int)
    requires
        0 <= from <= k < sources.len(),
        forall|j: int|
            from <= j < k ==> world.icon(#[trigger] source_request(sources[j])) is None,
        world.icon(source_request(sources[k])) is Some,
    ensures
        world.first_source(sources, from) == world.icon(source_request(sources[k])),
    decreases k - from,
{
    if from < k {
        assert(world.icon(source_request(sources[from])) is None);
        lemma_first_source_is(world, sources, from + 1, k);
    }
}

proof fn lemma_no_source(world: World, sources: Seq<Source>, from: int)
    requires
        0 <= from,
        forall|j: int|
            0 <= j < sources.len() ==> world.icon(#[trigger] source_request(sources[j])) is None,
    ensures
        world.first_source(sources, from) is None,
    decreases sources.len() - from,
{
    if from < sources.len() {
        assert(world.icon(source_request(sources[from])) is None);
        lemma_no_source(world, sources, from + 1);
    }
}

/// What is remembered of a name counts, be it an icon or that there is none.
pub proof fn what_is_remembered_counts(world: World, memory: Memory, name: Seq<char>)
    requires
        distinct_keys(memory.cache),
        name.len() > 0,
        value_of(memory.cache, lowercase(name)) is Some,
    ensures
        Some(world.single(memory, name)) == value_of(memory.cache, lowercase(name)),
{
    lemma_single(world, memory, name);
}

/// A source that is a path is looked for as that file, and one that is a name as the
/// files named after it.
pub proof fn sources_are_looked_for_as_what_they_are(path: Seq<char>, name: Seq<char>)
    ensures
        source_request(Source::Path(path)) == Request::File(path),
        source_request(Source::Name(name)) == Request::Named(icon_names(name)),
{
}

} // verus!
