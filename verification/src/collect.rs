//! Which windows are offered, and how they are found out about: one question to
//! the X server or to the icon theme after the other.

use crate::icons::{shown, Icon, IconImage};
use crate::mru::{apply_mru_order, ordered_by_use};
use crate::overlay::{entry_images, EntryImage, WindowEntry};
use crate::properties::{
    class_names, is_title, listed, plain_text, some_bytes, some_words, title_of, title_step,
    title_text, utf8_text, window_class_names, window_icon, window_icon_of, window_list,
    window_number, TitleProperty, TitleStep,
};
use crate::text::{copy_texts, views};
use vstd::prelude::*;

verus! {

/// Where the windows can be listed.
#[derive(Clone, Copy, Debug, PartialEq, Eq, Structural)]
pub enum WindowSource {
    /// `_NET_CLIENT_LIST_STACKING` of the root window.
    Stacking,
    /// `_NET_CLIENT_LIST` of the root window.
    Clients,
    /// The children of the root window.
    Children,
}

/// What decides whether a window is offered.
#[derive(Clone, Copy, Debug, PartialEq, Eq, Structural)]
pub struct Attributes {
    pub viewable: bool,
    pub override_redirect: bool,
}

/// What to find out next.
#[derive(Debug)]
pub enum Question {
    /// The windows that a source lists.
    List(WindowSource),
    /// The attributes of a window.
    Attributes(u32),
    /// A property of a window that its title can come from.
    Title(u32, TitleProperty),
    /// `_NET_WM_ICON` of a window.
    Icon(u32),
    /// `WM_CLASS` of a window.
    Classes(u32),
    /// The icon in the theme for the first of these names that has one.
    Theme(Vec<String>),
    /// Nothing: the windows are known.
    Nothing,
}

/// How far the windows are known.
pub enum Stage {
    List(WindowSource),
    Attributes,
    Title(TitleProperty),
    Icon(String),
    Classes(String),
    Theme(String, Vec<String>),
    Finished,
}

/// The windows while they are found out about.
pub struct Collection {
    /// The overlay's own window.
    pub overlay: Option<u32>,
    pub max_icon_size: u16,
    /// The windows that are listed.
    pub windows: Vec<u32>,
    /// The position of the one in question.
    pub next: usize,
    /// What is offered of those before it.
    pub entries: Vec<WindowEntry>,
    pub stage: Stage,
}

/// What there is to be found out: what each source lists and, by the position
/// of a window in the list, its attributes, the properties that its title can
/// come from, its icon property, its classes and its icon in the theme.
pub struct Facts {
    pub lists: spec_fn(WindowSource) -> Option<Seq<u32>>,
    pub attributes: spec_fn(int) -> Option<Attributes>,
    pub titles: spec_fn(int, TitleProperty) -> Option<Seq<u8>>,
    pub icons: spec_fn(int) -> Option<Seq<u32>>,
    pub classes: spec_fn(int) -> Option<Seq<u8>>,
    pub themed: spec_fn(int) -> Option<IconImage>,
}

/// The windows that a source lists: the children as they are, the others
/// without zeros.
pub open spec fn source_list(source: WindowSource, reply: Option<Seq<u32>>) -> Seq<u32> {
    match source {
        WindowSource::Children => match reply {
            Some(words) => words,
            None => Seq::empty(),
        },
        _ => listed(reply),
    }
}

/// The source to try when one lists nothing.
pub open spec fn next_source(source: WindowSource) -> Option<WindowSource> {
    match source {
        WindowSource::Stacking => Some(WindowSource::Clients),
        WindowSource::Clients => Some(WindowSource::Children),
        WindowSource::Children => None,
    }
}

/// Whether a window is offered: it can be seen, is managed, and is not the
/// overlay itself.
pub open spec fn offered(
    window: u32,
    attributes: Option<Attributes>,
    overlay: Option<u32>,
) -> bool {
    &&& attributes matches Some(a) && a.viewable && !a.override_redirect
    &&& overlay != Some(window)
}

/// How many sources come after one.
pub open spec fn sources_after(source: WindowSource) -> int {
    match source {
        WindowSource::Stacking => 2,
        WindowSource::Clients => 1,
        WindowSource::Children => 0,
    }
}

impl Facts {
    /// The windows listed by the first source from `source` on that lists any.
    pub open spec fn windows_from(self, source: WindowSource) -> Seq<u32>
        decreases sources_after(source),
    {
        let list = source_list(source, (self.lists)(source));
        match next_source(source) {
            Some(next) => if list.len() == 0 {
                self.windows_from(next)
            } else {
                list
            },
            None => list,
        }
    }

    /// The title of the window at position `i`.
    pub open spec fn title(self, window: u32, i: int) -> Seq<char> {
        title_of(
            window,
            (self.titles)(i, TitleProperty::VisibleName),
            (self.titles)(i, TitleProperty::Name),
            (self.titles)(i, TitleProperty::PlainName),
        )
    }

    /// The icon of the window at position `i`: its own, or else that of the
    /// theme.
    pub open spec fn icon(self, i: int, limit: int) -> Option<IconImage> {
        match window_icon_of((self.icons)(i), limit) {
            Some(icon) => Some(icon),
            None => (self.themed)(i),
        }
    }

    /// What is offered of the windows from position `i` on.
    pub open spec fn entries_from(
        self,
        windows: Seq<u32>,
        overlay: Option<u32>,
        limit: int,
        i: int,
    ) -> Seq<EntryImage>
        decreases windows.len() - i,
    {
        if i >= windows.len() {
            Seq::empty()
        } else {
            let rest = self.entries_from(windows, overlay, limit, i + 1);
            if offered(windows[i], (self.attributes)(i), overlay) {
                seq![
                    EntryImage {
                        window: windows[i],
                        title: self.title(windows[i], i),
                        icon: self.icon(i, limit),
                    },
                ] + rest
            } else {
                rest
            }
        }
    }

    /// All windows that are offered, in the order in which they are listed.
    pub open spec fn all_entries(self, overlay: Option<u32>, limit: int) -> Seq<EntryImage> {
        self.entries_from(self.windows_from(WindowSource::Stacking), overlay, limit, 0)
    }

    /// The title of the window at position `i` if the properties before `asked`
    /// will not do.
    pub open spec fn title_from(self, window: u32, i: int, asked: TitleProperty) -> Seq<char> {
        let name = utf8_text((self.titles)(i, TitleProperty::Name));
        let plain = plain_text((self.titles)(i, TitleProperty::PlainName));
        let last = if is_title(plain) {
            plain->0
        } else {
            window_number(window)
        };
        match asked {
            TitleProperty::VisibleName => self.title(window, i),
            TitleProperty::Name => if is_title(name) {
                name->0
            } else {
                last
            },
            TitleProperty::PlainName => last,
        }
    }
}

/// Only windows that are listed, can be seen and are managed are offered, and
/// never the overlay itself.
pub proof fn only_ordinary_windows_are_offered(
    facts: Facts,
    windows: Seq<u32>,
    overlay: Option<u32>,
    limit: int,
    i: int,
)
    requires
        0 <= i,
    ensures
        forall|k: int|
            0 <= k < facts.entries_from(windows, overlay, limit, i).len() ==> {
                let window = (#[trigger] facts.entries_from(windows, overlay, limit, i)[k]).window;
                &&& overlay != Some(window)
                &&& exists|j: int|
                    i <= j < windows.len() && #[trigger] windows[j] == window && offered(
                        window,
                        (facts.attributes)(j),
                        overlay,
                    )
            },
    decreases windows.len() - i,
{
    if i < windows.len() {
        only_ordinary_windows_are_offered(facts, windows, overlay, limit, i + 1);
        let all = facts.entries_from(windows, overlay, limit, i);
        let rest = facts.entries_from(windows, overlay, limit, i + 1);
        assert forall|k: int| 0 <= k < all.len() implies {
            let window = (#[trigger] all[k]).window;
            &&& overlay != Some(window)
            &&& exists|j: int|
                i <= j < windows.len() && #[trigger] windows[j] == window && offered(
                    window,
                    (facts.attributes)(j),
                    overlay,
                )
        } by {
            if offered(windows[i], (facts.attributes)(i), overlay) {
                if k == 0 {
                    assert(windows[i] == all[0].window);
                } else {
                    assert(all[k] == rest[k - 1]);
                }
            } else {
                assert(all[k] == rest[k]);
            }
        }
    }
}

/// How far a stage is from the last one for the same window.
pub open spec fn stages_after(stage: Stage) -> int {
    match stage {
        Stage::List(source) => sources_after(source),
        Stage::Attributes => 7,
        Stage::Title(TitleProperty::VisibleName) => 6,
        Stage::Title(TitleProperty::Name) => 5,
        Stage::Title(TitleProperty::PlainName) => 4,
        Stage::Icon(_) => 3,
        Stage::Classes(_) => 2,
        Stage::Theme(_, _) => 1,
        Stage::Finished => 0,
    }
}

/// The stage at which the window at a position is looked at, if there is one.
pub open spec fn stage_from(windows: Seq<u32>, next: int) -> Stage {
    if next < windows.len() {
        Stage::Attributes
    } else {
        Stage::Finished
    }
}

impl Collection {
    /// Whether the position is that of a window where there is one in question.
    pub open spec fn wf(self) -> bool {
        match self.stage {
            Stage::List(_) => self.windows@.len() == 0 && self.next == 0 && self.entries@.len()
                == 0,
            Stage::Finished => true,
            _ => self.next < self.windows@.len(),
        }
    }

    /// What will be offered in the end.
    pub open spec fn outcome(self, facts: Facts) -> Seq<EntryImage> {
        let limit = self.max_icon_size as int;
        let i = self.next as int;
        let before = entry_images(self.entries@);
        let after = facts.entries_from(self.windows@, self.overlay, limit, i + 1);
        let window = self.windows@[i];
        match self.stage {
            Stage::List(source) => facts.entries_from(
                facts.windows_from(source),
                self.overlay,
                limit,
                0,
            ),
            Stage::Attributes => before + facts.entries_from(self.windows@, self.overlay, limit, i),
            Stage::Title(asked) => before + seq![
                EntryImage {
                    window,
                    title: facts.title_from(window, i, asked),
                    icon: facts.icon(i, limit),
                },
            ] + after,
            Stage::Icon(title) => before + seq![
                EntryImage { window, title: title@, icon: facts.icon(i, limit) },
            ] + after,
            Stage::Classes(title) => before + seq![
                EntryImage { window, title: title@, icon: (facts.themed)(i) },
            ] + after,
            Stage::Theme(title, _) => before + seq![
                EntryImage { window, title: title@, icon: (facts.themed)(i) },
            ] + after,
            Stage::Finished => before,
        }
    }

    /// Whether this is further on than `before`.
    pub open spec fn further(self, before: Self) -> bool {
        match (before.stage, self.stage) {
            (Stage::List(_), Stage::List(_)) => stages_after(self.stage) < stages_after(
                before.stage,
            ),
            (Stage::List(_), _) => true,
            (_, Stage::List(_)) => false,
            (Stage::Finished, _) => false,
            (_, Stage::Finished) => true,
            _ => before.next < self.next || (before.next == self.next && stages_after(self.stage)
                < stages_after(before.stage)),
        }
    }

    /// Whether `self` goes on from `before` once `facts` have been found to hold.
    pub open spec fn goes_on(self, before: Self, facts: Facts) -> bool {
        self.outcome(facts) == before.outcome(facts)
    }

    /// Nothing is known yet.
    pub fn new(overlay: Option<u32>, max_icon_size: u16) -> (r: Self)
        ensures
            r.wf(),
            r.overlay == overlay,
            r.max_icon_size == max_icon_size,
            r.stage == Stage::List(WindowSource::Stacking),
            forall|facts: Facts| #[trigger]
                r.outcome(facts) == facts.all_entries(overlay, max_icon_size as int),
    {
        Collection {
            overlay,
            max_icon_size,
            windows: Vec::new(),
            next: 0,
            entries: Vec::new(),
            stage: Stage::List(WindowSource::Stacking),
        }
    }

    /// What to find out next.
    pub fn question(&self) -> (r: Question)
        requires
            self.wf(),
        ensures
            match self.stage {
                Stage::List(source) => r == Question::List(source),
                Stage::Attributes => r == Question::Attributes(self.windows@[self.next as int]),
                Stage::Title(asked) => r == Question::Title(
                    self.windows@[self.next as int],
                    asked,
                ),
                Stage::Icon(_) => r == Question::Icon(self.windows@[self.next as int]),
                Stage::Classes(_) => r == Question::Classes(self.windows@[self.next as int]),
                Stage::Theme(_, names) => r matches Question::Theme(asked) && views(asked@)
                    == views(names@),
                Stage::Finished => r is Nothing,
            },
    {
        match &self.stage {
            Stage::List(source) => Question::List(*source),
            Stage::Attributes => Question::Attributes(self.windows[self.next]),
            Stage::Title(asked) => Question::Title(self.windows[self.next], *asked),
            Stage::Icon(_) => Question::Icon(self.windows[self.next]),
            Stage::Classes(_) => Question::Classes(self.windows[self.next]),
            Stage::Theme(_, names) => Question::Theme(copy_texts(names.as_slice())),
            Stage::Finished => Question::Nothing,
        }
    }

    /// The stage at which the next window is looked at, if there is one.
    fn stage_at(windows: &Vec<u32>, next: usize) -> (r: Stage)
        ensures
            r == stage_from(windows@, next as int),
    {
        if next < windows.len() {
            Stage::Attributes
        } else {
            Stage::Finished
        }
    }

    /// Goes on once a source has been asked for its windows.
    pub fn listed(self, reply: Option<&[u32]>) -> (r: Self)
        requires
            self.wf(),
            self.stage is List,
        ensures
            r.wf(),
            r.further(self),
            r.overlay == self.overlay,
            r.max_icon_size == self.max_icon_size,
            ({
                let list = source_list(self.stage->List_0, some_words(reply));
                match next_source(self.stage->List_0) {
                    Some(next) if list.len() == 0 => r.stage == Stage::List(next),
                    _ => r.windows@ == list && r.next == 0 && r.stage == stage_from(list, 0),
                }
            }),
            forall|facts: Facts|
                (facts.lists)(self.stage->List_0) == some_words(reply)
                    ==> #[trigger] r.goes_on(self, facts),
    {
        let source = match &self.stage {
            Stage::List(source) => *source,
            _ => WindowSource::Children,
        };
        let windows = match source {
            WindowSource::Children => match reply {
                Some(words) => vstd::slice::slice_to_vec(words),
                None => Vec::new(),
            },
            _ => window_list(reply),
        };
        proof {
            assert(windows@ =~= source_list(source, some_words(reply)));
        }
        let following = match source {
            WindowSource::Stacking => Some(WindowSource::Clients),
            WindowSource::Clients => Some(WindowSource::Children),
            WindowSource::Children => None,
        };
        match following {
            Some(following) => {
                if windows.len() == 0 {
                    return Collection { stage: Stage::List(following), ..self };
                }
            },
            None => {},
        }
        let stage = Self::stage_at(&windows, 0);
        let r = Collection { windows, stage, ..self };
        proof {
            assert forall|facts: Facts|
                (facts.lists)(self.stage->List_0) == some_words(reply) implies #[trigger] r.goes_on(
                self,
                facts,
            ) by {
                assert(r.windows@ == facts.windows_from(source));
                assert(entry_images(r.entries@) =~= Seq::empty());
                assert(r.outcome(facts) =~= self.outcome(facts));
            }
        }
        r
    }

    /// Goes on once a window has been asked for its attributes.
    pub fn attributes(self, reply: Option<Attributes>) -> (r: Self)
        requires
            self.wf(),
            self.stage is Attributes,
        ensures
            r.wf(),
            r.further(self),
            r.overlay == self.overlay,
            r.max_icon_size == self.max_icon_size,
            if offered(self.windows@[self.next as int], reply, self.overlay) {
                r == (Collection { stage: Stage::Title(TitleProperty::VisibleName), ..self })
            } else {
                r == (Collection {
                    next: (self.next + 1) as usize,
                    stage: stage_from(self.windows@, self.next + 1),
                    ..self
                })
            },
            forall|facts: Facts|
                (facts.attributes)(self.next as int) == reply ==> #[trigger] r.goes_on(self, facts),
    {
        let window = self.windows[self.next];
        proof {
            assert(self.next < self.windows.len());
        }
        let seen = match reply {
            Some(a) => a.viewable && !a.override_redirect,
            None => false,
        };
        let own = match self.overlay {
            Some(own) => own == window,
            None => false,
        };
        let r = if seen && !own {
            Collection { stage: Stage::Title(TitleProperty::VisibleName), ..self }
        } else {
            let next: usize = self.next + 1;
            let stage = Self::stage_at(&self.windows, next);
            Collection { next, stage, ..self }
        };
        proof {
            assert forall|facts: Facts|
                (facts.attributes)(self.next as int) == reply implies #[trigger] r.goes_on(
                self,
                facts,
            ) by {
                let limit = self.max_icon_size as int;
                let i = self.next as int;
                let before = entry_images(self.entries@);
                let rest = facts.entries_from(self.windows@, self.overlay, limit, i + 1);
                let from = facts.entries_from(self.windows@, self.overlay, limit, i);
                assert(offered(window, reply, self.overlay) == (seen && !own));
                if seen && !own {
                    let one = seq![
                        EntryImage {
                            window,
                            title: facts.title(window, i),
                            icon: facts.icon(i, limit),
                        },
                    ];
                    assert(from == one + rest);
                    assert(before + (one + rest) =~= before + one + rest);
                } else {
                    assert(from == rest);
                }
                assert(r.outcome(facts) =~= self.outcome(facts));
            }
        }
        r
    }

    /// Goes on once a window has been asked for a title.
    pub fn titled(self, reply: Option<&[u8]>) -> (r: Self)
        requires
            self.wf(),
            self.stage is Title,
        ensures
            r.wf(),
            r.further(self),
            r.overlay == self.overlay,
            r.max_icon_size == self.max_icon_size,
            r == (Collection { stage: r.stage, ..self }),
            ({
                let asked = self.stage->Title_0;
                let text = title_text(asked, some_bytes(reply));
                match r.stage {
                    Stage::Icon(title) => if is_title(text) {
                        title@ == text->0
                    } else {
                        asked is PlainName && title@ == window_number(
                            self.windows@[self.next as int],
                        )
                    },
                    Stage::Title(next) => !is_title(text) && match asked {
                        TitleProperty::VisibleName => next is Name,
                        TitleProperty::Name => next is PlainName,
                        TitleProperty::PlainName => false,
                    },
                    _ => false,
                }
            }),
            forall|facts: Facts|
                (facts.titles)(self.next as int, self.stage->Title_0) == some_bytes(reply)
                    ==> #[trigger] r.goes_on(self, facts),
    {
        let asked = match &self.stage {
            Stage::Title(asked) => *asked,
            _ => TitleProperty::PlainName,
        };
        let window = self.windows[self.next];
        let stage = match title_step(window, asked, reply) {
            TitleStep::Ask(asked) => Stage::Title(asked),
            TitleStep::Done(title) => Stage::Icon(title),
        };
        let r = Collection { stage, ..self };
        proof {
            assert forall|facts: Facts|
                (facts.titles)(self.next as int, self.stage->Title_0) == some_bytes(
                    reply,
                ) implies #[trigger] r.goes_on(self, facts) by {
                assert(r.outcome(facts) =~= self.outcome(facts));
            }
        }
        r
    }

    /// Notes what the window in question shows, and goes on to the next one.
    fn noted(self, title: String, icon: Option<Icon>) -> (r: Self)
        requires
            self.next < self.windows@.len(),
        ensures
            r.wf(),
            r.overlay == self.overlay,
            r.max_icon_size == self.max_icon_size,
            r.windows == self.windows,
            r.next == self.next + 1,
            r.stage == stage_from(self.windows@, self.next + 1),
            forall|facts: Facts| #[trigger]
                r.outcome(facts) == entry_images(self.entries@) + seq![
                    EntryImage {
                        window: self.windows@[self.next as int],
                        title: title@,
                        icon: shown(icon),
                    },
                ] + facts.entries_from(
                    self.windows@,
                    self.overlay,
                    self.max_icon_size as int,
                    self.next + 1,
                ),
    {
        let window = self.windows[self.next];
        proof {
            assert(self.next < self.windows.len());
        }
        let next: usize = self.next + 1;
        let stage = Self::stage_at(&self.windows, next);
        let ghost before = self.entries@;
        let mut entries = self.entries;
        let entry = WindowEntry { window, title, icon };
        entries.push(entry);
        let r = Collection {
            overlay: self.overlay,
            max_icon_size: self.max_icon_size,
            windows: self.windows,
            next,
            entries,
            stage,
        };
        proof {
            let one = seq![EntryImage { window, title: title@, icon: shown(icon) }];
            assert(entry@ == one[0]);
            assert(entry_images(r.entries@) =~= entry_images(before) + one);
            assert forall|facts: Facts| #[trigger] r.outcome(facts) == entry_images(before) + one
                + facts.entries_from(
                r.windows@,
                r.overlay,
                r.max_icon_size as int,
                next as int,
            ) by {
                let rest = facts.entries_from(
                    r.windows@,
                    r.overlay,
                    r.max_icon_size as int,
                    next as int,
                );
                assert(r.outcome(facts) =~= entry_images(before) + one + rest);
            }
        }
        r
    }

    /// Goes on once a window has been asked for its icon property.
    pub fn iconified(self, reply: Option<&[u32]>) -> (r: Self)
        requires
            self.wf(),
            self.stage is Icon,
        ensures
            r.wf(),
            r.further(self),
            r.overlay == self.overlay,
            r.max_icon_size == self.max_icon_size,
            r.windows == self.windows,
            if window_icon_of(some_words(reply), self.max_icon_size as int) is Some {
                r.next == self.next + 1 && r.stage == stage_from(self.windows@, self.next + 1)
            } else {
                r.next == self.next && r.stage is Classes && r.stage->Classes_0@
                    == self.stage->Icon_0@
            },
            forall|facts: Facts|
                (facts.icons)(self.next as int) == some_words(reply) ==> #[trigger] r.goes_on(
                    self,
                    facts,
                ),
    {
        let ghost start = self;
        let icon = window_icon(reply, self.max_icon_size);
        let (title, rest) = self.without_title();
        let r = match icon {
            Some(icon) => rest.noted(title, Some(icon)),
            None => Collection { stage: Stage::Classes(title), ..rest },
        };
        proof {
            assert forall|facts: Facts|
                (facts.icons)(start.next as int) == some_words(reply) implies #[trigger] r.goes_on(
                start,
                facts,
            ) by {
                assert(r.outcome(facts) =~= start.outcome(facts));
            }
        }
        r
    }

    /// Parts with the title of the window in question.
    fn without_title(self) -> (r: (String, Self))
        requires
            self.wf(),
            self.stage is Icon || self.stage is Classes || self.stage is Theme,
        ensures
            r.1 == (Collection { stage: Stage::Finished, ..self }),
            match self.stage {
                Stage::Icon(title) => r.0@ == title@,
                Stage::Classes(title) => r.0@ == title@,
                Stage::Theme(title, _) => r.0@ == title@,
                _ => true,
            },
    {
        let Collection { overlay, max_icon_size, windows, next, entries, stage } = self;
        let title = match stage {
            Stage::Icon(title) => title,
            Stage::Classes(title) => title,
            Stage::Theme(title, _) => title,
            _ => String::new(),
        };
        let rest = Collection {
            overlay,
            max_icon_size,
            windows,
            next,
            entries,
            stage: Stage::Finished,
        };
        (title, rest)
    }

    /// Goes on once a window has been asked for its classes.
    pub fn classified(self, reply: Option<&[u8]>) -> (r: Self)
        requires
            self.wf(),
            self.stage is Classes,
        ensures
            r.wf(),
            r.further(self),
            r.overlay == self.overlay,
            r.max_icon_size == self.max_icon_size,
            r == (Collection { stage: r.stage, ..self }),
            r.stage matches Stage::Theme(title, names) && title@ == self.stage->Classes_0@
                && views(names@) == class_names(some_bytes(reply)),
            forall|facts: Facts| #[trigger] r.goes_on(self, facts),
    {
        let (title, rest) = self.without_title();
        let names = window_class_names(reply);
        Collection { stage: Stage::Theme(title, names), ..rest }
    }

    /// Goes on once the theme has been asked for an icon.
    pub fn themed(self, icon: Option<Icon>) -> (r: Self)
        requires
            self.wf(),
            self.stage is Theme,
        ensures
            r.wf(),
            r.further(self),
            r.overlay == self.overlay,
            r.max_icon_size == self.max_icon_size,
            r.windows == self.windows,
            r.next == self.next + 1,
            r.stage == stage_from(self.windows@, self.next + 1),
            forall|facts: Facts|
                (facts.themed)(self.next as int) == shown(icon) ==> #[trigger] r.goes_on(
                    self,
                    facts,
                ),
    {
        let ghost start = self;
        let (title, rest) = self.without_title();
        let r = rest.noted(title, icon);
        proof {
            assert forall|facts: Facts|
                (facts.themed)(start.next as int) == shown(icon) implies #[trigger] r.goes_on(
                start,
                facts,
            ) by {
                assert(r.outcome(facts) =~= start.outcome(facts));
            }
        }
        r
    }

    /// The windows that are offered, by most recent use.
    pub fn finish(self, mru: &Vec<u32>) -> (r: Vec<WindowEntry>)
        requires
            self.stage is Finished,
        ensures
            ordered_by_use(mru@, self.entries@, r@),
            forall|facts: Facts| #[trigger]
                self.outcome(facts) == entry_images(self.entries@),
    {
        let mut entries = self.entries;
        apply_mru_order(mru, &mut entries);
        entries
    }
}

/// The windows are those of the stacking list; if that has none, those of the
/// client list, and if that has none either, the children of the root window.
pub proof fn the_first_list_with_windows_counts(facts: Facts)
    ensures
        ({
            let stacking = listed((facts.lists)(WindowSource::Stacking));
            let clients = listed((facts.lists)(WindowSource::Clients));
            let children = (facts.lists)(WindowSource::Children);
            let windows = facts.windows_from(WindowSource::Stacking);
            &&& stacking.len() > 0 ==> windows == stacking
            &&& stacking.len() == 0 && clients.len() > 0 ==> windows == clients
            &&& stacking.len() == 0 && clients.len() == 0 && children is Some ==> windows
                == children->0
            &&& stacking.len() == 0 && clients.len() == 0 && children is None ==> windows.len()
                == 0
        }),
{
    reveal_with_fuel(Facts::windows_from, 4);
}

/// A window is offered exactly if it is there to be seen, is managed by the window
/// manager and is not the overlay itself. It is offered with the title that its
/// three names give, and with its own icon or else the one from the theme. The
/// windows behind it follow.
pub proof fn windows_are_offered_one_by_one(
    facts: Facts,
    windows: Seq<u32>,
    overlay: Option<u32>,
    limit: int,
    i: int,
)
    requires
        0 <= i < windows.len(),
    ensures
        ({
            let entries = facts.entries_from(windows, overlay, limit, i);
            let rest = facts.entries_from(windows, overlay, limit, i + 1);
            let ordinary = (facts.attributes)(i) is Some && (facts.attributes)(i)->0.viewable && !(
            facts.attributes)(i)->0.override_redirect && overlay != Some(windows[i]);
            let own = window_icon_of((facts.icons)(i), limit);
            &&& !ordinary ==> entries == rest
            &&& ordinary ==> {
                &&& entries.len() == rest.len() + 1
                &&& entries.skip(1) == rest
                &&& entries[0].window == windows[i]
                &&& entries[0].title == title_of(
                    windows[i],
                    (facts.titles)(i, TitleProperty::VisibleName),
                    (facts.titles)(i, TitleProperty::Name),
                    (facts.titles)(i, TitleProperty::PlainName),
                )
                &&& own is Some ==> entries[0].icon == own
                &&& own is None ==> entries[0].icon == (facts.themed)(i)
            }
            &&& facts.entries_from(windows, overlay, limit, windows.len() as int).len() == 0
        }),
{
    let entries = facts.entries_from(windows, overlay, limit, i);
    let rest = facts.entries_from(windows, overlay, limit, i + 1);
    if offered(windows[i], (facts.attributes)(i), overlay) {
        assert(entries.skip(1) =~= rest);
    }
}

} // verus!
