//! The switcher itself: what each event changes, and what is to be done then.

use crate::config::Layout;
use crate::geometry::{
    geometry_fits, geometry_of, overlay_geometry, CoordinateOverflow, OverlayGeometry, ScreenSize,
};
use crate::keys::{KeyBindings, KeyboardMapping, MOD1, SHIFT};
use crate::mru::{
    ordered_by_use, orders, rank, rank_from, ranks_of, rearranged, update_mru, used,
    using_the_second_swaps,
};
use crate::overlay::{next_position, Direction, OverlayState, OverlayWindow, WindowEntry};
use crate::palette::{overlay_palette, palette_of, Palette};
use crate::scene::{drawn, redraw_overlay, scene, scene_fits, DrawOp};
use crate::slots::{hit, item_index_at_position};
use crate::style::Style;
use crate::theme::{IconTheme, Memory};
use vstd::prelude::*;

verus! {

/// What happens on the X server.
#[derive(Clone, Copy, Debug, PartialEq, Eq, Structural)]
pub enum Event {
    KeyPress { keycode: u8, modifiers: u16 },
    KeyRelease { keycode: u8 },
    /// Keys mean something else from now on.
    MappingChanged,
    /// A window has to be drawn again.
    Exposed { window: u32 },
    Destroyed { window: u32 },
    /// The pointer is at a point of a window.
    PointerAt { window: u32, x: i16, y: i16 },
    PointerLeft { window: u32 },
    ButtonReleased { button: u8, window: u32, x: i16, y: i16 },
    /// A property of the root window has changed.
    PropertyChanged { atom: u32 },
}

/// What to do about an event.
pub enum Reaction {
    Nothing,
    /// Draw the overlay.
    Redraw,
    /// Show the overlay, with the selection moved once.
    Start(Direction),
    /// Take the overlay away, and focus a window if one is named.
    Close { overlay: OverlayWindow, target: Option<u32> },
    /// Read what the keys mean, and grab them.
    Rebind,
    /// Read which window is active.
    ReadActive,
}

/// The switcher.
pub struct AltTab {
    pub layout: Layout,
    pub style: Style,
    pub bindings: KeyBindings,
    /// The overlay, while it is shown.
    pub state: Option<OverlayState>,
    pub icon_theme: IconTheme,
    /// The windows by most recent use.
    pub mru: Vec<u32>,
    /// The name of the property with the active window.
    pub active_atom: u32,
}

/// What the overlay will show, where it will be, and what it is drawn with.
pub struct OverlayPlan {
    pub entries: Vec<WindowEntry>,
    pub geometry: OverlayGeometry,
    pub palette: Palette,
}

/// What an event comes to.
pub struct Turn {
    pub state: Option<OverlayState>,
    pub mru: Seq<u32>,
    pub reaction: Reaction,
}

/// The way in which a Tab key moves the selection: backward with Shift.
pub open spec fn tab_direction(modifiers: u16) -> Direction {
    if modifiers & SHIFT != 0 {
        Direction::Backward
    } else {
        Direction::Forward
    }
}

/// The position of the first entry for a window from `from` on, or the number of
/// entries.
pub open spec fn entry_position(entries: Seq<WindowEntry>, window: u32, from: int) -> int
    decreases entries.len() - from,
{
    if from >= entries.len() {
        entries.len() as int
    } else if entries[from].window == window {
        from
    } else {
        entry_position(entries, window, from + 1)
    }
}

/// The entries with that of the active window first, and those before it moved
/// to the end.
pub open spec fn arranged(entries: Seq<WindowEntry>, active: Option<u32>) -> Seq<WindowEntry> {
    match active {
        Some(window) => {
            let at = entry_position(entries, window, 0);
            entries.skip(at) + entries.take(at)
        },
        None => entries,
    }
}

/// The overlay when it opens: the selection has moved once if it can, and one
/// Alt key is down.
pub open spec fn opened(fresh: OverlayState, direction: Direction) -> OverlayState {
    OverlayState {
        alt_count: 1,
        ..(if fresh.windows@.len() > 1 {
            fresh.advanced(direction)
        } else {
            fresh
        })
    }
}

/// The way in which a Tab key moves the selection.
fn direction_of(modifiers: u16) -> (r: Direction)
    ensures
        r == tab_direction(modifiers),
{
    if modifiers & SHIFT != 0 {
        Direction::Backward
    } else {
        Direction::Forward
    }
}

/// The entries with that of the active window first.
pub fn arrange(entries: Vec<WindowEntry>, active: Option<u32>) -> (r: Vec<WindowEntry>)
    ensures
        r@ == arranged(entries@, active),
{
    let window = match active {
        Some(window) => window,
        None => {
            return entries;
        },
    };
    let ghost all = entries@;
    let mut first = entries;
    let mut at: usize = 0;
    while at < first.len() && first[at].window != window
        invariant
            at <= first@.len(),
            first@ == all,
            entry_position(all, window, 0) == entry_position(all, window, at as int),
        decreases first@.len() - at,
    {
        at = at + 1;
    }
    let mut rest = first.split_off(at);
    rest.append(&mut first);
    proof {
        assert(rest@ =~= arranged(all, active));
    }
    rest
}

impl AltTab {
    /// Whether the selected window is there and in view while the overlay is
    /// shown.
    pub open spec fn wf(self) -> bool {
        self.state matches Some(state) ==> state.wf()
    }

    /// The overlay's own window.
    pub open spec fn own_window(self) -> Option<u32> {
        match self.state {
            Some(state) => Some(state.overlay.window),
            None => None,
        }
    }

    /// Whether all but the overlay and the order of use is the same.
    pub open spec fn same_settings(self, other: Self) -> bool {
        &&& self.layout == other.layout
        &&& self.style == other.style
        &&& self.bindings == other.bindings
        &&& self.icon_theme == other.icon_theme
        &&& self.active_atom == other.active_atom
    }

    /// Nothing changes and nothing is to be done.
    pub open spec fn idle(self) -> Turn {
        Turn { state: self.state, mru: self.mru@, reaction: Reaction::Nothing }
    }

    /// The overlay changes, and something is to be done.
    pub open spec fn changed(self, state: OverlayState, reaction: Reaction) -> Turn {
        Turn { state: Some(state), mru: self.mru@, reaction }
    }

    /// The overlay closes. If the selection is accepted, its window is focused
    /// and counts as the last one used; if not, the focus stays where it is.
    pub open spec fn closed(self, accept: bool) -> Turn {
        match self.state {
            Some(state) => {
                let target = if accept {
                    state.selection()
                } else {
                    None
                };
                Turn {
                    state: None,
                    mru: match target {
                        Some(window) => used(self.mru@, window, None),
                        None => self.mru@,
                    },
                    reaction: Reaction::Close { overlay: state.overlay, target },
                }
            },
            None => self.idle(),
        }
    }

    /// A key is pressed. While the overlay is shown, Alt keys are counted, Tab
    /// moves the selection and Escape closes the overlay without effect;
    /// otherwise Alt and Tab together open it.
    pub open spec fn pressed(self, keycode: u8, modifiers: u16) -> Turn {
        match self.state {
            Some(state) => if self.bindings.alt@.contains(keycode) {
                let count = if state.alt_count < usize::MAX {
                    (state.alt_count + 1) as usize
                } else {
                    state.alt_count
                };
                self.changed(OverlayState { alt_count: count, ..state }, Reaction::Nothing)
            } else if self.bindings.tab@.contains(keycode) {
                self.changed(state.advanced(tab_direction(modifiers)), Reaction::Redraw)
            } else if self.bindings.escape == Some(keycode) {
                self.closed(false)
            } else {
                self.idle()
            },
            None => if self.bindings.tab@.contains(keycode) && modifiers & MOD1 != 0 {
                Turn { reaction: Reaction::Start(tab_direction(modifiers)), ..self.idle() }
            } else {
                self.idle()
            },
        }
    }

    /// A key is released: with the last Alt key, the selection is accepted.
    pub open spec fn released(self, keycode: u8) -> Turn {
        match self.state {
            Some(state) => if self.bindings.alt@.contains(keycode) {
                if state.alt_count <= 1 {
                    self.closed(true)
                } else {
                    self.changed(
                        OverlayState { alt_count: (state.alt_count - 1) as usize, ..state },
                        Reaction::Nothing,
                    )
                }
            } else {
                self.idle()
            },
            None => self.idle(),
        }
    }

    /// The pointer is at a point, or has left: the overlay is drawn again if
    /// another entry, or none any more, is under it.
    pub open spec fn pointed(self, state: OverlayState, hovered: Option<usize>) -> Turn {
        self.changed(
            OverlayState { hovered, ..state },
            if state.hovered != hovered {
                Reaction::Redraw
            } else {
                Reaction::Nothing
            },
        )
    }

    /// An entry is clicked at: it is selected and accepted.
    pub open spec fn clicked(self, state: OverlayState, index: usize) -> Turn {
        AltTab { state: Some(state.moved_to(index as int)), ..self }.closed(true)
    }

    /// What an event comes to. The overlay only answers to the pointer in its
    /// own window; it is an error if the place of an entry there cannot be
    /// computed.
    pub open spec fn turn(self, event: Event) -> Result<Turn, CoordinateOverflow> {
        match event {
            Event::KeyPress { keycode, modifiers } => Ok(self.pressed(keycode, modifiers)),
            Event::KeyRelease { keycode } => Ok(self.released(keycode)),
            Event::MappingChanged => Ok(Turn { reaction: Reaction::Rebind, ..self.idle() }),
            Event::Exposed { window } => if self.own_window() == Some(window) {
                Ok(Turn { reaction: Reaction::Redraw, ..self.idle() })
            } else {
                Ok(self.idle())
            },
            Event::Destroyed { window } => if self.own_window() == Some(window) {
                Ok(Turn { state: None, ..self.idle() })
            } else {
                Ok(self.idle())
            },
            Event::PointerAt { window, x, y } => if self.own_window() == Some(window) {
                match hit(self.style, self.state->0, x as int, y as int) {
                    Ok(index) => Ok(self.pointed(self.state->0, index)),
                    Err(e) => Err(e),
                }
            } else {
                Ok(self.idle())
            },
            Event::PointerLeft { window } => if self.own_window() == Some(window) {
                Ok(self.pointed(self.state->0, None))
            } else {
                Ok(self.idle())
            },
            Event::ButtonReleased { button, window, x, y } => if button == 1 && self.own_window()
                == Some(window) {
                match hit(self.style, self.state->0, x as int, y as int) {
                    Ok(Some(index)) => Ok(self.clicked(self.state->0, index)),
                    Ok(None) => Ok(self.idle()),
                    Err(e) => Err(e),
                }
            } else {
                Ok(self.idle())
            },
            Event::PropertyChanged { atom } => if atom == self.active_atom {
                Ok(Turn { reaction: Reaction::ReadActive, ..self.idle() })
            } else {
                Ok(self.idle())
            },
        }
    }

    /// Whether `self` and `reaction` are what a turn from `before` comes to.
    pub open spec fn follows(self, before: Self, turn: Turn, reaction: Reaction) -> bool {
        &&& self.same_settings(before)
        &&& self.state == turn.state
        &&& self.mru@ == turn.mru
        &&& reaction == turn.reaction
    }

    /// A switcher that has seen nothing yet.
    pub fn new(
        layout: Layout,
        style: Style,
        bindings: KeyBindings,
        search_roots: Vec<Vec<u8>>,
        active_atom: u32,
    ) -> (r: Self)
        ensures
            r.wf(),
            r.layout == layout,
            r.style == style,
            r.bindings == bindings,
            r.state is None,
            r.icon_theme.max_icon_size == style.icon_max_size,
            r.icon_theme.search_roots == search_roots,
            r.icon_theme.memory() == (Memory { cache: Seq::empty(), index: None }),
            r.mru@.len() == 0,
            r.active_atom == active_atom,
    {
        let icon_theme = IconTheme::new(style.icon_max_size, search_roots);
        AltTab { layout, style, bindings, state: None, icon_theme, mru: Vec::new(), active_atom }
    }

    /// Closes the overlay, if it is shown.
    pub fn finish_selection(&mut self, accept: bool) -> (r: Reaction)
        ensures
            final(self).wf(),
            final(self).follows(*old(self), old(self).closed(accept), r),
    {
        match self.state.take() {
            Some(state) => {
                let target = if accept {
                    state.selected_window()
                } else {
                    None
                };
                match target {
                    Some(window) => {
                        update_mru(&mut self.mru, window, None);
                    },
                    None => {},
                }
                Reaction::Close { overlay: state.overlay, target }
            },
            None => Reaction::Nothing,
        }
    }

    /// A key is pressed.
    pub fn handle_key_press(&mut self, keycode: u8, modifiers: u16) -> (r: Reaction)
        requires
            old(self).wf(),
        ensures
            final(self).wf(),
            final(self).follows(*old(self), old(self).pressed(keycode, modifiers), r),
    {
        if self.state.is_some() {
            if self.bindings.is_alt(keycode) {
                match &mut self.state {
                    Some(state) => {
                        if state.alt_count < usize::MAX {
                            state.alt_count = state.alt_count + 1;
                        }
                    },
                    None => {},
                }
                return Reaction::Nothing;
            }
            if self.bindings.is_tab(keycode) {
                match &mut self.state {
                    Some(state) => {
                        proof {
                            assert(state.current < state.windows.len());
                        }
                        state.advance(direction_of(modifiers));
                    },
                    None => {},
                }
                return Reaction::Redraw;
            }
            if self.bindings.is_escape(keycode) {
                return self.finish_selection(false);
            }
            return Reaction::Nothing;
        }
        if self.bindings.is_tab(keycode) && modifiers & MOD1 != 0 {
            return Reaction::Start(direction_of(modifiers));
        }
        Reaction::Nothing
    }

    /// A key is released.
    pub fn handle_key_release(&mut self, keycode: u8) -> (r: Reaction)
        requires
            old(self).wf(),
        ensures
            final(self).wf(),
            final(self).follows(*old(self), old(self).released(keycode), r),
    {
        if self.state.is_none() || !self.bindings.is_alt(keycode) {
            return Reaction::Nothing;
        }
        let mut last = false;
        match &mut self.state {
            Some(state) => {
                if state.alt_count <= 1 {
                    last = true;
                } else {
                    state.alt_count = state.alt_count - 1;
                }
            },
            None => {},
        }
        if last {
            return self.finish_selection(true);
        }
        Reaction::Nothing
    }

    /// Whether a window is the overlay.
    fn is_own(&self, window: u32) -> (r: bool)
        ensures
            r == (self.own_window() == Some(window)),
    {
        match &self.state {
            Some(state) => state.overlay.window == window,
            None => false,
        }
    }

    /// Notes which entry is under the pointer.
    fn hover(&mut self, hovered: Option<usize>) -> (r: Reaction)
        requires
            old(self).wf(),
            old(self).state is Some,
        ensures
            final(self).wf(),
            final(self).follows(*old(self), old(self).pointed(old(self).state->0, hovered), r),
    {
        let changed = match &mut self.state {
            Some(state) => state.set_hovered(hovered),
            None => false,
        };
        if changed {
            Reaction::Redraw
        } else {
            Reaction::Nothing
        }
    }

    /// The entry of the overlay at a point.
    fn index_at(&self, x: i16, y: i16) -> (r: Result<Option<usize>, CoordinateOverflow>)
        requires
            self.state is Some,
        ensures
            r == hit(self.style, self.state->0, x as int, y as int),
    {
        match &self.state {
            Some(state) => item_index_at_position(&self.style, state, x, y),
            None => Ok(None),
        }
    }

    /// The pointer is at a point of a window.
    pub fn update_hover_from_pointer(&mut self, window: u32, x: i16, y: i16) -> (r: Result<
        Reaction,
        CoordinateOverflow,
    >)
        requires
            old(self).wf(),
        ensures
            final(self).wf(),
            match (r, old(self).turn(Event::PointerAt { window, x, y })) {
                (Ok(reaction), Ok(turn)) => final(self).follows(*old(self), turn, reaction),
                (Err(_), Err(_)) => *final(self) == *old(self),
                _ => false,
            },
    {
        if !self.is_own(window) {
            return Ok(Reaction::Nothing);
        }
        match self.index_at(x, y) {
            Ok(hovered) => Ok(self.hover(hovered)),
            Err(e) => Err(e),
        }
    }

    /// The pointer has left a window.
    pub fn clear_hover_from_pointer(&mut self, window: u32) -> (r: Reaction)
        requires
            old(self).wf(),
        ensures
            final(self).wf(),
            old(self).turn(Event::PointerLeft { window }) is Ok,
            final(self).follows(
                *old(self),
                old(self).turn(Event::PointerLeft { window })->Ok_0,
                r,
            ),
    {
        if !self.is_own(window) {
            return Reaction::Nothing;
        }
        self.hover(None)
    }

    /// The first button is released at a point of a window.
    pub fn activate_selection_from_pointer(&mut self, window: u32, x: i16, y: i16) -> (r: Result<
        Reaction,
        CoordinateOverflow,
    >)
        requires
            old(self).wf(),
        ensures
            final(self).wf(),
            match (r, old(self).turn(Event::ButtonReleased { button: 1, window, x, y })) {
                (Ok(reaction), Ok(turn)) => final(self).follows(*old(self), turn, reaction),
                (Err(_), Err(_)) => *final(self) == *old(self),
                _ => false,
            },
    {
        if !self.is_own(window) {
            return Ok(Reaction::Nothing);
        }
        let index = match self.index_at(x, y) {
            Ok(Some(index)) => index,
            Ok(None) => {
                return Ok(Reaction::Nothing);
            },
            Err(e) => {
                return Err(e);
            },
        };
        match &mut self.state {
            Some(state) => {
                state.set_current(index);
            },
            None => {},
        }
        Ok(self.finish_selection(true))
    }

    /// What an event changes, and what is to be done then.
    pub fn handle(&mut self, event: Event) -> (r: Result<Reaction, CoordinateOverflow>)
        requires
            old(self).wf(),
        ensures
            final(self).wf(),
            match (r, old(self).turn(event)) {
                (Ok(reaction), Ok(turn)) => final(self).follows(*old(self), turn, reaction),
                (Err(_), Err(_)) => *final(self) == *old(self),
                _ => false,
            },
    {
        match event {
            Event::KeyPress { keycode, modifiers } => Ok(self.handle_key_press(keycode, modifiers)),
            Event::KeyRelease { keycode } => Ok(self.handle_key_release(keycode)),
            Event::MappingChanged => Ok(Reaction::Rebind),
            Event::Exposed { window } => {
                if self.is_own(window) {
                    Ok(Reaction::Redraw)
                } else {
                    Ok(Reaction::Nothing)
                }
            },
            Event::Destroyed { window } => {
                if self.is_own(window) {
                    self.state = None;
                }
                Ok(Reaction::Nothing)
            },
            Event::PointerAt { window, x, y } => self.update_hover_from_pointer(window, x, y),
            Event::PointerLeft { window } => Ok(self.clear_hover_from_pointer(window)),
            Event::ButtonReleased { button, window, x, y } => {
                if button == 1 {
                    self.activate_selection_from_pointer(window, x, y)
                } else {
                    Ok(Reaction::Nothing)
                }
            },
            Event::PropertyChanged { atom } => {
                if atom == self.active_atom {
                    Ok(Reaction::ReadActive)
                } else {
                    Ok(Reaction::Nothing)
                }
            },
        }
    }

    /// Takes what the keys mean from now on.
    pub fn rebind(&mut self, mapping: &KeyboardMapping)
        requires
            old(self).wf(),
            mapping.keysyms_per_keycode > 0,
        ensures
            final(self).wf(),
            final(self).bindings.bound(*mapping),
            final(self).layout == old(self).layout,
            final(self).style == old(self).style,
            final(self).state == old(self).state,
            final(self).icon_theme == old(self).icon_theme,
            final(self).mru == old(self).mru,
            final(self).active_atom == old(self).active_atom,
    {
        self.bindings.refresh(mapping);
    }

    /// Notes which window is active, if any.
    pub fn refresh_active_window(&mut self, active: Option<u32>)
        requires
            old(self).wf(),
        ensures
            final(self).wf(),
            final(self).same_settings(*old(self)),
            final(self).state == old(self).state,
            final(self).mru@ == (match active {
                Some(window) => used(old(self).mru@, window, old(self).own_window()),
                None => old(self).mru@,
            }),
    {
        match active {
            Some(window) => {
                let own = match &self.state {
                    Some(state) => Some(state.overlay.window),
                    None => None,
                };
                update_mru(&mut self.mru, window, own);
            },
            None => {},
        }
    }

    /// What the overlay will show of some windows, and where: nothing if it is
    /// shown already or there is nothing to offer.
    pub fn plan_overlay(
        &self,
        entries: Vec<WindowEntry>,
        active: Option<u32>,
        screen: ScreenSize,
    ) -> (r: Result<Option<OverlayPlan>, CoordinateOverflow>)
        ensures
            match r {
                Ok(None) => self.state is Some || entries@.len() == 0,
                Ok(Some(plan)) => {
                    &&& self.state is None && entries@.len() > 0
                    &&& geometry_fits(self.style, self.layout, entries@.len() as usize)
                    &&& plan.entries@ == arranged(entries@, active)
                    &&& plan.geometry == geometry_of(
                        self.style,
                        self.layout,
                        screen,
                        entries@.len() as usize,
                    )
                    &&& plan.palette == palette_of(self.style)
                },
                Err(_) => {
                    &&& self.state is None && entries@.len() > 0
                    &&& !geometry_fits(self.style, self.layout, entries@.len() as usize)
                },
            },
    {
        if self.state.is_some() || entries.len() == 0 {
            return Ok(None);
        }
        let count: usize = entries.len();
        let geometry = match overlay_geometry(&self.style, self.layout, screen, count) {
            Ok(geometry) => geometry,
            Err(e) => {
                return Err(e);
            },
        };
        let palette = overlay_palette(&self.style);
        Ok(Some(OverlayPlan { entries: arrange(entries, active), geometry, palette }))
    }

    /// Draws the overlay, if it is shown.
    pub fn redraw_overlay(&self) -> (r: Result<Vec<DrawOp>, CoordinateOverflow>)
        ensures
            match self.state {
                Some(state) => {
                    &&& r is Ok <==> scene_fits(self.style, state)
                    &&& r matches Ok(ops) ==> drawn(ops@) == scene(self.style, state)
                },
                None => r matches Ok(ops) && ops@.len() == 0,
            },
    {
        match &self.state {
            Some(state) => redraw_overlay(&self.style, state),
            None => Ok(Vec::new()),
        }
    }

    /// Shows the overlay over some windows: the first one is selected, or the
    /// one next to it if there are more.
    pub fn open_overlay(
        &mut self,
        entries: Vec<WindowEntry>,
        overlay: OverlayWindow,
        direction: Direction,
    )
        requires
            entries@.len() > 0,
        ensures
            final(self).wf(),
            final(self).same_settings(*old(self)),
            final(self).mru == old(self).mru,
            final(self).state == Some(opened(OverlayState::fresh(entries, overlay), direction)),
    {
        let mut state = OverlayState::new(entries, overlay);
        if state.windows.len() > 1 {
            state.advance(direction);
        }
        state.alt_count = 1;
        self.state = Some(state);
    }
}

/// The place of a window in the list of use is not before the one it is counted
/// from.
proof fn lemma_rank_from(mru: Seq<u32>, window: u32, from: int)
    requires
        0 <= from <= mru.len(),
    ensures
        from <= rank_from(mru, window, from) <= mru.len(),
    decreases mru.len() - from,
{
    if from < mru.len() && mru[from] != window {
        lemma_rank_from(mru, window, from + 1);
    }
}

/// Whether no window has two entries.
pub open spec fn distinct_windows(entries: Seq<WindowEntry>) -> bool {
    forall|i: int, j: int|
        0 <= i < j < entries.len() ==> (#[trigger] entries[i]).window != (
        #[trigger] entries[j]).window
}

/// Whether a window has an entry.
pub open spec fn is_among(entries: Seq<WindowEntry>, window: u32) -> bool {
    exists|i: int| 0 <= i < entries.len() && (#[trigger] entries[i]).window == window
}

/// The two windows that were used last come first.
pub proof fn the_last_two_come_first(
    mru: Seq<u32>,
    before: Seq<WindowEntry>,
    after: Seq<WindowEntry>,
)
    requires
        mru.len() >= 2,
        mru[0] != mru[1],
        distinct_windows(before),
        is_among(before, mru[0]),
        is_among(before, mru[1]),
        ordered_by_use(mru, before, after),
    ensures
        after.len() >= 2,
        after[0].window == mru[0],
        after[1].window == mru[1],
{
    let a = mru[0];
    let b = mru[1];
    let ranks = ranks_of(mru, before);
    let order = choose|order: Seq<int>| #[trigger]
        orders(order, ranks) && rearranged(before, after, order);
    let i = choose|i: int| 0 <= i < before.len() && (#[trigger] before[i]).window == a;
    let j = choose|j: int| 0 <= j < before.len() && (#[trigger] before[j]).window == b;
    reveal_with_fuel(rank_from, 3);
    assert(ranks[i] == rank(mru, before[i].window));
    assert(ranks[j] == rank(mru, before[j].window));
    assert(ranks[i] == 0);
    assert(ranks[j] == 1);
    assert forall|k: int| 0 <= k < before.len() && k != i && k != j implies #[trigger] ranks[k]
        >= 2 by {
        assert(before[k].window != before[i].window);
        assert(before[k].window != before[j].window);
        lemma_rank_from(mru, before[k].window, 2);
        assert(ranks[k] == rank(mru, before[k].window));
    }
    assert(order.contains(i));
    assert(order.contains(j));
    let p = choose|p: int| 0 <= p < order.len() && order[p] == i;
    let q = choose|q: int| 0 <= q < order.len() && order[q] == j;
    if p > 0 {
        assert(0 <= order[0] < ranks.len());
        assert(ranks[order[0]] < ranks[order[p]] || order[0] < order[p]);
        assert(order[0] == i);
    }
    assert(order[0] == i);
    assert(q > 0);
    if q > 1 {
        assert(0 <= order[1] < ranks.len());
        assert(ranks[order[1]] < ranks[order[q]] || (ranks[order[1]] == ranks[order[q]] && order[1]
            < order[q]));
        assert(ranks[order[0]] < ranks[order[1]] || (ranks[order[0]] == ranks[order[1]] && order[0]
            < order[1]));
        assert(order[1] == i || order[1] == j || ranks[order[1]] >= 2);
    }
    assert(order[1] == j);
    assert(after[0] == before[order[0]]);
    assert(after[1] == before[order[1]]);
}

/// What is selected when the overlay opens forward with the active window first:
/// the window after it.
pub proof fn opening_selects_the_next_window(
    fresh: OverlayState,
    entries: Seq<WindowEntry>,
    active: u32,
)
    requires
        fresh.current == 0,
        entries.len() >= 2,
        entries[0].window == active,
        fresh.windows@ == arranged(entries, Some(active)),
    ensures
        opened(fresh, Direction::Forward).selection() == Some(entries[1].window),
{
    assert(entry_position(entries, active, 0) == 0);
    assert(arranged(entries, Some(active)) =~= entries);
    vstd::arithmetic::div_mod::lemma_small_mod(1, entries.len());
    assert(fresh.advanced(Direction::Forward).current == 1);
}

/// Going back and forth between the two windows that were used last: each time
/// the overlay opens and closes again at once, the other one of the two is
/// focused, and after two rounds the order of use is what it was.
pub proof fn alt_tab_goes_back_and_forth(
    mru: Seq<u32>,
    first_listed: Seq<WindowEntry>,
    first_offered: Seq<WindowEntry>,
    first: OverlayState,
    second_listed: Seq<WindowEntry>,
    second_offered: Seq<WindowEntry>,
    second: OverlayState,
)
    requires
        mru.len() >= 2,
        mru.no_duplicates(),
        mru[0] != 0,
        mru[1] != 0,
        distinct_windows(first_listed),
        is_among(first_listed, mru[0]),
        is_among(first_listed, mru[1]),
        ordered_by_use(mru, first_listed, first_offered),
        first.current == 0,
        first.windows@ == arranged(first_offered, Some(mru[0])),
        distinct_windows(second_listed),
        is_among(second_listed, mru[0]),
        is_among(second_listed, mru[1]),
        ordered_by_use(used(mru, mru[1], None), second_listed, second_offered),
        second.current == 0,
        second.windows@ == arranged(second_offered, Some(mru[1])),
    ensures
        opened(first, Direction::Forward).selection() == Some(mru[1]),
        opened(second, Direction::Forward).selection() == Some(mru[0]),
        used(used(mru, mru[1], None), mru[0], None) == mru,
{
    let a = mru[0];
    let b = mru[1];
    let rest = mru.skip(2);
    assert(mru =~= seq![a, b] + rest);
    assert(!rest.contains(a) && !rest.contains(b)) by {
        if rest.contains(a) {
            let k = choose|k: int| 0 <= k < rest.len() && rest[k] == a;
            assert(mru[k + 2] == a);
        }
        if rest.contains(b) {
            let k = choose|k: int| 0 <= k < rest.len() && rest[k] == b;
            assert(mru[k + 2] == b);
        }
    }
    using_the_second_swaps(a, b, rest);
    using_the_second_swaps(b, a, rest);
    let swapped = used(mru, b, None);
    assert(swapped == seq![b, a] + rest);
    assert(swapped[0] == b && swapped[1] == a);
    the_last_two_come_first(mru, first_listed, first_offered);
    opening_selects_the_next_window(first, first_offered, a);
    the_last_two_come_first(swapped, second_listed, second_offered);
    opening_selects_the_next_window(second, second_offered, b);
}

/// The overlay after so many more moves of the selection.
pub open spec fn advanced_times(state: OverlayState, direction: Direction, times: nat) -> OverlayState
    decreases times,
{
    if times == 0 {
        state
    } else {
        advanced_times(state, direction, (times - 1) as nat).advanced(direction)
    }
}

/// Each Tab goes one window further, round the end: after the overlay has opened
/// forward over more than one window and Tab was pressed so many times more, the
/// window so many places after the second one is selected, and in view.
pub proof fn each_tab_goes_one_further(fresh: OverlayState, times: nat)
    requires
        fresh.wf(),
        fresh.current == 0,
        fresh.windows@.len() > 1,
    ensures
        ({
            let state = advanced_times(
                opened(fresh, Direction::Forward),
                Direction::Forward,
                times,
            );
            &&& state.wf()
            &&& state.windows == fresh.windows
            &&& state.current == (1 + times as int) % (fresh.windows@.len() as int)
        }),
    decreases times,
{
    let n = fresh.windows@.len() as int;
    assert(n <= usize::MAX) by {
        assert(fresh.windows.len() == fresh.windows@.len());
    }
    if times == 0 {
        vstd::arithmetic::div_mod::lemma_small_mod(1, n as nat);
    } else {
        each_tab_goes_one_further(fresh, (times - 1) as nat);
        let state = advanced_times(
            opened(fresh, Direction::Forward),
            Direction::Forward,
            (times - 1) as nat,
        );
        vstd::arithmetic::div_mod::lemma_add_mod_noop(times as int, 1, n);
        vstd::arithmetic::div_mod::lemma_small_mod(1, n as nat);
        assert(next_position(state.current as int, n, Direction::Forward) == (1 + times as int) % n);
        let next = (1 + times as int) % n;
        assert(0 <= next < n) by (nonlinear_arith)
            requires
                next == (1 + times as int) % n,
                n > 0,
        ;
    }
}

/// Escape closes the overlay and changes nothing else: no window is focused, and
/// the order of use stays.
pub proof fn escape_keeps_the_focus(switcher: AltTab, escape: u8, modifiers: u16)
    requires
        switcher.state is Some,
        switcher.bindings.escape == Some(escape),
        !switcher.bindings.alt@.contains(escape),
        !switcher.bindings.tab@.contains(escape),
    ensures
        ({
            let turn = switcher.pressed(escape, modifiers);
            &&& turn.state is None
            &&& turn.mru == switcher.mru@
            &&& turn.reaction == (Reaction::Close {
                overlay: switcher.state->0.overlay,
                target: None,
            })
        }),
{
}

/// Releasing the last Alt key focuses the selected window, which comes first in
/// the order of use from then on.
pub proof fn releasing_alt_focuses_the_selection(switcher: AltTab, alt: u8)
    requires
        switcher.wf(),
        switcher.state is Some,
        switcher.state->0.alt_count <= 1,
        switcher.bindings.alt@.contains(alt),
    ensures
        ({
            let state = switcher.state->0;
            let window = state.windows@[state.current as int].window;
            let turn = switcher.released(alt);
            &&& turn.state is None
            &&& turn.reaction == (Reaction::Close { overlay: state.overlay, target: Some(window) })
            &&& window != 0 ==> turn.mru.len() > 0 && turn.mru[0] == window
        }),
{
}

/// A further Alt key that is pressed and released again leaves the overlay as it
/// was.
pub proof fn a_second_alt_key_changes_nothing(
    switcher: AltTab,
    between: AltTab,
    alt: u8,
    modifiers: u16,
)
    requires
        switcher.state is Some,
        0 < switcher.state->0.alt_count < usize::MAX,
        switcher.bindings.alt@.contains(alt),
        between.bindings == switcher.bindings,
        between.state == switcher.pressed(alt, modifiers).state,
        between.mru@ == switcher.pressed(alt, modifiers).mru,
    ensures
        switcher.pressed(alt, modifiers).reaction is Nothing,
        between.released(alt).reaction is Nothing,
        between.released(alt).state == switcher.state,
        between.released(alt).mru == switcher.mru@,
{
}

/// While no overlay is shown, Alt and Tab together show it: with the next window
/// selected, or with Shift the one before. Tab alone, or any other key, does
/// nothing, and so does every key that is released.
pub proof fn alt_tab_shows_the_overlay(switcher: AltTab, keycode: u8, modifiers: u16)
    requires
        switcher.state is None,
    ensures
        ({
            let turn = switcher.pressed(keycode, modifiers);
            let asked = switcher.bindings.tab@.contains(keycode) && modifiers & 0x08 != 0;
            &&& turn.state is None
            &&& turn.mru == switcher.mru@
            &&& asked && modifiers & 0x01 == 0 ==> turn.reaction == Reaction::Start(
                Direction::Forward,
            )
            &&& asked && modifiers & 0x01 != 0 ==> turn.reaction == Reaction::Start(
                Direction::Backward,
            )
            &&& !asked ==> turn.reaction is Nothing
            &&& switcher.released(keycode) == (Turn {
                state: None,
                mru: switcher.mru@,
                reaction: Reaction::Nothing,
            })
        }),
{
}

/// While the overlay is shown, Tab selects the next entry, or with Shift the one
/// before, and has the overlay drawn again; an Alt key is counted, and a key that
/// means nothing changes nothing.
pub proof fn keys_move_the_selection(switcher: AltTab, keycode: u8, modifiers: u16)
    requires
        switcher.wf(),
        switcher.state is Some,
    ensures
        ({
            let state = switcher.state->0;
            let turn = switcher.pressed(keycode, modifiers);
            let n = state.windows@.len() as int;
            let alt = switcher.bindings.alt@.contains(keycode);
            let tab = !alt && switcher.bindings.tab@.contains(keycode);
            &&& alt || tab || switcher.bindings.escape != Some(keycode) ==> {
                &&& turn.mru == switcher.mru@
                &&& turn.state is Some
                &&& turn.state->0.windows == state.windows
                &&& turn.state->0.overlay == state.overlay
                &&& turn.state->0.hovered == state.hovered
            }
            &&& tab ==> turn.reaction is Redraw && turn.state->0.alt_count == state.alt_count
            &&& tab && modifiers & 0x01 == 0 ==> turn.state->0.current == (if state.current + 1
                < n {
                state.current + 1
            } else {
                0
            })
            &&& tab && modifiers & 0x01 != 0 ==> turn.state->0.current == (if state.current > 0 {
                state.current - 1
            } else {
                n - 1
            })
            &&& alt ==> turn.reaction is Nothing && turn.state->0.current == state.current
                && turn.state->0.first_visible == state.first_visible
            &&& alt && state.alt_count < usize::MAX ==> turn.state->0.alt_count == state.alt_count
                + 1
            &&& !alt && !tab && switcher.bindings.escape != Some(keycode) ==> turn.state
                == switcher.state && turn.reaction is Nothing
        }),
{
    let state = switcher.state->0;
    let n = state.windows@.len() as int;
    assert(state.windows.len() == state.windows@.len());
    if state.current + 1 < n {
        vstd::arithmetic::div_mod::lemma_small_mod((state.current + 1) as nat, n as nat);
    } else {
        vstd::arithmetic::div_mod::lemma_mod_self_0(n);
    }
}

/// While more than one Alt key is held down, releasing one leaves the overlay as it
/// is but for the count; releasing any other key does nothing.
pub proof fn the_overlay_stays_while_alt_is_held(switcher: AltTab, keycode: u8)
    requires
        switcher.state is Some,
        switcher.state->0.alt_count > 1 || !switcher.bindings.alt@.contains(keycode),
    ensures
        ({
            let state = switcher.state->0;
            let turn = switcher.released(keycode);
            &&& turn.reaction is Nothing
            &&& turn.mru == switcher.mru@
            &&& turn.state is Some
            &&& turn.state->0.current == state.current
            &&& turn.state->0.windows == state.windows
            &&& turn.state->0.first_visible == state.first_visible
            &&& turn.state->0.overlay == state.overlay
            &&& turn.state->0.hovered == state.hovered
            &&& switcher.bindings.alt@.contains(keycode) ==> turn.state->0.alt_count + 1
                == state.alt_count
            &&& !switcher.bindings.alt@.contains(keycode) ==> turn.state->0.alt_count
                == state.alt_count
        }),
{
}

/// What happens to windows other than the overlay changes nothing.
pub proof fn other_windows_do_not_matter(switcher: AltTab, window: u32, x: i16, y: i16, button: u8)
    requires
        switcher.state matches Some(state) ==> state.overlay.window != window,
    ensures
        ({
            let same = Turn {
                state: switcher.state,
                mru: switcher.mru@,
                reaction: Reaction::Nothing,
            };
            &&& switcher.turn(Event::Exposed { window }) == Ok::<Turn, CoordinateOverflow>(same)
            &&& switcher.turn(Event::Destroyed { window }) == Ok::<Turn, CoordinateOverflow>(same)
            &&& switcher.turn(Event::PointerAt { window, x, y }) == Ok::<Turn, CoordinateOverflow>(
                same,
            )
            &&& switcher.turn(Event::PointerLeft { window }) == Ok::<Turn, CoordinateOverflow>(same)
            &&& switcher.turn(Event::ButtonReleased { button, window, x, y }) == Ok::<
                Turn,
                CoordinateOverflow,
            >(same)
        }),
{
}

/// The overlay is drawn again when it is exposed, is gone when it is destroyed, and
/// has no entry under the pointer when the pointer leaves it.
pub proof fn the_overlay_follows_its_window(switcher: AltTab)
    requires
        switcher.state is Some,
    ensures
        ({
            let state = switcher.state->0;
            let window = state.overlay.window;
            let exposed = switcher.turn(Event::Exposed { window })->Ok_0;
            let destroyed = switcher.turn(Event::Destroyed { window })->Ok_0;
            let left = switcher.turn(Event::PointerLeft { window })->Ok_0;
            &&& switcher.turn(Event::Exposed { window }) is Ok
            &&& switcher.turn(Event::Destroyed { window }) is Ok
            &&& switcher.turn(Event::PointerLeft { window }) is Ok
            &&& exposed.reaction is Redraw && exposed.state == switcher.state
            &&& destroyed.reaction is Nothing && destroyed.state is None
            &&& left.state is Some
            &&& left.state->0.hovered is None
            &&& left.state->0.current == state.current
            &&& left.state->0.windows == state.windows
            &&& left.state->0.first_visible == state.first_visible
            &&& left.state->0.alt_count == state.alt_count
            &&& left.state->0.overlay == state.overlay
            &&& left.reaction is Redraw <==> state.hovered is Some
            &&& left.reaction is Nothing <==> state.hovered is None
            &&& exposed.mru == switcher.mru@
            &&& destroyed.mru == switcher.mru@
            &&& left.mru == switcher.mru@
        }),
{
}

/// The pointer marks the entry that it hits, or none, and selects nothing; the
/// overlay is drawn again exactly if another entry is marked than before. A click
/// on an entry focuses that entry's window and closes the overlay, as if it had
/// been selected; a click beside the entries, or with another button, does nothing.
pub proof fn the_pointer_marks_and_activates(
    switcher: AltTab,
    x: i16,
    y: i16,
    button: u8,
    found: Option<usize>,
)
    requires
        switcher.state is Some,
        hit(switcher.style, switcher.state->0, x as int, y as int) == Ok::<
            Option<usize>,
            CoordinateOverflow,
        >(found),
        found matches Some(index) ==> index < switcher.state->0.windows@.len(),
    ensures
        ({
            let state = switcher.state->0;
            let window = state.overlay.window;
            let moved = switcher.turn(Event::PointerAt { window, x, y })->Ok_0;
            let clicked = switcher.turn(Event::ButtonReleased { button, window, x, y })->Ok_0;
            &&& switcher.turn(Event::PointerAt { window, x, y }) is Ok
            &&& switcher.turn(Event::ButtonReleased { button, window, x, y }) is Ok
            &&& moved.state is Some
            &&& moved.state->0.hovered == found
            &&& moved.state->0.current == state.current
            &&& moved.state->0.first_visible == state.first_visible
            &&& moved.state->0.windows == state.windows
            &&& moved.state->0.overlay == state.overlay
            &&& moved.state->0.alt_count == state.alt_count
            &&& moved.mru == switcher.mru@
            &&& moved.reaction is Redraw <==> state.hovered != found
            &&& moved.reaction is Nothing <==> state.hovered == found
            &&& button == 1 && found is Some ==> {
                let target = state.windows@[found->0 as int].window;
                &&& clicked.state is None
                &&& clicked.reaction == (Reaction::Close {
                    overlay: state.overlay,
                    target: Some(target),
                })
                &&& clicked.mru == used(switcher.mru@, target, None)
            }
            &&& button != 1 || found is None ==> clicked.state == switcher.state
                && clicked.reaction is Nothing && clicked.mru == switcher.mru@
        }),
{
}

/// A new keyboard mapping has the keys bound again, and of the root window's
/// properties only the active window is read again when it changes.
pub proof fn changes_are_followed(switcher: AltTab, atom: u32)
    ensures
        ({
            let keys = switcher.turn(Event::MappingChanged)->Ok_0;
            let property = switcher.turn(Event::PropertyChanged { atom })->Ok_0;
            &&& switcher.turn(Event::MappingChanged) is Ok
            &&& switcher.turn(Event::PropertyChanged { atom }) is Ok
            &&& keys.reaction is Rebind
            &&& property.reaction is ReadActive <==> atom == switcher.active_atom
            &&& property.reaction is Nothing <==> atom != switcher.active_atom
            &&& keys.state == switcher.state && keys.mru == switcher.mru@
            &&& property.state == switcher.state && property.mru == switcher.mru@
        }),
{
}

/// The active window comes first among the entries, and the others follow in their
/// order, as in a ring; if the active window is not among them, or there is none,
/// they stay as they are.
pub proof fn entries_turn_round_to_the_active_window(
    entries: Seq<WindowEntry>,
    active: u32,
    at: int,
    i: int,
)
    requires
        0 <= at < entries.len(),
        entries[at].window == active,
        forall|k: int| 0 <= k < at ==> (#[trigger] entries[k]).window != active,
        0 <= i < entries.len(),
    ensures
        arranged(entries, None) == entries,
        arranged(entries, Some(active)).len() == entries.len(),
        arranged(entries, Some(active))[0].window == active,
        arranged(entries, Some(active))[i] == entries[if at + i < entries.len() {
            at + i
        } else {
            at + i - entries.len()
        }],
{
    lemma_entry_position_is(entries, active, 0, at);
}

proof fn lemma_entry_position_is(entries: Seq<WindowEntry>, window: u32, from: int, at: int)
    requires
        0 <= from <= at <= entries.len(),
        at < entries.len() ==> entries[at].window == window,
        forall|k: int| from <= k < at ==> (#[trigger] entries[k]).window != window,
    ensures
        entry_position(entries, window, from) == at,
    decreases at - from,
{
    if from < at {
        lemma_entry_position_is(entries, window, from + 1, at);
    }
}

/// An active window that is not offered does not change the order.
pub proof fn unknown_windows_do_not_turn_the_ring(entries: Seq<WindowEntry>, active: u32)
    requires
        forall|k: int| 0 <= k < entries.len() ==> (#[trigger] entries[k]).window != active,
    ensures
        arranged(entries, Some(active)) == entries,
{
    lemma_entry_position_is(entries, active, 0, entries.len() as int);
    assert(arranged(entries, Some(active)) =~= entries);
}

/// A new overlay has one Alt key held down and one step taken from its first entry:
/// to the second one, or backward to the last one; a single entry is selected as
/// it is.
pub proof fn an_overlay_opens_one_step_on(fresh: OverlayState)
    requires
        fresh.wf(),
        fresh.current == 0,
    ensures
        ({
            let forward = opened(fresh, Direction::Forward);
            let backward = opened(fresh, Direction::Backward);
            let n = fresh.windows@.len() as int;
            &&& forward.alt_count == 1 && backward.alt_count == 1
            &&& forward.windows == fresh.windows && backward.windows == fresh.windows
            &&& forward.overlay == fresh.overlay && backward.overlay == fresh.overlay
            &&& n > 1 ==> forward.current == 1 && backward.current == n - 1
            &&& n == 1 ==> forward.current == 0 && backward.current == 0
        }),
{
    let n = fresh.windows@.len() as int;
    assert(fresh.windows.len() == fresh.windows@.len());
    if n > 1 {
        vstd::arithmetic::div_mod::lemma_small_mod(1, n as nat);
    }
}

/// Closing the overlay focuses the selected window only if the selection is
/// accepted, and only then does it count as used; where no overlay is shown nothing
/// happens.
pub proof fn closing_focuses_what_was_accepted(switcher: AltTab, accept: bool)
    requires
        switcher.wf(),
    ensures
        ({
            let turn = switcher.closed(accept);
            &&& turn.state is None
            &&& switcher.state is None ==> turn.reaction is Nothing && turn.mru == switcher.mru@
            &&& switcher.state matches Some(state) ==> {
                let window = state.windows@[state.current as int].window;
                &&& turn.reaction == (Reaction::Close {
                    overlay: state.overlay,
                    target: if accept {
                        Some(window)
                    } else {
                        None
                    },
                })
                &&& accept ==> turn.mru == used(switcher.mru@, window, None)
                &&& !accept ==> turn.mru == switcher.mru@
            }
        }),
{
}

} // verus!
