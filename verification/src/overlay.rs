//! The overlay: the windows it offers, which of them is selected, and which are
//! in view.

use crate::config::Layout;
use crate::icons::{shown, Icon, IconImage};
use std::ops::Range;
use vstd::prelude::*;

verus! {

/// A window that can be chosen. Windows are named by their X11 identifiers.
pub struct WindowEntry {
    pub window: u32,
    pub title: String,
    pub icon: Option<Icon>,
}

/// What a window that can be chosen shows.
#[verifier::ext_equal]
pub struct EntryImage {
    pub window: u32,
    pub title: Seq<char>,
    pub icon: Option<IconImage>,
}

impl View for WindowEntry {
    type V = EntryImage;

    open spec fn view(&self) -> EntryImage {
        EntryImage { window: self.window, title: self.title@, icon: shown(self.icon) }
    }
}

/// What windows that can be chosen show.
pub open spec fn entry_images(entries: Seq<WindowEntry>) -> Seq<EntryImage> {
    entries.map_values(|e: WindowEntry| e@)
}

/// The overlay's own window, what it is drawn with, and its geometry. Graphics
/// contexts are named by their X11 identifiers.
pub struct OverlayWindow {
    pub window: u32,
    pub text_gc: u32,
    pub selected_text_gc: u32,
    pub hover_text_gc: u32,
    pub highlight_gc: u32,
    pub hover_gc: u32,
    pub background_gc: u32,
    pub icon_gc: u32,
    pub border_gc: Option<u32>,
    pub item_border_gc: Option<u32>,
    pub item_selected_border_gc: Option<u32>,
    pub width: u16,
    pub height: u16,
    pub layout: Layout,
    pub visible_capacity: usize,
}

/// The overlay while it is shown.
pub struct OverlayState {
    /// The windows on offer.
    pub windows: Vec<WindowEntry>,
    /// The position of the selected one.
    pub current: usize,
    /// The position of the first one in view.
    pub first_visible: usize,
    pub overlay: OverlayWindow,
    /// How many Alt keys are held down.
    pub alt_count: usize,
    /// The position of the one under the pointer.
    pub hovered: Option<usize>,
}

/// The way in which the selection moves.
#[derive(Copy, Clone, Debug, PartialEq, Eq, Structural)]
pub enum Direction {
    Forward,
    Backward,
}

/// The number of windows that are in view at once: at least one.
pub open spec fn capacity_of(overlay: OverlayWindow) -> int {
    if overlay.visible_capacity == 0 {
        1
    } else {
        overlay.visible_capacity as int
    }
}

/// The position next to `current` among `count`, round the ends.
pub open spec fn next_position(current: int, count: int, direction: Direction) -> int {
    match direction {
        Direction::Forward => (current + 1) % count,
        Direction::Backward => if current == 0 {
            count - 1
        } else {
            current - 1
        },
    }
}

/// The first position in view once `current` has come into view: unchanged if it
/// was in view, else moved by as little as possible.
pub open spec fn scrolled(current: int, first_visible: int, capacity: int) -> int {
    if current < first_visible {
        current
    } else if current >= first_visible + capacity {
        current + 1 - capacity
    } else {
        first_visible
    }
}

impl OverlayState {
    /// Whether the selected window is there and in view.
    pub open spec fn wf(self) -> bool {
        &&& self.current < self.windows@.len()
        &&& self.first_visible <= self.current < self.first_visible + capacity_of(self.overlay)
    }

    /// The overlay over the given windows, with the first one selected.
    pub open spec fn fresh(windows: Vec<WindowEntry>, overlay: OverlayWindow) -> OverlayState {
        OverlayState {
            windows,
            current: 0,
            first_visible: 0,
            overlay,
            alt_count: 0,
            hovered: None,
        }
    }

    /// The overlay over the given windows, with the first one selected.
    pub fn new(windows: Vec<WindowEntry>, overlay: OverlayWindow) -> (r: Self)
        ensures
            r == Self::fresh(windows, overlay),
            windows@.len() > 0 ==> r.wf(),
    {
        OverlayState {
            windows,
            current: 0,
            first_visible: 0,
            overlay,
            alt_count: 0,
            hovered: None,
        }
    }

    /// The overlay with the window at a position selected and in view.
    pub open spec fn moved_to(self, index: int) -> OverlayState {
        OverlayState {
            current: index as usize,
            first_visible: scrolled(
                index,
                self.first_visible as int,
                capacity_of(self.overlay),
            ) as usize,
            ..self
        }
    }

    /// The overlay with the next window selected and in view.
    pub open spec fn advanced(self, direction: Direction) -> OverlayState {
        if self.windows@.len() == 0 {
            self
        } else {
            self.moved_to(
                next_position(self.current as int, self.windows@.len() as int, direction),
            )
        }
    }

    /// Moves the selection to the next window, round the ends, and brings it
    /// into view.
    pub fn advance(&mut self, direction: Direction)
        requires
            old(self).windows@.len() > 0 && direction is Forward ==> old(self).current < usize::MAX,
        ensures
            *final(self) == old(self).advanced(direction),
            old(self).wf() ==> final(self).wf(),
    {
        if self.windows.len() == 0 {
            return ;
        }
        match direction {
            Direction::Forward => {
                self.current = (self.current + 1) % self.windows.len();
            },
            Direction::Backward => {
                if self.current == 0 {
                    self.current = self.windows.len() - 1;
                } else {
                    self.current = self.current - 1;
                }
            },
        }
        self.ensure_visible();
    }

    /// Brings the selected window into view.
    pub fn ensure_visible(&mut self)
        ensures
            final(self).windows == old(self).windows,
            final(self).current == old(self).current,
            final(self).overlay == old(self).overlay,
            final(self).alt_count == old(self).alt_count,
            final(self).hovered == old(self).hovered,
            final(self).first_visible == scrolled(
                old(self).current as int,
                old(self).first_visible as int,
                capacity_of(old(self).overlay),
            ),
            final(self).first_visible <= final(self).current < final(self).first_visible
                + capacity_of(final(self).overlay),
    {
        let capacity = self.capacity();
        if self.current < self.first_visible {
            self.first_visible = self.current;
        } else if self.current - self.first_visible >= capacity {
            self.first_visible = self.current - (capacity - 1);
        }
    }

    /// The number of windows that are in view at once.
    fn capacity(&self) -> (r: usize)
        ensures
            r == capacity_of(self.overlay),
    {
        if self.overlay.visible_capacity == 0 {
            1
        } else {
            self.overlay.visible_capacity
        }
    }

    /// The end of the positions in view.
    pub open spec fn visible_end(self) -> int {
        let end = self.first_visible + capacity_of(self.overlay);
        if end <= self.windows@.len() {
            end
        } else {
            self.windows@.len() as int
        }
    }

    /// The positions in view.
    pub fn visible_range(&self) -> (r: Range<usize>)
        ensures
            r.start == self.first_visible,
            r.end == self.visible_end(),
    {
        let capacity = self.capacity();
        let len: usize = self.windows.len();
        let end: usize = if self.first_visible >= len || capacity >= len - self.first_visible {
            len
        } else {
            self.first_visible + capacity
        };
        Range { start: self.first_visible, end }
    }

    /// The selected window.
    pub open spec fn selection(self) -> Option<u32> {
        if self.current < self.windows@.len() {
            Some(self.windows@[self.current as int].window)
        } else {
            None
        }
    }

    /// The selected window.
    pub fn selected_window(&self) -> (r: Option<u32>)
        ensures
            r == self.selection(),
    {
        if self.current < self.windows.len() {
            Some(self.windows[self.current].window)
        } else {
            None
        }
    }

    /// Notes which window is under the pointer, and tells whether that is news.
    pub fn set_hovered(&mut self, hovered: Option<usize>) -> (changed: bool)
        ensures
            changed == (old(self).hovered != hovered),
            *final(self) == (OverlayState { hovered, ..*old(self) }),
    {
        let same = match (self.hovered, hovered) {
            (Some(a), Some(b)) => a == b,
            (None, None) => true,
            _ => false,
        };
        self.hovered = hovered;
        !same
    }

    /// Selects the window at a position and brings it into view.
    pub fn set_current(&mut self, index: usize)
        ensures
            *final(self) == old(self).moved_to(index as int),
            index < old(self).windows@.len() ==> final(self).wf(),
    {
        self.current = index;
        self.ensure_visible();
    }
}

/// The position after so many moves in one direction.
pub open spec fn moved(current: int, count: int, direction: Direction, times: nat) -> int
    decreases times,
{
    if times == 0 {
        current
    } else {
        next_position(moved(current, count, direction, (times - 1) as nat), count, direction)
    }
}

/// Going forward and going backward undo each other.
pub proof fn directions_undo_each_other(current: int, count: int)
    requires
        0 <= current < count,
    ensures
        next_position(
            next_position(current, count, Direction::Forward),
            count,
            Direction::Backward,
        ) == current,
        next_position(
            next_position(current, count, Direction::Backward),
            count,
            Direction::Forward,
        ) == current,
{
    if current + 1 == count {
        assert((current + 1) % count == 0) by (nonlinear_arith)
            requires
                current + 1 == count,
                count > 0,
        ;
    } else {
        vstd::arithmetic::div_mod::lemma_small_mod((current + 1) as nat, count as nat);
    }
    if current == 0 {
        assert(count % count == 0) by (nonlinear_arith)
            requires
                count > 0,
        ;
    } else {
        vstd::arithmetic::div_mod::lemma_small_mod(current as nat, count as nat);
    }
}

/// So many moves forward go so many positions on, counted round the ends.
pub proof fn moves_forward_add_up(current: int, count: int, times: nat)
    requires
        0 <= current < count,
    ensures
        moved(current, count, Direction::Forward, times) == (current + times) % count,
    decreases times,
{
    if times == 0 {
        vstd::arithmetic::div_mod::lemma_small_mod(current as nat, count as nat);
    } else {
        moves_forward_add_up(current, count, (times - 1) as nat);
        vstd::arithmetic::div_mod::lemma_add_mod_noop(current + times - 1, 1, count);
        vstd::arithmetic::div_mod::lemma_add_mod_noop((current + times - 1) % count, 1, count);
        vstd::arithmetic::div_mod::lemma_mod_twice(current + times - 1, count);
    }
}

/// So many moves backward go so many positions back, counted round the ends.
pub proof fn moves_backward_add_up(current: int, count: int, times: nat)
    requires
        0 <= current < count,
    ensures
        moved(current, count, Direction::Backward, times) == (current - times) % count,
    decreases times,
{
    if times == 0 {
        vstd::arithmetic::div_mod::lemma_small_mod(current as nat, count as nat);
    } else {
        moves_backward_add_up(current, count, (times - 1) as nat);
        let before = (current - times + 1) % count;
        vstd::arithmetic::div_mod::lemma_mod_bound(current - times + 1, count);
        vstd::arithmetic::div_mod::lemma_sub_mod_noop(current - times + 1, 1, count);
        vstd::arithmetic::div_mod::lemma_sub_mod_noop(before, 1, count);
        vstd::arithmetic::div_mod::lemma_mod_twice(current - times + 1, count);
        if before == 0 {
            vstd::arithmetic::div_mod::lemma_mod_add_multiples_vanish(-1, count);
            vstd::arithmetic::div_mod::lemma_small_mod((count - 1) as nat, count as nat);
        } else {
            vstd::arithmetic::div_mod::lemma_small_mod((before - 1) as nat, count as nat);
        }
    }
}

/// As many moves in one direction as there are windows lead back to the start,
/// and every window is reached on the way.
pub proof fn a_full_round_returns(current: int, count: int, target: int)
    requires
        0 <= current < count,
        0 <= target < count,
    ensures
        moved(current, count, Direction::Forward, count as nat) == current,
        exists|times: nat|
            times < count && #[trigger] moved(current, count, Direction::Forward, times) == target,
        moved(current, count, Direction::Backward, count as nat) == current,
        exists|times: nat|
            times < count && #[trigger] moved(current, count, Direction::Backward, times) == target,
{
    moves_forward_add_up(current, count, count as nat);
    vstd::arithmetic::div_mod::lemma_mod_add_multiples_vanish(current, count);
    vstd::arithmetic::div_mod::lemma_small_mod(current as nat, count as nat);
    let times = if target >= current {
        target - current
    } else {
        target - current + count
    };
    moves_forward_add_up(current, count, times as nat);
    vstd::arithmetic::div_mod::lemma_mod_add_multiples_vanish(target, count);
    vstd::arithmetic::div_mod::lemma_small_mod(target as nat, count as nat);
    assert(moved(current, count, Direction::Forward, times as nat) == target);
    moves_backward_add_up(current, count, count as nat);
    vstd::arithmetic::div_mod::lemma_mod_add_multiples_vanish(current - count, count);
    let back = if target <= current {
        current - target
    } else {
        current - target + count
    };
    moves_backward_add_up(current, count, back as nat);
    vstd::arithmetic::div_mod::lemma_mod_add_multiples_vanish(target - count, count);
    assert(moved(current, count, Direction::Backward, back as nat) == target);
}

/// The selected window is always among those in view.
pub proof fn the_selection_is_in_view(state: OverlayState)
    requires
        state.wf(),
    ensures
        state.first_visible <= state.current < state.visible_end(),
{
}

/// Going to an entry selects it and shows it, and scrolls no further than that
/// needs: not at all if it is in view already, so that it comes first if it was
/// before the view, and last if it was behind it. Nothing else changes.
pub proof fn scrolling_goes_no_further_than_needed(state: OverlayState, index: int)
    requires
        0 <= index < state.windows@.len(),
        state.overlay.visible_capacity > 0,
        state.first_visible + state.overlay.visible_capacity <= usize::MAX,
    ensures
        ({
            let after = state.moved_to(index);
            let n = state.overlay.visible_capacity as int;
            &&& after.current == index
            &&& after.first_visible <= index < after.first_visible + n
            &&& state.first_visible <= index < state.first_visible + n ==> after.first_visible
                == state.first_visible
            &&& index < state.first_visible ==> after.first_visible == index
            &&& index >= state.first_visible + n ==> after.first_visible + n == index + 1
            &&& after.windows == state.windows
            &&& after.overlay == state.overlay
            &&& after.alt_count == state.alt_count
            &&& after.hovered == state.hovered
        }),
{
    assert(state.windows.len() == state.windows@.len());
}

/// The selected window is the one at the selected position.
pub proof fn the_selection_is_the_current_window(state: OverlayState)
    ensures
        state.wf() ==> state.selection() == Some(state.windows@[state.current as int].window),
        state.windows@.len() == 0 ==> state.selection() is None,
        state.windows@.len() == 0 ==> state.advanced(Direction::Forward) == state
            && state.advanced(Direction::Backward) == state,
{
}

/// In view are as many entries as there is room for, one at least, as far as there
/// are any.
pub proof fn the_view_is_filled(state: OverlayState)
    ensures
        state.visible_end() <= state.windows@.len(),
        state.visible_end() < state.windows@.len() && state.overlay.visible_capacity > 0
            ==> state.visible_end() == state.first_visible + state.overlay.visible_capacity,
        state.visible_end() < state.windows@.len() && state.overlay.visible_capacity == 0
            ==> state.visible_end() == state.first_visible + 1,
{
}

/// An overlay starts with the first entry selected and in view, and with the
/// pointer over none.
pub proof fn an_overlay_starts_at_its_first_entry(
    windows: Vec<WindowEntry>,
    overlay: OverlayWindow,
)
    requires
        windows@.len() > 0,
    ensures
        OverlayState::fresh(windows, overlay).selection() == Some(windows@[0].window),
        OverlayState::fresh(windows, overlay).first_visible == 0,
        OverlayState::fresh(windows, overlay).hovered is None,
        OverlayState::fresh(windows, overlay).windows == windows,
        OverlayState::fresh(windows, overlay).overlay == overlay,
{
}

} // verus!
