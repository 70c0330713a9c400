//! The places of the entries in the overlay, and which of them a point hits.

use crate::config::Layout;
use crate::geometry::{coordinate, fits_i16, max, to_i16, CoordinateOverflow, Rect};
use crate::overlay::{capacity_of, OverlayState, OverlayWindow};
use crate::style::{icon_area_of, Style};
use vstd::prelude::*;

verus! {

/// The width of the overlay between its paddings.
pub open spec fn inner_width(style: Style, overlay: OverlayWindow) -> int {
    max(0, overlay.width - 2 * style.padding)
}

/// The height of the overlay between its paddings.
pub open spec fn inner_height(style: Style, overlay: OverlayWindow) -> int {
    max(0, overlay.height - 2 * style.padding)
}

/// How far row `slot` of a vertical overlay lies below the first one.
pub open spec fn row_offset(style: Style, slot: int) -> int {
    ((slot as i16) as int) * coordinate(style.row_height)
}

/// The place of row `slot` of a vertical overlay, if its coordinates fit.
pub open spec fn row_rect(style: Style, overlay: OverlayWindow, slot: int) -> Option<Rect> {
    let y = coordinate(style.padding) + row_offset(style, slot);
    if fits_i16(row_offset(style, slot)) && fits_i16(y) {
        Some(
            Rect {
                x: style.padding as i16,
                y: y as i16,
                width: inner_width(style, overlay) as u16,
                height: style.row_height,
            },
        )
    } else {
        None
    }
}

/// The columns of a horizontal overlay.
#[derive(Clone, Copy)]
pub struct Grid {
    /// The width of a column.
    pub cell: u32,
    /// The height of a column.
    pub height: u16,
    /// Where the first column starts.
    pub leading: i16,
}

/// The number of columns as a 32-bit number.
pub open spec fn column_count(overlay: OverlayWindow) -> u32 {
    capacity_of(overlay) as u32
}

/// The width of a column: `base`, or an equal share of the room where all
/// columns together would need more than there is. Without any room, columns
/// shrink to one only if `always` says so.
pub open spec fn column_width(
    style: Style,
    overlay: OverlayWindow,
    base: int,
    always: bool,
) -> int {
    let room = inner_width(style, overlay);
    let count = column_count(overlay) as int;
    if base * count > room && (always || room > 0) {
        max(1, room / count)
    } else {
        base
    }
}

/// The room that the columns leave.
pub open spec fn spare_width(
    style: Style,
    overlay: OverlayWindow,
    base: int,
    always: bool,
) -> int {
    max(
        0,
        inner_width(style, overlay) - column_width(style, overlay, base, always) * column_count(
            overlay,
        ),
    )
}

/// Where the first column starts: behind the padding and half of the spare room.
pub open spec fn leading_of(
    style: Style,
    overlay: OverlayWindow,
    base: int,
    always: bool,
) -> int {
    coordinate(style.padding) + spare_width(style, overlay, base, always) / 2
}

/// Whether the columns can be computed.
pub open spec fn grid_fits(
    style: Style,
    overlay: OverlayWindow,
    base: int,
    always: bool,
) -> bool {
    &&& icon_area_of(style) <= u16::MAX
    &&& base * column_count(overlay) <= u32::MAX
    &&& fits_i16(leading_of(style, overlay, base, always))
}

/// The columns of a horizontal overlay.
pub open spec fn grid_of(
    style: Style,
    overlay: OverlayWindow,
    base: int,
    always: bool,
) -> Grid {
    Grid {
        cell: column_width(style, overlay, base, always) as u32,
        height: max(icon_area_of(style), inner_height(style, overlay)) as u16,
        leading: leading_of(style, overlay, base, always) as i16,
    }
}

/// How far column `slot` lies from the first one.
pub open spec fn column_offset(grid: Grid, slot: int) -> int {
    ((slot as u32) as int) * grid.cell
}

/// Where column `slot` starts.
pub open spec fn column_x(grid: Grid, slot: int) -> int {
    grid.leading + (column_offset(grid, slot) as u32) as i16
}

/// The place of column `slot` of a horizontal overlay, if its coordinates fit.
pub open spec fn column_rect(style: Style, grid: Grid, slot: int) -> Option<Rect> {
    if column_offset(grid, slot) <= u32::MAX && fits_i16(column_x(grid, slot)) {
        Some(
            Rect {
                x: column_x(grid, slot) as i16,
                y: style.padding as i16,
                width: grid.cell as u16,
                height: grid.height,
            },
        )
    } else {
        None
    }
}

fn inner(side: u16, padding: u16) -> (r: u16)
    ensures
        r == max(0, side - 2 * padding),
{
    let twice: u32 = padding as u32 * 2;
    if side as u32 >= twice {
        (side as u32 - twice) as u16
    } else {
        0
    }
}

/// The place of row `slot` of a vertical overlay.
pub fn place_row(style: &Style, overlay: &OverlayWindow, slot: usize) -> (r: Result<
    Rect,
    CoordinateOverflow,
>)
    ensures
        match r {
            Ok(rect) => row_rect(*style, *overlay, slot as int) == Some(rect),
            Err(_) => row_rect(*style, *overlay, slot as int) is None,
        },
{
    let s: i32 = (slot as i16) as i32;
    let h: i32 = (style.row_height as i16) as i32;
    proof {
        assert(-0x8000 * 0x8000 <= s * h <= 0x8000 * 0x8000) by (nonlinear_arith)
            requires
                -0x8000 <= s <= 0x7fff,
                -0x8000 <= h <= 0x7fff,
        ;
    }
    let offset: i32 = s * h;
    match to_i16(offset) {
        Ok(_) => {},
        Err(e) => {
            return Err(e);
        },
    }
    let padding: i32 = (style.padding as i16) as i32;
    match to_i16(padding + offset) {
        Ok(y) => Ok(
            Rect {
                x: style.padding as i16,
                y,
                width: inner(overlay.width, style.padding),
                height: style.row_height,
            },
        ),
        Err(e) => Err(e),
    }
}

/// The columns of a horizontal overlay.
pub fn make_grid(style: &Style, overlay: &OverlayWindow, base: u16, always: bool) -> (r: Result<
    Grid,
    CoordinateOverflow,
>)
    ensures
        r is Ok <==> grid_fits(*style, *overlay, base as int, always),
        r matches Ok(grid) ==> grid == grid_of(*style, *overlay, base as int, always) && grid.cell
            == column_width(*style, *overlay, base as int, always) && grid.cell <= 65535,
{
    if style.icon_max_size as u32 + style.icon_margin as u32 * 2 > 65535 {
        return Err(CoordinateOverflow);
    }
    let capacity: usize = if overlay.visible_capacity == 0 {
        1
    } else {
        overlay.visible_capacity
    };
    let count: u32 = capacity as u32;
    proof {
        assert(0 <= base * count <= 65535 * 0xffff_ffff) by (nonlinear_arith)
            requires
                0 <= base <= 65535,
                0 <= count <= 0xffff_ffff,
        ;
    }
    if base as u64 * count as u64 > 0xffff_ffff {
        return Err(CoordinateOverflow);
    }
    let room: u16 = inner(overlay.width, style.padding);
    let cell: u32 = if base as u32 * count > room as u32 && (always || room > 0) {
        proof {
            if count == 0 {
                assert(base * count == 0) by (nonlinear_arith)
                    requires
                        count == 0,
                ;
            }
        }
        let share: u32 = room as u32 / count;
        if share == 0 {
            1
        } else {
            share
        }
    } else {
        base as u32
    };
    proof {
        let q = room as int / count as int;
        if base * count > room && (always || room > 0) {
            assert(0 <= q <= room) by (nonlinear_arith)
                requires
                    q == room as int / count as int,
                    count > 0,
                    room >= 0,
            ;
            assert(0 <= q * count <= room) by (nonlinear_arith)
                requires
                    q == room as int / count as int,
                    count > 0,
                    room >= 0,
            ;
            if q == 0 {
                assert(cell * count == count) by (nonlinear_arith)
                    requires
                        cell == 1,
                ;
            }
        }
        assert(0 <= cell * count <= 0xffff_ffff);
    }
    let total: u32 = cell * count;
    let spare: u32 = if room as u32 >= total {
        room as u32 - total
    } else {
        0
    };
    let padding: i32 = (style.padding as i16) as i32;
    let leading = match to_i16(padding + (spare / 2) as i32) {
        Ok(x) => x,
        Err(e) => {
            return Err(e);
        },
    };
    let icon_area = style.icon_area();
    let inner_height: u16 = inner(overlay.height, style.padding);
    let height: u16 = if icon_area >= inner_height {
        icon_area
    } else {
        inner_height
    };
    Ok(Grid { cell, height, leading })
}

/// The place of column `slot` of a horizontal overlay.
pub fn place_column(style: &Style, grid: &Grid, slot: usize) -> (r: Result<
    Rect,
    CoordinateOverflow,
>)
    ensures
        match r {
            Ok(rect) => column_rect(*style, *grid, slot as int) == Some(rect),
            Err(_) => column_rect(*style, *grid, slot as int) is None,
        },
{
    let s: u32 = slot as u32;
    let cell = grid.cell;
    proof {
        assert(0 <= s * cell <= 0xffff_ffff * 0xffff_ffff) by (nonlinear_arith)
            requires
                0 <= s <= 0xffff_ffff,
                0 <= cell <= 0xffff_ffff,
        ;
    }
    let offset: u64 = s as u64 * cell as u64;
    if offset > 0xffff_ffff {
        return Err(CoordinateOverflow);
    }
    let dx: i16 = (offset as u32) as i16;
    match to_i16(grid.leading as i32 + dx as i32) {
        Ok(x) => Ok(
            Rect { x, y: style.padding as i16, width: grid.cell as u16, height: grid.height },
        ),
        Err(e) => Err(e),
    }
}

/// The columns that the pointer can hit.
pub open spec fn hit_grid(style: Style, overlay: OverlayWindow) -> Grid {
    grid_of(style, overlay, max(style.horizontal_item_width as int, 1), false)
}

/// The place of entry `slot` among those in view, for the pointer, if its
/// coordinates fit.
pub open spec fn hit_rect(style: Style, overlay: OverlayWindow, slot: int) -> Option<Rect> {
    match overlay.layout {
        Layout::Vertical => row_rect(style, overlay, slot),
        Layout::Horizontal => column_rect(style, hit_grid(style, overlay), slot),
    }
}

/// Whether there are places at all, and whether they can be computed.
pub open spec fn hit_fits(style: Style, overlay: OverlayWindow) -> bool {
    overlay.layout is Vertical || grid_fits(
        style,
        overlay,
        max(style.horizontal_item_width as int, 1),
        false,
    )
}

/// What a point hits among the entries in view from `slot` on: the first one
/// whose place covers it. A place that cannot be computed before is an error.
pub open spec fn hit_from(style: Style, state: OverlayState, x: int, y: int, slot: int) -> Result<
    Option<usize>,
    CoordinateOverflow,
>
    decreases state.visible_end() - state.first_visible - slot,
{
    if slot >= state.visible_end() - state.first_visible {
        Ok(None)
    } else {
        match hit_rect(style, state.overlay, slot) {
            None => Err(CoordinateOverflow),
            Some(rect) => if rect.covers(x, y) {
                Ok(Some((state.first_visible + slot) as usize))
            } else {
                hit_from(style, state, x, y, slot + 1)
            },
        }
    }
}

/// The position of the entry that a point hits.
pub open spec fn hit(style: Style, state: OverlayState, x: int, y: int) -> Result<
    Option<usize>,
    CoordinateOverflow,
> {
    if state.overlay.layout is Vertical && style.row_height == 0 {
        Ok(None)
    } else if !hit_fits(style, state.overlay) {
        Err(CoordinateOverflow)
    } else {
        hit_from(style, state, x, y, 0)
    }
}

/// The position of the entry that a point hits.
pub fn item_index_at_position(style: &Style, state: &OverlayState, x: i16, y: i16) -> (r: Result<
    Option<usize>,
    CoordinateOverflow,
>)
    ensures
        r == hit(*style, *state, x as int, y as int),
{
    let vertical = match state.overlay.layout {
        Layout::Vertical => true,
        Layout::Horizontal => false,
    };
    if vertical && style.row_height == 0 {
        return Ok(None);
    }
    let grid = if vertical {
        Grid { cell: 0, height: 0, leading: 0 }
    } else {
        let base: u16 = if style.horizontal_item_width == 0 {
            1
        } else {
            style.horizontal_item_width
        };
        match make_grid(style, &state.overlay, base, false) {
            Ok(grid) => grid,
            Err(e) => {
                return Err(e);
            },
        }
    };
    let range = state.visible_range();
    let first: usize = range.start;
    let mut index: usize = first;
    while index < range.end
        invariant
            range.start == first,
            first == state.first_visible,
            range.end == state.visible_end(),
            index >= first,
            index == first || index <= range.end,
            vertical == (state.overlay.layout is Vertical),
            !vertical ==> grid == hit_grid(*style, state.overlay),
            hit(*style, *state, x as int, y as int) == hit_from(
                *style,
                *state,
                x as int,
                y as int,
                index - first,
            ),
        decreases range.end - index,
    {
        let placed = if vertical {
            place_row(style, &state.overlay, index - first)
        } else {
            place_column(style, &grid, index - first)
        };
        match placed {
            Ok(rect) => {
                if rect.rect_contains(x, y) {
                    return Ok(Some(index));
                }
            },
            Err(e) => {
                return Err(e);
            },
        }
        index = index + 1;
    }
    Ok(None)
}

/// What a point hits is in view, its place covers the point, and no earlier
/// entry's place does; where nothing is hit, no place in view covers the point.
pub proof fn a_hit_covers_the_point(
    style: Style,
    state: OverlayState,
    x: int,
    y: int,
    other: int,
)
    requires
        !(state.overlay.layout is Vertical && style.row_height == 0),
        hit(style, state, x, y) is Ok,
    ensures
        match hit(style, state, x, y)->Ok_0 {
            Some(index) => {
                &&& state.first_visible <= index < state.visible_end()
                &&& hit_rect(style, state.overlay, index - state.first_visible) matches Some(rect)
                    && rect.covers(x, y)
                &&& state.first_visible <= other < index ==> (hit_rect(
                    style,
                    state.overlay,
                    other - state.first_visible,
                ) matches Some(rect) && !rect.covers(x, y))
            },
            None => state.first_visible <= other < state.visible_end() ==> (hit_rect(
                style,
                state.overlay,
                other - state.first_visible,
            ) matches Some(rect) && !rect.covers(x, y)),
        },
{
    lemma_hit_from(style, state, x, y, 0, other - state.first_visible);
}

proof fn lemma_hit_from(
    style: Style,
    state: OverlayState,
    x: int,
    y: int,
    slot: int,
    other: int,
)
    requires
        0 <= slot,
        hit_from(style, state, x, y, slot) is Ok,
    ensures
        match hit_from(style, state, x, y, slot)->Ok_0 {
            Some(index) => {
                &&& state.first_visible + slot <= index < state.visible_end()
                &&& hit_rect(style, state.overlay, index - state.first_visible) matches Some(rect)
                    && rect.covers(x, y)
                &&& slot <= other < index - state.first_visible ==> (hit_rect(
                    style,
                    state.overlay,
                    other,
                ) matches Some(rect) && !rect.covers(x, y))
            },
            None => slot <= other < state.visible_end() - state.first_visible ==> (hit_rect(
                style,
                state.overlay,
                other,
            ) matches Some(rect) && !rect.covers(x, y)),
        },
    decreases state.visible_end() - state.first_visible - slot,
{
    if slot < state.visible_end() - state.first_visible {
        assert(state.visible_end() <= state.windows.len());
        match hit_rect(style, state.overlay, slot) {
            None => {},
            Some(rect) => {
                if !rect.covers(x, y) {
                    lemma_hit_from(style, state, x, y, slot + 1, other);
                }
            },
        }
    }
}

/// The rows of a vertical overlay stand one below the other without a gap, from the
/// padding on, each as high as the style says and as wide as the overlay is within
/// its padding.
pub proof fn rows_are_stacked(style: Style, overlay: OverlayWindow, slot: int)
    requires
        0 <= slot <= 32767,
        style.padding <= 32767,
        style.row_height <= 32767,
        row_rect(style, overlay, slot) is Some,
    ensures
        ({
            let rect = row_rect(style, overlay, slot)->0;
            &&& rect.x == style.padding
            &&& rect.y == style.padding + slot * style.row_height
            &&& rect.height == style.row_height
            &&& overlay.width >= 2 * style.padding ==> rect.width == overlay.width - 2
                * style.padding
            &&& overlay.width < 2 * style.padding ==> rect.width == 0
        }),
{
}

/// A row has a place exactly if its coordinates can be written down.
pub proof fn rows_have_places(style: Style, overlay: OverlayWindow, slot: int)
    requires
        0 <= slot <= 32767,
        style.padding <= 32767,
        style.row_height <= 32767,
    ensures
        row_rect(style, overlay, slot) is Some <==> style.padding + slot * style.row_height
            <= 32767,
{
    assert(0 <= slot * style.row_height) by (nonlinear_arith)
        requires
            0 <= slot,
            0 <= style.row_height,
    ;
}

/// The columns of a horizontal overlay stand side by side without a gap, all
/// equally wide. They are as wide as asked for if that leaves room for all, and
/// else share the room; what is left of it is the same on both sides, give or take
/// the pixel that cannot be halved.
pub proof fn columns_share_the_room(
    style: Style,
    overlay: OverlayWindow,
    base: int,
    always: bool,
    slot: int,
)
    requires
        style.padding <= 32767,
        1 <= base <= 65535,
        1 <= overlay.visible_capacity <= 65535,
        0 <= slot < overlay.visible_capacity,
        overlay.width > 2 * style.padding,
        grid_fits(style, overlay, base, always),
        column_rect(style, grid_of(style, overlay, base, always), slot) is Some,
    ensures
        ({
            let rect = column_rect(style, grid_of(style, overlay, base, always), slot)->0;
            let first = column_rect(style, grid_of(style, overlay, base, always), 0)->0;
            let room = overlay.width - 2 * style.padding;
            let n = overlay.visible_capacity as int;
            let spare = room - n * rect.width;
            let area = style.icon_max_size + 2 * style.icon_margin;
            &&& n * base <= room ==> rect.width == base
            &&& n * base > room && n <= room ==> n * rect.width <= room < n * (rect.width + 1)
            &&& n > room ==> rect.width == 1
            &&& slot * rect.width <= 32767 ==> rect.x == first.x + slot * rect.width
            &&& spare >= 0 ==> 0 <= spare - 2 * (first.x - style.padding) <= 1
            &&& spare < 0 ==> first.x == style.padding
            &&& rect.y == style.padding
            &&& overlay.height - 2 * style.padding >= area ==> rect.height == overlay.height - 2
                * style.padding
            &&& overlay.height - 2 * style.padding < area ==> rect.height == area
        }),
{
    let n = overlay.visible_capacity as int;
    let room = overlay.width - 2 * style.padding;
    let grid = grid_of(style, overlay, base, always);
    let cell = column_width(style, overlay, base, always);
    assert(base * n == n * base) by (nonlinear_arith);
    assert(cell * n == n * cell) by (nonlinear_arith);
    assert(1 <= cell <= 65535) by {
        let q = room / n;
        assert(0 <= q <= 65535) by (nonlinear_arith)
            requires
                q == room / n,
                0 <= room <= 65535,
                n >= 1,
        ;
    }
    if n * base > room {
        let q = room / n;
        assert(n * q <= room < n * (q + 1)) by (nonlinear_arith)
            requires
                q == room / n,
                0 <= room,
                n >= 1,
        ;
        if n > room {
            assert(q == 0) by (nonlinear_arith)
                requires
                    q == room / n,
                    0 <= room < n,
            ;
        } else {
            assert(q >= 1) by (nonlinear_arith)
                requires
                    q == room / n,
                    1 <= n <= room,
            ;
        }
    }
    if n > room {
        assert(n * base >= n) by (nonlinear_arith)
            requires
                n >= 1,
                base >= 1,
        ;
    }
    assert(grid.cell == cell);
    assert(0 * grid.cell == 0) by (nonlinear_arith);
    assert(slot * grid.cell >= 0) by (nonlinear_arith)
        requires
            slot >= 0,
            grid.cell >= 0,
    ;
    assert(grid.leading == leading_of(style, overlay, base, always));
}

/// Every entry in view can be hit: a point inside an entry's place and in none
/// before it hits that entry.
pub proof fn a_point_hits_the_entry_around_it(
    style: Style,
    state: OverlayState,
    x: int,
    y: int,
    slot: int,
)
    requires
        !(state.overlay.layout is Vertical && style.row_height == 0),
        hit(style, state, x, y) is Ok,
        0 <= slot < state.visible_end() - state.first_visible,
        hit_rect(style, state.overlay, slot) matches Some(rect) && rect.covers(x, y),
        forall|k: int|
            0 <= k < slot ==> !((#[trigger] hit_rect(style, state.overlay, k)) matches Some(rect)
                && rect.covers(x, y)),
    ensures
        hit(style, state, x, y) == Ok::<Option<usize>, CoordinateOverflow>(
            Some((state.first_visible + slot) as usize),
        ),
{
    a_hit_covers_the_point(style, state, x, y, state.first_visible + slot);
    match hit(style, state, x, y)->Ok_0 {
        Some(index) => {
            let k = index - state.first_visible;
            assert(k >= slot) by {
                assert(hit_rect(style, state.overlay, k) is Some);
            }
        },
        None => {},
    }
}

/// In an overlay without room within its padding columns are drawn one pixel wide,
/// and are hit at the width that was asked for.
pub proof fn columns_without_room_have_a_width(
    style: Style,
    overlay: OverlayWindow,
    base: int,
    slot: int,
)
    requires
        style.padding <= 32767,
        1 <= base <= 65535,
        1 <= overlay.visible_capacity <= 65535,
        0 <= slot,
        overlay.width <= 2 * style.padding,
    ensures
        column_rect(style, grid_of(style, overlay, base, true), slot) matches Some(rect) ==> rect.width
            == 1,
        column_rect(style, grid_of(style, overlay, base, false), slot) matches Some(rect)
            ==> rect.width == base,
{
    let n = overlay.visible_capacity as int;
    assert(base * n > 0) by (nonlinear_arith)
        requires
            base >= 1,
            n >= 1,
    ;
    assert(0int / n == 0) by (nonlinear_arith)
        requires
            n >= 1,
    ;
}

/// The columns of an overlay of moderate size have places.
pub proof fn columns_have_places(
    style: Style,
    overlay: OverlayWindow,
    base: int,
    always: bool,
    slot: int,
)
    requires
        style.padding <= 8000,
        1 <= base <= 8000,
        1 <= overlay.visible_capacity <= 8000,
        0 <= slot < overlay.visible_capacity,
        2 * style.padding < overlay.width <= 16000,
        overlay.visible_capacity + 2 * style.padding <= overlay.width,
        style.icon_max_size + 2 * style.icon_margin <= 65535,
    ensures
        grid_fits(style, overlay, base, always),
        column_rect(style, grid_of(style, overlay, base, always), slot) is Some,
{
    let n = overlay.visible_capacity as int;
    let room = overlay.width - 2 * style.padding;
    let cell = column_width(style, overlay, base, always);
    let q = room / n;
    assert(0 <= base * n <= 8000 * 8000) by (nonlinear_arith)
        requires
            1 <= base <= 8000,
            1 <= n <= 8000,
    ;
    assert(q >= 1 && q * n <= room) by (nonlinear_arith)
        requires
            q == room / n,
            1 <= n <= room,
    ;
    assert(cell * n <= room);
    assert(cell >= 1);
    assert(0 <= slot * cell <= cell * n) by (nonlinear_arith)
        requires
            0 <= slot < n,
            cell >= 1,
    ;
    let grid = grid_of(style, overlay, base, always);
    assert(grid.cell == cell) by {
        assert(cell <= room) by (nonlinear_arith)
            requires
                cell * n <= room,
                cell >= 1,
                n >= 1,
        ;
    }
    assert(column_offset(grid, slot) == slot * cell);
}

/// The pointer is over nothing in a vertical overlay whose rows have no height.
pub proof fn rows_without_height_are_never_hit(style: Style, state: OverlayState, x: int, y: int)
    requires
        state.overlay.layout is Vertical,
        style.row_height == 0,
    ensures
        hit(style, state, x, y) == Ok::<Option<usize>, CoordinateOverflow>(None),
{
}

/// Whether a point hits an entry can be told exactly if the entries up to it have
/// places.
pub proof fn hits_are_found_where_entries_have_places(
    style: Style,
    state: OverlayState,
    x: int,
    y: int,
)
    requires
        hit_fits(style, state.overlay),
        forall|slot: int|
            0 <= slot < state.visible_end() - state.first_visible ==> #[trigger] hit_rect(
                style,
                state.overlay,
                slot,
            ) is Some,
    ensures
        hit(style, state, x, y) is Ok,
{
    lemma_hits_are_found(style, state, x, y, 0);
}

proof fn lemma_hits_are_found(style: Style, state: OverlayState, x: int, y: int, slot: int)
    requires
        0 <= slot,
        forall|k: int|
            0 <= k < state.visible_end() - state.first_visible ==> #[trigger] hit_rect(
                style,
                state.overlay,
                k,
            ) is Some,
    ensures
        hit_from(style, state, x, y, slot) is Ok,
    decreases state.visible_end() - state.first_visible - slot,
{
    if slot < state.visible_end() - state.first_visible {
        assert(hit_rect(style, state.overlay, slot) is Some);
        lemma_hits_are_found(style, state, x, y, slot + 1);
    }
}

/// The columns of an overlay of moderate size lie within its padding.
pub proof fn columns_end_inside(
    style: Style,
    overlay: OverlayWindow,
    base: int,
    always: bool,
    slot: int,
)
    requires
        style.padding <= 8000,
        1 <= base <= 8000,
        1 <= overlay.visible_capacity <= 8000,
        0 <= slot < overlay.visible_capacity,
        2 * style.padding < overlay.width <= 16000,
        overlay.visible_capacity + 2 * style.padding <= overlay.width,
        style.icon_max_size + 2 * style.icon_margin <= 65535,
    ensures
        column_rect(style, grid_of(style, overlay, base, always), slot) matches Some(rect) && {
            &&& style.padding <= rect.x
            &&& rect.x + rect.width <= overlay.width - style.padding
            &&& 1 <= rect.width
            &&& rect.y == style.padding
        },
{
    columns_have_places(style, overlay, base, always, slot);
    let n = overlay.visible_capacity as int;
    let room = overlay.width - 2 * style.padding;
    let cell = column_width(style, overlay, base, always);
    let q = room / n;
    assert(q >= 1 && q * n <= room) by (nonlinear_arith)
        requires
            q == room / n,
            1 <= n <= room,
    ;
    assert(cell >= 1 && cell * n <= room);
    assert(cell <= room && 0 <= slot * cell && slot * cell + cell <= cell * n) by (nonlinear_arith)
        requires
            cell * n <= room,
            cell >= 1,
            0 <= slot < n,
    ;
    let grid = grid_of(style, overlay, base, always);
    assert(column_offset(grid, slot) == slot * cell);
}

} // verus!
