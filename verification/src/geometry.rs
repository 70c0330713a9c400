//! Where things lie: the overlay on the screen, and the entries in the overlay.
//!
//! The X server counts pixels in sixteen bits. What leaves that range is refused
//! with [`CoordinateOverflow`].

use crate::config::Layout;
use crate::style::{icon_area_of, Style};
use vstd::prelude::*;

verus! {

/// A rectangle.
#[derive(Clone, Copy, Debug, PartialEq, Eq, Structural)]
pub struct Rect {
    pub x: i16,
    pub y: i16,
    pub width: u16,
    pub height: u16,
}

/// The size of the screen.
#[derive(Clone, Copy, Debug, PartialEq, Eq, Structural)]
pub struct ScreenSize {
    pub width: u16,
    pub height: u16,
}

/// A coordinate that does not fit.
#[derive(Clone, Copy, Debug, PartialEq, Eq, Structural)]
pub struct CoordinateOverflow;

/// Where the overlay lies on the screen, and how many entries are in view.
#[derive(Clone, Copy, Debug, PartialEq, Eq, Structural)]
pub struct OverlayGeometry {
    pub x: i16,
    pub y: i16,
    pub width: u16,
    pub height: u16,
    pub visible_capacity: usize,
}

/// Whether a coordinate fits in sixteen bits with a sign.
pub open spec fn fits_i16(v: int) -> bool {
    i16::MIN <= v <= i16::MAX
}

/// The larger of two numbers.
pub open spec fn max(a: int, b: int) -> int {
    if a >= b {
        a
    } else {
        b
    }
}

/// The smaller of two numbers.
pub open spec fn min(a: int, b: int) -> int {
    if a <= b {
        a
    } else {
        b
    }
}

/// A length with sixteen bits read as a coordinate.
pub open spec fn coordinate(length: u16) -> int {
    (length as i16) as int
}

/// A coordinate, if it fits.
pub fn to_i16(v: i32) -> (r: Result<i16, CoordinateOverflow>)
    ensures
        r is Ok <==> fits_i16(v as int),
        r matches Ok(c) ==> c == v,
{
    if -32768 <= v && v <= 32767 {
        Ok(v as i16)
    } else {
        Err(CoordinateOverflow)
    }
}

impl Rect {
    /// Whether a point lies in the rectangle.
    pub open spec fn covers(self, x: int, y: int) -> bool {
        self.x <= x < self.x + self.width && self.y <= y < self.y + self.height
    }

    /// Whether a point lies in the rectangle.
    pub fn rect_contains(&self, x: i16, y: i16) -> (r: bool)
        ensures
            r == self.covers(x as int, y as int),
    {
        let px = x as i32;
        let py = y as i32;
        let rx1 = self.x as i32;
        let ry1 = self.y as i32;
        let rx2: i32 = rx1 + self.width as i32;
        let ry2: i32 = ry1 + self.height as i32;
        px >= rx1 && px < rx2 && py >= ry1 && py < ry2
    }
}

/// Half of a stroke, rounded towards zero: how far a border lies inside.
pub open spec fn inset_of(stroke: u16) -> int {
    let s = coordinate(stroke);
    if s >= 0 {
        s / 2
    } else {
        -((-s) / 2)
    }
}

/// Whether a border of the given stroke is drawn inside a rectangle: it has a
/// stroke, and the rectangle has room for it.
pub open spec fn has_border(rect: Rect, stroke: u16) -> bool {
    stroke > 0 && rect.width > stroke && rect.height > stroke
}

/// Whether the border of a rectangle lies where it can be drawn.
pub open spec fn border_fits(rect: Rect, stroke: u16) -> bool {
    has_border(rect, stroke) ==> fits_i16(rect.x + inset_of(stroke)) && fits_i16(
        rect.y + inset_of(stroke),
    )
}

/// The rectangle along which a border is drawn.
pub open spec fn border_rect_of(rect: Rect, stroke: u16) -> Option<Rect> {
    if has_border(rect, stroke) {
        Some(
            Rect {
                x: (rect.x + inset_of(stroke)) as i16,
                y: (rect.y + inset_of(stroke)) as i16,
                width: (rect.width - stroke) as u16,
                height: (rect.height - stroke) as u16,
            },
        )
    } else {
        None
    }
}

/// The rectangle along which a border is drawn, so that its stroke lies inside
/// the given one.
pub fn border_rect(rect: Rect, stroke: u16) -> (r: Result<Option<Rect>, CoordinateOverflow>)
    ensures
        r is Ok <==> border_fits(rect, stroke),
        r matches Ok(b) ==> b == border_rect_of(rect, stroke),
{
    if stroke == 0 {
        return Ok(None);
    }
    let stroke_i: i16 = stroke as i16;
    let inset: i32 = if stroke_i >= 0 {
        stroke_i as i32 / 2
    } else {
        -((-(stroke_i as i32)) / 2)
    };
    let width: i32 = rect.width as i32 - stroke as i32;
    let height: i32 = rect.height as i32 - stroke as i32;
    if width <= 0 || height <= 0 {
        return Ok(None);
    }
    let x = match to_i16(rect.x as i32 + inset) {
        Ok(x) => x,
        Err(e) => {
            return Err(e);
        },
    };
    let y = match to_i16(rect.y as i32 + inset) {
        Ok(y) => y,
        Err(e) => {
            return Err(e);
        },
    };
    Ok(Some(Rect { x, y, width: width as u16, height: height as u16 }))
}

/// The number of entries as a 32-bit number: at least one.
pub open spec fn counted(item_count: usize) -> u32 {
    if item_count == 0 {
        1
    } else {
        item_count as u32
    }
}

/// The height that a vertical overlay would like to have.
pub open spec fn wanted_height(style: Style, item_count: usize) -> int {
    2 * style.padding + style.row_height * counted(item_count)
}

/// `height` kept within the screen less its margin, if anything is left of it.
pub open spec fn kept_on_screen(height: int, style: Style, screen: ScreenSize) -> int {
    let room = screen.height - style.screen_margin;
    if room > 0 {
        min(height, room)
    } else {
        height
    }
}

/// The height of a vertical overlay: what it would like to have, within the
/// screen, but always enough for one entry.
pub open spec fn vertical_height(style: Style, screen: ScreenSize, item_count: usize) -> int {
    max(
        kept_on_screen(wanted_height(style, item_count), style, screen),
        2 * style.padding + max(style.row_height as int, 1),
    )
}

/// The number of rows that are in view.
pub open spec fn vertical_rows(style: Style, screen: ScreenSize, item_count: usize) -> int {
    max(
        1,
        (vertical_height(style, screen, item_count) - 2 * style.padding) / max(
            style.row_height as int,
            1,
        ),
    )
}

/// The width that columns can share.
pub open spec fn column_room(style: Style, screen: ScreenSize) -> int {
    let limit = if screen.width > style.screen_margin {
        screen.width - style.screen_margin
    } else {
        screen.width as int
    };
    max(0, limit - 2 * style.padding)
}

/// The width of an entry of a horizontal overlay: at least one.
pub open spec fn item_width(style: Style) -> int {
    max(style.horizontal_item_width as int, 1)
}

/// The number of columns that are in view: as many as there are entries and as
/// there is room for, but at least one.
pub open spec fn horizontal_columns(style: Style, screen: ScreenSize, item_count: usize) -> int {
    min(max(1, column_room(style, screen) / item_width(style)), max(1, item_count as int))
}

/// The width of a horizontal overlay.
pub open spec fn horizontal_width(style: Style, screen: ScreenSize, item_count: usize) -> int {
    min(
        2 * style.padding + item_width(style) * horizontal_columns(style, screen, item_count),
        screen.width as int,
    )
}

/// The height of a horizontal overlay: what an entry would like to have, within
/// the screen, but always enough for an icon.
pub open spec fn horizontal_height(style: Style, screen: ScreenSize) -> int {
    max(
        kept_on_screen(
            2 * style.padding + max(style.horizontal_item_height as int, icon_area_of(style)),
            style,
            screen,
        ),
        2 * style.padding + icon_area_of(style),
    )
}

/// Whether the geometry of the overlay can be computed.
pub open spec fn geometry_fits(style: Style, layout: Layout, item_count: usize) -> bool {
    &&& icon_area_of(style) <= u16::MAX
    &&& match layout {
        Layout::Vertical => wanted_height(style, item_count) <= u32::MAX,
        Layout::Horizontal => 2 * style.padding <= u16::MAX,
    }
}

/// The size of the overlay.
pub open spec fn overlay_size(
    style: Style,
    layout: Layout,
    screen: ScreenSize,
    item_count: usize,
) -> (u16, u16) {
    match layout {
        Layout::Vertical => (
            min(style.overlay_width as int, screen.width as int) as u16,
            (vertical_height(style, screen, item_count) as u32) as u16,
        ),
        Layout::Horizontal => (
            horizontal_width(style, screen, item_count) as u16,
            (horizontal_height(style, screen) as u32) as u16,
        ),
    }
}

/// The position that centres a length on the screen, or its edge.
pub open spec fn centred(length: u16, room: u16) -> i16 {
    (max(0, room - length) / 2) as i16
}

/// Where the overlay lies, and how many entries are in view.
pub open spec fn geometry_of(
    style: Style,
    layout: Layout,
    screen: ScreenSize,
    item_count: usize,
) -> OverlayGeometry {
    let (width, height) = overlay_size(style, layout, screen, item_count);
    OverlayGeometry {
        x: centred(width, screen.width),
        y: centred(height, screen.height),
        width,
        height,
        visible_capacity: match layout {
            Layout::Vertical => vertical_rows(style, screen, item_count) as usize,
            Layout::Horizontal => horizontal_columns(style, screen, item_count) as usize,
        },
    }
}

fn keep_on_screen(height: u32, style: &Style, screen: ScreenSize) -> (r: u32)
    ensures
        r == kept_on_screen(height as int, *style, screen),
{
    if screen.height > style.screen_margin {
        let room: u32 = (screen.height - style.screen_margin) as u32;
        if height <= room {
            height
        } else {
            room
        }
    } else {
        height
    }
}

fn vertical_size(style: &Style, screen: ScreenSize, item_count: usize) -> (r: (u16, u16, usize))
    requires
        wanted_height(*style, item_count) <= u32::MAX,
    ensures
        (r.0, r.1) == overlay_size(*style, Layout::Vertical, screen, item_count),
        r.2 == vertical_rows(*style, screen, item_count),
{
    let width = if style.overlay_width <= screen.width {
        style.overlay_width
    } else {
        screen.width
    };
    let padding2: u32 = style.padding as u32 * 2;
    let count: u32 = if item_count == 0 {
        1
    } else {
        item_count as u32
    };
    proof {
        assert(0 <= style.row_height * count) by (nonlinear_arith);
    }
    let full: u32 = padding2 + style.row_height as u32 * count;
    let row: u32 = if style.row_height == 0 {
        1
    } else {
        style.row_height as u32
    };
    let kept = keep_on_screen(full, style, screen);
    let least: u32 = padding2 + row;
    let height: u32 = if kept < least {
        least
    } else {
        kept
    };
    let rows: u32 = (height - padding2) / row;
    let visible: usize = if rows == 0 {
        1
    } else {
        rows as usize
    };
    (width, height as u16, visible)
}

fn horizontal_size(style: &Style, screen: ScreenSize, item_count: usize) -> (r: (u16, u16, usize))
    requires
        icon_area_of(*style) <= u16::MAX,
        2 * style.padding <= u16::MAX,
    ensures
        (r.0, r.1) == overlay_size(*style, Layout::Horizontal, screen, item_count),
        r.2 == horizontal_columns(*style, screen, item_count),
{
    let icon_area = style.icon_area();
    let padding2: u16 = style.padding * 2;
    let limit: u16 = if screen.width > style.screen_margin {
        screen.width - style.screen_margin
    } else {
        screen.width
    };
    let room: u16 = if limit >= padding2 {
        limit - padding2
    } else {
        0
    };
    let item: u16 = if style.horizontal_item_width == 0 {
        1
    } else {
        style.horizontal_item_width
    };
    let most: u16 = room / item;
    let max_cols: usize = if most == 0 {
        1
    } else {
        most as usize
    };
    let count: usize = if item_count == 0 {
        1
    } else {
        item_count
    };
    let cols: usize = if max_cols <= count {
        max_cols
    } else {
        count
    };
    proof {
        assert(0 <= item * cols <= 65535 * 65535) by (nonlinear_arith)
            requires
                0 <= item <= 65535,
                0 <= cols <= 65535,
        ;
        assert(item * cols <= max(room as int, item as int)) by {
            let q = room as int / item as int;
            if q >= 1 {
                assert(item * cols <= room) by (nonlinear_arith)
                    requires
                        cols <= room as int / item as int,
                        item > 0,
                        cols >= 0,
                ;
            } else {
                assert(item * cols == item) by (nonlinear_arith)
                    requires
                        cols == 1,
                ;
            }
        }
    }
    let wanted: u32 = padding2 as u32 + item as u32 * cols as u32;
    let width: u32 = if wanted > screen.width as u32 {
        screen.width as u32
    } else {
        wanted
    };
    let desired: u16 = if style.horizontal_item_height >= icon_area {
        style.horizontal_item_height
    } else {
        icon_area
    };
    let kept = keep_on_screen(padding2 as u32 + desired as u32, style, screen);
    let least: u32 = padding2 as u32 + icon_area as u32;
    let height: u32 = if kept < least {
        least
    } else {
        kept
    };
    (width as u16, height as u16, cols)
}

/// Where the overlay lies, and how many entries are in view.
pub fn overlay_geometry(
    style: &Style,
    layout: Layout,
    screen: ScreenSize,
    item_count: usize,
) -> (r: Result<OverlayGeometry, CoordinateOverflow>)
    ensures
        r is Ok <==> geometry_fits(*style, layout, item_count),
        r matches Ok(g) ==> g == geometry_of(*style, layout, screen, item_count),
{
    if style.icon_max_size as u32 + style.icon_margin as u32 * 2 > 65535 {
        return Err(CoordinateOverflow);
    }
    let (width, height, visible_capacity) = match layout {
        Layout::Vertical => {
            let count: u64 = if item_count == 0 {
                1
            } else {
                (item_count as u32) as u64
            };
            proof {
                assert(0 <= style.row_height * count <= 65535 * 0xffff_ffff) by (nonlinear_arith)
                    requires
                        0 <= style.row_height <= 65535,
                        0 <= count <= 0xffff_ffff,
                ;
            }
            if style.padding as u64 * 2 + style.row_height as u64 * count > 0xffff_ffff {
                return Err(CoordinateOverflow);
            }
            vertical_size(style, screen, item_count)
        },
        Layout::Horizontal => {
            if style.padding > 32767 {
                return Err(CoordinateOverflow);
            }
            horizontal_size(style, screen, item_count)
        },
    };
    let x: u16 = if screen.width >= width {
        (screen.width - width) / 2
    } else {
        0
    };
    let y: u16 = if screen.height >= height {
        (screen.height - height) / 2
    } else {
        0
    };
    Ok(OverlayGeometry { x: x as i16, y: y as i16, width, height, visible_capacity })
}

/// The overlay never is wider than the screen and lies on it from left to right;
/// it lies on it from top to bottom unless it is higher than the screen.
pub proof fn the_overlay_lies_on_the_screen(
    style: Style,
    layout: Layout,
    screen: ScreenSize,
    item_count: usize,
)
    requires
        geometry_fits(style, layout, item_count),
    ensures
        ({
            let g = geometry_of(style, layout, screen, item_count);
            &&& g.visible_capacity >= 1
            &&& 0 <= g.x
            &&& g.x + g.width <= screen.width
            &&& 0 <= g.y
            &&& g.height <= screen.height ==> g.y + g.height <= screen.height
        }),
{
    let cols = horizontal_columns(style, screen, item_count);
    assert(1 <= cols <= 65535) by {
        let q = column_room(style, screen) / item_width(style);
        assert(q <= 65535) by (nonlinear_arith)
            requires
                q == column_room(style, screen) / item_width(style),
                0 <= column_room(style, screen) <= 65535,
                item_width(style) >= 1,
        ;
    }
    assert(item_width(style) * cols >= 0) by (nonlinear_arith)
        requires
            item_width(style) >= 0,
            cols >= 0,
    ;
    let rows = vertical_rows(style, screen, item_count);
    let h = vertical_height(style, screen, item_count) - 2 * style.padding;
    let row = max(style.row_height as int, 1);
    if layout is Vertical {
        assert(h / row <= h) by (nonlinear_arith)
            requires
                h >= 0,
                row >= 1,
        ;
        assert(style.row_height * counted(item_count) >= 0) by (nonlinear_arith);
    }
}

/// All rows in view lie inside a vertical overlay, between its paddings.
pub proof fn visible_rows_fit(style: Style, screen: ScreenSize, item_count: usize)
    requires
        geometry_fits(style, Layout::Vertical, item_count),
    ensures
        vertical_rows(style, screen, item_count) * style.row_height + 2 * style.padding
            <= vertical_height(style, screen, item_count),
        vertical_rows(style, screen, item_count) <= max(1, counted(item_count) as int)
            || style.row_height == 0,
{
    let h = vertical_height(style, screen, item_count) - 2 * style.padding;
    let row = max(style.row_height as int, 1);
    let rows = vertical_rows(style, screen, item_count);
    assert(h >= row);
    assert(h / row >= 1) by (nonlinear_arith)
        requires
            h >= row,
            row >= 1,
    ;
    assert(rows * style.row_height <= h) by (nonlinear_arith)
        requires
            rows == h / row,
            row >= 1,
            0 <= style.row_height <= row,
            h >= 0,
    ;
    if style.row_height > 0 {
        let n = counted(item_count) as int;
        if n >= 1 {
            assert(style.row_height * n >= style.row_height) by (nonlinear_arith)
                requires
                    n >= 1,
                    style.row_height >= 0,
            ;
            assert(h <= style.row_height * n);
            assert(h / row <= n) by (nonlinear_arith)
                requires
                    h <= row * n,
                    row >= 1,
            ;
        } else {
            assert(style.row_height * n == 0) by (nonlinear_arith)
                requires
                    n == 0,
            ;
            assert(h <= row);
            assert(h / row <= 1) by (nonlinear_arith)
                requires
                    h <= row,
                    row >= 1,
            ;
        }
    }
}

/// The overlay stands in the middle of the screen: what is left beside it is the
/// same on both sides, give or take the pixel that cannot be halved. Where it is
/// higher than the screen it starts at the top.
pub proof fn the_overlay_is_centred(
    style: Style,
    layout: Layout,
    screen: ScreenSize,
    item_count: usize,
)
    ensures
        ({
            let g = geometry_of(style, layout, screen, item_count);
            &&& g.width <= screen.width ==> 0 <= screen.width - g.width - 2 * g.x <= 1
            &&& g.height <= screen.height ==> 0 <= screen.height - g.height - 2 * g.y <= 1
            &&& g.width > screen.width ==> g.x == 0
            &&& g.height > screen.height ==> g.y == 0
        }),
{
}

/// A vertical overlay is as wide as the style says, as far as the screen allows. It
/// is as high as all its rows and the padding need, and shows them all, if the
/// screen has room for that beside the margin; else it takes the room there is and
/// shows as many whole rows as fit, but always one.
pub proof fn a_vertical_overlay_shows_what_fits(
    style: Style,
    screen: ScreenSize,
    item_count: usize,
)
    requires
        geometry_fits(style, Layout::Vertical, item_count),
        0 < item_count <= u32::MAX,
        style.row_height > 0,
        2 * style.padding + style.row_height <= u16::MAX,
        screen.height > style.screen_margin,
    ensures
        ({
            let g = geometry_of(style, Layout::Vertical, screen, item_count);
            let room = screen.height - style.screen_margin;
            let all = 2 * style.padding + style.row_height * item_count;
            let least = 2 * style.padding + style.row_height;
            let shown = g.visible_capacity as int;
            &&& g.width <= style.overlay_width && g.width <= screen.width
            &&& g.width == style.overlay_width || g.width == screen.width
            &&& all <= room ==> g.height == all && shown == item_count
            &&& all > room && least <= room ==> {
                &&& g.height == room
                &&& 2 * style.padding + shown * style.row_height <= room
                &&& room < 2 * style.padding + (shown + 1) * style.row_height
            }
            &&& least > room ==> g.height == least && shown == 1
        }),
{
    let row = style.row_height as int;
    let n = item_count as int;
    let room = screen.height - style.screen_margin;
    let height = vertical_height(style, screen, item_count);
    let inner = height - 2 * style.padding;
    assert(counted(item_count) == item_count);
    assert(row * n >= row) by (nonlinear_arith)
        requires
            row > 0,
            n >= 1,
    ;
    assert(0 <= height <= 65535);
    assert((inner / row) * row <= inner < (inner / row + 1) * row && inner / row >= 1)
        by (nonlinear_arith)
        requires
            inner >= row,
            row > 0,
    ;
    assert(inner / row <= inner) by (nonlinear_arith)
        requires
            inner >= 0,
            row >= 1,
    ;
    if inner == row * n {
        assert(inner / row == n) by (nonlinear_arith)
            requires
                inner == row * n,
                row > 0,
        ;
    }
    if inner == row {
        assert(inner / row == 1) by (nonlinear_arith)
            requires
                inner == row,
                row > 0,
        ;
    }
}

/// A horizontal overlay has a column for each entry, or as many as the screen has
/// room for beside the margin, but always one; it is as wide as they and the
/// padding need, as far as the screen allows.
pub proof fn a_horizontal_overlay_shows_what_fits(
    style: Style,
    screen: ScreenSize,
    item_count: usize,
)
    requires
        geometry_fits(style, Layout::Horizontal, item_count),
        0 < item_count,
        style.horizontal_item_width > 0,
        screen.width > style.screen_margin,
    ensures
        ({
            let g = geometry_of(style, Layout::Horizontal, screen, item_count);
            let room = screen.width - style.screen_margin;
            let one = style.horizontal_item_width as int;
            let shown = g.visible_capacity as int;
            &&& 1 <= shown <= item_count
            &&& shown > 1 ==> 2 * style.padding + shown * one <= room
            &&& shown < item_count ==> 2 * style.padding + (shown + 1) * one > room
            &&& 2 * style.padding + shown * one <= screen.width ==> g.width == 2 * style.padding
                + shown * one
            &&& 2 * style.padding + shown * one > screen.width ==> g.width == screen.width
        }),
{
    let one = style.horizontal_item_width as int;
    let space = column_room(style, screen);
    let q = space / one;
    assert(item_width(style) == one);
    assert(0 <= q <= 65535 && q * one <= space < (q + 1) * one) by (nonlinear_arith)
        requires
            q == space / one,
            0 <= space <= 65535,
            one >= 1,
    ;
    let shown = horizontal_columns(style, screen, item_count);
    assert(one * shown == shown * one) by (nonlinear_arith);
    if shown <= q {
        assert(shown * one <= q * one) by (nonlinear_arith)
            requires
                shown <= q,
                one >= 1,
        ;
    }
    if q <= shown {
        assert((q + 1) * one <= (shown + 1) * one) by (nonlinear_arith)
            requires
                q <= shown,
                one >= 1,
        ;
    }
    assert(shown * one >= 1) by (nonlinear_arith)
        requires
            shown >= 1,
            one >= 1,
    ;
}

/// A horizontal overlay is as high as the style says or the icons need, with the
/// padding; the margin on the screen may take from that, but never from what the
/// icons need.
pub proof fn a_horizontal_overlay_has_room_for_icons(
    style: Style,
    screen: ScreenSize,
    item_count: usize,
)
    requires
        geometry_fits(style, Layout::Horizontal, item_count),
        2 * style.padding + style.icon_max_size + 2 * style.icon_margin <= u16::MAX,
        2 * style.padding + style.horizontal_item_height <= u16::MAX,
    ensures
        ({
            let g = geometry_of(style, Layout::Horizontal, screen, item_count);
            let room = screen.height - style.screen_margin;
            let least = 2 * style.padding + style.icon_max_size + 2 * style.icon_margin;
            let wanted = 2 * style.padding + style.horizontal_item_height;
            &&& g.height >= least
            &&& wanted <= least ==> g.height == least
            &&& wanted > least && (room <= 0 || wanted <= room) ==> g.height == wanted
            &&& wanted > room > least ==> g.height == room
            &&& 0 < room <= least ==> g.height == least
        }),
{
}

/// A border lies inside its rectangle: the middle of the line is half its width
/// away from each side. There is one exactly if it has a width and there is room
/// for it.
pub proof fn borders_lie_inside(rect: Rect, stroke: u16)
    requires
        stroke <= 32767,
        border_fits(rect, stroke),
    ensures
        border_rect_of(rect, stroke) is Some <==> 0 < stroke < rect.width && stroke < rect.height,
        border_rect_of(rect, stroke) matches Some(line) ==> {
            &&& line.x - rect.x == stroke as int / 2
            &&& line.y - rect.y == stroke as int / 2
            &&& line.width + stroke == rect.width
            &&& line.height + stroke == rect.height
        },
{
}

/// A rectangle covers the points that lie from its corner on to the right and down,
/// as many as it is wide and high, and no others.
pub proof fn a_rectangle_covers_its_points(rect: Rect, i: int, j: int)
    ensures
        rect.covers(rect.x + i, rect.y + j) <==> 0 <= i < rect.width && 0 <= j < rect.height,
{
}

/// Coordinates are whole numbers of sixteen bits with a sign; lengths up to the
/// largest coordinate count as themselves.
pub proof fn coordinates_have_sixteen_bits(v: int, length: u16)
    ensures
        fits_i16(v) <==> -32768 <= v <= 32767,
        length <= 32767 ==> coordinate(length) == length,
{
}

/// An overlay has a size exactly if the icons' square, and what the entries and the
/// padding need, can be written down.
pub proof fn most_overlays_have_a_size(style: Style, item_count: usize)
    requires
        0 < item_count <= u32::MAX,
    ensures
        geometry_fits(style, Layout::Vertical, item_count) <==> style.icon_max_size + 2
            * style.icon_margin <= 65535 && 2 * style.padding + style.row_height * item_count
            <= 0xffff_ffff,
        geometry_fits(style, Layout::Horizontal, item_count) <==> style.icon_max_size + 2
            * style.icon_margin <= 65535 && style.padding <= 32767,
{
    assert(counted(item_count) == item_count);
}

/// Where there is nothing to show there is room for one entry all the same.
pub proof fn an_empty_overlay_has_room_for_one(
    style: Style,
    layout: Layout,
    screen: ScreenSize,
)
    ensures
        geometry_of(style, layout, screen, 0) == geometry_of(style, layout, screen, 1),
        geometry_fits(style, layout, 0) <==> geometry_fits(style, layout, 1),
{
}

/// On a screen that the margin would use up the margin does not count: a vertical
/// overlay shows all its rows, and a horizontal one uses the whole width.
pub proof fn a_margin_that_is_too_large_does_not_count(
    style: Style,
    screen: ScreenSize,
    item_count: usize,
)
    requires
        geometry_fits(style, Layout::Vertical, item_count),
        geometry_fits(style, Layout::Horizontal, item_count),
        0 < item_count <= u32::MAX,
        style.row_height > 0,
        style.horizontal_item_width > 0,
        2 * style.padding + style.row_height * item_count <= u16::MAX,
    ensures
        ({
            let down = geometry_of(style, Layout::Vertical, screen, item_count);
            let across = geometry_of(style, Layout::Horizontal, screen, item_count);
            let one = style.horizontal_item_width as int;
            let shown = across.visible_capacity as int;
            &&& screen.height <= style.screen_margin ==> down.height == 2 * style.padding
                + style.row_height * item_count && down.visible_capacity == item_count
            &&& screen.width <= style.screen_margin ==> {
                &&& 1 <= shown <= item_count
                &&& shown > 1 ==> 2 * style.padding + shown * one <= screen.width
                &&& shown < item_count ==> 2 * style.padding + (shown + 1) * one > screen.width
            }
        }),
{
    let row = style.row_height as int;
    let n = item_count as int;
    assert(counted(item_count) == item_count);
    assert(row * n >= row) by (nonlinear_arith)
        requires
            row > 0,
            n >= 1,
    ;
    assert((row * n) / row == n) by (nonlinear_arith)
        requires
            row > 0,
    ;
    let one = style.horizontal_item_width as int;
    let space = column_room(style, screen);
    let q = space / one;
    assert(item_width(style) == one);
    assert(0 <= q <= 65535 && q * one <= space < (q + 1) * one) by (nonlinear_arith)
        requires
            q == space / one,
            0 <= space <= 65535,
            one >= 1,
    ;
    let shown = horizontal_columns(style, screen, item_count);
    if shown <= q {
        assert(shown * one <= q * one) by (nonlinear_arith)
            requires
                shown <= q,
                one >= 1,
        ;
    }
    if q <= shown {
        assert((q + 1) * one <= (shown + 1) * one) by (nonlinear_arith)
            requires
                q <= shown,
                one >= 1,
        ;
    }
}

} // verus!
