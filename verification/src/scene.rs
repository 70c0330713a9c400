//! What is drawn: the overlay as a list of things for the X server to do.

use crate::color::{blend_colors, blended};
use crate::config::Layout;
use crate::geometry::{
    border_fits, border_rect, border_rect_of, coordinate, fits_i16, max, to_i16,
    CoordinateOverflow, Rect,
};
use crate::overlay::{OverlayState, OverlayWindow, WindowEntry};
use crate::slots::{
    column_rect, grid_fits, grid_of, hit_rect, inner_width, make_grid, place_column, place_row, row_rect, Grid,
};
use crate::style::{fitted_label, fitted_width, icon_area_of, label_margin, Style};
use crate::util::{sanitize_ascii, sanitized};
use vstd::prelude::*;

verus! {

/// One thing to draw; graphics contexts are named by their X11 identifiers.
#[derive(Debug, PartialEq, Eq)]
pub enum DrawOp {
    /// A filled rectangle.
    Fill { gc: u32, rect: Rect },
    /// The icon of the window at a position, over a background colour.
    Icon { index: usize, x: i16, y: i16, background: u32 },
    /// The outline of a rectangle.
    Outline { gc: u32, rect: Rect },
    /// A line of text.
    Text { gc: u32, x: i16, y: i16, bytes: Vec<u8> },
}

/// One thing that is drawn.
pub enum Drawing {
    Fill { gc: u32, rect: Rect },
    Icon { index: usize, x: i16, y: i16, background: u32 },
    Outline { gc: u32, rect: Rect },
    Text { gc: u32, x: i16, y: i16, bytes: Seq<u8> },
}

impl View for DrawOp {
    type V = Drawing;

    open spec fn view(&self) -> Drawing {
        match *self {
            DrawOp::Fill { gc, rect } => Drawing::Fill { gc, rect },
            DrawOp::Icon { index, x, y, background } => Drawing::Icon { index, x, y, background },
            DrawOp::Outline { gc, rect } => Drawing::Outline { gc, rect },
            DrawOp::Text { gc, x, y, bytes } => Drawing::Text { gc, x, y, bytes: bytes@ },
        }
    }
}

/// What a list of operations draws.
pub open spec fn drawn(ops: Seq<DrawOp>) -> Seq<Drawing> {
    ops.map_values(|op: DrawOp| op@)
}

/// The bytes of a text that are drawn: ASCII, and at most 255 of them.
pub open spec fn text_bytes_of(text: Seq<char>) -> Seq<u8> {
    Seq::new(
        if text.len() <= 255 {
            text.len()
        } else {
            255
        },
        |i: int| sanitized(text)[i] as u8,
    )
}

/// The bytes of a text that are drawn.
pub fn text_bytes(text: &str) -> (r: Vec<u8>)
    ensures
        r@ == text_bytes_of(text@),
{
    let ascii = sanitize_ascii(text);
    let chars = crate::text::chars_of(ascii.as_str());
    let n: usize = if chars.len() <= 255 {
        chars.len()
    } else {
        255
    };
    let mut r: Vec<u8> = Vec::new();
    let mut i: usize = 0;
    while i < n
        invariant
            i <= n <= chars@.len(),
            chars@ == sanitized(text@),
            n == text_bytes_of(text@).len(),
            r@ == text_bytes_of(text@).take(i as int),
        decreases n - i,
    {
        r.push(chars[i] as u8);
        proof {
            assert(r@ =~= text_bytes_of(text@).take(i + 1));
        }
        i = i + 1;
    }
    proof {
        assert(text_bytes_of(text@).take(n as int) =~= text_bytes_of(text@));
    }
    r
}

/// The colour behind an entry under the pointer.
pub open spec fn hover_color(style: Style) -> u32 {
    blended(style.overlay_background, style.highlight_background)
}

/// The colour behind an entry.
pub open spec fn item_background(style: Style, selected: bool, hovered: bool) -> u32 {
    if selected {
        style.highlight_background
    } else if hovered {
        hover_color(style)
    } else {
        style.overlay_background
    }
}

/// The background of an entry, if it is not that of the overlay.
pub open spec fn item_fill(
    overlay: OverlayWindow,
    rect: Rect,
    selected: bool,
    hovered: bool,
) -> Seq<Drawing> {
    if selected {
        seq![Drawing::Fill { gc: overlay.highlight_gc, rect }]
    } else if hovered {
        seq![Drawing::Fill { gc: overlay.hover_gc, rect }]
    } else {
        Seq::empty()
    }
}

/// The graphics context of an entry's border.
pub open spec fn item_border_gc(overlay: OverlayWindow, selected: bool) -> Option<u32> {
    if selected && overlay.item_selected_border_gc is Some {
        overlay.item_selected_border_gc
    } else {
        overlay.item_border_gc
    }
}

/// A border inside a rectangle, if it has a stroke, a graphics context and room.
pub open spec fn border(gc: Option<u32>, rect: Rect, stroke: u16) -> Seq<Drawing> {
    match (gc, border_rect_of(rect, stroke)) {
        (Some(gc), Some(rect)) => seq![Drawing::Outline { gc, rect }],
        _ => Seq::empty(),
    }
}

/// The graphics context of an entry's label.
pub open spec fn label_gc(overlay: OverlayWindow, selected: bool, hovered: bool) -> u32 {
    if selected {
        overlay.selected_text_gc
    } else if hovered {
        overlay.hover_text_gc
    } else {
        overlay.text_gc
    }
}

/// Half of what is left of `room` beside `size`, or nothing.
pub open spec fn half_rest(room: int, size: int) -> int {
    if room > size {
        (room - size) / 2
    } else {
        0
    }
}

/// Where a label starts in a row.
pub open spec fn row_text_offset(style: Style) -> int {
    (icon_area_of(style) as i16) + style.vertical_text_gap
}

/// Whether the coordinates of row `slot` fit.
pub open spec fn row_fits(
    style: Style,
    overlay: OverlayWindow,
    entry: WindowEntry,
    slot: int,
    selected: bool,
) -> bool {
    &&& 2 * style.padding <= u16::MAX
    &&& match row_rect(style, overlay, slot) {
        None => false,
        Some(rect) => {
            &&& match entry.icon {
                Some(icon) => {
                    &&& fits_i16(rect.x + coordinate(style.icon_margin))
                    &&& fits_i16(coordinate(style.row_height) - coordinate(icon.height))
                    &&& fits_i16(
                        rect.y + half_rest(coordinate(style.row_height), coordinate(icon.height)),
                    )
                },
                None => true,
            }
            &&& item_border_gc(overlay, selected) is Some ==> border_fits(
                rect,
                style.item_border_width,
            )
            &&& fits_i16(rect.x + row_text_offset(style))
            &&& fits_i16(rect.y + style.vertical_text_baseline)
        },
    }
}

/// The icon of a row.
pub open spec fn row_icon(
    style: Style,
    rect: Rect,
    entry: WindowEntry,
    index: usize,
    background: u32,
) -> Seq<Drawing> {
    match entry.icon {
        Some(icon) => seq![
            Drawing::Icon {
                index,
                x: (rect.x + coordinate(style.icon_margin)) as i16,
                y: (rect.y + half_rest(coordinate(style.row_height), coordinate(icon.height))) as i16,
                background,
            },
        ],
        None => Seq::empty(),
    }
}

/// What is drawn of the window at position `index` in row `slot`.
pub open spec fn row_drawings(
    style: Style,
    overlay: OverlayWindow,
    entry: WindowEntry,
    index: usize,
    slot: int,
    selected: bool,
    hovered: bool,
) -> Seq<Drawing> {
    let rect = row_rect(style, overlay, slot)->0;
    item_fill(overlay, rect, selected, hovered) + row_icon(
        style,
        rect,
        entry,
        index,
        item_background(style, selected, hovered),
    ) + border(item_border_gc(overlay, selected), rect, style.item_border_width) + seq![
        Drawing::Text {
            gc: label_gc(overlay, selected, hovered),
            x: (rect.x + row_text_offset(style)) as i16,
            y: (rect.y + style.vertical_text_baseline) as i16,
            bytes: text_bytes_of(entry.title@),
        },
    ]
}

/// The columns as they are drawn.
pub open spec fn drawn_grid(style: Style, overlay: OverlayWindow) -> Grid {
    grid_of(style, overlay, style.horizontal_item_width as int, true)
}

/// Whether a column has a label.
pub open spec fn has_label(style: Style, title: Seq<char>, width: int) -> bool {
    fitted_label(style, title, width).len() > 0 && fitted_width(style, title, width) > 0
}

/// Where a label would start in the middle of a column.
pub open spec fn label_middle(style: Style, rect: Rect, title: Seq<char>) -> int {
    rect.x + half_rest(rect.width as int, fitted_width(style, title, rect.width as int))
}

/// The leftmost start of a label in a column.
pub open spec fn label_leftmost(style: Style, rect: Rect) -> int {
    rect.x + style.horizontal_text_offset
}

/// The rightmost start of a label in a column.
pub open spec fn label_rightmost(style: Style, rect: Rect) -> int {
    rect.x + coordinate(rect.width) - style.horizontal_text_offset
}

/// Where a label starts in a column: in the middle, but not too far to the left,
/// and above all not too far to the right.
pub open spec fn label_x(style: Style, rect: Rect, title: Seq<char>) -> int {
    let x = max(label_middle(style, rect, title), label_leftmost(style, rect));
    if x > label_rightmost(style, rect) {
        label_rightmost(style, rect)
    } else {
        x
    }
}

/// Whether the coordinates of column `slot` fit.
pub open spec fn column_fits(
    style: Style,
    overlay: OverlayWindow,
    entry: WindowEntry,
    slot: int,
    selected: bool,
) -> bool {
    match column_rect(style, drawn_grid(style, overlay), slot) {
        None => false,
        Some(rect) => {
            &&& match entry.icon {
                Some(icon) => {
                    &&& fits_i16(rect.x + half_rest(rect.width as int, icon.width as int))
                    &&& fits_i16(
                        coordinate(style.padding) + half_rest(
                            icon_area_of(style),
                            icon.height as int,
                        ),
                    )
                },
                None => true,
            }
            &&& item_border_gc(overlay, selected) is Some ==> border_fits(
                rect,
                style.item_border_width,
            )
            &&& entry.title@.len() > 0 ==> label_margin(style) <= u16::MAX
            &&& has_label(style, entry.title@, rect.width as int) ==> {
                &&& fits_i16(label_middle(style, rect, entry.title@))
                &&& fits_i16(label_leftmost(style, rect))
                &&& fits_i16(rect.x + coordinate(rect.width))
                &&& fits_i16(label_rightmost(style, rect))
                &&& fits_i16(coordinate(style.padding) + style.horizontal_text_baseline)
            }
        },
    }
}

/// The icon of a column.
pub open spec fn column_icon(
    style: Style,
    rect: Rect,
    entry: WindowEntry,
    index: usize,
    background: u32,
) -> Seq<Drawing> {
    match entry.icon {
        Some(icon) => seq![
            Drawing::Icon {
                index,
                x: (rect.x + half_rest(rect.width as int, icon.width as int)) as i16,
                y: (coordinate(style.padding) + half_rest(
                    icon_area_of(style),
                    icon.height as int,
                )) as i16,
                background,
            },
        ],
        None => Seq::empty(),
    }
}

/// The label of a column.
pub open spec fn column_label(
    style: Style,
    overlay: OverlayWindow,
    rect: Rect,
    title: Seq<char>,
    selected: bool,
    hovered: bool,
) -> Seq<Drawing> {
    if has_label(style, title, rect.width as int) {
        seq![
            Drawing::Text {
                gc: label_gc(overlay, selected, hovered),
                x: label_x(style, rect, title) as i16,
                y: (coordinate(style.padding) + style.horizontal_text_baseline) as i16,
                bytes: text_bytes_of(fitted_label(style, title, rect.width as int)),
            },
        ]
    } else {
        Seq::empty()
    }
}

/// What is drawn of the window at position `index` in column `slot`.
pub open spec fn column_drawings(
    style: Style,
    overlay: OverlayWindow,
    entry: WindowEntry,
    index: usize,
    slot: int,
    selected: bool,
    hovered: bool,
) -> Seq<Drawing> {
    let rect = column_rect(style, drawn_grid(style, overlay), slot)->0;
    item_fill(overlay, rect, selected, hovered) + column_icon(
        style,
        rect,
        entry,
        index,
        item_background(style, selected, hovered),
    ) + border(item_border_gc(overlay, selected), rect, style.item_border_width) + column_label(
        style,
        overlay,
        rect,
        entry.title@,
        selected,
        hovered,
    )
}

/// The number of entries in view.
pub open spec fn visible_count(state: OverlayState) -> int {
    max(0, state.visible_end() - state.first_visible)
}

/// Whether the coordinates of the entry in view at `slot` fit.
pub open spec fn item_fits(style: Style, state: OverlayState, slot: int) -> bool {
    let index = state.first_visible + slot;
    let entry = state.windows@[index];
    match state.overlay.layout {
        Layout::Vertical => row_fits(style, state.overlay, entry, slot, index == state.current),
        Layout::Horizontal => column_fits(
            style,
            state.overlay,
            entry,
            slot,
            index == state.current,
        ),
    }
}

/// What is drawn of the entry in view at `slot`.
pub open spec fn item_drawings(style: Style, state: OverlayState, slot: int) -> Seq<Drawing> {
    let index = (state.first_visible + slot) as usize;
    let entry = state.windows@[index as int];
    let selected = index == state.current;
    let hovered = state.hovered == Some(index);
    match state.overlay.layout {
        Layout::Vertical => row_drawings(
            style,
            state.overlay,
            entry,
            index,
            slot,
            selected,
            hovered,
        ),
        Layout::Horizontal => column_drawings(
            style,
            state.overlay,
            entry,
            index,
            slot,
            selected,
            hovered,
        ),
    }
}

/// What is drawn of the first `count` entries in view.
pub open spec fn items_drawings(style: Style, state: OverlayState, count: int) -> Seq<Drawing>
    decreases count,
{
    if count <= 0 {
        Seq::empty()
    } else {
        items_drawings(style, state, count - 1) + item_drawings(style, state, count - 1)
    }
}

/// The whole overlay.
pub open spec fn overlay_rect(overlay: OverlayWindow) -> Rect {
    Rect { x: 0, y: 0, width: overlay.width, height: overlay.height }
}

/// Whether all coordinates of the overlay fit.
pub open spec fn scene_fits(style: Style, state: OverlayState) -> bool {
    &&& icon_area_of(style) <= u16::MAX
    &&& match state.overlay.layout {
        Layout::Vertical => fits_i16(row_text_offset(style)),
        Layout::Horizontal => 2 * style.padding <= u16::MAX && grid_fits(
            style,
            state.overlay,
            style.horizontal_item_width as int,
            true,
        ),
    }
    &&& forall|slot: int|
        0 <= slot < visible_count(state) ==> #[trigger] item_fits(style, state, slot)
    &&& state.overlay.border_gc is Some ==> border_fits(
        overlay_rect(state.overlay),
        style.overlay_border_width,
    )
}

/// What is drawn of the overlay: its background, the entries in view, and its
/// border.
pub open spec fn scene(style: Style, state: OverlayState) -> Seq<Drawing> {
    seq![
        Drawing::Fill { gc: state.overlay.background_gc, rect: overlay_rect(state.overlay) },
    ] + items_drawings(style, state, visible_count(state)) + border(
        state.overlay.border_gc,
        overlay_rect(state.overlay),
        style.overlay_border_width,
    )
}

/// One more operation draws one thing more.
proof fn lemma_drawn_push(ops: Seq<DrawOp>, op: DrawOp)
    ensures
        drawn(ops.push(op)) == drawn(ops).push(op@),
{
    assert(drawn(ops.push(op)) =~= drawn(ops).push(op@));
}

/// Appending is associative.
proof fn lemma_append(a: Seq<Drawing>, b: Seq<Drawing>, c: Seq<Drawing>)
    ensures
        (a + b) + c == a + (b + c),
{
    assert((a + b) + c =~= a + (b + c));
}

fn half(room: i32, size: i32) -> (r: i32)
    requires
        -0x10000 <= room <= 0x10000,
        -0x10000 <= size <= 0x10000,
    ensures
        r == half_rest(room as int, size as int),
        0 <= r <= 0x10000,
{
    if room > size {
        (room - size) / 2
    } else {
        0
    }
}

fn background_of(style: &Style, selected: bool, hovered: bool) -> (r: u32)
    ensures
        r == item_background(*style, selected, hovered),
{
    if selected {
        style.highlight_background
    } else if hovered {
        blend_colors(style.overlay_background, style.highlight_background)
    } else {
        style.overlay_background
    }
}

fn label_gc_of(overlay: &OverlayWindow, selected: bool, hovered: bool) -> (r: u32)
    ensures
        r == label_gc(*overlay, selected, hovered),
{
    if selected {
        overlay.selected_text_gc
    } else if hovered {
        overlay.hover_text_gc
    } else {
        overlay.text_gc
    }
}

fn draw_fill(
    ops: &mut Vec<DrawOp>,
    overlay: &OverlayWindow,
    rect: Rect,
    selected: bool,
    hovered: bool,
)
    ensures
        drawn(final(ops)@) == drawn(old(ops)@) + item_fill(*overlay, rect, selected, hovered),
{
    let ghost before = ops@;
    if selected {
        ops.push(DrawOp::Fill { gc: overlay.highlight_gc, rect });
        proof {
            lemma_drawn_push(before, ops@.last());
            assert(ops@ =~= before.push(ops@.last()));
        }
    } else if hovered {
        ops.push(DrawOp::Fill { gc: overlay.hover_gc, rect });
        proof {
            lemma_drawn_push(before, ops@.last());
            assert(ops@ =~= before.push(ops@.last()));
        }
    }
    proof {
        assert(drawn(ops@) =~= drawn(before) + item_fill(*overlay, rect, selected, hovered));
    }
}

/// Draws a border inside a rectangle.
fn draw_border(ops: &mut Vec<DrawOp>, gc: Option<u32>, rect: Rect, stroke: u16) -> (r: Result<
    (),
    CoordinateOverflow,
>)
    ensures
        r is Ok <==> (gc is Some ==> border_fits(rect, stroke)),
        r is Ok ==> drawn(final(ops)@) == drawn(old(ops)@) + border(gc, rect, stroke),
{
    let ghost before = ops@;
    match gc {
        Some(gc) => {
            match border_rect(rect, stroke) {
                Ok(Some(inside)) => {
                    ops.push(DrawOp::Outline { gc, rect: inside });
                    proof {
                        lemma_drawn_push(before, ops@.last());
                        assert(ops@ =~= before.push(ops@.last()));
                    }
                },
                Ok(None) => {},
                Err(e) => {
                    return Err(e);
                },
            }
        },
        None => {},
    }
    proof {
        assert(drawn(ops@) =~= drawn(before) + border(gc, rect, stroke));
    }
    Ok(())
}

fn border_gc_of(overlay: &OverlayWindow, selected: bool) -> (r: Option<u32>)
    ensures
        r == item_border_gc(*overlay, selected),
{
    if selected {
        match overlay.item_selected_border_gc {
            Some(gc) => Some(gc),
            None => overlay.item_border_gc,
        }
    } else {
        overlay.item_border_gc
    }
}

/// Draws the window at position `index` in row `slot`.
#[verifier::rlimit(30)]
fn draw_row(
    ops: &mut Vec<DrawOp>,
    style: &Style,
    overlay: &OverlayWindow,
    entry: &WindowEntry,
    index: usize,
    slot: usize,
    selected: bool,
    hovered: bool,
) -> (r: Result<(), CoordinateOverflow>)
    requires
        icon_area_of(*style) <= u16::MAX,
        fits_i16(row_text_offset(*style)),
    ensures
        r is Ok <==> row_fits(*style, *overlay, *entry, slot as int, selected),
        r is Ok ==> drawn(final(ops)@) == drawn(old(ops)@) + row_drawings(
            *style,
            *overlay,
            *entry,
            index,
            slot as int,
            selected,
            hovered,
        ),
{
    if style.padding > 32767 {
        return Err(CoordinateOverflow);
    }
    let rect = match place_row(style, overlay, slot) {
        Ok(rect) => rect,
        Err(e) => {
            return Err(e);
        },
    };
    let ghost start = drawn(ops@);
    draw_fill(ops, overlay, rect, selected, hovered);
    let background = background_of(style, selected, hovered);
    let ghost filled = ops@;
    match &entry.icon {
        Some(icon) => {
            let x = match to_i16(rect.x as i32 + (style.icon_margin as i16) as i32) {
                Ok(x) => x,
                Err(e) => {
                    return Err(e);
                },
            };
            let row: i32 = (style.row_height as i16) as i32;
            let high: i32 = (icon.height as i16) as i32;
            match to_i16(row - high) {
                Ok(_) => {},
                Err(e) => {
                    return Err(e);
                },
            }
            let y = match to_i16(rect.y as i32 + half(row, high)) {
                Ok(y) => y,
                Err(e) => {
                    return Err(e);
                },
            };
            ops.push(DrawOp::Icon { index, x, y, background });
            proof {
                lemma_drawn_push(filled, ops@.last());
                assert(ops@ =~= filled.push(ops@.last()));
            }
        },
        None => {},
    }
    proof {
        assert(drawn(ops@) =~= drawn(filled) + row_icon(*style, rect, *entry, index, background));
    }
    match draw_border(ops, border_gc_of(overlay, selected), rect, style.item_border_width) {
        Ok(_) => {},
        Err(e) => {
            return Err(e);
        },
    }
    let ghost bordered = ops@;
    let offset = style.vertical_text_offset();
    let x = match to_i16(rect.x as i32 + offset as i32) {
        Ok(x) => x,
        Err(e) => {
            return Err(e);
        },
    };
    let y = match to_i16(rect.y as i32 + style.vertical_text_baseline as i32) {
        Ok(y) => y,
        Err(e) => {
            return Err(e);
        },
    };
    let bytes = text_bytes(entry.title.as_str());
    ops.push(DrawOp::Text { gc: label_gc_of(overlay, selected, hovered), x, y, bytes });
    proof {
        lemma_drawn_push(bordered, ops@.last());
        assert(ops@ =~= bordered.push(ops@.last()));
        assert(drawn(ops@) =~= start + row_drawings(
            *style,
            *overlay,
            *entry,
            index,
            slot as int,
            selected,
            hovered,
        ));
    }
    Ok(())
}

/// Draws the label of a column.
#[verifier::rlimit(30)]
fn draw_column_label(
    ops: &mut Vec<DrawOp>,
    style: &Style,
    overlay: &OverlayWindow,
    rect: Rect,
    title: &str,
    selected: bool,
    hovered: bool,
) -> (r: Result<(), CoordinateOverflow>)
    ensures
        r is Ok <==> {
            &&& title@.len() > 0 ==> label_margin(*style) <= u16::MAX
            &&& has_label(*style, title@, rect.width as int) ==> {
                &&& fits_i16(label_middle(*style, rect, title@))
                &&& fits_i16(label_leftmost(*style, rect))
                &&& fits_i16(rect.x + coordinate(rect.width))
                &&& fits_i16(label_rightmost(*style, rect))
                &&& fits_i16(coordinate(style.padding) + style.horizontal_text_baseline)
            }
        },
        r is Ok ==> drawn(final(ops)@) == drawn(old(ops)@) + column_label(
            *style,
            *overlay,
            rect,
            title@,
            selected,
            hovered,
        ),
{
    let ghost before = ops@;
    if !title.is_empty() && (style.horizontal_text_offset as u16) > 32767 {
        return Err(CoordinateOverflow);
    }
    let (label, approx_width) = style.fit_horizontal_label(title, rect.width);
    if label.as_str().is_empty() || approx_width == 0 {
        proof {
            assert(drawn(ops@) =~= drawn(before) + column_label(
                *style,
                *overlay,
                rect,
                title@,
                selected,
                hovered,
            ));
        }
        return Ok(());
    }
    let offset: i32 = style.horizontal_text_offset as i32;
    let mut x = match to_i16(rect.x as i32 + half(rect.width as i32, approx_width as i32)) {
        Ok(x) => x,
        Err(e) => {
            return Err(e);
        },
    };
    let leftmost = match to_i16(rect.x as i32 + offset) {
        Ok(x) => x,
        Err(e) => {
            return Err(e);
        },
    };
    if x < leftmost {
        x = leftmost;
    }
    let end = match to_i16(rect.x as i32 + (rect.width as i16) as i32) {
        Ok(x) => x,
        Err(e) => {
            return Err(e);
        },
    };
    let rightmost = match to_i16(end as i32 - offset) {
        Ok(x) => x,
        Err(e) => {
            return Err(e);
        },
    };
    if x > rightmost {
        x = rightmost;
    }
    let y = match to_i16((style.padding as i16) as i32 + style.horizontal_text_baseline as i32) {
        Ok(y) => y,
        Err(e) => {
            return Err(e);
        },
    };
    let bytes = text_bytes(label.as_str());
    ops.push(DrawOp::Text { gc: label_gc_of(overlay, selected, hovered), x, y, bytes });
    proof {
        lemma_drawn_push(before, ops@.last());
        assert(ops@ =~= before.push(ops@.last()));
        assert(drawn(ops@) =~= drawn(before) + column_label(
            *style,
            *overlay,
            rect,
            title@,
            selected,
            hovered,
        ));
    }
    Ok(())
}

/// Draws the window at position `index` in column `slot`.
#[verifier::rlimit(30)]
fn draw_column(
    ops: &mut Vec<DrawOp>,
    style: &Style,
    overlay: &OverlayWindow,
    grid: &Grid,
    entry: &WindowEntry,
    index: usize,
    slot: usize,
    selected: bool,
    hovered: bool,
) -> (r: Result<(), CoordinateOverflow>)
    requires
        icon_area_of(*style) <= u16::MAX,
        *grid == drawn_grid(*style, *overlay),
    ensures
        r is Ok <==> column_fits(*style, *overlay, *entry, slot as int, selected),
        r is Ok ==> drawn(final(ops)@) == drawn(old(ops)@) + column_drawings(
            *style,
            *overlay,
            *entry,
            index,
            slot as int,
            selected,
            hovered,
        ),
{
    let rect = match place_column(style, grid, slot) {
        Ok(rect) => rect,
        Err(e) => {
            return Err(e);
        },
    };
    let ghost start = drawn(ops@);
    draw_fill(ops, overlay, rect, selected, hovered);
    let background = background_of(style, selected, hovered);
    let ghost filled = ops@;
    match &entry.icon {
        Some(icon) => {
            let x = match to_i16(rect.x as i32 + half(rect.width as i32, icon.width as i32)) {
                Ok(x) => x,
                Err(e) => {
                    return Err(e);
                },
            };
            let area = style.icon_area();
            let y = match to_i16(
                (style.padding as i16) as i32 + half(area as i32, icon.height as i32),
            ) {
                Ok(y) => y,
                Err(e) => {
                    return Err(e);
                },
            };
            ops.push(DrawOp::Icon { index, x, y, background });
            proof {
                lemma_drawn_push(filled, ops@.last());
                assert(ops@ =~= filled.push(ops@.last()));
            }
        },
        None => {},
    }
    proof {
        assert(drawn(ops@) =~= drawn(filled) + column_icon(*style, rect, *entry, index, background));
    }
    match draw_border(ops, border_gc_of(overlay, selected), rect, style.item_border_width) {
        Ok(_) => {},
        Err(e) => {
            return Err(e);
        },
    }
    match draw_column_label(ops, style, overlay, rect, entry.title.as_str(), selected, hovered) {
        Ok(_) => {},
        Err(e) => {
            return Err(e);
        },
    }
    proof {
        assert(drawn(ops@) =~= start + column_drawings(
            *style,
            *overlay,
            *entry,
            index,
            slot as int,
            selected,
            hovered,
        ));
    }
    Ok(())
}

/// Draws the entry in view at `slot`, the window at position `index`.
fn draw_item(
    ops: &mut Vec<DrawOp>,
    style: &Style,
    state: &OverlayState,
    grid: &Grid,
    index: usize,
    slot: usize,
) -> (r: Result<(), CoordinateOverflow>)
    requires
        index == state.first_visible + slot,
        index < state.windows@.len(),
        icon_area_of(*style) <= u16::MAX,
        state.overlay.layout is Vertical ==> fits_i16(row_text_offset(*style)),
        state.overlay.layout is Horizontal ==> *grid == drawn_grid(*style, state.overlay),
    ensures
        r is Ok <==> item_fits(*style, *state, slot as int),
        r is Ok ==> drawn(final(ops)@) == drawn(old(ops)@) + item_drawings(
            *style,
            *state,
            slot as int,
        ),
{
    let entry = &state.windows[index];
    let overlay = &state.overlay;
    let selected = index == state.current;
    let hovered = match state.hovered {
        Some(at) => at == index,
        None => false,
    };
    match overlay.layout {
        Layout::Vertical => draw_row(ops, style, overlay, entry, index, slot, selected, hovered),
        Layout::Horizontal => draw_column(
            ops,
            style,
            overlay,
            grid,
            entry,
            index,
            slot,
            selected,
            hovered,
        ),
    }
}

/// Draws the overlay.
#[verifier::rlimit(30)]
pub fn redraw_overlay(style: &Style, state: &OverlayState) -> (r: Result<
    Vec<DrawOp>,
    CoordinateOverflow,
>)
    ensures
        r is Ok <==> scene_fits(*style, *state),
        r matches Ok(ops) ==> drawn(ops@) == scene(*style, *state),
{
    if style.icon_max_size as u32 + style.icon_margin as u32 * 2 > 65535 {
        return Err(CoordinateOverflow);
    }
    let overlay = &state.overlay;
    let vertical = match overlay.layout {
        Layout::Vertical => true,
        Layout::Horizontal => false,
    };
    let grid = if vertical {
        let area: i32 = (style.icon_area() as i16) as i32;
        match to_i16(area + style.vertical_text_gap as i32) {
            Ok(_) => {},
            Err(e) => {
                return Err(e);
            },
        }
        Grid { cell: 0, height: 0, leading: 0 }
    } else {
        if style.padding > 32767 {
            return Err(CoordinateOverflow);
        }
        match make_grid(style, overlay, style.horizontal_item_width, true) {
            Ok(grid) => grid,
            Err(e) => {
                return Err(e);
            },
        }
    };
    let whole = Rect { x: 0, y: 0, width: overlay.width, height: overlay.height };
    let mut ops: Vec<DrawOp> = Vec::new();
    ops.push(DrawOp::Fill { gc: overlay.background_gc, rect: whole });
    let ghost first = seq![
        Drawing::Fill { gc: state.overlay.background_gc, rect: overlay_rect(state.overlay) },
    ];
    proof {
        assert(drawn(ops@) =~= first);
        assert(first + items_drawings(*style, *state, 0) =~= first);
    }
    let range = state.visible_range();
    let start: usize = range.start;
    let mut index: usize = start;
    while index < range.end
        invariant
            range.start == start,
            start == state.first_visible,
            range.end == state.visible_end(),
            range.end <= state.windows@.len(),
            index >= start,
            index == start || index <= range.end,
            overlay == state.overlay,
            vertical == (state.overlay.layout is Vertical),
            icon_area_of(*style) <= u16::MAX,
            vertical ==> fits_i16(row_text_offset(*style)),
            !vertical ==> grid == drawn_grid(*style, state.overlay),
            forall|slot: int|
                0 <= slot < index - start ==> #[trigger] item_fits(*style, *state, slot),
            drawn(ops@) == first + items_drawings(*style, *state, index - start),
        decreases range.end - index,
    {
        let slot: usize = index - start;
        let done = draw_item(&mut ops, style, state, &grid, index, slot);
        match done {
            Ok(_) => {},
            Err(e) => {
                return Err(e);
            },
        }
        proof {
            lemma_append(
                first,
                items_drawings(*style, *state, slot as int),
                item_drawings(*style, *state, slot as int),
            );
        }
        index = index + 1;
    }
    match draw_border(&mut ops, overlay.border_gc, whole, style.overlay_border_width) {
        Ok(_) => {},
        Err(e) => {
            return Err(e);
        },
    }
    proof {
        assert(index - start == visible_count(*state));
    }
    Ok(ops)
}

/// Where the entry in view at `slot` is drawn.
pub open spec fn drawn_rect(style: Style, overlay: OverlayWindow, slot: int) -> Option<Rect> {
    match overlay.layout {
        Layout::Vertical => row_rect(style, overlay, slot),
        Layout::Horizontal => column_rect(style, drawn_grid(style, overlay), slot),
    }
}

/// The pointer finds an entry exactly where it is drawn, as long as columns have
/// a width and room.
pub proof fn entries_are_hit_where_they_are_drawn(style: Style, overlay: OverlayWindow, slot: int)
    requires
        overlay.layout is Horizontal ==> style.horizontal_item_width > 0 && inner_width(
            style,
            overlay,
        ) > 0,
    ensures
        drawn_rect(style, overlay, slot) == hit_rect(style, overlay, slot),
{
}

/// What is drawn of an entry is part of what is drawn of all.
proof fn lemma_item_is_drawn(style: Style, state: OverlayState, count: int, slot: int, what: Drawing)
    requires
        0 <= slot < count,
        item_drawings(style, state, slot).contains(what),
    ensures
        items_drawings(style, state, count).contains(what),
    decreases count,
{
    let before = items_drawings(style, state, count - 1);
    let last = item_drawings(style, state, count - 1);
    if slot == count - 1 {
        let i = choose|i: int| 0 <= i < last.len() && last[i] == what;
        assert((before + last)[before.len() + i] == what);
    } else {
        lemma_item_is_drawn(style, state, count - 1, slot, what);
        let i = choose|i: int| 0 <= i < before.len() && before[i] == what;
        assert((before + last)[i] == what);
    }
}

/// The selected entry is always drawn, on the background of the selection.
pub proof fn the_selection_is_drawn(style: Style, state: OverlayState)
    requires
        state.wf(),
        scene_fits(style, state),
    ensures
        drawn_rect(style, state.overlay, state.current - state.first_visible) is Some,
        scene(style, state).contains(
            (Drawing::Fill {
                gc: state.overlay.highlight_gc,
                rect: drawn_rect(
                    style,
                    state.overlay,
                    state.current - state.first_visible,
                )->0,
            }),
        ),
{
    let slot = state.current - state.first_visible;
    assert(item_fits(style, state, slot));
    let rect = drawn_rect(style, state.overlay, slot)->0;
    let what = Drawing::Fill { gc: state.overlay.highlight_gc, rect };
    assert(item_drawings(style, state, slot)[0] == what);
    let count = visible_count(state);
    lemma_item_is_drawn(style, state, count, slot, what);
    let items = items_drawings(style, state, count);
    let i = choose|i: int| 0 <= i < items.len() && items[i] == what;
    assert(scene(style, state)[1 + i] == what);
}

/// What is drawn of an entry shows what it is. The selected entry stands on the
/// selection's background, an entry under the pointer that is not selected on the
/// mix of both backgrounds, and every other entry on the overlay's own; fill, icon
/// and label agree on that, and the label is written accordingly.
pub proof fn entries_are_drawn_in_their_look(
    style: Style,
    state: OverlayState,
    slot: int,
    k: int,
)
    requires
        0 <= slot < visible_count(state),
        0 <= k < item_drawings(style, state, slot).len(),
    ensures
        ({
            let overlay = state.overlay;
            let index = state.first_visible + slot;
            let selected = state.current == index;
            let pointed = !selected && state.hovered == Some(index as usize);
            &&& index < state.windows@.len()
            &&& match item_drawings(style, state, slot)[k] {
                Drawing::Fill { gc, rect } => {
                    &&& drawn_rect(style, overlay, slot) is Some ==> Some(rect) == drawn_rect(
                        style,
                        overlay,
                        slot,
                    )
                    &&& selected || pointed
                    &&& selected ==> gc == overlay.highlight_gc
                    &&& pointed ==> gc == overlay.hover_gc
                },
                Drawing::Icon { index: shown, x: _, y: _, background } => {
                    &&& shown == index
                    &&& state.windows@[index].icon is Some
                    &&& selected ==> background == style.highlight_background
                    &&& pointed ==> background == blended(
                        style.overlay_background,
                        style.highlight_background,
                    )
                    &&& !selected && !pointed ==> background == style.overlay_background
                },
                Drawing::Outline { gc, rect: _ } => {
                    &&& style.item_border_width > 0
                    &&& selected && overlay.item_selected_border_gc is Some ==> Some(gc)
                        == overlay.item_selected_border_gc
                    &&& !selected || overlay.item_selected_border_gc is None ==> Some(gc)
                        == overlay.item_border_gc
                },
                Drawing::Text { gc, x: _, y: _, bytes: _ } => {
                    &&& selected ==> gc == overlay.selected_text_gc
                    &&& pointed ==> gc == overlay.hover_text_gc
                    &&& !selected && !pointed ==> gc == overlay.text_gc
                },
            }
        }),
{
    assert(state.windows.len() == state.windows@.len());
}

/// The fill of an entry is drawn first, and there is one exactly if the entry is
/// selected or under the pointer; then come its icon, if it has one, its border
/// and its label, each at most once. In a row there always is a label.
pub proof fn entries_have_all_their_parts(style: Style, state: OverlayState, slot: int)
    requires
        0 <= slot < visible_count(state),
    ensures
        ({
            let parts = item_drawings(style, state, slot);
            let index = state.first_visible + slot;
            let filled = if state.current == index || state.hovered == Some(index as usize) {
                1int
            } else {
                0int
            };
            let pictured = if state.windows@[index].icon is Some {
                1int
            } else {
                0int
            };
            &&& filled == 1 ==> parts.len() > 0 && parts[0] is Fill
            &&& pictured == 1 ==> parts.len() > filled && parts[filled] is Icon
            &&& forall|k: int| 0 <= k < parts.len() && #[trigger] parts[k] is Fill ==> k == 0
            &&& forall|k: int| 0 <= k < parts.len() && #[trigger] parts[k] is Icon ==> k == filled
            &&& forall|k: int|
                0 <= k < parts.len() && #[trigger] parts[k] is Outline ==> k == filled + pictured
            &&& forall|k: int|
                0 <= k < parts.len() && #[trigger] parts[k] is Text ==> k == parts.len() - 1
            &&& state.overlay.layout is Vertical ==> parts.len() > 0 && parts.last() is Text
        }),
{
    assert(state.windows.len() == state.windows@.len());
    let overlay = state.overlay;
    let index = (state.first_visible + slot) as usize;
    let entry = state.windows@[index as int];
    let selected = index == state.current;
    let hovered = state.hovered == Some(index);
    let rect = match overlay.layout {
        Layout::Vertical => row_rect(style, overlay, slot)->0,
        Layout::Horizontal => column_rect(style, drawn_grid(style, overlay), slot)->0,
    };
    let background = item_background(style, selected, hovered);
    let fill = item_fill(overlay, rect, selected, hovered);
    let icon = match overlay.layout {
        Layout::Vertical => row_icon(style, rect, entry, index, background),
        Layout::Horizontal => column_icon(style, rect, entry, index, background),
    };
    let line = border(item_border_gc(overlay, selected), rect, style.item_border_width);
    let parts = item_drawings(style, state, slot);
    let label = match overlay.layout {
        Layout::Vertical => seq![
            Drawing::Text {
                gc: label_gc(overlay, selected, hovered),
                x: (rect.x + row_text_offset(style)) as i16,
                y: (rect.y + style.vertical_text_baseline) as i16,
                bytes: text_bytes_of(entry.title@),
            },
        ],
        Layout::Horizontal => column_label(style, overlay, rect, entry.title@, selected, hovered),
    };
    assert(parts.len() == fill.len() + icon.len() + line.len() + label.len());
    assert(fill.len() <= 1 && icon.len() <= 1 && line.len() <= 1 && label.len() <= 1);
    lemma_four_parts(fill, icon, line, label);
    assert(parts =~= fill + icon + line + label);
}

/// Four lists of one drawing at most, one behind the other.
proof fn lemma_four_parts(
    fill: Seq<Drawing>,
    icon: Seq<Drawing>,
    line: Seq<Drawing>,
    label: Seq<Drawing>,
)
    requires
        fill.len() <= 1,
        icon.len() <= 1,
        line.len() <= 1,
        label.len() <= 1,
        fill.len() == 1 ==> fill[0] is Fill,
        icon.len() == 1 ==> icon[0] is Icon,
        line.len() == 1 ==> line[0] is Outline,
        label.len() == 1 ==> label[0] is Text,
    ensures
        ({
            let parts = fill + icon + line + label;
            let a = fill.len() as int;
            let b = icon.len() as int;
            &&& a == 1 ==> parts[0] is Fill
            &&& b == 1 ==> parts[a] is Icon
            &&& label.len() == 1 ==> parts.last() is Text
            &&& forall|k: int| 0 <= k < parts.len() && #[trigger] parts[k] is Fill ==> k == 0
            &&& forall|k: int| 0 <= k < parts.len() && #[trigger] parts[k] is Icon ==> k == a
            &&& forall|k: int| 0 <= k < parts.len() && #[trigger] parts[k] is Outline ==> k == a + b
            &&& forall|k: int|
                0 <= k < parts.len() && #[trigger] parts[k] is Text ==> k == parts.len() - 1
        }),
{
}

/// What the entries show is drawn one entry after the other, from the first one in
/// view on, over the background of the whole overlay and below its border.
pub proof fn the_overlay_is_drawn_entry_by_entry(style: Style, state: OverlayState)
    ensures
        ({
            let parts = Seq::new(
                visible_count(state) as nat,
                |slot: int| item_drawings(style, state, slot),
            );
            let whole = Rect {
                x: 0,
                y: 0,
                width: state.overlay.width,
                height: state.overlay.height,
            };
            let ground = Drawing::Fill { gc: state.overlay.background_gc, rect: whole };
            let below = seq![ground] + parts.flatten();
            &&& scene(style, state).len() >= below.len()
            &&& scene(style, state).take(below.len() as int) == below
            &&& match (state.overlay.border_gc, border_rect_of(whole, style.overlay_border_width)) {
                (Some(gc), Some(rect)) => scene(style, state) == below.push(
                    Drawing::Outline { gc, rect },
                ),
                _ => scene(style, state) == below,
            }
        }),
{
    let n = visible_count(state);
    let parts = Seq::new(n as nat, |slot: int| item_drawings(style, state, slot));
    lemma_items_flatten(style, state, n);
    let first = seq![
        Drawing::Fill { gc: state.overlay.background_gc, rect: overlay_rect(state.overlay) },
    ];
    let below = first + parts.flatten();
    assert(scene(style, state).take(below.len() as int) =~= below);
    match (
        state.overlay.border_gc,
        border_rect_of(overlay_rect(state.overlay), style.overlay_border_width),
    ) {
        (Some(gc), Some(rect)) => {
            assert(scene(style, state) =~= below.push(Drawing::Outline { gc, rect }));
        },
        _ => {
            assert(scene(style, state) =~= below);
        },
    }
}

proof fn lemma_items_flatten(style: Style, state: OverlayState, count: int)
    requires
        0 <= count,
    ensures
        items_drawings(style, state, count) == Seq::new(
            count as nat,
            |slot: int| item_drawings(style, state, slot),
        ).flatten(),
    decreases count,
{
    let parts = Seq::new(count as nat, |slot: int| item_drawings(style, state, slot));
    if count > 0 {
        lemma_items_flatten(style, state, count - 1);
        let before = Seq::new((count - 1) as nat, |slot: int| item_drawings(style, state, slot));
        assert(parts.drop_last() =~= before);
        parts.lemma_flatten_and_flatten_alt_are_equivalent();
        before.lemma_flatten_and_flatten_alt_are_equivalent();
        assert(parts.flatten_alt() == before.flatten_alt() + parts.last());
    } else {
        assert(parts.flatten() =~= Seq::<Drawing>::empty());
    }
}

/// What is drawn of all entries is drawn of one of them.
proof fn lemma_drawn_of_an_entry(style: Style, state: OverlayState, count: int, i: int) -> (slot:
    int)
    requires
        0 <= i < items_drawings(style, state, count).len(),
    ensures
        0 <= slot < count,
        item_drawings(style, state, slot).contains(items_drawings(style, state, count)[i]),
    decreases count,
{
    let before = items_drawings(style, state, count - 1);
    let last = item_drawings(style, state, count - 1);
    if i < before.len() {
        assert(items_drawings(style, state, count)[i] == before[i]);
        lemma_drawn_of_an_entry(style, state, count - 1, i)
    } else {
        assert(items_drawings(style, state, count)[i] == last[i - before.len()]);
        count - 1
    }
}

/// Every label in the overlay belongs to an entry in view. It is written as
/// selected if that entry is the selected one, as hovered if it is not but the
/// pointer is over it, and as ordinary text in all other cases; so while the
/// pointer is over no entry, no label is written as hovered.
pub proof fn labels_tell_the_entries_apart(style: Style, state: OverlayState, i: int) -> (slot: int)
    requires
        0 <= i < scene(style, state).len(),
        scene(style, state)[i] is Text,
    ensures
        0 <= slot < visible_count(state),
        item_drawings(style, state, slot).contains(scene(style, state)[i]),
        ({
            let gc = scene(style, state)[i]->Text_gc;
            let index = state.first_visible + slot;
            &&& state.current == index ==> gc == state.overlay.selected_text_gc
            &&& state.current != index && state.hovered == Some(index as usize) ==> gc
                == state.overlay.hover_text_gc
            &&& state.current != index && state.hovered != Some(index as usize) ==> gc
                == state.overlay.text_gc
            &&& state.hovered is None ==> gc == state.overlay.text_gc || gc
                == state.overlay.selected_text_gc
        }),
{
    let n = visible_count(state);
    let items = items_drawings(style, state, n);
    assert(1 <= i <= items.len());
    assert(scene(style, state)[i] == items[i - 1]);
    let slot = lemma_drawn_of_an_entry(style, state, n, i - 1);
    let parts = item_drawings(style, state, slot);
    let k = choose|k: int| 0 <= k < parts.len() && parts[k] == scene(style, state)[i];
    entries_are_drawn_in_their_look(style, state, slot, k);
    slot
}

/// The bytes of a text that are drawn are its first 255 characters, each one at its
/// place; a character beyond ASCII is drawn as a question mark.
pub proof fn texts_are_drawn_character_by_character(text: Seq<char>, i: int)
    requires
        0 <= i < text.len(),
    ensures
        text.len() <= 255 ==> text_bytes_of(text).len() == text.len(),
        text.len() > 255 ==> text_bytes_of(text).len() == 255,
        i < 255 && text[i] as u32 <= 127 ==> text_bytes_of(text)[i] as u32 == text[i] as u32,
        i < 255 && text[i] as u32 > 127 ==> text_bytes_of(text)[i] == 63,
{
    crate::util::characters_keep_their_places(text, i);
}

/// Where an entry stands in a row: its icon behind the margin and in the middle of
/// the height, and its label behind the icon's square and the gap, with the whole
/// title.
pub proof fn rows_are_laid_out(style: Style, state: OverlayState, slot: int, k: int)
    requires
        0 <= slot < visible_count(state),
        0 <= k < item_drawings(style, state, slot).len(),
        state.overlay.layout is Vertical,
        item_fits(style, state, slot),
        style.icon_max_size + 2 * style.icon_margin <= 32767,
        style.row_height <= 32767,
    ensures
        ({
            let rect = drawn_rect(style, state.overlay, slot)->0;
            let entry = state.windows@[state.first_visible + slot];
            &&& drawn_rect(style, state.overlay, slot) is Some
            &&& match item_drawings(style, state, slot)[k] {
                Drawing::Icon { index: _, x, y, background: _ } => {
                    let height = entry.icon->0.height as int;
                    &&& x - rect.x == style.icon_margin
                    &&& height <= style.row_height ==> style.row_height - 1 <= 2 * (y - rect.y)
                        + height <= style.row_height
                    &&& style.row_height < height <= 32767 ==> y == rect.y
                },
                Drawing::Text { gc: _, x, y, bytes } => {
                    &&& x - rect.x == style.icon_margin + style.icon_max_size + style.icon_margin
                        + style.vertical_text_gap
                    &&& y - rect.y == style.vertical_text_baseline
                    &&& bytes == text_bytes_of(entry.title@)
                },
                Drawing::Outline { gc: _, rect: line } => Some(line) == border_rect_of(
                    rect,
                    style.item_border_width,
                ),
                Drawing::Fill { gc: _, rect: ground } => ground == rect,
            }
        }),
{
    assert(state.windows.len() == state.windows@.len());
}

/// Where an entry stands in a column: its icon in the middle of the width and of
/// the icon's square at the top, and its label on the baseline, in the middle of
/// the width where the space beside it allows that, and else within that space.
pub proof fn columns_are_laid_out(style: Style, state: OverlayState, slot: int, k: int)
    requires
        0 <= slot < visible_count(state),
        0 <= k < item_drawings(style, state, slot).len(),
        state.overlay.layout is Horizontal,
        item_fits(style, state, slot),
        style.padding <= 32767,
        drawn_rect(style, state.overlay, slot)->0.width <= 32767,
    ensures
        ({
            let rect = drawn_rect(style, state.overlay, slot)->0;
            let entry = state.windows@[state.first_visible + slot];
            let area = style.icon_max_size + 2 * style.icon_margin;
            let offset = style.horizontal_text_offset as int;
            &&& drawn_rect(style, state.overlay, slot) is Some
            &&& match item_drawings(style, state, slot)[k] {
                Drawing::Icon { index: _, x, y, background: _ } => {
                    let width = entry.icon->0.width as int;
                    let height = entry.icon->0.height as int;
                    &&& width <= rect.width ==> rect.width - 1 <= 2 * (x - rect.x) + width
                        <= rect.width
                    &&& width > rect.width ==> x == rect.x
                    &&& height <= area ==> area - 1 <= 2 * (y - style.padding) + height <= area
                    &&& height > area ==> y == style.padding
                },
                Drawing::Text { gc: _, x, y, bytes } => {
                    let label = fitted_label(style, entry.title@, rect.width as int);
                    let width = fitted_width(style, entry.title@, rect.width as int);
                    let left = (if width <= rect.width {
                        (rect.width - width) / 2
                    } else {
                        0
                    });
                    &&& label.len() > 0 && width > 0
                    &&& y - style.padding == style.horizontal_text_baseline
                    &&& bytes == text_bytes_of(label)
                    &&& offset <= left <= rect.width - offset ==> x - rect.x == left
                    &&& left < offset <= rect.width - offset ==> x - rect.x == offset
                    &&& rect.width - offset < left || rect.width - offset < offset ==> x - rect.x
                        == rect.width - offset
                },
                Drawing::Outline { gc: _, rect: line } => Some(line) == border_rect_of(
                    rect,
                    style.item_border_width,
                ),
                Drawing::Fill { gc: _, rect: ground } => ground == rect,
            }
        }),
{
    assert(state.windows.len() == state.windows@.len());
}

/// A column has a label exactly if one fits into it that has characters and width.
pub proof fn columns_have_labels_where_they_fit(style: Style, state: OverlayState, slot: int)
    requires
        0 <= slot < visible_count(state),
        state.overlay.layout is Horizontal,
    ensures
        ({
            let rect = drawn_rect(style, state.overlay, slot)->0;
            let title = state.windows@[state.first_visible + slot].title@;
            let parts = item_drawings(style, state, slot);
            (parts.len() > 0 && parts.last() is Text) <==> (fitted_label(
                style,
                title,
                rect.width as int,
            ).len() > 0 && fitted_width(style, title, rect.width as int) > 0)
        }),
{
    assert(state.windows.len() == state.windows@.len());
}

/// As many entries are in view as there is room for and as there are from the first
/// one in view on.
pub proof fn as_many_entries_as_possible_are_drawn(state: OverlayState)
    requires
        state.wf(),
    ensures
        visible_count(state) > 0,
        state.first_visible + visible_count(state) <= state.windows@.len(),
        state.overlay.visible_capacity > 0 ==> visible_count(state)
            <= state.overlay.visible_capacity,
        visible_count(state) < state.overlay.visible_capacity ==> state.first_visible
            + visible_count(state) == state.windows@.len(),
{
}

/// A vertical overlay of moderate size can be drawn.
pub proof fn vertical_overlays_of_moderate_size_can_be_drawn(style: Style, state: OverlayState)
    requires
        state.overlay.layout is Vertical,
        style.icon_max_size + 2 * style.icon_margin <= 8000,
        -8000 <= style.vertical_text_gap <= 8000,
        -8000 <= style.vertical_text_baseline <= 8000,
        style.padding <= 4000,
        style.row_height <= 8000,
        style.item_border_width <= 4000,
        style.overlay_border_width <= 4000,
        style.padding + visible_count(state) * style.row_height <= 8000,
        visible_count(state) <= 8000,
        forall|i: int|
            0 <= i < state.windows@.len() ==> ((#[trigger] state.windows@[i]).icon matches Some(
                icon,
            ) ==> icon.height <= 8000),
    ensures
        scene_fits(style, state),
{
    let n = visible_count(state);
    assert(state.windows.len() == state.windows@.len());
    assert forall|slot: int| 0 <= slot < n implies #[trigger] item_fits(style, state, slot) by {
        let row = style.row_height as int;
        assert(0 <= slot * row <= n * row) by (nonlinear_arith)
            requires
                0 <= slot < n,
                0 <= row,
        ;
        let index = state.first_visible + slot;
        let entry = state.windows@[index];
        assert(row_rect(style, state.overlay, slot) is Some);
    }
}

/// A horizontal overlay of moderate size can be drawn.
pub proof fn horizontal_overlays_of_moderate_size_can_be_drawn(style: Style, state: OverlayState)
    requires
        state.overlay.layout is Horizontal,
        style.icon_max_size + 2 * style.icon_margin <= 8000,
        0 <= style.horizontal_text_offset <= 4000,
        -8000 <= style.horizontal_text_baseline <= 8000,
        style.padding <= 4000,
        1 <= style.horizontal_item_width <= 8000,
        style.item_border_width <= 4000,
        style.overlay_border_width <= 4000,
        1 <= state.overlay.visible_capacity <= 8000,
        2 * style.padding < state.overlay.width <= 16000,
        state.overlay.visible_capacity + 2 * style.padding <= state.overlay.width,
        forall|i: int|
            0 <= i < state.windows@.len() ==> ((#[trigger] state.windows@[i]).icon matches Some(
                icon,
            ) ==> icon.height <= 8000 && icon.width <= 8000),
    ensures
        scene_fits(style, state),
{
    let n = visible_count(state);
    let base = style.horizontal_item_width as int;
    assert(state.windows.len() == state.windows@.len());
    crate::slots::columns_have_places(style, state.overlay, base, true, 0);
    assert forall|slot: int| 0 <= slot < n implies #[trigger] item_fits(style, state, slot) by {
        crate::slots::columns_have_places(style, state.overlay, base, true, slot);
        crate::slots::columns_end_inside(style, state.overlay, base, true, slot);
        let rect = column_rect(style, drawn_grid(style, state.overlay), slot)->0;
        let index = state.first_visible + slot;
        let entry = state.windows@[index];
        crate::style::labels_stay_in_their_cell(style, entry.title@, rect.width as int);
    }
}

} // verus!
