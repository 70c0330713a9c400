//! The graphics contexts that the overlay is drawn with.

use crate::color::{blend_colors, blended};
use crate::scene::item_background;
use crate::style::Style;
use vstd::prelude::*;

verus! {

/// The colours of a graphics context.
#[derive(Clone, Copy, Debug, PartialEq, Eq, Structural)]
pub struct Paint {
    pub foreground: u32,
    pub background: u32,
}

/// The colours and the width of a graphics context for lines.
#[derive(Clone, Copy, Debug, PartialEq, Eq, Structural)]
pub struct Stroke {
    pub paint: Paint,
    pub line_width: u32,
}

/// All graphics contexts of the overlay.
#[derive(Clone, Copy, Debug, PartialEq, Eq, Structural)]
pub struct Palette {
    pub background: Paint,
    pub text: Paint,
    pub hover_text: Paint,
    pub selected_text: Paint,
    pub highlight: Paint,
    pub hover: Paint,
    pub icon: Paint,
    pub border: Option<Stroke>,
    pub item_border: Option<Stroke>,
    pub item_selected_border: Option<Stroke>,
}

/// A context for lines of a width; there is none for lines without width.
pub open spec fn stroke_of(foreground: u32, background: u32, line_width: u16) -> Option<Stroke> {
    if line_width == 0 {
        None
    } else {
        Some(
            Stroke {
                paint: Paint { foreground, background },
                line_width: line_width as u32,
            },
        )
    }
}

/// A context for lines of a width; there is none for lines without width.
pub fn line_stroke(foreground: u32, background: u32, line_width: u16) -> (r: Option<Stroke>)
    ensures
        r == stroke_of(foreground, background, line_width),
{
    if line_width == 0 {
        None
    } else {
        Some(Stroke { paint: Paint { foreground, background }, line_width: line_width as u32 })
    }
}

/// The graphics contexts of the overlay in a style.
pub open spec fn palette_of(style: Style) -> Palette {
    let plain = style.overlay_background;
    let selected = style.highlight_background;
    let hover = blended(plain, selected);
    Palette {
        background: Paint { foreground: plain, background: plain },
        text: Paint { foreground: style.text_color, background: plain },
        hover_text: Paint { foreground: style.text_color, background: hover },
        selected_text: Paint { foreground: style.text_selected_color, background: selected },
        highlight: Paint { foreground: selected, background: selected },
        hover: Paint { foreground: hover, background: plain },
        icon: Paint { foreground: plain, background: plain },
        border: stroke_of(style.overlay_border_color, plain, style.overlay_border_width),
        item_border: stroke_of(style.item_border_color, plain, style.item_border_width),
        item_selected_border: stroke_of(
            style.item_selected_border_color,
            selected,
            style.item_border_width,
        ),
    }
}

/// The graphics contexts of the overlay in a style.
pub fn overlay_palette(style: &Style) -> (r: Palette)
    ensures
        r == palette_of(*style),
{
    let plain = style.overlay_background;
    let selected = style.highlight_background;
    let hover = blend_colors(plain, selected);
    Palette {
        background: Paint { foreground: plain, background: plain },
        text: Paint { foreground: style.text_color, background: plain },
        hover_text: Paint { foreground: style.text_color, background: hover },
        selected_text: Paint { foreground: style.text_selected_color, background: selected },
        highlight: Paint { foreground: selected, background: selected },
        hover: Paint { foreground: hover, background: plain },
        icon: Paint { foreground: plain, background: plain },
        border: line_stroke(style.overlay_border_color, plain, style.overlay_border_width),
        item_border: line_stroke(style.item_border_color, plain, style.item_border_width),
        item_selected_border: line_stroke(
            style.item_selected_border_color,
            selected,
            style.item_border_width,
        ),
    }
}

/// What a label is written with.
pub open spec fn label_paint(palette: Palette, selected: bool, hovered: bool) -> Paint {
    if selected {
        palette.selected_text
    } else if hovered {
        palette.hover_text
    } else {
        palette.text
    }
}

/// What an entry is filled with.
pub open spec fn fill_paint(palette: Palette, selected: bool, hovered: bool) -> Paint {
    if selected {
        palette.highlight
    } else if hovered {
        palette.hover
    } else {
        palette.background
    }
}

/// Fill, label and icon of an entry stand on one and the same background.
pub proof fn entries_have_one_background(style: Style, selected: bool, hovered: bool)
    ensures
        fill_paint(palette_of(style), selected, hovered).foreground == item_background(
            style,
            selected,
            hovered,
        ),
        label_paint(palette_of(style), selected, hovered).background == item_background(
            style,
            selected,
            hovered,
        ),
{
}

/// The colours of a style end up where they belong: text in the text colour on
/// the overlay's background or, under the pointer, on a mix of both backgrounds,
/// and the selected entry in its own two colours. A border is drawn exactly if it
/// has a width, in its own colour and width.
pub proof fn looks_have_the_colours_of_the_style(style: Style)
    ensures
        ({
            let palette = palette_of(style);
            let plain = style.overlay_background;
            let selected = style.highlight_background;
            let mix = blended(plain, selected);
            &&& palette.background.foreground == plain
            &&& palette.text == (Paint { foreground: style.text_color, background: plain })
            &&& palette.hover_text == (Paint { foreground: style.text_color, background: mix })
            &&& palette.selected_text == (Paint {
                foreground: style.text_selected_color,
                background: selected,
            })
            &&& palette.highlight.foreground == selected
            &&& palette.hover.foreground == mix
            &&& palette.border is Some <==> style.overlay_border_width > 0
            &&& palette.item_border is Some <==> style.item_border_width > 0
            &&& palette.item_selected_border is Some <==> style.item_border_width > 0
            &&& palette.border matches Some(stroke) ==> stroke.paint.foreground
                == style.overlay_border_color && stroke.paint.background == plain
                && stroke.line_width == style.overlay_border_width
            &&& palette.item_border matches Some(stroke) ==> stroke.paint.foreground
                == style.item_border_color && stroke.paint.background == plain && stroke.line_width
                == style.item_border_width
            &&& palette.item_selected_border matches Some(stroke) ==> stroke.paint.foreground
                == style.item_selected_border_color && stroke.paint.background == selected
                && stroke.line_width == style.item_border_width
        }),
{
}

} // verus!
