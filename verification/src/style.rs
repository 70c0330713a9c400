//! How the overlay looks: the style, and what a style sheet makes of it.

use crate::css::{under, CssDeclarations, CssRules, Declarations, Rules};
use crate::text::{same_text, views};
use crate::textmap::{distinct_keys, value_of, Pairs};
use crate::util::{sanitize_ascii, sanitized};
use crate::values::{
    color_value, length_value, number_texts, number_texts_of, offset_value, parse_color,
    parse_i16_px, parse_u16_px, reading, Problem, Readings, StyleError,
};
use vstd::prelude::*;

verus! {

/// Colours, lengths and offsets of the overlay.
#[derive(Clone)]
pub struct Style {
    /// The background of the overlay.
    pub overlay_background: u32,
    /// The background of the selected entry.
    pub highlight_background: u32,
    /// The colour of a label.
    pub text_color: u32,
    /// The colour of the selected entry's label.
    pub text_selected_color: u32,
    /// The width of a vertical overlay.
    pub overlay_width: u16,
    /// The height of an entry in a vertical overlay.
    pub row_height: u16,
    /// The space around the entries.
    pub padding: u16,
    /// The space that the overlay leaves on the screen.
    pub screen_margin: u16,
    /// The largest side of an icon.
    pub icon_max_size: u16,
    /// The space around an icon.
    pub icon_margin: u16,
    /// The space between icon and label in a vertical overlay.
    pub vertical_text_gap: i16,
    /// Where a label's baseline lies in a vertical overlay.
    pub vertical_text_baseline: i16,
    /// The width of an entry in a horizontal overlay.
    pub horizontal_item_width: u16,
    /// The height of an entry in a horizontal overlay.
    pub horizontal_item_height: u16,
    /// The space beside a label in a horizontal overlay.
    pub horizontal_text_offset: i16,
    /// Where a label's baseline lies in a horizontal overlay.
    pub horizontal_text_baseline: i16,
    /// The assumed width of a character.
    pub horizontal_char_width_estimate: u16,
    /// The width of the overlay's border.
    pub overlay_border_width: u16,
    /// The colour of the overlay's border.
    pub overlay_border_color: u32,
    /// The width of an entry's border.
    pub item_border_width: u16,
    /// The colour of an entry's border.
    pub item_border_color: u32,
    /// The colour of the selected entry's border.
    pub item_selected_border_color: u32,
}

/// A property of the style.
#[derive(Clone, Copy, Debug, PartialEq, Eq, Structural)]
pub enum Field {
    OverlayBackground,
    HighlightBackground,
    TextColor,
    TextSelectedColor,
    OverlayWidth,
    RowHeight,
    Padding,
    ScreenMargin,
    IconMaxSize,
    IconMargin,
    VerticalTextGap,
    VerticalTextBaseline,
    HorizontalItemWidth,
    HorizontalItemHeight,
    HorizontalTextOffset,
    HorizontalTextBaseline,
    HorizontalCharWidthEstimate,
    OverlayBorderWidth,
    OverlayBorderColor,
    ItemBorderWidth,
    ItemBorderColor,
    ItemSelectedBorderColor,
}

/// The style without a style sheet.
pub open spec fn default_style() -> Style {
    Style {
        overlay_background: 0x000000,
        highlight_background: 0xFFFFFF,
        text_color: 0xFFFFFF,
        text_selected_color: 0x000000,
        overlay_width: 600,
        row_height: 56,
        padding: 16,
        screen_margin: 96,
        icon_max_size: 40,
        icon_margin: 8,
        vertical_text_gap: 8,
        vertical_text_baseline: 34,
        horizontal_item_width: 120,
        horizontal_item_height: 92,
        horizontal_text_offset: 8,
        horizontal_text_baseline: 82,
        horizontal_char_width_estimate: 7,
        overlay_border_width: 0,
        overlay_border_color: 0xFFFFFF,
        item_border_width: 0,
        item_border_color: 0xFFFFFF,
        item_selected_border_color: 0xFFFFFF,
    }
}

impl Default for Style {
    fn default() -> (r: Self)
        ensures
            r == default_style(),
    {
        Style {
            overlay_background: 0x000000,
            highlight_background: 0xFFFFFF,
            text_color: 0xFFFFFF,
            text_selected_color: 0x000000,
            overlay_width: 600,
            row_height: 56,
            padding: 16,
            screen_margin: 96,
            icon_max_size: 40,
            icon_margin: 8,
            vertical_text_gap: 8,
            vertical_text_baseline: 34,
            horizontal_item_width: 120,
            horizontal_item_height: 92,
            horizontal_text_offset: 8,
            horizontal_text_baseline: 82,
            horizontal_char_width_estimate: 7,
            overlay_border_width: 0,
            overlay_border_color: 0xFFFFFF,
            item_border_width: 0,
            item_border_color: 0xFFFFFF,
            item_selected_border_color: 0xFFFFFF,
        }
    }
}

/// The value of a property.
pub open spec fn field_value(style: Style, field: Field) -> int {
    match field {
        Field::OverlayBackground => style.overlay_background as int,
        Field::HighlightBackground => style.highlight_background as int,
        Field::TextColor => style.text_color as int,
        Field::TextSelectedColor => style.text_selected_color as int,
        Field::OverlayWidth => style.overlay_width as int,
        Field::RowHeight => style.row_height as int,
        Field::Padding => style.padding as int,
        Field::ScreenMargin => style.screen_margin as int,
        Field::IconMaxSize => style.icon_max_size as int,
        Field::IconMargin => style.icon_margin as int,
        Field::VerticalTextGap => style.vertical_text_gap as int,
        Field::VerticalTextBaseline => style.vertical_text_baseline as int,
        Field::HorizontalItemWidth => style.horizontal_item_width as int,
        Field::HorizontalItemHeight => style.horizontal_item_height as int,
        Field::HorizontalTextOffset => style.horizontal_text_offset as int,
        Field::HorizontalTextBaseline => style.horizontal_text_baseline as int,
        Field::HorizontalCharWidthEstimate => style.horizontal_char_width_estimate as int,
        Field::OverlayBorderWidth => style.overlay_border_width as int,
        Field::OverlayBorderColor => style.overlay_border_color as int,
        Field::ItemBorderWidth => style.item_border_width as int,
        Field::ItemBorderColor => style.item_border_color as int,
        Field::ItemSelectedBorderColor => style.item_selected_border_color as int,
    }
}

/// What a property holds: a colour, a length or an offset.
#[derive(Clone, Copy, Debug, PartialEq, Eq, Structural)]
pub enum FieldKind {
    Color,
    Length,
    Offset,
}

/// What a property holds.
pub open spec fn field_kind(field: Field) -> FieldKind {
    match field {
        Field::OverlayBackground => FieldKind::Color,
        Field::HighlightBackground => FieldKind::Color,
        Field::TextColor => FieldKind::Color,
        Field::TextSelectedColor => FieldKind::Color,
        Field::OverlayWidth => FieldKind::Length,
        Field::RowHeight => FieldKind::Length,
        Field::Padding => FieldKind::Length,
        Field::ScreenMargin => FieldKind::Length,
        Field::IconMaxSize => FieldKind::Length,
        Field::IconMargin => FieldKind::Length,
        Field::VerticalTextGap => FieldKind::Offset,
        Field::VerticalTextBaseline => FieldKind::Offset,
        Field::HorizontalItemWidth => FieldKind::Length,
        Field::HorizontalItemHeight => FieldKind::Length,
        Field::HorizontalTextOffset => FieldKind::Offset,
        Field::HorizontalTextBaseline => FieldKind::Offset,
        Field::HorizontalCharWidthEstimate => FieldKind::Length,
        Field::OverlayBorderWidth => FieldKind::Length,
        Field::OverlayBorderColor => FieldKind::Color,
        Field::ItemBorderWidth => FieldKind::Length,
        Field::ItemBorderColor => FieldKind::Color,
        Field::ItemSelectedBorderColor => FieldKind::Color,
    }
}

/// The style with another value of a property.
pub open spec fn with_field(style: Style, field: Field, value: int) -> Style {
    match field {
        Field::OverlayBackground => Style { overlay_background: value as u32, ..style },
        Field::HighlightBackground => Style { highlight_background: value as u32, ..style },
        Field::TextColor => Style { text_color: value as u32, ..style },
        Field::TextSelectedColor => Style { text_selected_color: value as u32, ..style },
        Field::OverlayWidth => Style { overlay_width: value as u16, ..style },
        Field::RowHeight => Style { row_height: value as u16, ..style },
        Field::Padding => Style { padding: value as u16, ..style },
        Field::ScreenMargin => Style { screen_margin: value as u16, ..style },
        Field::IconMaxSize => Style { icon_max_size: value as u16, ..style },
        Field::IconMargin => Style { icon_margin: value as u16, ..style },
        Field::VerticalTextGap => Style { vertical_text_gap: value as i16, ..style },
        Field::VerticalTextBaseline => Style { vertical_text_baseline: value as i16, ..style },
        Field::HorizontalItemWidth => Style { horizontal_item_width: value as u16, ..style },
        Field::HorizontalItemHeight => Style { horizontal_item_height: value as u16, ..style },
        Field::HorizontalTextOffset => Style { horizontal_text_offset: value as i16, ..style },
        Field::HorizontalTextBaseline => Style { horizontal_text_baseline: value as i16, ..style },
        Field::HorizontalCharWidthEstimate => Style { horizontal_char_width_estimate: value as u16, ..style },
        Field::OverlayBorderWidth => Style { overlay_border_width: value as u16, ..style },
        Field::OverlayBorderColor => Style { overlay_border_color: value as u32, ..style },
        Field::ItemBorderWidth => Style { item_border_width: value as u16, ..style },
        Field::ItemBorderColor => Style { item_border_color: value as u32, ..style },
        Field::ItemSelectedBorderColor => Style { item_selected_border_color: value as u32, ..style },
    }
}

/// The value that a text gives to a property.
pub open spec fn parsed_value(
    field: Field,
    text: Seq<char>,
    readings: Pairs<Option<u64>>,
) -> Result<int, Problem> {
    match field_kind(field) {
        FieldKind::Color => match color_value(text, readings) {
            Ok(color) => Ok(color as int),
            Err(problem) => Err(problem),
        },
        FieldKind::Length => match length_value(text, readings) {
            Ok(length) => Ok(length as int),
            Err(problem) => Err(problem),
        },
        FieldKind::Offset => match offset_value(text, readings) {
            Ok(offset) => Ok(offset as int),
            Err(problem) => Err(problem),
        },
    }
}

/// One thing that a style sheet asks for: a property, and the text of its value.
pub struct Step {
    pub field: Field,
    pub text: Seq<char>,
}

/// What becomes of a style: the style, and the problem at which it was left.
pub struct Applied {
    pub style: Style,
    pub problem: Option<Problem>,
}

/// The style after the steps, up to the first one that has a problem.
pub open spec fn applied(
    style: Style,
    steps: Seq<Step>,
    readings: Pairs<Option<u64>>,
) -> Applied
    decreases steps.len(),
{
    if steps.len() == 0 {
        Applied { style, problem: None }
    } else {
        let before = applied(style, steps.drop_last(), readings);
        if before.problem is Some {
            before
        } else {
            let step = steps.last();
            match parsed_value(step.field, step.text, readings) {
                Ok(value) => Applied {
                    style: with_field(before.style, step.field, value),
                    problem: None,
                },
                Err(problem) => Applied { style: before.style, problem: Some(problem) },
            }
        }
    }
}

/// The names under `:root`, and the properties they stand for.
pub open spec fn root_names() -> Seq<(Seq<char>, Field)> {
    seq![
        ("--overlay-background"@, Field::OverlayBackground),
        ("--highlight-background"@, Field::HighlightBackground),
        ("--text-color"@, Field::TextColor),
        ("--text-selected-color"@, Field::TextSelectedColor),
        ("--overlay-width"@, Field::OverlayWidth),
        ("--padding"@, Field::Padding),
        ("--screen-margin"@, Field::ScreenMargin),
        ("--row-height"@, Field::RowHeight),
        ("--icon-size"@, Field::IconMaxSize),
        ("--icon-margin"@, Field::IconMargin),
        ("--overlay-border-width"@, Field::OverlayBorderWidth),
        ("--overlay-border-color"@, Field::OverlayBorderColor),
        ("--vertical-text-gap"@, Field::VerticalTextGap),
        ("--vertical-text-baseline"@, Field::VerticalTextBaseline),
        ("--horizontal-item-width"@, Field::HorizontalItemWidth),
        ("--horizontal-item-height"@, Field::HorizontalItemHeight),
        ("--horizontal-text-offset"@, Field::HorizontalTextOffset),
        ("--horizontal-text-baseline"@, Field::HorizontalTextBaseline),
        ("--horizontal-char-width"@, Field::HorizontalCharWidthEstimate),
        ("--item-border-width"@, Field::ItemBorderWidth),
        ("--item-border-color"@, Field::ItemBorderColor),
        ("--item-selected-border-color"@, Field::ItemSelectedBorderColor),
    ]
}

/// The selectors and names of a rule's declarations, and the properties they
/// stand for, in the order in which they count.
pub open spec fn rule_names() -> Seq<(Seq<char>, Seq<char>, Field)> {
    seq![
        ("overlay"@, "background"@, Field::OverlayBackground),
        ("overlay"@, "width"@, Field::OverlayWidth),
        ("overlay"@, "padding"@, Field::Padding),
        ("overlay"@, "screen-margin"@, Field::ScreenMargin),
        ("overlay"@, "border-width"@, Field::OverlayBorderWidth),
        ("overlay"@, "border-color"@, Field::OverlayBorderColor),
        ("item"@, "height"@, Field::RowHeight),
        ("item"@, "icon-size"@, Field::IconMaxSize),
        ("item"@, "icon-margin"@, Field::IconMargin),
        ("item"@, "border-width"@, Field::ItemBorderWidth),
        ("item"@, "border-color"@, Field::ItemBorderColor),
        ("item:selected"@, "background"@, Field::HighlightBackground),
        ("item:selected"@, "color"@, Field::TextSelectedColor),
        ("item:selected"@, "border-color"@, Field::ItemSelectedBorderColor),
        ("label"@, "color"@, Field::TextColor),
        ("label:selected"@, "color"@, Field::TextSelectedColor),
        ("horizontal"@, "item-width"@, Field::HorizontalItemWidth),
        ("horizontal"@, "item-height"@, Field::HorizontalItemHeight),
        ("horizontal"@, "text-offset"@, Field::HorizontalTextOffset),
        ("horizontal"@, "text-baseline"@, Field::HorizontalTextBaseline),
        ("horizontal"@, "char-width"@, Field::HorizontalCharWidthEstimate),
        ("vertical"@, "text-gap"@, Field::VerticalTextGap),
        ("vertical"@, "text-baseline"@, Field::VerticalTextBaseline),
    ]
}

/// The property that a name under `:root` stands for, if it is one of the names.
pub open spec fn root_field(names: Seq<(Seq<char>, Field)>, name: Seq<char>) -> Option<Field>
    decreases names.len(),
{
    if names.len() == 0 {
        None
    } else if names[0].0 == name {
        Some(names[0].1)
    } else {
        root_field(names.skip(1), name)
    }
}

/// What the declarations under `:root` ask for, in their order.
pub open spec fn root_steps(declarations: Declarations) -> Seq<Step>
    decreases declarations.len(),
{
    if declarations.len() == 0 {
        Seq::empty()
    } else {
        let before = root_steps(declarations.drop_last());
        let (name, text) = declarations.last();
        match root_field(root_names(), name) {
            Some(field) => before.push(Step { field, text }),
            None => before,
        }
    }
}

/// What the rules ask for under the given selectors and names, in their order.
pub open spec fn rule_steps(rules: Rules, names: Seq<(Seq<char>, Seq<char>, Field)>) -> Seq<Step>
    decreases names.len(),
{
    if names.len() == 0 {
        Seq::empty()
    } else {
        let before = rule_steps(rules, names.drop_last());
        let (selector, name, field) = names.last();
        match value_of(under(rules, selector), name) {
            Some(text) => before.push(Step { field, text }),
            None => before,
        }
    }
}

/// What the rules of a style sheet ask for: first what stands under `:root`,
/// then the rest.
pub open spec fn sheet_steps(rules: Rules) -> Seq<Step> {
    root_steps(under(rules, ":root"@)) + rule_steps(rules, rule_names())
}

/// A selector, a name and the property they stand for.
struct RuleName {
    selector: &'static str,
    name: &'static str,
    field: Field,
}

/// A name under `:root` and the property it stands for.
struct RootName {
    name: &'static str,
    field: Field,
}

spec fn rule_name_views(v: Seq<RuleName>) -> Seq<(Seq<char>, Seq<char>, Field)> {
    v.map_values(|r: RuleName| (r.selector@, r.name@, r.field))
}

spec fn root_name_views(v: Seq<RootName>) -> Seq<(Seq<char>, Field)> {
    v.map_values(|r: RootName| (r.name@, r.field))
}

fn rule_name_table() -> (r: Vec<RuleName>)
    ensures
        rule_name_views(r@) == rule_names(),
{
    let r: Vec<RuleName> = vec![
        RuleName { selector: "overlay", name: "background", field: Field::OverlayBackground },
        RuleName { selector: "overlay", name: "width", field: Field::OverlayWidth },
        RuleName { selector: "overlay", name: "padding", field: Field::Padding },
        RuleName { selector: "overlay", name: "screen-margin", field: Field::ScreenMargin },
        RuleName { selector: "overlay", name: "border-width", field: Field::OverlayBorderWidth },
        RuleName { selector: "overlay", name: "border-color", field: Field::OverlayBorderColor },
        RuleName { selector: "item", name: "height", field: Field::RowHeight },
        RuleName { selector: "item", name: "icon-size", field: Field::IconMaxSize },
        RuleName { selector: "item", name: "icon-margin", field: Field::IconMargin },
        RuleName { selector: "item", name: "border-width", field: Field::ItemBorderWidth },
        RuleName { selector: "item", name: "border-color", field: Field::ItemBorderColor },
        RuleName { selector: "item:selected", name: "background", field: Field::HighlightBackground },
        RuleName { selector: "item:selected", name: "color", field: Field::TextSelectedColor },
        RuleName { selector: "item:selected", name: "border-color", field: Field::ItemSelectedBorderColor },
        RuleName { selector: "label", name: "color", field: Field::TextColor },
        RuleName { selector: "label:selected", name: "color", field: Field::TextSelectedColor },
        RuleName { selector: "horizontal", name: "item-width", field: Field::HorizontalItemWidth },
        RuleName { selector: "horizontal", name: "item-height", field: Field::HorizontalItemHeight },
        RuleName { selector: "horizontal", name: "text-offset", field: Field::HorizontalTextOffset },
        RuleName { selector: "horizontal", name: "text-baseline", field: Field::HorizontalTextBaseline },
        RuleName { selector: "horizontal", name: "char-width", field: Field::HorizontalCharWidthEstimate },
        RuleName { selector: "vertical", name: "text-gap", field: Field::VerticalTextGap },
        RuleName { selector: "vertical", name: "text-baseline", field: Field::VerticalTextBaseline },
    ];
    proof {
        assert(rule_name_views(r@) =~= rule_names());
    }
    r
}

fn root_name_table() -> (r: Vec<RootName>)
    ensures
        root_name_views(r@) == root_names(),
{
    let r: Vec<RootName> = vec![
        RootName { name: "--overlay-background", field: Field::OverlayBackground },
        RootName { name: "--highlight-background", field: Field::HighlightBackground },
        RootName { name: "--text-color", field: Field::TextColor },
        RootName { name: "--text-selected-color", field: Field::TextSelectedColor },
        RootName { name: "--overlay-width", field: Field::OverlayWidth },
        RootName { name: "--padding", field: Field::Padding },
        RootName { name: "--screen-margin", field: Field::ScreenMargin },
        RootName { name: "--row-height", field: Field::RowHeight },
        RootName { name: "--icon-size", field: Field::IconMaxSize },
        RootName { name: "--icon-margin", field: Field::IconMargin },
        RootName { name: "--overlay-border-width", field: Field::OverlayBorderWidth },
        RootName { name: "--overlay-border-color", field: Field::OverlayBorderColor },
        RootName { name: "--vertical-text-gap", field: Field::VerticalTextGap },
        RootName { name: "--vertical-text-baseline", field: Field::VerticalTextBaseline },
        RootName { name: "--horizontal-item-width", field: Field::HorizontalItemWidth },
        RootName { name: "--horizontal-item-height", field: Field::HorizontalItemHeight },
        RootName { name: "--horizontal-text-offset", field: Field::HorizontalTextOffset },
        RootName { name: "--horizontal-text-baseline", field: Field::HorizontalTextBaseline },
        RootName { name: "--horizontal-char-width", field: Field::HorizontalCharWidthEstimate },
        RootName { name: "--item-border-width", field: Field::ItemBorderWidth },
        RootName { name: "--item-border-color", field: Field::ItemBorderColor },
        RootName { name: "--item-selected-border-color", field: Field::ItemSelectedBorderColor },
    ];
    proof {
        assert(root_name_views(r@) =~= root_names());
    }
    r
}

/// The property that a name under `:root` stands for, if it is one of the names.
fn find_root_field(table: &Vec<RootName>, name: &str) -> (r: Option<Field>)
    ensures
        r == root_field(root_name_views(table@), name@),
{
    let mut i: usize = 0;
    let ghost all = root_name_views(table@);
    proof {
        assert(all.skip(0) =~= all);
    }
    while i < table.len()
        invariant
            i <= table@.len(),
            all == root_name_views(table@),
            root_field(all, name@) == root_field(all.skip(i as int), name@),
        decreases table@.len() - i,
    {
        proof {
            assert(all.skip(i as int)[0] == all[i as int]);
            assert(all.skip(i as int).skip(1) =~= all.skip(i + 1));
        }
        if same_text(table[i].name, name) {
            return Some(table[i].field);
        }
        i = i + 1;
    }
    None
}

/// Steps that go on from others go on from what those have made.
proof fn lemma_applied_concat(
    style: Style,
    first: Seq<Step>,
    second: Seq<Step>,
    readings: Pairs<Option<u64>>,
)
    ensures
        applied(style, first, readings).problem is None ==> applied(
            style,
            first + second,
            readings,
        ) == applied(applied(style, first, readings).style, second, readings),
        applied(style, first, readings).problem is Some ==> applied(
            style,
            first + second,
            readings,
        ) == applied(style, first, readings),
    decreases second.len(),
{
    if second.len() == 0 {
        assert(first + second =~= first);
    } else {
        lemma_applied_concat(style, first, second.drop_last(), readings);
        assert((first + second).drop_last() =~= first + second.drop_last());
        assert((first + second).last() == second.last());
    }
}

impl Style {
    /// Gives a property the value that a text stands for.
    fn set(&mut self, field: Field, text: &str, readings: &Readings) -> (r: Result<(), StyleError>)
        ensures
            match r {
                Ok(_) => parsed_value(field, text@, readings@) is Ok && *final(self) == with_field(
                    *old(self),
                    field,
                    parsed_value(field, text@, readings@)->Ok_0,
                ),
                Err(e) => parsed_value(field, text@, readings@) == Err::<int, Problem>(e@)
                    && *final(self) == *old(self),
            },
    {
        match field {
            Field::OverlayBackground => {
                self.overlay_background = match parse_color(text, readings) {
                    Ok(value) => value,
                    Err(e) => {
                        return Err(e);
                    },
                };
            },
            Field::HighlightBackground => {
                self.highlight_background = match parse_color(text, readings) {
                    Ok(value) => value,
                    Err(e) => {
                        return Err(e);
                    },
                };
            },
            Field::TextColor => {
                self.text_color = match parse_color(text, readings) {
                    Ok(value) => value,
                    Err(e) => {
                        return Err(e);
                    },
                };
            },
            Field::TextSelectedColor => {
                self.text_selected_color = match parse_color(text, readings) {
                    Ok(value) => value,
                    Err(e) => {
                        return Err(e);
                    },
                };
            },
            Field::OverlayWidth => {
                self.overlay_width = match parse_u16_px(text, readings) {
                    Ok(value) => value,
                    Err(e) => {
                        return Err(e);
                    },
                };
            },
            Field::RowHeight => {
                self.row_height = match parse_u16_px(text, readings) {
                    Ok(value) => value,
                    Err(e) => {
                        return Err(e);
                    },
                };
            },
            Field::Padding => {
                self.padding = match parse_u16_px(text, readings) {
                    Ok(value) => value,
                    Err(e) => {
                        return Err(e);
                    },
                };
            },
            Field::ScreenMargin => {
                self.screen_margin = match parse_u16_px(text, readings) {
                    Ok(value) => value,
                    Err(e) => {
                        return Err(e);
                    },
                };
            },
            Field::IconMaxSize => {
                self.icon_max_size = match parse_u16_px(text, readings) {
                    Ok(value) => value,
                    Err(e) => {
                        return Err(e);
                    },
                };
            },
            Field::IconMargin => {
                self.icon_margin = match parse_u16_px(text, readings) {
                    Ok(value) => value,
                    Err(e) => {
                        return Err(e);
                    },
                };
            },
            Field::VerticalTextGap => {
                self.vertical_text_gap = match parse_i16_px(text, readings) {
                    Ok(value) => value,
                    Err(e) => {
                        return Err(e);
                    },
                };
            },
            Field::VerticalTextBaseline => {
                self.vertical_text_baseline = match parse_i16_px(text, readings) {
                    Ok(value) => value,
                    Err(e) => {
                        return Err(e);
                    },
                };
            },
            Field::HorizontalItemWidth => {
                self.horizontal_item_width = match parse_u16_px(text, readings) {
                    Ok(value) => value,
                    Err(e) => {
                        return Err(e);
                    },
                };
            },
            Field::HorizontalItemHeight => {
                self.horizontal_item_height = match parse_u16_px(text, readings) {
                    Ok(value) => value,
                    Err(e) => {
                        return Err(e);
                    },
                };
            },
            Field::HorizontalTextOffset => {
                self.horizontal_text_offset = match parse_i16_px(text, readings) {
                    Ok(value) => value,
                    Err(e) => {
                        return Err(e);
                    },
                };
            },
            Field::HorizontalTextBaseline => {
                self.horizontal_text_baseline = match parse_i16_px(text, readings) {
                    Ok(value) => value,
                    Err(e) => {
                        return Err(e);
                    },
                };
            },
            Field::HorizontalCharWidthEstimate => {
                self.horizontal_char_width_estimate = match parse_u16_px(text, readings) {
                    Ok(value) => value,
                    Err(e) => {
                        return Err(e);
                    },
                };
            },
            Field::OverlayBorderWidth => {
                self.overlay_border_width = match parse_u16_px(text, readings) {
                    Ok(value) => value,
                    Err(e) => {
                        return Err(e);
                    },
                };
            },
            Field::OverlayBorderColor => {
                self.overlay_border_color = match parse_color(text, readings) {
                    Ok(value) => value,
                    Err(e) => {
                        return Err(e);
                    },
                };
            },
            Field::ItemBorderWidth => {
                self.item_border_width = match parse_u16_px(text, readings) {
                    Ok(value) => value,
                    Err(e) => {
                        return Err(e);
                    },
                };
            },
            Field::ItemBorderColor => {
                self.item_border_color = match parse_color(text, readings) {
                    Ok(value) => value,
                    Err(e) => {
                        return Err(e);
                    },
                };
            },
            Field::ItemSelectedBorderColor => {
                self.item_selected_border_color = match parse_color(text, readings) {
                    Ok(value) => value,
                    Err(e) => {
                        return Err(e);
                    },
                };
            },
        }
        Ok(())
    }

    /// Applies the declarations under `:root`.
    pub fn apply_root(&mut self, declarations: &CssDeclarations, readings: &Readings) -> (r: Result<
        (),
        StyleError,
    >)
        ensures
            ({
                let outcome = applied(*old(self), root_steps(declarations@), readings@);
                &&& *final(self) == outcome.style
                &&& match r {
                    Ok(_) => outcome.problem is None,
                    Err(e) => outcome.problem == Some(e@),
                }
            }),
    {
        let table = root_name_table();
        let ghost start = *self;
        let ghost all = declarations@;
        let mut i: usize = 0;
        while i < declarations.len()
            invariant
                i <= declarations@.len(),
                start == *old(self),
                all == declarations@,
                root_name_views(table@) == root_names(),
                applied(start, root_steps(all.take(i as int)), readings@) == (Applied {
                    style: *self,
                    problem: None,
                }),
            decreases declarations@.len() - i,
        {
            proof {
                assert(all.take(i + 1).drop_last() =~= all.take(i as int));
                assert(all.take(i + 1).last() == all[i as int]);
            }
            let name = declarations.key_at(i);
            let text = declarations.value_at(i);
            match find_root_field(&table, name.as_str()) {
                Some(field) => {
                    let ghost before = root_steps(all.take(i as int));
                    let ghost step = Step { field, text: text@ };
                    proof {
                        assert(root_steps(all.take(i + 1)) == before.push(step));
                        assert(before.push(step).drop_last() =~= before);
                        assert(before.push(step).last() == step);
                    }
                    match self.set(field, text.as_str(), readings) {
                        Ok(_) => {},
                        Err(e) => {
                            proof {
                                lemma_root_steps_prefix(all, i + 1);
                                lemma_applied_concat(
                                    start,
                                    root_steps(all.take(i + 1)),
                                    root_steps(all).skip(
                                        root_steps(all.take(i + 1)).len() as int,
                                    ),
                                    readings@,
                                );
                            }
                            return Err(e);
                        },
                    }
                },
                None => {},
            }
            i = i + 1;
        }
        proof {
            assert(all.take(all.len() as int) =~= all);
        }
        Ok(())
    }

    /// Applies the rules of a style sheet.
    pub fn apply_rules(&mut self, rules: &CssRules, readings: &Readings) -> (r: Result<
        (),
        StyleError,
    >)
        ensures
            ({
                let outcome = applied(*old(self), sheet_steps(rules@), readings@);
                &&& *final(self) == outcome.style
                &&& match r {
                    Ok(_) => outcome.problem is None,
                    Err(e) => outcome.problem == Some(e@),
                }
            }),
    {
        let ghost start = *self;
        let ghost first = root_steps(under(rules@, ":root"@));
        let ghost names = rule_names();
        proof {
            assert(first + Seq::<Step>::empty() =~= first);
            lemma_applied_concat(start, first, rule_steps(rules@, names), readings@);
            assert(rule_steps(rules@, names.take(0)) =~= Seq::<Step>::empty());
        }
        match rules.get(":root") {
            Some(root) => {
                match self.apply_root(root, readings) {
                    Ok(_) => {},
                    Err(e) => {
                        return Err(e);
                    },
                }
            },
            None => {},
        }
        let table = rule_name_table();
        let ghost middle = *self;
        let mut i: usize = 0;
        while i < table.len()
            invariant
                i <= table@.len(),
                start == *old(self),
                names == rule_names(),
                rule_name_views(table@) == names,
                applied(middle, rule_steps(rules@, names.take(i as int)), readings@) == (Applied {
                    style: *self,
                    problem: None,
                }),
                applied(start, sheet_steps(rules@), readings@) == applied(
                    middle,
                    rule_steps(rules@, names),
                    readings@,
                ),
            decreases table@.len() - i,
        {
            proof {
                assert(names.take(i + 1).drop_last() =~= names.take(i as int));
                assert(names.take(i + 1).last() == names[i as int]);
            }
            let selector = table[i].selector;
            let name = table[i].name;
            let field = table[i].field;
            let ghost before = rule_steps(rules@, names.take(i as int));
            match rules.get(selector) {
                Some(declarations) => {
                    match declarations.get(name) {
                        Some(text) => {
                            let ghost step = Step { field, text: text@ };
                            proof {
                                assert(rule_steps(rules@, names.take(i + 1)) == before.push(step));
                                assert(before.push(step).drop_last() =~= before);
                                assert(before.push(step).last() == step);
                            }
                            match self.set(field, text.as_str(), readings) {
                                Ok(_) => {},
                                Err(e) => {
                                    proof {
                                        lemma_rule_steps_prefix(rules@, names, i + 1);
                                        let done = rule_steps(rules@, names.take(i + 1));
                                        lemma_applied_concat(
                                            middle,
                                            done,
                                            rule_steps(rules@, names).skip(done.len() as int),
                                            readings@,
                                        );
                                    }
                                    return Err(e);
                                },
                            }
                        },
                        None => {},
                    }
                },
                None => {},
            }
            i = i + 1;
        }
        proof {
            assert(names.take(names.len() as int) =~= names);
        }
        Ok(())
    }
}

/// The steps of the first declarations are the first steps.
proof fn lemma_root_steps_prefix(all: Declarations, i: int)
    requires
        0 <= i <= all.len(),
    ensures
        root_steps(all.take(i)).len() <= root_steps(all).len(),
        root_steps(all) == root_steps(all.take(i)) + root_steps(all).skip(
            root_steps(all.take(i)).len() as int,
        ),
    decreases all.len() - i,
{
    if i == all.len() {
        assert(all.take(i) =~= all);
    } else {
        lemma_root_steps_prefix(all, i + 1);
        assert(all.take(i + 1).drop_last() =~= all.take(i));
    }
    assert(root_steps(all) =~= root_steps(all.take(i)) + root_steps(all).skip(
        root_steps(all.take(i)).len() as int,
    ));
}

/// The steps of the first names are the first steps.
proof fn lemma_rule_steps_prefix(
    rules: Rules,
    names: Seq<(Seq<char>, Seq<char>, Field)>,
    i: int,
)
    requires
        0 <= i <= names.len(),
    ensures
        rule_steps(rules, names.take(i)).len() <= rule_steps(rules, names).len(),
        rule_steps(rules, names) == rule_steps(rules, names.take(i)) + rule_steps(
            rules,
            names,
        ).skip(rule_steps(rules, names.take(i)).len() as int),
    decreases names.len() - i,
{
    if i == names.len() {
        assert(names.take(i) =~= names);
    } else {
        lemma_rule_steps_prefix(rules, names, i + 1);
        assert(names.take(i + 1).drop_last() =~= names.take(i));
    }
    assert(rule_steps(rules, names) =~= rule_steps(rules, names.take(i)) + rule_steps(
        rules,
        names,
    ).skip(rule_steps(rules, names.take(i)).len() as int));
}

/// The texts in declarations that may stand for numbers.
pub open spec fn declared_number_texts(declarations: Declarations) -> Seq<Seq<char>>
    decreases declarations.len(),
{
    if declarations.len() == 0 {
        Seq::empty()
    } else {
        declared_number_texts(declarations.drop_last()) + number_texts_of(declarations.last().1)
    }
}

/// The texts in rules that may stand for numbers.
pub open spec fn sheet_number_texts(rules: Rules) -> Seq<Seq<char>>
    decreases rules.len(),
{
    if rules.len() == 0 {
        Seq::empty()
    } else {
        sheet_number_texts(rules.drop_last()) + declared_number_texts(rules.last().1)
    }
}

/// Appends texts.
fn append_texts(base: &mut Vec<String>, more: Vec<String>)
    ensures
        views(final(base)@) == views(old(base)@) + views(more@),
{
    let mut more = more;
    let ghost added = more@;
    base.append(&mut more);
    proof {
        assert(views(base@) =~= views(old(base)@) + views(added));
    }
}

/// Appends the texts in declarations that may stand for numbers.
fn append_declared_number_texts(base: &mut Vec<String>, declarations: &CssDeclarations)
    ensures
        views(final(base)@) == views(old(base)@) + declared_number_texts(declarations@),
{
    let ghost all = declarations@;
    let mut i: usize = 0;
    proof {
        assert(views(base@) + declared_number_texts(all.take(0)) =~= views(base@));
    }
    while i < declarations.len()
        invariant
            i <= declarations@.len(),
            all == declarations@,
            views(base@) == views(old(base)@) + declared_number_texts(all.take(i as int)),
        decreases declarations@.len() - i,
    {
        proof {
            assert(all.take(i + 1).drop_last() =~= all.take(i as int));
            assert(all.take(i + 1).last() == all[i as int]);
        }
        append_texts(base, number_texts(declarations.value_at(i).as_str()));
        proof {
            assert(views(base@) =~= views(old(base)@) + declared_number_texts(all.take(i + 1)));
        }
        i = i + 1;
    }
    proof {
        assert(all.take(all.len() as int) =~= all);
    }
}

/// The texts in rules that may stand for numbers: what readings of a style sheet
/// have to cover.
pub fn css_number_texts(rules: &CssRules) -> (r: Vec<String>)
    ensures
        views(r@) == sheet_number_texts(rules@),
{
    let mut r: Vec<String> = Vec::new();
    let ghost all = rules@;
    let mut i: usize = 0;
    proof {
        assert(views(r@) =~= Seq::empty());
    }
    while i < rules.len()
        invariant
            i <= rules@.len(),
            all == rules@,
            views(r@) == sheet_number_texts(all.take(i as int)),
        decreases rules@.len() - i,
    {
        proof {
            assert(all.take(i + 1).drop_last() =~= all.take(i as int));
            assert(all.take(i + 1).last() == all[i as int]);
        }
        append_declared_number_texts(&mut r, rules.value_at(i));
        i = i + 1;
    }
    proof {
        assert(all.take(all.len() as int) =~= all);
    }
    r
}

/// Whether two sets of readings agree on the texts.
pub open spec fn agree(
    a: Pairs<Option<u64>>,
    b: Pairs<Option<u64>>,
    texts: Seq<Seq<char>>,
) -> bool {
    forall|t: Seq<char>| #[trigger] texts.contains(t) ==> reading(a, t) == reading(b, t)
}

/// A text that is in a part is in the whole.
proof fn lemma_contains_sum(a: Seq<Seq<char>>, b: Seq<Seq<char>>, t: Seq<char>)
    ensures
        a.contains(t) ==> (a + b).contains(t),
        b.contains(t) ==> (a + b).contains(t),
{
    if a.contains(t) {
        let i = choose|i: int| 0 <= i < a.len() && a[i] == t;
        assert((a + b)[i] == t);
    }
    if b.contains(t) {
        let i = choose|i: int| 0 <= i < b.len() && b[i] == t;
        assert((a + b)[a.len() + i] == t);
    }
}

/// The number texts of a declaration are among those of all declarations.
proof fn lemma_declared_texts(declarations: Declarations, i: int, t: Seq<char>)
    requires
        0 <= i < declarations.len(),
        number_texts_of(declarations[i].1).contains(t),
    ensures
        declared_number_texts(declarations).contains(t),
    decreases declarations.len(),
{
    let rest = declarations.drop_last();
    lemma_contains_sum(declared_number_texts(rest), number_texts_of(declarations.last().1), t);
    if i < declarations.len() - 1 {
        assert(rest[i] == declarations[i]);
        lemma_declared_texts(rest, i, t);
    }
}

/// The number texts of a rule are among those of all rules.
proof fn lemma_sheet_texts(rules: Rules, i: int, t: Seq<char>)
    requires
        0 <= i < rules.len(),
        declared_number_texts(rules[i].1).contains(t),
    ensures
        sheet_number_texts(rules).contains(t),
    decreases rules.len(),
{
    let rest = rules.drop_last();
    lemma_contains_sum(sheet_number_texts(rest), declared_number_texts(rules.last().1), t);
    if i < rules.len() - 1 {
        assert(rest[i] == rules[i]);
        lemma_sheet_texts(rest, i, t);
    }
}

/// Whether every number text of a step is listed.
spec fn listed(step: Step, texts: Seq<Seq<char>>) -> bool {
    forall|t: Seq<char>| #[trigger] number_texts_of(step.text).contains(t) ==> texts.contains(t)
}

/// The number texts of what stands under a selector are listed.
proof fn lemma_under_listed(rules: Rules, selector: Seq<char>, i: int, field: Field)
    requires
        0 <= i < under(rules, selector).len(),
    ensures
        listed(Step { field, text: under(rules, selector)[i].1 }, sheet_number_texts(rules)),
{
    let at = crate::textmap::key_position(rules, selector, 0);
    crate::textmap::lemma_key_position(rules, selector, 0);
    let declarations = under(rules, selector);
    let step = Step { field, text: declarations[i].1 };
    assert(rules[at].1 == declarations);
    assert forall|t: Seq<char>| #[trigger] number_texts_of(step.text).contains(t) implies
        sheet_number_texts(rules).contains(t) by {
        lemma_declared_texts(declarations, i, t);
        lemma_sheet_texts(rules, at, t);
    }
}

/// The number texts of what `:root` asks for are listed.
proof fn lemma_root_listed(rules: Rules, n: int)
    requires
        0 <= n <= under(rules, ":root"@).len(),
    ensures
        forall|k: int|
            0 <= k < root_steps(under(rules, ":root"@).take(n)).len() ==> listed(
                #[trigger] root_steps(under(rules, ":root"@).take(n))[k],
                sheet_number_texts(rules),
            ),
    decreases n,
{
    let declarations = under(rules, ":root"@);
    if n > 0 {
        lemma_root_listed(rules, n - 1);
        assert(declarations.take(n).drop_last() =~= declarations.take(n - 1));
        let (name, text) = declarations.take(n).last();
        match root_field(root_names(), name) {
            Some(field) => {
                lemma_under_listed(rules, ":root"@, n - 1, field);
                let before = root_steps(declarations.take(n - 1));
                assert forall|k: int| 0 <= k < before.len() + 1 implies listed(
                    #[trigger] root_steps(declarations.take(n))[k],
                    sheet_number_texts(rules),
                ) by {
                    if k < before.len() {
                        assert(root_steps(declarations.take(n))[k] == before[k]);
                    }
                }
            },
            None => {
                assert(root_steps(declarations.take(n)) == root_steps(declarations.take(n - 1)));
            },
        }
    } else {
        assert(root_steps(declarations.take(n)).len() == 0);
    }
}

/// The number texts of what the other rules ask for are listed.
proof fn lemma_rules_listed(rules: Rules, names: Seq<(Seq<char>, Seq<char>, Field)>)
    ensures
        forall|k: int|
            0 <= k < rule_steps(rules, names).len() ==> listed(
                #[trigger] rule_steps(rules, names)[k],
                sheet_number_texts(rules),
            ),
    decreases names.len(),
{
    if names.len() > 0 {
        let before = rule_steps(rules, names.drop_last());
        lemma_rules_listed(rules, names.drop_last());
        let (selector, name, field) = names.last();
        match value_of(under(rules, selector), name) {
            Some(text) => {
                let at = crate::textmap::key_position(under(rules, selector), name, 0);
                crate::textmap::lemma_key_position(under(rules, selector), name, 0);
                lemma_under_listed(rules, selector, at, field);
                assert forall|k: int| 0 <= k < before.len() + 1 implies listed(
                    #[trigger] rule_steps(rules, names)[k],
                    sheet_number_texts(rules),
                ) by {
                    if k < before.len() {
                        assert(rule_steps(rules, names)[k] == before[k]);
                    }
                }
            },
            None => {},
        }
    }
}

/// Steps whose number texts are read alike do the same.
proof fn lemma_applied_agree(
    style: Style,
    steps: Seq<Step>,
    a: Pairs<Option<u64>>,
    b: Pairs<Option<u64>>,
    texts: Seq<Seq<char>>,
)
    requires
        agree(a, b, texts),
        forall|k: int| 0 <= k < steps.len() ==> listed(#[trigger] steps[k], texts),
    ensures
        applied(style, steps, a) == applied(style, steps, b),
    decreases steps.len(),
{
    if steps.len() > 0 {
        let step = steps.last();
        assert(listed(steps[steps.len() - 1], texts));
        assert forall|k: int| 0 <= k < steps.drop_last().len() implies listed(
            #[trigger] steps.drop_last()[k],
            texts,
        ) by {
            assert(steps.drop_last()[k] == steps[k]);
        }
        lemma_applied_agree(style, steps.drop_last(), a, b, texts);
        assert forall|i: int| 0 <= i < number_texts_of(step.text).len() implies reading(
            a,
            #[trigger] number_texts_of(step.text)[i],
        ) == reading(b, number_texts_of(step.text)[i]) by {
            assert(number_texts_of(step.text).contains(number_texts_of(step.text)[i]));
            assert(texts.contains(number_texts_of(step.text)[i]));
        }
        crate::values::values_need_their_texts_only(step.text, a, b);
    }
}

/// What a style sheet makes of a style depends on the readings of its listed
/// number texts only.
pub proof fn listed_texts_suffice(
    style: Style,
    rules: Rules,
    a: Pairs<Option<u64>>,
    b: Pairs<Option<u64>>,
)
    requires
        agree(a, b, sheet_number_texts(rules)),
    ensures
        applied(style, sheet_steps(rules), a) == applied(style, sheet_steps(rules), b),
{
    let declarations = under(rules, ":root"@);
    assert(declarations.take(declarations.len() as int) =~= declarations);
    lemma_root_listed(rules, declarations.len() as int);
    lemma_rules_listed(rules, rule_names());
    let texts = sheet_number_texts(rules);
    let first = root_steps(declarations);
    assert forall|k: int| 0 <= k < sheet_steps(rules).len() implies listed(
        #[trigger] sheet_steps(rules)[k],
        texts,
    ) by {
        if k < first.len() {
            assert(sheet_steps(rules)[k] == first[k]);
        } else {
            assert(sheet_steps(rules)[k] == rule_steps(rules, rule_names())[k - first.len()]);
        }
    }
    lemma_applied_agree(style, sheet_steps(rules), a, b, texts);
}

/// A step that succeeds gives its property the value of its text and leaves
/// every other property as it was; so of two steps on one property the later
/// one counts.
pub proof fn a_step_sets_its_property(
    style: Style,
    steps: Seq<Step>,
    step: Step,
    readings: Pairs<Option<u64>>,
    other: Field,
)
    requires
        applied(style, steps.push(step), readings).problem is None,
    ensures
        applied(style, steps, readings).problem is None,
        parsed_value(step.field, step.text, readings) is Ok,
        field_value(applied(style, steps.push(step), readings).style, step.field) == parsed_value(
            step.field,
            step.text,
            readings,
        )->Ok_0,
        other != step.field ==> field_value(
            applied(style, steps.push(step), readings).style,
            other,
        ) == field_value(applied(style, steps, readings).style, other),
{
    assert(steps.push(step).drop_last() =~= steps);
    assert(steps.push(step).last() == step);
}

/// The position of a property among those that can be set under `:root`.
spec fn root_place(field: Field) -> int {
    match field {
        Field::OverlayBackground => 0,
        Field::HighlightBackground => 1,
        Field::TextColor => 2,
        Field::TextSelectedColor => 3,
        Field::OverlayWidth => 4,
        Field::Padding => 5,
        Field::ScreenMargin => 6,
        Field::RowHeight => 7,
        Field::IconMaxSize => 8,
        Field::IconMargin => 9,
        Field::OverlayBorderWidth => 10,
        Field::OverlayBorderColor => 11,
        Field::VerticalTextGap => 12,
        Field::VerticalTextBaseline => 13,
        Field::HorizontalItemWidth => 14,
        Field::HorizontalItemHeight => 15,
        Field::HorizontalTextOffset => 16,
        Field::HorizontalTextBaseline => 17,
        Field::HorizontalCharWidthEstimate => 18,
        Field::ItemBorderWidth => 19,
        Field::ItemBorderColor => 20,
        Field::ItemSelectedBorderColor => 21,
    }
}

/// Each property can be set under `:root` by one name.
proof fn lemma_root_places(k: int)
    requires
        0 <= k < root_names().len(),
    ensures
        root_place(root_names()[k].1) == k,
{
    let names = root_names();
    assert(root_place(names[0].1) == 0);
    assert(root_place(names[1].1) == 1);
    assert(root_place(names[2].1) == 2);
    assert(root_place(names[3].1) == 3);
    assert(root_place(names[4].1) == 4);
    assert(root_place(names[5].1) == 5);
    assert(root_place(names[6].1) == 6);
    assert(root_place(names[7].1) == 7);
    assert(root_place(names[8].1) == 8);
    assert(root_place(names[9].1) == 9);
    assert(root_place(names[10].1) == 10);
    assert(root_place(names[11].1) == 11);
    assert(root_place(names[12].1) == 12);
    assert(root_place(names[13].1) == 13);
    assert(root_place(names[14].1) == 14);
    assert(root_place(names[15].1) == 15);
    assert(root_place(names[16].1) == 16);
    assert(root_place(names[17].1) == 17);
    assert(root_place(names[18].1) == 18);
    assert(root_place(names[19].1) == 19);
    assert(root_place(names[20].1) == 20);
    assert(root_place(names[21].1) == 21);
}

/// A name that stands for a property is one of the names.
proof fn lemma_root_field_listed(names: Seq<(Seq<char>, Field)>, name: Seq<char>) -> (k: int)
    requires
        root_field(names, name) is Some,
    ensures
        0 <= k < names.len(),
        names[k] == (name, root_field(names, name)->0),
    decreases names.len(),
{
    if names[0].0 == name {
        0
    } else {
        lemma_root_field_listed(names.skip(1), name) + 1
    }
}

/// Different names under `:root` stand for different properties.
proof fn lemma_root_fields_differ(a: Seq<char>, b: Seq<char>)
    requires
        a != b,
        root_field(root_names(), a) is Some,
        root_field(root_names(), b) is Some,
    ensures
        root_field(root_names(), a) != root_field(root_names(), b),
{
    let i = lemma_root_field_listed(root_names(), a);
    let j = lemma_root_field_listed(root_names(), b);
    lemma_root_places(i);
    lemma_root_places(j);
}

/// Every declaration under `:root` sets its own property, in whatever order the
/// declarations come.
pub proof fn root_declarations_set_their_properties(
    style: Style,
    declarations: Declarations,
    readings: Pairs<Option<u64>>,
    i: int,
)
    requires
        distinct_keys(declarations),
        0 <= i < declarations.len(),
        root_field(root_names(), declarations[i].0) is Some,
        applied(style, root_steps(declarations), readings).problem is None,
    ensures
        ({
            let field = root_field(root_names(), declarations[i].0)->0;
            let text = declarations[i].1;
            &&& parsed_value(field, text, readings) is Ok
            &&& field_value(applied(style, root_steps(declarations), readings).style, field)
                == parsed_value(field, text, readings)->Ok_0
        }),
    decreases declarations.len(),
{
    let before = declarations.drop_last();
    let (name, text) = declarations.last();
    let field = root_field(root_names(), declarations[i].0)->0;
    assert forall|j: int, k: int| 0 <= j < k < before.len() implies (#[trigger] before[j]).0 != (
    #[trigger] before[k]).0 by {
        assert(before[j] == declarations[j] && before[k] == declarations[k]);
    }
    match root_field(root_names(), name) {
        Some(last) => {
            let step = Step { field: last, text };
            a_step_sets_its_property(style, root_steps(before), step, readings, field);
            if i < before.len() {
                assert(declarations[i].0 != declarations[declarations.len() - 1].0);
                lemma_root_fields_differ(declarations[i].0, name);
                root_declarations_set_their_properties(style, before, readings, i);
            }
        },
        None => {
            root_declarations_set_their_properties(style, before, readings, i);
        },
    }
}

/// A style sheet without rules changes nothing.
pub proof fn no_rules_change_nothing(style: Style, readings: Pairs<Option<u64>>)
    ensures
        applied(style, sheet_steps(Seq::empty()), readings) == (Applied { style, problem: None }),
{
    let rules: Rules = Seq::empty();
    lemma_no_rule_steps(rule_names());
    assert(under(rules, ":root"@) =~= Seq::empty());
    assert(sheet_steps(rules) =~= Seq::empty());
}

proof fn lemma_no_rule_steps(names: Seq<(Seq<char>, Seq<char>, Field)>)
    ensures
        rule_steps(Seq::empty(), names) == Seq::<Step>::empty(),
    decreases names.len(),
{
    if names.len() > 0 {
        lemma_no_rule_steps(names.drop_last());
        let (selector, name, field) = names.last();
        assert(value_of(under(Seq::empty(), selector), name) is None);
    }
}

/// The side of the square that an icon takes with its margin.
pub open spec fn icon_area_of(style: Style) -> int {
    style.icon_max_size + 2 * style.icon_margin
}

/// The space beside a label, on both sides.
pub open spec fn label_margin(style: Style) -> int {
    (style.horizontal_text_offset as u16) * 2
}

/// The assumed width of a character: at least one.
pub open spec fn char_width(style: Style) -> int {
    if style.horizontal_char_width_estimate == 0 {
        1
    } else {
        style.horizontal_char_width_estimate as int
    }
}

/// The number of characters that fit beside the margin: at least one.
pub open spec fn label_capacity(style: Style, cell_width: int) -> int {
    let n = (cell_width - label_margin(style)) / char_width(style);
    if n == 0 {
        1
    } else {
        n
    }
}

/// `text` shortened to `capacity` characters, with dots in the place of what is
/// left out.
pub open spec fn shortened(text: Seq<char>, capacity: int) -> Seq<char> {
    if text.len() <= capacity {
        text
    } else if capacity <= 3 {
        Seq::new(capacity as nat, |i: int| '.')
    } else {
        text.take(capacity - 3) + seq!['.', '.', '.']
    }
}

/// The label of an entry in a cell of the given width.
pub open spec fn fitted_label(style: Style, title: Seq<char>, cell_width: int) -> Seq<char> {
    if title.len() == 0 || cell_width <= label_margin(style) {
        Seq::empty()
    } else {
        shortened(sanitized(title), label_capacity(style, cell_width))
    }
}

/// The assumed width of the label in a cell of the given width: never more than
/// the space beside the margin.
pub open spec fn fitted_width(style: Style, title: Seq<char>, cell_width: int) -> int {
    if title.len() == 0 || cell_width <= label_margin(style) {
        0
    } else {
        let width = fitted_label(style, title, cell_width).len() * char_width(style);
        let space = cell_width - label_margin(style);
        if width <= space {
            width
        } else {
            space
        }
    }
}

impl Style {
    /// The side of the square that an icon takes with its margin.
    pub fn icon_area(&self) -> (r: u16)
        requires
            icon_area_of(*self) <= u16::MAX,
        ensures
            r == icon_area_of(*self),
    {
        self.icon_max_size + self.icon_margin * 2
    }

    /// Where a label starts in an entry of a vertical overlay.
    pub fn vertical_text_offset(&self) -> (r: i16)
        requires
            icon_area_of(*self) <= u16::MAX,
            i16::MIN <= (icon_area_of(*self) as i16) + self.vertical_text_gap <= i16::MAX,
        ensures
            r == (icon_area_of(*self) as i16) + self.vertical_text_gap,
    {
        self.icon_area() as i16 + self.vertical_text_gap
    }

    /// The label of an entry in a cell of a horizontal overlay, and its assumed
    /// width.
    pub fn fit_horizontal_label(&self, title: &str, cell_width: u16) -> (r: (String, u16))
        requires
            title@.len() > 0 ==> label_margin(*self) <= u16::MAX,
        ensures
            r.0@ == fitted_label(*self, title@, cell_width as int),
            r.1 == fitted_width(*self, title@, cell_width as int),
    {
        let label = sanitize_ascii(title);
        if label.as_str().is_empty() {
            proof {
                assert(label@ =~= Seq::empty());
            }
            return (label, 0);
        }
        let margin: u16 = (self.horizontal_text_offset as u16) * 2;
        if cell_width <= margin {
            let empty = String::new();
            return (empty, 0);
        }
        let available: u16 = cell_width - margin;
        let width: u16 = if self.horizontal_char_width_estimate == 0 {
            1
        } else {
            self.horizontal_char_width_estimate
        };
        let mut max_chars: usize = available as usize / width as usize;
        if max_chars == 0 {
            max_chars = 1;
        }
        let chars = crate::text::chars_of(label.as_str());
        let mut kept: Vec<char> = Vec::new();
        let n: usize = chars.len();
        let keep: usize = if n <= max_chars {
            n
        } else if max_chars <= 3 {
            0
        } else {
            max_chars - 3
        };
        let dots: usize = if n <= max_chars {
            0
        } else if max_chars <= 3 {
            max_chars
        } else {
            3
        };
        let mut i: usize = 0;
        while i < keep
            invariant
                i <= keep <= chars@.len(),
                kept@ == chars@.take(i as int),
            decreases keep - i,
        {
            kept.push(chars[i]);
            proof {
                assert(kept@ =~= chars@.take(i + 1));
            }
            i = i + 1;
        }
        let mut k: usize = 0;
        while k < dots
            invariant
                k <= dots,
                keep <= chars@.len(),
                kept@ == chars@.take(keep as int) + Seq::new(k as nat, |i: int| '.'),
            decreases dots - k,
        {
            kept.push('.');
            proof {
                assert(kept@ =~= chars@.take(keep as int) + Seq::new((k + 1) as nat, |i: int| '.'));
            }
            k = k + 1;
        }
        proof {
            assert(kept@ =~= shortened(sanitized(title@), max_chars as int));
            assert(kept@.len() <= max_chars <= 65535);
            let len = kept@.len() as int;
            assert(0 <= len * width <= 65535 * 65535) by (nonlinear_arith)
                requires
                    0 <= len <= 65535,
                    0 <= width <= 65535,
            ;
        }
        let full: u32 = kept.len() as u32 * width as u32;
        let shown: u16 = if full <= available as u32 {
            full as u16
        } else {
            available
        };
        (crate::text::string_of(kept.as_slice()), shown)
    }
}

/// A label never has more characters than fit, and where one character fits at
/// all, its assumed width is that of its characters and stays within the cell.
pub proof fn labels_stay_in_their_cell(style: Style, title: Seq<char>, cell_width: int)
    requires
        0 <= cell_width,
    ensures
        fitted_width(style, title, cell_width) <= cell_width,
        title.len() > 0 && cell_width > label_margin(style) ==> fitted_label(
            style,
            title,
            cell_width,
        ).len() <= label_capacity(style, cell_width),
        cell_width - label_margin(style) >= char_width(style) ==> fitted_width(
            style,
            title,
            cell_width,
        ) == fitted_label(style, title, cell_width).len() * char_width(style),
{
    let space = cell_width - label_margin(style);
    let w = char_width(style);
    if title.len() > 0 && space > 0 {
        let n = fitted_label(style, title, cell_width).len() as int;
        let c = label_capacity(style, cell_width);
        assert(space / w >= 0) by (nonlinear_arith)
            requires
                space > 0,
                w > 0,
        ;
        if space >= w {
            assert(space / w >= 1) by (nonlinear_arith)
                requires
                    space >= w,
                    w > 0,
            ;
            assert(n * w <= space) by (nonlinear_arith)
                requires
                    0 <= n <= space / w,
                    w > 0,
            ;
        }
    } else {
        assert(0 * w == 0) by (nonlinear_arith);
    }
}

/// How a colour is read.
pub open spec fn color_reader(readings: Pairs<Option<u64>>) -> spec_fn(Seq<char>) -> Option<int> {
    |text: Seq<char>|
        match color_value(text, readings) {
            Ok(color) => Some(color as int),
            Err(_) => None,
        }
}

/// How a length is read.
pub open spec fn length_reader(readings: Pairs<Option<u64>>) -> spec_fn(Seq<char>) -> Option<int> {
    |text: Seq<char>|
        match length_value(text, readings) {
            Ok(length) => Some(length as int),
            Err(_) => None,
        }
}

/// How an offset is read.
pub open spec fn offset_reader(readings: Pairs<Option<u64>>) -> spec_fn(Seq<char>) -> Option<int> {
    |text: Seq<char>|
        match offset_value(text, readings) {
            Ok(offset) => Some(offset as int),
            Err(_) => None,
        }
}

/// The text that rules declare under a selector and a name.
pub open spec fn declared(rules: Rules, selector: Seq<char>, name: Seq<char>) -> Option<Seq<char>> {
    value_of(under(rules, selector), name)
}

/// Whether a property has become what the text of a rule says, or else what the
/// text under `:root` says, or else has stayed as it was.
pub open spec fn comes_to(
    read: spec_fn(Seq<char>) -> Option<int>,
    rule: Option<Seq<char>>,
    root: Option<Seq<char>>,
    before: int,
    after: int,
) -> bool {
    match (rule, root) {
        (Some(text), _) => read(text) == Some(after),
        (None, Some(text)) => read(text) == Some(after),
        (None, None) => after == before,
    }
}

/// How a property is read.
spec fn field_reader(field: Field, readings: Pairs<Option<u64>>) -> spec_fn(Seq<char>) -> Option<
    int,
> {
    match field_kind(field) {
        FieldKind::Color => color_reader(readings),
        FieldKind::Length => length_reader(readings),
        FieldKind::Offset => offset_reader(readings),
    }
}

/// The text of the last of the first `n` selectors and names that stands for a
/// property and is declared.
spec fn last_text(
    rules: Rules,
    names: Seq<(Seq<char>, Seq<char>, Field)>,
    field: Field,
    n: int,
) -> Option<Seq<char>>
    decreases n,
{
    if n <= 0 {
        None
    } else if names[n - 1].2 == field && declared(rules, names[n - 1].0, names[n - 1].1) is Some {
        declared(rules, names[n - 1].0, names[n - 1].1)
    } else {
        last_text(rules, names, field, n - 1)
    }
}

/// What the rules make of a property.
proof fn lemma_after_rules(
    style: Style,
    rules: Rules,
    names: Seq<(Seq<char>, Seq<char>, Field)>,
    readings: Pairs<Option<u64>>,
    field: Field,
    n: int,
)
    requires
        0 <= n <= names.len(),
        applied(style, rule_steps(rules, names.take(n)), readings).problem is None,
    ensures
        comes_to(
            field_reader(field, readings),
            last_text(rules, names, field, n),
            None,
            field_value(style, field),
            field_value(applied(style, rule_steps(rules, names.take(n)), readings).style, field),
        ),
    decreases n,
{
    if n > 0 {
        assert(names.take(n).drop_last() =~= names.take(n - 1));
        assert(names.take(n).last() == names[n - 1]);
        let before = rule_steps(rules, names.take(n - 1));
        let (selector, name, set) = names[n - 1];
        match value_of(under(rules, selector), name) {
            Some(text) => {
                let step = Step { field: set, text };
                assert(rule_steps(rules, names.take(n)) == before.push(step));
                a_step_sets_its_property(style, before, step, readings, field);
                lemma_after_rules(style, rules, names, readings, field, n - 1);
            },
            None => {
                lemma_after_rules(style, rules, names, readings, field, n - 1);
            },
        }
    } else {
        assert(rule_steps(rules, names.take(0)) =~= Seq::<Step>::empty());
    }
}

/// The position of the selector and name that count last for a property.
spec fn rule_place(field: Field) -> int {
    match field {
        Field::OverlayBackground => 0,
        Field::HighlightBackground => 11,
        Field::TextColor => 14,
        Field::TextSelectedColor => 15,
        Field::OverlayWidth => 1,
        Field::Padding => 2,
        Field::ScreenMargin => 3,
        Field::RowHeight => 6,
        Field::IconMaxSize => 7,
        Field::IconMargin => 8,
        Field::OverlayBorderWidth => 4,
        Field::OverlayBorderColor => 5,
        Field::VerticalTextGap => 21,
        Field::VerticalTextBaseline => 22,
        Field::HorizontalItemWidth => 16,
        Field::HorizontalItemHeight => 17,
        Field::HorizontalTextOffset => 18,
        Field::HorizontalTextBaseline => 19,
        Field::HorizontalCharWidthEstimate => 20,
        Field::ItemBorderWidth => 9,
        Field::ItemBorderColor => 10,
        Field::ItemSelectedBorderColor => 13,
    }
}

/// Each property can be set by one selector and name; the colour of the selected
/// entry's label by two.
proof fn lemma_rule_places(k: int)
    requires
        0 <= k < rule_names().len(),
    ensures
        rule_place(rule_names()[k].2) == k || (k == 12 && rule_names()[k].2
            == Field::TextSelectedColor),
{
    let names = rule_names();
    assert(names[0].2 == Field::OverlayBackground);
    assert(names[1].2 == Field::OverlayWidth);
    assert(names[2].2 == Field::Padding);
    assert(names[3].2 == Field::ScreenMargin);
    assert(names[4].2 == Field::OverlayBorderWidth);
    assert(names[5].2 == Field::OverlayBorderColor);
    assert(names[6].2 == Field::RowHeight);
    assert(names[7].2 == Field::IconMaxSize);
    assert(names[8].2 == Field::IconMargin);
    assert(names[9].2 == Field::ItemBorderWidth);
    assert(names[10].2 == Field::ItemBorderColor);
    assert(names[11].2 == Field::HighlightBackground);
    assert(names[12].2 == Field::TextSelectedColor);
    assert(names[13].2 == Field::ItemSelectedBorderColor);
    assert(names[14].2 == Field::TextColor);
    assert(names[15].2 == Field::TextSelectedColor);
    assert(names[16].2 == Field::HorizontalItemWidth);
    assert(names[17].2 == Field::HorizontalItemHeight);
    assert(names[18].2 == Field::HorizontalTextOffset);
    assert(names[19].2 == Field::HorizontalTextBaseline);
    assert(names[20].2 == Field::HorizontalCharWidthEstimate);
    assert(names[21].2 == Field::VerticalTextGap);
    assert(names[22].2 == Field::VerticalTextBaseline);
}

/// Selectors and names that do not stand for a property do not count for it.
proof fn lemma_last_text_skips(rules: Rules, field: Field, low: int, high: int)
    requires
        0 <= low <= high <= rule_names().len(),
        forall|k: int| low <= k < high ==> (#[trigger] rule_names()[k]).2 != field,
    ensures
        last_text(rules, rule_names(), field, high) == last_text(rules, rule_names(), field, low),
    decreases high - low,
{
    if low < high {
        assert(rule_names()[high - 1].2 != field);
        lemma_last_text_skips(rules, field, low, high - 1);
    }
}

/// The text that counts for a property.
proof fn lemma_last_text(rules: Rules, field: Field)
    ensures
        ({
            let names = rule_names();
            let at = rule_place(field);
            let own = declared(rules, names[at].0, names[at].1);
            &&& 0 <= at < names.len()
            &&& names.len() == 23
            &&& field != Field::TextSelectedColor || own is Some ==> last_text(
                rules,
                names,
                field,
                23,
            ) == own
            &&& field == Field::TextSelectedColor && own is None ==> last_text(
                rules,
                names,
                field,
                23,
            ) == declared(rules, names[12].0, names[12].1)
        }),
{
    let names = rule_names();
    let at = rule_place(field);
    assert(names.len() == 23);
    assert(names[at].2 == field) by {
        assert(names[0].2 == Field::OverlayBackground);
        assert(names[11].2 == Field::HighlightBackground);
        assert(names[14].2 == Field::TextColor);
        assert(names[15].2 == Field::TextSelectedColor);
        assert(names[1].2 == Field::OverlayWidth);
        assert(names[2].2 == Field::Padding);
        assert(names[3].2 == Field::ScreenMargin);
        assert(names[6].2 == Field::RowHeight);
        assert(names[7].2 == Field::IconMaxSize);
        assert(names[8].2 == Field::IconMargin);
        assert(names[4].2 == Field::OverlayBorderWidth);
        assert(names[5].2 == Field::OverlayBorderColor);
        assert(names[21].2 == Field::VerticalTextGap);
        assert(names[22].2 == Field::VerticalTextBaseline);
        assert(names[16].2 == Field::HorizontalItemWidth);
        assert(names[17].2 == Field::HorizontalItemHeight);
        assert(names[18].2 == Field::HorizontalTextOffset);
        assert(names[19].2 == Field::HorizontalTextBaseline);
        assert(names[20].2 == Field::HorizontalCharWidthEstimate);
        assert(names[9].2 == Field::ItemBorderWidth);
        assert(names[10].2 == Field::ItemBorderColor);
        assert(names[13].2 == Field::ItemSelectedBorderColor);
    }
    assert forall|k: int| at < k < 23 implies (#[trigger] names[k]).2 != field by {
        lemma_rule_places(k);
    }
    lemma_last_text_skips(rules, field, at + 1, 23);
    if field == Field::TextSelectedColor {
        assert forall|k: int| 12 < k < 15 implies (#[trigger] names[k]).2 != field by {
            lemma_rule_places(k);
        }
        lemma_last_text_skips(rules, field, 13, 15);
        assert(names[12].2 == Field::TextSelectedColor);
        assert forall|k: int| 0 <= k < 12 implies (#[trigger] names[k]).2 != field by {
            lemma_rule_places(k);
        }
        lemma_last_text_skips(rules, field, 0, 12);
        assert(last_text(rules, names, field, 0) is None);
        assert(last_text(rules, names, field, 13) == declared(rules, names[12].0, names[12].1));
    } else {
        assert forall|k: int| 0 <= k < at implies (#[trigger] names[k]).2 != field by {
            lemma_rule_places(k);
        }
        lemma_last_text_skips(rules, field, 0, at);
        assert(last_text(rules, names, field, 0) is None);
    }
}

/// A number that tells the names under `:root` apart.
spec fn name_code(name: Seq<char>) -> int {
    name.len() * 1000000 + (name[name.len() - 1] as int) * 1000 + name[name.len() - 8] as int
}

/// The names under `:root` have these numbers.
proof fn lemma_name_codes()
    ensures
        ({
            let names = root_names();
            &&& names.len() == 22
            &&& name_code(names[0].0) == 20100099
            &&& name_code(names[1].0) == 22100099
            &&& name_code(names[2].0) == 12114120
            &&& name_code(names[3].0) == 21114101
            &&& name_code(names[4].0) == 15104097
            &&& name_code(names[5].0) == 9103045
            &&& name_code(names[6].0) == 15110110
            &&& name_code(names[7].0) == 12116119
            &&& name_code(names[8].0) == 11101099
            &&& name_code(names[9].0) == 13110110
            &&& name_code(names[10].0) == 22104101
            &&& name_code(names[11].0) == 22114101
            &&& name_code(names[12].0) == 19112116
            &&& name_code(names[13].0) == 24101098
            &&& name_code(names[14].0) == 23104101
            &&& name_code(names[15].0) == 24116109
            &&& name_code(names[16].0) == 24116116
            &&& name_code(names[17].0) == 26101098
            &&& name_code(names[18].0) == 23104097
            &&& name_code(names[19].0) == 19104101
            &&& name_code(names[20].0) == 19114101
            &&& name_code(names[21].0) == 28114101
        }),
{
    reveal_strlit("--overlay-background");
    reveal_strlit("--highlight-background");
    reveal_strlit("--text-color");
    reveal_strlit("--text-selected-color");
    reveal_strlit("--overlay-width");
    reveal_strlit("--padding");
    reveal_strlit("--screen-margin");
    reveal_strlit("--row-height");
    reveal_strlit("--icon-size");
    reveal_strlit("--icon-margin");
    reveal_strlit("--overlay-border-width");
    reveal_strlit("--overlay-border-color");
    reveal_strlit("--vertical-text-gap");
    reveal_strlit("--vertical-text-baseline");
    reveal_strlit("--horizontal-item-width");
    reveal_strlit("--horizontal-item-height");
    reveal_strlit("--horizontal-text-offset");
    reveal_strlit("--horizontal-text-baseline");
    reveal_strlit("--horizontal-char-width");
    reveal_strlit("--item-border-width");
    reveal_strlit("--item-border-color");
    reveal_strlit("--item-selected-border-color");
}

/// The names under `:root` differ.
proof fn lemma_root_names_differ(i: int, k: int)
    requires
        0 <= i < k < root_names().len(),
    ensures
        root_names()[i].0 != root_names()[k].0,
{
    lemma_name_codes();
}

/// Each of the names under `:root` stands for its own property.
proof fn lemma_root_field_is(k: int)
    requires
        0 <= k < root_names().len(),
    ensures
        root_field(root_names(), root_names()[k].0) == Some(root_names()[k].1),
{
    let names = root_names();
    lemma_root_field_some(names, k);
    let i = lemma_root_field_listed(names, names[k].0);
    if i < k {
        lemma_root_names_differ(i, k);
    } else if k < i {
        lemma_root_names_differ(k, i);
    }
}

proof fn lemma_root_field_some(names: Seq<(Seq<char>, Field)>, k: int)
    requires
        0 <= k < names.len(),
    ensures
        root_field(names, names[k].0) is Some,
    decreases names.len(),
{
    if names[0].0 != names[k].0 {
        assert(names.skip(1)[k - 1] == names[k]);
        lemma_root_field_some(names.skip(1), k - 1);
    }
}

/// A property that no declaration under `:root` names stays as it was.
proof fn lemma_root_keeps(
    style: Style,
    declarations: Declarations,
    readings: Pairs<Option<u64>>,
    field: Field,
)
    requires
        applied(style, root_steps(declarations), readings).problem is None,
        forall|i: int|
            0 <= i < declarations.len() ==> root_field(
                root_names(),
                (#[trigger] declarations[i]).0,
            ) != Some(field),
    ensures
        field_value(applied(style, root_steps(declarations), readings).style, field)
            == field_value(style, field),
    decreases declarations.len(),
{
    if declarations.len() > 0 {
        let before = declarations.drop_last();
        let (name, text) = declarations.last();
        assert(root_field(root_names(), declarations[declarations.len() - 1].0) != Some(field));
        assert forall|i: int| 0 <= i < before.len() implies root_field(
            root_names(),
            (#[trigger] before[i]).0,
        ) != Some(field) by {
            assert(before[i] == declarations[i]);
        }
        match root_field(root_names(), name) {
            Some(set) => {
                let step = Step { field: set, text };
                a_step_sets_its_property(style, root_steps(before), step, readings, field);
                lemma_root_keeps(style, before, readings, field);
            },
            None => {
                lemma_root_keeps(style, before, readings, field);
            },
        }
    }
}

/// What the declarations under `:root` make of a property.
proof fn lemma_after_root(
    style: Style,
    declarations: Declarations,
    readings: Pairs<Option<u64>>,
    field: Field,
)
    requires
        distinct_keys(declarations),
        applied(style, root_steps(declarations), readings).problem is None,
    ensures
        comes_to(
            field_reader(field, readings),
            None,
            value_of(declarations, root_names()[root_place(field)].0),
            field_value(style, field),
            field_value(applied(style, root_steps(declarations), readings).style, field),
        ),
{
    let at = root_place(field);
    let names = root_names();
    assert(names[at].1 == field) by {
        assert(names[0].1 == Field::OverlayBackground);
        assert(names[1].1 == Field::HighlightBackground);
        assert(names[2].1 == Field::TextColor);
        assert(names[3].1 == Field::TextSelectedColor);
        assert(names[4].1 == Field::OverlayWidth);
        assert(names[5].1 == Field::Padding);
        assert(names[6].1 == Field::ScreenMargin);
        assert(names[7].1 == Field::RowHeight);
        assert(names[8].1 == Field::IconMaxSize);
        assert(names[9].1 == Field::IconMargin);
        assert(names[10].1 == Field::OverlayBorderWidth);
        assert(names[11].1 == Field::OverlayBorderColor);
        assert(names[12].1 == Field::VerticalTextGap);
        assert(names[13].1 == Field::VerticalTextBaseline);
        assert(names[14].1 == Field::HorizontalItemWidth);
        assert(names[15].1 == Field::HorizontalItemHeight);
        assert(names[16].1 == Field::HorizontalTextOffset);
        assert(names[17].1 == Field::HorizontalTextBaseline);
        assert(names[18].1 == Field::HorizontalCharWidthEstimate);
        assert(names[19].1 == Field::ItemBorderWidth);
        assert(names[20].1 == Field::ItemBorderColor);
        assert(names[21].1 == Field::ItemSelectedBorderColor);
    }
    let name = names[at].0;
    let i = crate::textmap::key_position(declarations, name, 0);
    crate::textmap::lemma_key_position(declarations, name, 0);
    if i < declarations.len() {
        lemma_root_field_is(at);
        root_declarations_set_their_properties(style, declarations, readings, i);
    } else {
        assert forall|j: int| 0 <= j < declarations.len() implies root_field(
            root_names(),
            (#[trigger] declarations[j]).0,
        ) != Some(field) by {
            if root_field(names, declarations[j].0) == Some(field) {
                let k = lemma_root_field_listed(names, declarations[j].0);
                lemma_root_places(k);
            }
        }
        lemma_root_keeps(style, declarations, readings, field);
    }
}

/// What a style sheet makes of a property.
proof fn lemma_after_sheet(
    style: Style,
    rules: Rules,
    readings: Pairs<Option<u64>>,
    field: Field,
)
    requires
        distinct_keys(under(rules, ":root"@)),
        applied(style, sheet_steps(rules), readings).problem is None,
    ensures
        comes_to(
            field_reader(field, readings),
            last_text(rules, rule_names(), field, 23),
            declared(rules, ":root"@, root_names()[root_place(field)].0),
            field_value(style, field),
            field_value(applied(style, sheet_steps(rules), readings).style, field),
        ),
{
    let first = root_steps(under(rules, ":root"@));
    let second = rule_steps(rules, rule_names());
    lemma_applied_concat(style, first, second, readings);
    let middle = applied(style, first, readings);
    assert(middle.problem is None);
    lemma_after_root(style, under(rules, ":root"@), readings, field);
    assert(rule_names().take(23) =~= rule_names());
    lemma_after_rules(middle.style, rules, rule_names(), readings, field, 23);
}

/// The text that counts for a property: that under its selector and name.
spec fn rule_text(rules: Rules, field: Field) -> Option<Seq<char>> {
    match field {
        Field::OverlayBackground => declared(rules, "overlay"@, "background"@),
        Field::HighlightBackground => declared(rules, "item:selected"@, "background"@),
        Field::TextColor => declared(rules, "label"@, "color"@),
        Field::TextSelectedColor => match declared(rules, "label:selected"@, "color"@) {
            Some(text) => Some(text),
            None => declared(rules, "item:selected"@, "color"@),
        },
        Field::OverlayWidth => declared(rules, "overlay"@, "width"@),
        Field::Padding => declared(rules, "overlay"@, "padding"@),
        Field::ScreenMargin => declared(rules, "overlay"@, "screen-margin"@),
        Field::RowHeight => declared(rules, "item"@, "height"@),
        Field::IconMaxSize => declared(rules, "item"@, "icon-size"@),
        Field::IconMargin => declared(rules, "item"@, "icon-margin"@),
        Field::OverlayBorderWidth => declared(rules, "overlay"@, "border-width"@),
        Field::OverlayBorderColor => declared(rules, "overlay"@, "border-color"@),
        Field::VerticalTextGap => declared(rules, "vertical"@, "text-gap"@),
        Field::VerticalTextBaseline => declared(rules, "vertical"@, "text-baseline"@),
        Field::HorizontalItemWidth => declared(rules, "horizontal"@, "item-width"@),
        Field::HorizontalItemHeight => declared(rules, "horizontal"@, "item-height"@),
        Field::HorizontalTextOffset => declared(rules, "horizontal"@, "text-offset"@),
        Field::HorizontalTextBaseline => declared(rules, "horizontal"@, "text-baseline"@),
        Field::HorizontalCharWidthEstimate => declared(rules, "horizontal"@, "char-width"@),
        Field::ItemBorderWidth => declared(rules, "item"@, "border-width"@),
        Field::ItemBorderColor => declared(rules, "item"@, "border-color"@),
        Field::ItemSelectedBorderColor => declared(rules, "item:selected"@, "border-color"@),
    }
}

/// The name of a property under `:root`.
spec fn root_key(field: Field) -> Seq<char> {
    match field {
        Field::OverlayBackground => "--overlay-background"@,
        Field::HighlightBackground => "--highlight-background"@,
        Field::TextColor => "--text-color"@,
        Field::TextSelectedColor => "--text-selected-color"@,
        Field::OverlayWidth => "--overlay-width"@,
        Field::Padding => "--padding"@,
        Field::ScreenMargin => "--screen-margin"@,
        Field::RowHeight => "--row-height"@,
        Field::IconMaxSize => "--icon-size"@,
        Field::IconMargin => "--icon-margin"@,
        Field::OverlayBorderWidth => "--overlay-border-width"@,
        Field::OverlayBorderColor => "--overlay-border-color"@,
        Field::VerticalTextGap => "--vertical-text-gap"@,
        Field::VerticalTextBaseline => "--vertical-text-baseline"@,
        Field::HorizontalItemWidth => "--horizontal-item-width"@,
        Field::HorizontalItemHeight => "--horizontal-item-height"@,
        Field::HorizontalTextOffset => "--horizontal-text-offset"@,
        Field::HorizontalTextBaseline => "--horizontal-text-baseline"@,
        Field::HorizontalCharWidthEstimate => "--horizontal-char-width"@,
        Field::ItemBorderWidth => "--item-border-width"@,
        Field::ItemBorderColor => "--item-border-color"@,
        Field::ItemSelectedBorderColor => "--item-selected-border-color"@,
    }
}

/// The selectors and names of the properties.
proof fn lemma_keys(rules: Rules, field: Field)
    ensures
        last_text(rules, rule_names(), field, 23) == rule_text(rules, field),
        root_names()[root_place(field)].0 == root_key(field),
{
    lemma_last_text(rules, field);
    let names = rule_names();
    let roots = root_names();
    match field {
        Field::OverlayBackground => {
            assert(names[0].0 == "overlay"@ && names[0].1 == "background"@);
            assert(roots[0].0 == "--overlay-background"@);
        },
        Field::HighlightBackground => {
            assert(names[11].0 == "item:selected"@ && names[11].1 == "background"@);
            assert(roots[1].0 == "--highlight-background"@);
        },
        Field::TextColor => {
            assert(names[14].0 == "label"@ && names[14].1 == "color"@);
            assert(roots[2].0 == "--text-color"@);
        },
        Field::TextSelectedColor => {
            assert(names[15].0 == "label:selected"@ && names[15].1 == "color"@);
            assert(names[12].0 == "item:selected"@ && names[12].1 == "color"@);
            assert(roots[3].0 == "--text-selected-color"@);
        },
        Field::OverlayWidth => {
            assert(names[1].0 == "overlay"@ && names[1].1 == "width"@);
            assert(roots[4].0 == "--overlay-width"@);
        },
        Field::Padding => {
            assert(names[2].0 == "overlay"@ && names[2].1 == "padding"@);
            assert(roots[5].0 == "--padding"@);
        },
        Field::ScreenMargin => {
            assert(names[3].0 == "overlay"@ && names[3].1 == "screen-margin"@);
            assert(roots[6].0 == "--screen-margin"@);
        },
        Field::RowHeight => {
            assert(names[6].0 == "item"@ && names[6].1 == "height"@);
            assert(roots[7].0 == "--row-height"@);
        },
        Field::IconMaxSize => {
            assert(names[7].0 == "item"@ && names[7].1 == "icon-size"@);
            assert(roots[8].0 == "--icon-size"@);
        },
        Field::IconMargin => {
            assert(names[8].0 == "item"@ && names[8].1 == "icon-margin"@);
            assert(roots[9].0 == "--icon-margin"@);
        },
        Field::OverlayBorderWidth => {
            assert(names[4].0 == "overlay"@ && names[4].1 == "border-width"@);
            assert(roots[10].0 == "--overlay-border-width"@);
        },
        Field::OverlayBorderColor => {
            assert(names[5].0 == "overlay"@ && names[5].1 == "border-color"@);
            assert(roots[11].0 == "--overlay-border-color"@);
        },
        Field::VerticalTextGap => {
            assert(names[21].0 == "vertical"@ && names[21].1 == "text-gap"@);
            assert(roots[12].0 == "--vertical-text-gap"@);
        },
        Field::VerticalTextBaseline => {
            assert(names[22].0 == "vertical"@ && names[22].1 == "text-baseline"@);
            assert(roots[13].0 == "--vertical-text-baseline"@);
        },
        Field::HorizontalItemWidth => {
            assert(names[16].0 == "horizontal"@ && names[16].1 == "item-width"@);
            assert(roots[14].0 == "--horizontal-item-width"@);
        },
        Field::HorizontalItemHeight => {
            assert(names[17].0 == "horizontal"@ && names[17].1 == "item-height"@);
            assert(roots[15].0 == "--horizontal-item-height"@);
        },
        Field::HorizontalTextOffset => {
            assert(names[18].0 == "horizontal"@ && names[18].1 == "text-offset"@);
            assert(roots[16].0 == "--horizontal-text-offset"@);
        },
        Field::HorizontalTextBaseline => {
            assert(names[19].0 == "horizontal"@ && names[19].1 == "text-baseline"@);
            assert(roots[17].0 == "--horizontal-text-baseline"@);
        },
        Field::HorizontalCharWidthEstimate => {
            assert(names[20].0 == "horizontal"@ && names[20].1 == "char-width"@);
            assert(roots[18].0 == "--horizontal-char-width"@);
        },
        Field::ItemBorderWidth => {
            assert(names[9].0 == "item"@ && names[9].1 == "border-width"@);
            assert(roots[19].0 == "--item-border-width"@);
        },
        Field::ItemBorderColor => {
            assert(names[10].0 == "item"@ && names[10].1 == "border-color"@);
            assert(roots[20].0 == "--item-border-color"@);
        },
        Field::ItemSelectedBorderColor => {
            assert(names[13].0 == "item:selected"@ && names[13].1 == "border-color"@);
            assert(roots[21].0 == "--item-selected-border-color"@);
        },
    }
}

/// What a style sheet makes of a property, by its names.
proof fn lemma_property(style: Style, rules: Rules, readings: Pairs<Option<u64>>, field: Field)
    requires
        distinct_keys(under(rules, ":root"@)),
        applied(style, sheet_steps(rules), readings).problem is None,
    ensures
        comes_to(
            field_reader(field, readings),
            rule_text(rules, field),
            declared(rules, ":root"@, root_key(field)),
            field_value(style, field),
            field_value(applied(style, sheet_steps(rules), readings).style, field),
        ),
{
    lemma_after_sheet(style, rules, readings, field);
    lemma_keys(rules, field);
}

/// A style sheet that is applied without a problem gives each property what is
/// declared for it: what stands under its own selector and name, or else what
/// stands for it under `:root`; a property for which neither is declared stays as
/// it was. The colour of the selected entry's label is taken from the label's own
/// selector before that of the entry.
pub proof fn declarations_set_what_they_name(
    style: Style,
    rules: Rules,
    readings: Pairs<Option<u64>>,
)
    requires
        distinct_keys(under(rules, ":root"@)),
        applied(style, sheet_steps(rules), readings).problem is None,
    ensures
        ({
            let after = applied(style, sheet_steps(rules), readings).style;
            let color = color_reader(readings);
            let length = length_reader(readings);
            let offset = offset_reader(readings);
            &&& comes_to(
                color,
                declared(rules, "overlay"@, "background"@),
                declared(rules, ":root"@, "--overlay-background"@),
                style.overlay_background as int,
                after.overlay_background as int,
            )
            &&& comes_to(
                color,
                declared(rules, "item:selected"@, "background"@),
                declared(rules, ":root"@, "--highlight-background"@),
                style.highlight_background as int,
                after.highlight_background as int,
            )
            &&& comes_to(
                color,
                declared(rules, "label"@, "color"@),
                declared(rules, ":root"@, "--text-color"@),
                style.text_color as int,
                after.text_color as int,
            )
            &&& comes_to(
                color,
                (match declared(rules, "label:selected"@, "color"@) {
                    Some(text) => Some(text),
                    None => declared(rules, "item:selected"@, "color"@),
                }),
                declared(rules, ":root"@, "--text-selected-color"@),
                style.text_selected_color as int,
                after.text_selected_color as int,
            )
            &&& comes_to(
                length,
                declared(rules, "overlay"@, "width"@),
                declared(rules, ":root"@, "--overlay-width"@),
                style.overlay_width as int,
                after.overlay_width as int,
            )
            &&& comes_to(
                length,
                declared(rules, "overlay"@, "padding"@),
                declared(rules, ":root"@, "--padding"@),
                style.padding as int,
                after.padding as int,
            )
            &&& comes_to(
                length,
                declared(rules, "overlay"@, "screen-margin"@),
                declared(rules, ":root"@, "--screen-margin"@),
                style.screen_margin as int,
                after.screen_margin as int,
            )
            &&& comes_to(
                length,
                declared(rules, "item"@, "height"@),
                declared(rules, ":root"@, "--row-height"@),
                style.row_height as int,
                after.row_height as int,
            )
            &&& comes_to(
                length,
                declared(rules, "item"@, "icon-size"@),
                declared(rules, ":root"@, "--icon-size"@),
                style.icon_max_size as int,
                after.icon_max_size as int,
            )
            &&& comes_to(
                length,
                declared(rules, "item"@, "icon-margin"@),
                declared(rules, ":root"@, "--icon-margin"@),
                style.icon_margin as int,
                after.icon_margin as int,
            )
            &&& comes_to(
                length,
                declared(rules, "overlay"@, "border-width"@),
                declared(rules, ":root"@, "--overlay-border-width"@),
                style.overlay_border_width as int,
                after.overlay_border_width as int,
            )
            &&& comes_to(
                color,
                declared(rules, "overlay"@, "border-color"@),
                declared(rules, ":root"@, "--overlay-border-color"@),
                style.overlay_border_color as int,
                after.overlay_border_color as int,
            )
            &&& comes_to(
                offset,
                declared(rules, "vertical"@, "text-gap"@),
                declared(rules, ":root"@, "--vertical-text-gap"@),
                style.vertical_text_gap as int,
                after.vertical_text_gap as int,
            )
            &&& comes_to(
                offset,
                declared(rules, "vertical"@, "text-baseline"@),
                declared(rules, ":root"@, "--vertical-text-baseline"@),
                style.vertical_text_baseline as int,
                after.vertical_text_baseline as int,
            )
            &&& comes_to(
                length,
                declared(rules, "horizontal"@, "item-width"@),
                declared(rules, ":root"@, "--horizontal-item-width"@),
                style.horizontal_item_width as int,
                after.horizontal_item_width as int,
            )
            &&& comes_to(
                length,
                declared(rules, "horizontal"@, "item-height"@),
                declared(rules, ":root"@, "--horizontal-item-height"@),
                style.horizontal_item_height as int,
                after.horizontal_item_height as int,
            )
            &&& comes_to(
                offset,
                declared(rules, "horizontal"@, "text-offset"@),
                declared(rules, ":root"@, "--horizontal-text-offset"@),
                style.horizontal_text_offset as int,
                after.horizontal_text_offset as int,
            )
            &&& comes_to(
                offset,
                declared(rules, "horizontal"@, "text-baseline"@),
                declared(rules, ":root"@, "--horizontal-text-baseline"@),
                style.horizontal_text_baseline as int,
                after.horizontal_text_baseline as int,
            )
            &&& comes_to(
                length,
                declared(rules, "horizontal"@, "char-width"@),
                declared(rules, ":root"@, "--horizontal-char-width"@),
                style.horizontal_char_width_estimate as int,
                after.horizontal_char_width_estimate as int,
            )
            &&& comes_to(
                length,
                declared(rules, "item"@, "border-width"@),
                declared(rules, ":root"@, "--item-border-width"@),
                style.item_border_width as int,
                after.item_border_width as int,
            )
            &&& comes_to(
                color,
                declared(rules, "item"@, "border-color"@),
                declared(rules, ":root"@, "--item-border-color"@),
                style.item_border_color as int,
                after.item_border_color as int,
            )
            &&& comes_to(
                color,
                declared(rules, "item:selected"@, "border-color"@),
                declared(rules, ":root"@, "--item-selected-border-color"@),
                style.item_selected_border_color as int,
                after.item_selected_border_color as int,
            )
        }),
{
    lemma_property(style, rules, readings, Field::OverlayBackground);
    lemma_property(style, rules, readings, Field::HighlightBackground);
    lemma_property(style, rules, readings, Field::TextColor);
    lemma_property(style, rules, readings, Field::TextSelectedColor);
    lemma_property(style, rules, readings, Field::OverlayWidth);
    lemma_property(style, rules, readings, Field::Padding);
    lemma_property(style, rules, readings, Field::ScreenMargin);
    lemma_property(style, rules, readings, Field::RowHeight);
    lemma_property(style, rules, readings, Field::IconMaxSize);
    lemma_property(style, rules, readings, Field::IconMargin);
    lemma_property(style, rules, readings, Field::OverlayBorderWidth);
    lemma_property(style, rules, readings, Field::OverlayBorderColor);
    lemma_property(style, rules, readings, Field::VerticalTextGap);
    lemma_property(style, rules, readings, Field::VerticalTextBaseline);
    lemma_property(style, rules, readings, Field::HorizontalItemWidth);
    lemma_property(style, rules, readings, Field::HorizontalItemHeight);
    lemma_property(style, rules, readings, Field::HorizontalTextOffset);
    lemma_property(style, rules, readings, Field::HorizontalTextBaseline);
    lemma_property(style, rules, readings, Field::HorizontalCharWidthEstimate);
    lemma_property(style, rules, readings, Field::ItemBorderWidth);
    lemma_property(style, rules, readings, Field::ItemBorderColor);
    lemma_property(style, rules, readings, Field::ItemSelectedBorderColor);
}

/// A style sheet is applied up to the first value that cannot be read: if there is
/// one, its problem is the result, and if there is none, there is no problem.
pub proof fn the_first_bad_value_is_reported(
    style: Style,
    steps: Seq<Step>,
    readings: Pairs<Option<u64>>,
)
    ensures
        (forall|i: int|
            0 <= i < steps.len() ==> parsed_value(
                (#[trigger] steps[i]).field,
                steps[i].text,
                readings,
            ) is Ok) ==> applied(style, steps, readings).problem is None,
        applied(style, steps, readings).problem matches Some(problem) ==> exists|i: int|
            0 <= i < steps.len() && parsed_value(
                (#[trigger] steps[i]).field,
                steps[i].text,
                readings,
            ) == Err::<int, Problem>(problem) && (forall|j: int|
                0 <= j < i ==> parsed_value((#[trigger] steps[j]).field, steps[j].text, readings)
                    is Ok) && applied(style, steps, readings).style == applied(
                style,
                steps.take(i),
                readings,
            ).style,
    decreases steps.len(),
{
    if steps.len() > 0 {
        let before = steps.drop_last();
        let n = steps.len() - 1;
        the_first_bad_value_is_reported(style, before, readings);
        assert(forall|i: int| 0 <= i < n ==> before[i] == #[trigger] steps[i]);
        if let Some(problem) = applied(style, before, readings).problem {
            let i = choose|i: int|
                0 <= i < before.len() && parsed_value(
                    (#[trigger] before[i]).field,
                    before[i].text,
                    readings,
                ) == Err::<int, Problem>(problem) && (forall|j: int|
                    0 <= j < i ==> parsed_value(
                        (#[trigger] before[j]).field,
                        before[j].text,
                        readings,
                    ) is Ok) && applied(style, before, readings).style == applied(
                    style,
                    before.take(i),
                    readings,
                ).style;
            assert(steps[i] == before[i]);
            assert(steps.take(i) =~= before.take(i));
            assert forall|j: int| 0 <= j < i implies parsed_value(
                (#[trigger] steps[j]).field,
                steps[j].text,
                readings,
            ) is Ok by {
                assert(before[j] == steps[j]);
            }
        } else {
            lemma_applied_fine(style, before, readings);
            assert(steps[n] == steps.last());
            assert(steps.take(n) =~= before);
            assert forall|j: int| 0 <= j < n implies parsed_value(
                (#[trigger] steps[j]).field,
                steps[j].text,
                readings,
            ) is Ok by {
                assert(before[j] == steps[j]);
            }
        }
    }
}

/// Where there is no problem every value could be read.
proof fn lemma_applied_fine(style: Style, steps: Seq<Step>, readings: Pairs<Option<u64>>)
    requires
        applied(style, steps, readings).problem is None,
    ensures
        forall|i: int|
            0 <= i < steps.len() ==> parsed_value(
                (#[trigger] steps[i]).field,
                steps[i].text,
                readings,
            ) is Ok,
    decreases steps.len(),
{
    if steps.len() > 0 {
        let before = steps.drop_last();
        lemma_applied_fine(style, before, readings);
        assert forall|i: int| 0 <= i < steps.len() implies parsed_value(
            (#[trigger] steps[i]).field,
            steps[i].text,
            readings,
        ) is Ok by {
            if i < before.len() {
                assert(before[i] == steps[i]);
            }
        }
    }
}

/// A label is the whole title where it fits; where it does not, it has as many
/// characters as fit, and the last three of them, or all of them, are dots in the
/// place of what is left out. As many characters fit as the space beside the margin
/// on both sides has room for, but always one.
pub proof fn long_labels_end_in_dots(style: Style, title: Seq<char>, cell_width: int, i: int)
    requires
        title.len() > 0,
        style.horizontal_text_offset >= 0,
        cell_width > 2 * style.horizontal_text_offset,
    ensures
        ({
            let label = fitted_label(style, title, cell_width);
            let space = cell_width - 2 * style.horizontal_text_offset;
            let one = if style.horizontal_char_width_estimate == 0 {
                1int
            } else {
                style.horizontal_char_width_estimate as int
            };
            let n = label.len() as int;
            &&& 0 < n <= title.len()
            &&& n == 1 || n * one <= space
            &&& n < title.len() ==> (n + 1) * one > space
            &&& n == title.len() ==> label == sanitized(title)
            &&& n < title.len() && n <= 3 && 0 <= i < n ==> label[i] == '.'
            &&& n < title.len() && n > 3 && 0 <= i < n - 3 ==> label[i] == sanitized(title)[i]
            &&& n < title.len() && n > 3 && n - 3 <= i < n ==> label[i] == '.'
            &&& fitted_width(style, title, cell_width) == (if n * one <= space {
                n * one
            } else {
                space
            })
        }),
{
    let space = cell_width - label_margin(style);
    let w = char_width(style);
    assert(label_margin(style) == 2 * style.horizontal_text_offset);
    assert(space / w >= 0 && (space / w) * w <= space && (space / w + 1) * w > space)
        by (nonlinear_arith)
        requires
            space > 0,
            w > 0,
    ;
    let label = fitted_label(style, title, cell_width);
    let n = label.len() as int;
    let c = label_capacity(style, cell_width);
    assert(n * w <= c * w) by (nonlinear_arith)
        requires
            n <= c,
            w > 0,
    ;
    if space / w == 0 {
        assert((0 + 1) * w > space);
        assert((n + 1) * w > space) by (nonlinear_arith)
            requires
                n >= 1,
                w > space,
                w > 0,
        ;
    }
}

/// Where there is no space beside the margin, or no title, there is no label.
pub proof fn labels_need_space(style: Style, title: Seq<char>, cell_width: int)
    requires
        style.horizontal_text_offset >= 0,
        title.len() == 0 || cell_width <= 2 * style.horizontal_text_offset,
    ensures
        fitted_label(style, title, cell_width).len() == 0,
        fitted_width(style, title, cell_width) == 0,
{
}

} // verus!
