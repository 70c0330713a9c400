//! The values of a style sheet: colours and lengths.

use crate::color::{color_of, pack};
use crate::double::Double;
use crate::text::{
    ascii_lower, ascii_lowercase, chars_of, has_prefix, is_blank, is_white_space,
    joined_texts_split_apart, lower_ascii, parts_lie_between_separators, same_chars, slices, split,
    split_at_char, starts_with, string_of, text_of, trim, trimmed, trimming_takes_white_space_away,
};
use crate::textmap::{value_of, Pairs, TextMap};
use vstd::prelude::*;
use vstd::slice::slice_subrange;

verus! {

/// What is wrong with a style sheet.
#[derive(Clone, Copy, Debug, PartialEq, Eq, Structural)]
pub enum ProblemKind {
    /// A block that is not closed.
    UnmatchedBraces,
    /// A colour behind `#` that is no hexadecimal number.
    InvalidHexColor,
    /// A hexadecimal colour with an unknown number of digits.
    UnsupportedHexLength,
    /// A colour in `rgb()` that does not have three components.
    RgbComponentCount,
    /// A component of `rgb()` that is no number.
    InvalidRgbComponent,
    /// A component of `rgb()` that is not between 0 and 255.
    RgbComponentOutOfRange,
    /// A colour of an unknown name.
    UnsupportedColor,
    /// A length that is no number.
    InvalidLength,
    /// A length below zero.
    NegativeLength,
    /// A length that is too large.
    LengthTooLarge,
    /// A length that is too small or too large.
    LengthOutOfRange,
}

/// What is wrong with a style sheet, and the text that is to blame.
pub struct Problem {
    pub kind: ProblemKind,
    pub text: Seq<char>,
}

/// Why a style sheet is refused.
#[derive(Debug)]
pub struct StyleError {
    pub kind: ProblemKind,
    pub text: String,
}

impl View for StyleError {
    type V = Problem;

    open spec fn view(&self) -> Problem {
        Problem { kind: self.kind, text: self.text@ }
    }
}

/// The beginning of an error message.
pub open spec fn preamble(kind: ProblemKind) -> Seq<char> {
    match kind {
        ProblemKind::UnmatchedBraces => "unmatched braces in css"@,
        ProblemKind::InvalidHexColor => "invalid hex color: "@,
        ProblemKind::UnsupportedHexLength => "unsupported hex color length: #"@,
        ProblemKind::RgbComponentCount => "rgb() expects three components: "@,
        ProblemKind::InvalidRgbComponent => "invalid rgb component: "@,
        ProblemKind::RgbComponentOutOfRange => "rgb component out of range: "@,
        ProblemKind::UnsupportedColor => "unsupported color value: "@,
        ProblemKind::InvalidLength => "invalid length value: "@,
        ProblemKind::NegativeLength => "length cannot be negative: "@,
        ProblemKind::LengthTooLarge => "length too large: "@,
        ProblemKind::LengthOutOfRange => "length out of range: "@,
    }
}

impl StyleError {
    /// The text of the error message.
    pub fn message(&self) -> (r: String)
        ensures
            r@ == preamble(self.kind) + self.text@,
    {
        let start = match self.kind {
            ProblemKind::UnmatchedBraces => "unmatched braces in css",
            ProblemKind::InvalidHexColor => "invalid hex color: ",
            ProblemKind::UnsupportedHexLength => "unsupported hex color length: #",
            ProblemKind::RgbComponentCount => "rgb() expects three components: ",
            ProblemKind::InvalidRgbComponent => "invalid rgb component: ",
            ProblemKind::RgbComponentOutOfRange => "rgb component out of range: ",
            ProblemKind::UnsupportedColor => "unsupported color value: ",
            ProblemKind::InvalidLength => "invalid length value: ",
            ProblemKind::NegativeLength => "length cannot be negative: ",
            ProblemKind::LengthTooLarge => "length too large: ",
            ProblemKind::LengthOutOfRange => "length out of range: ",
        };
        text_of(start).concat(self.text.as_str())
    }

    /// An error that blames `text`.
    pub fn new(kind: ProblemKind, text: &str) -> (r: Self)
        ensures
            r@ == (Problem { kind, text: text@ }),
    {
        StyleError { kind, text: text_of(text) }
    }

    fn of_chars(kind: ProblemKind, text: &[char]) -> (r: Self)
        ensures
            r@ == (Problem { kind, text: text@ }),
    {
        StyleError { kind, text: string_of(text) }
    }
}

/// The numbers that texts stand for, as the bits of a double: nothing for a
/// text that is no number.
pub type Readings = TextMap<Option<u64>>;

/// The number that a text stands for, if it is one.
pub open spec fn reading(readings: Pairs<Option<u64>>, text: Seq<char>) -> Option<Double> {
    match value_of(readings, text) {
        Some(Some(bits)) => Some(Double { bits }),
        _ => None,
    }
}

/// The number that a text stands for, if it is one.
fn read_number(readings: &Readings, text: &[char]) -> (r: Option<Double>)
    ensures
        r == reading(readings@, text@),
{
    let key = string_of(text);
    match readings.get(key.as_str()) {
        Some(Some(bits)) => Some(Double { bits: *bits }),
        _ => None,
    }
}

/// The value of a hexadecimal digit.
pub open spec fn hex_digit(c: char) -> Option<int> {
    if '0' <= c <= '9' {
        Some(c as int - '0' as int)
    } else if 'a' <= c <= 'f' {
        Some(c as int - 'a' as int + 10)
    } else if 'A' <= c <= 'F' {
        Some(c as int - 'A' as int + 10)
    } else {
        None
    }
}

/// The value of a sequence of hexadecimal digits.
pub open spec fn hex_digits(s: Seq<char>) -> Option<int>
    decreases s.len(),
{
    if s.len() == 0 {
        Some(0)
    } else {
        match (hex_digits(s.drop_last()), hex_digit(s.last())) {
            (Some(high), Some(low)) => Some(high * 16 + low),
            _ => None,
        }
    }
}

/// The value of a hexadecimal number of 32 bits: digits, with or without a plus
/// sign before them.
pub open spec fn hex_number(s: Seq<char>) -> Option<int> {
    let digits = if s.len() > 1 && s[0] == '+' {
        s.skip(1)
    } else {
        s
    };
    match hex_digits(digits) {
        Some(value) => if digits.len() > 0 && value <= u32::MAX {
            Some(value)
        } else {
            None
        },
        None => None,
    }
}

fn read_hex_digit(c: char) -> (r: Option<u32>)
    ensures
        match r {
            Some(d) => hex_digit(c) == Some(d as int) && d < 16,
            None => hex_digit(c) is None,
        },
{
    if '0' <= c && c <= '9' {
        Some(c as u32 - '0' as u32)
    } else if 'a' <= c && c <= 'f' {
        Some(c as u32 - 'a' as u32 + 10)
    } else if 'A' <= c && c <= 'F' {
        Some(c as u32 - 'A' as u32 + 10)
    } else {
        None
    }
}

/// If the digits up to `i` hold something that is no digit, so do all.
proof fn lemma_bad_digit(s: Seq<char>, i: int)
    requires
        0 <= i < s.len(),
        hex_digit(s[i]) is None,
    ensures
        hex_digits(s) is None,
    decreases s.len(),
{
    if i < s.len() - 1 {
        assert(s.drop_last()[i] == s[i]);
        lemma_bad_digit(s.drop_last(), i);
    }
}

/// Reads a hexadecimal number of 32 bits.
fn read_hex_number(s: &[char]) -> (r: Option<u32>)
    ensures
        match r {
            Some(n) => hex_number(s@) == Some(n as int),
            None => hex_number(s@) is None,
        },
{
    let digits: &[char] = if s.len() > 1 && s[0] == '+' {
        slice_subrange(s, 1, s.len())
    } else {
        s
    };
    proof {
        if s@.len() > 1 && s@[0] == '+' {
            assert(digits@ =~= s@.skip(1));
        }
    }
    if digits.len() == 0 {
        return None;
    }
    // The value so far, or the first one that is too large.
    let mut value: u64 = 0;
    let mut i: usize = 0;
    while i < digits.len()
        invariant
            i <= digits@.len(),
            hex_digits(digits@) is None ==> hex_number(s@) is None,
            value <= 0x1_0000_0000,
            hex_digits(digits@.take(i as int)) is Some,
            hex_digits(digits@.take(i as int))->0 >= 0,
            value < 0x1_0000_0000 ==> hex_digits(digits@.take(i as int)) == Some(value as int),
            value == 0x1_0000_0000 ==> hex_digits(digits@.take(i as int))->0 >= 0x1_0000_0000,
        decreases digits@.len() - i,
    {
        proof {
            assert(digits@.take(i + 1).drop_last() =~= digits@.take(i as int));
            assert(digits@.take(i + 1).last() == digits@[i as int]);
        }
        match read_hex_digit(digits[i]) {
            None => {
                proof {
                    lemma_bad_digit(digits@, i as int);
                }
                return None;
            },
            Some(d) => {
                let next: u64 = value * 16 + d as u64;
                value = if next < 0x1_0000_0000 {
                    next
                } else {
                    0x1_0000_0000
                };
            },
        }
        i = i + 1;
    }
    proof {
        assert(digits@.take(digits@.len() as int) =~= digits@);
    }
    if value < 0x1_0000_0000 {
        Some(value as u32)
    } else {
        None
    }
}

/// The colour that a hexadecimal number with so many digits stands for: one
/// digit or two for each of red, green and blue, and an alpha that is dropped.
pub open spec fn hex_color(n: int, digits: int) -> Option<u32> {
    if digits == 3 {
        Some(color_of(0, (n / 0x100) % 16 * 17, (n / 0x10) % 16 * 17, n % 16 * 17))
    } else if digits == 4 {
        Some(color_of(0, (n / 0x1000) % 16 * 17, (n / 0x100) % 16 * 17, (n / 0x10) % 16 * 17))
    } else if digits == 6 {
        Some(n as u32)
    } else if digits == 8 {
        Some((n / 0x100) as u32)
    } else {
        None
    }
}

/// What stands between `rgb(` and `)`.
pub open spec fn rgb_body(s: Seq<char>) -> Option<Seq<char>> {
    if has_prefix(s, "rgb("@) && s.len() > 4 && s.last() == ')' {
        Some(s.subrange(4, s.len() - 1))
    } else {
        None
    }
}

/// The components of `rgb()`: the parts between the commas.
pub open spec fn rgb_parts(body: Seq<char>) -> Seq<Seq<char>> {
    split(body, ',').map_values(|part: Seq<char>| trim(part))
}

/// The value of a component of `rgb()`.
pub open spec fn rgb_component(part: Seq<char>, readings: Pairs<Option<u64>>) -> Result<
    int,
    Problem,
> {
    match reading(readings, part) {
        None => Err(Problem { kind: ProblemKind::InvalidRgbComponent, text: part }),
        Some(n) => if n.is_nan() || n.negative() || n.above(255) {
            Err(Problem { kind: ProblemKind::RgbComponentOutOfRange, text: part })
        } else {
            Ok(n.rounded())
        },
    }
}

/// The colour that the components of `rgb()` stand for; the first one that is
/// wrong is the problem.
pub open spec fn rgb_color(
    parts: Seq<Seq<char>>,
    value: Seq<char>,
    readings: Pairs<Option<u64>>,
) -> Result<u32, Problem> {
    if parts.len() != 3 {
        Err(Problem { kind: ProblemKind::RgbComponentCount, text: value })
    } else {
        match (
            rgb_component(parts[0], readings),
            rgb_component(parts[1], readings),
            rgb_component(parts[2], readings),
        ) {
            (Ok(r), Ok(g), Ok(b)) => Ok(color_of(0, r, g, b)),
            (Err(problem), _, _) => Err(problem),
            (_, Err(problem), _) => Err(problem),
            (_, _, Err(problem)) => Err(problem),
        }
    }
}

/// The colour of a name, which is in lower case.
pub open spec fn named_color(name: Seq<char>) -> Result<u32, Problem> {
    if name == "black"@ {
        Ok(0x000000)
    } else if name == "white"@ {
        Ok(0xFFFFFF)
    } else if name == "red"@ {
        Ok(0xFF0000)
    } else if name == "green"@ {
        Ok(0x008000)
    } else if name == "blue"@ {
        Ok(0x0000FF)
    } else {
        Err(Problem { kind: ProblemKind::UnsupportedColor, text: name })
    }
}

/// The colour that a value stands for: `#` and hexadecimal digits, `rgb()` with
/// three components, or a name.
pub open spec fn color_value(value: Seq<char>, readings: Pairs<Option<u64>>) -> Result<
    u32,
    Problem,
> {
    let text = trim(value);
    if text.len() > 0 && text[0] == '#' {
        let hex = trim(text.skip(1));
        match hex_number(hex) {
            None => Err(Problem { kind: ProblemKind::InvalidHexColor, text: value }),
            Some(n) => match hex_color(n, hex.len() as int) {
                Some(color) => Ok(color),
                None => Err(Problem { kind: ProblemKind::UnsupportedHexLength, text: hex }),
            },
        }
    } else {
        match rgb_body(text) {
            Some(body) => rgb_color(rgb_parts(body), value, readings),
            None => named_color(ascii_lowercase(text)),
        }
    }
}

/// Reads a component of `rgb()`.
fn read_rgb_component(part: &[char], readings: &Readings) -> (r: Result<u32, StyleError>)
    ensures
        match r {
            Ok(n) => rgb_component(part@, readings@) == Ok::<int, Problem>(n as int) && n < 256,
            Err(e) => rgb_component(part@, readings@) == Err::<int, Problem>(e@),
        },
{
    match read_number(readings, part) {
        None => Err(StyleError::of_chars(ProblemKind::InvalidRgbComponent, part)),
        Some(n) => {
            if n.nan() || n.is_negative() || n.is_above(255) {
                Err(StyleError::of_chars(ProblemKind::RgbComponentOutOfRange, part))
            } else {
                proof {
                    assert(!n.below_minus(0));
                    lemma_monotone(n, 0, 0xffff);
                    lemma_monotone(n, 255, 0xffff);
                }
                Ok(n.round() as u32)
            }
        },
    }
}

/// A number that is not greater than one bound is not greater than a larger one.
proof fn lemma_monotone(n: Double, low: int, high: int)
    requires
        0 <= low <= high,
    ensures
        n.magnitude_exceeds(high) ==> n.magnitude_exceeds(low),
{
    if n.shift() >= 0 {
        let p = vstd::arithmetic::power2::pow2(n.shift() as nat);
        assert(low * p <= high * p) by (nonlinear_arith)
            requires
                low <= high,
                0 <= p,
        ;
    }
}

/// Reads what stands in `rgb()`.
fn read_rgb(body: &[char], value: &str, readings: &Readings) -> (r: Result<u32, StyleError>)
    ensures
        match r {
            Ok(c) => rgb_color(rgb_parts(body@), value@, readings@) == Ok::<u32, Problem>(c),
            Err(e) => rgb_color(rgb_parts(body@), value@, readings@) == Err::<u32, Problem>(e@),
        },
{
    let parts = split_at_char(body, ',');
    proof {
        assert(rgb_parts(body@).len() == parts@.len());
        assert(forall|i: int|
            0 <= i < parts@.len() ==> #[trigger] rgb_parts(body@)[i] == trim(slices(parts@)[i]));
    }
    if parts.len() != 3 {
        return Err(StyleError::new(ProblemKind::RgbComponentCount, value));
    }
    let red = match read_rgb_component(trimmed(parts[0]), readings) {
        Ok(n) => n,
        Err(e) => {
            return Err(e);
        },
    };
    let green = match read_rgb_component(trimmed(parts[1]), readings) {
        Ok(n) => n,
        Err(e) => {
            return Err(e);
        },
    };
    let blue = match read_rgb_component(trimmed(parts[2]), readings) {
        Ok(n) => n,
        Err(e) => {
            return Err(e);
        },
    };
    Ok(pack(0, red, green, blue))
}

/// The colour that a hexadecimal number with so many digits stands for.
fn read_hex_color(n: u32, digits: usize) -> (r: Option<u32>)
    ensures
        r == hex_color(n as int, digits as int),
{
    if digits == 3 {
        Some(pack(0, (n / 0x100) % 16 * 17, (n / 0x10) % 16 * 17, n % 16 * 17))
    } else if digits == 4 {
        Some(pack(0, (n / 0x1000) % 16 * 17, (n / 0x100) % 16 * 17, (n / 0x10) % 16 * 17))
    } else if digits == 6 {
        Some(n)
    } else if digits == 8 {
        Some(n / 0x100)
    } else {
        None
    }
}

/// Whether the characters are those of the text.
fn is_text(s: &[char], text: &str) -> (r: bool)
    ensures
        r == (s@ == text@),
{
    let other = chars_of(text);
    same_chars(s, other.as_slice())
}

/// Reads the colour of a name.
fn read_named_color(text: &[char]) -> (r: Result<u32, StyleError>)
    ensures
        match r {
            Ok(c) => named_color(ascii_lowercase(text@)) == Ok::<u32, Problem>(c),
            Err(e) => named_color(ascii_lowercase(text@)) == Err::<u32, Problem>(e@),
        },
{
    let name = lower_ascii(text);
    if is_text(name.as_slice(), "black") {
        Ok(0x000000)
    } else if is_text(name.as_slice(), "white") {
        Ok(0xFFFFFF)
    } else if is_text(name.as_slice(), "red") {
        Ok(0xFF0000)
    } else if is_text(name.as_slice(), "green") {
        Ok(0x008000)
    } else if is_text(name.as_slice(), "blue") {
        Ok(0x0000FF)
    } else {
        Err(StyleError::of_chars(ProblemKind::UnsupportedColor, name.as_slice()))
    }
}

/// What stands between `rgb(` and `)`.
fn find_rgb_body<'a>(s: &'a [char]) -> (r: Option<&'a [char]>)
    ensures
        match r {
            Some(body) => rgb_body(s@) == Some(body@),
            None => rgb_body(s@) is None,
        },
{
    let prefix = chars_of("rgb(");
    if starts_with(s, prefix.as_slice()) && s.len() > 4 && s[s.len() - 1] == ')' {
        Some(slice_subrange(s, 4, s.len() - 1))
    } else {
        None
    }
}

/// Reads the colour that a value stands for.
pub fn parse_color(value: &str, readings: &Readings) -> (r: Result<u32, StyleError>)
    ensures
        match r {
            Ok(c) => color_value(value@, readings@) == Ok::<u32, Problem>(c),
            Err(e) => color_value(value@, readings@) == Err::<u32, Problem>(e@),
        },
{
    let chars = chars_of(value);
    let text = trimmed(chars.as_slice());
    if text.len() > 0 && text[0] == '#' {
        let behind = slice_subrange(text, 1, text.len());
        proof {
            assert(behind@ =~= text@.skip(1));
        }
        let hex = trimmed(behind);
        return match read_hex_number(hex) {
            None => Err(StyleError::new(ProblemKind::InvalidHexColor, value)),
            Some(n) => match read_hex_color(n, hex.len()) {
                Some(color) => Ok(color),
                None => Err(StyleError::of_chars(ProblemKind::UnsupportedHexLength, hex)),
            },
        };
    }
    match find_rgb_body(text) {
        Some(body) => read_rgb(body, value, readings),
        None => read_named_color(text),
    }
}

/// The number in a length: what stands before `px`, or all of it.
pub open spec fn length_text(value: Seq<char>) -> Seq<char> {
    let text = trim(value);
    let n = text.len();
    if n >= 2 && ascii_lowercase(text).skip(n - 2) == "px"@ {
        trim(text.take(n - 2))
    } else {
        trim(text)
    }
}

/// The length that a value stands for, in whole pixels from 0 to 65535.
pub open spec fn length_value(value: Seq<char>, readings: Pairs<Option<u64>>) -> Result<
    u16,
    Problem,
> {
    match reading(readings, length_text(value)) {
        None => Err(Problem { kind: ProblemKind::InvalidLength, text: value }),
        Some(n) => if n.negative() {
            Err(Problem { kind: ProblemKind::NegativeLength, text: value })
        } else if n.above(65535) {
            Err(Problem { kind: ProblemKind::LengthTooLarge, text: value })
        } else {
            Ok(n.rounded() as u16)
        },
    }
}

/// The offset that a value stands for, in whole pixels from -32768 to 32767.
pub open spec fn offset_value(value: Seq<char>, readings: Pairs<Option<u64>>) -> Result<
    i16,
    Problem,
> {
    match reading(readings, length_text(value)) {
        None => Err(Problem { kind: ProblemKind::InvalidLength, text: value }),
        Some(n) => if n.below_minus(32768) || n.above(32767) {
            Err(Problem { kind: ProblemKind::LengthOutOfRange, text: value })
        } else {
            Ok(n.rounded() as i16)
        },
    }
}

/// The number in a length.
fn find_length_text(value: &str) -> (r: Vec<char>)
    ensures
        r@ == length_text(value@),
{
    let chars = chars_of(value);
    let text = trimmed(chars.as_slice());
    let n: usize = text.len();
    proof {
        reveal_strlit("px");
    }
    if n >= 2 {
        let lowered = lower_ascii(text);
        let end = slice_subrange(lowered.as_slice(), n - 2, n);
        proof {
            assert(end@ =~= ascii_lowercase(text@).skip(n - 2));
        }
        if is_text(end, "px") {
            let start = slice_subrange(text, 0, n - 2);
            proof {
                assert(start@ =~= text@.take(n - 2));
            }
            return vstd::slice::slice_to_vec(trimmed(start));
        }
    }
    vstd::slice::slice_to_vec(trimmed(text))
}

/// Reads a length in whole pixels from 0 to 65535.
pub fn parse_u16_px(value: &str, readings: &Readings) -> (r: Result<u16, StyleError>)
    ensures
        match r {
            Ok(n) => length_value(value@, readings@) == Ok::<u16, Problem>(n),
            Err(e) => length_value(value@, readings@) == Err::<u16, Problem>(e@),
        },
{
    let text = find_length_text(value);
    match read_number(readings, text.as_slice()) {
        None => Err(StyleError::new(ProblemKind::InvalidLength, value)),
        Some(n) => {
            if n.is_negative() {
                Err(StyleError::new(ProblemKind::NegativeLength, value))
            } else if n.is_above(65535) {
                Err(StyleError::new(ProblemKind::LengthTooLarge, value))
            } else {
                proof {
                    assert(!n.below_minus(0));
                    lemma_monotone(n, 0, 0xffff);
                }
                Ok(n.round() as u16)
            }
        },
    }
}

/// Reads an offset in whole pixels from -32768 to 32767.
pub fn parse_i16_px(value: &str, readings: &Readings) -> (r: Result<i16, StyleError>)
    ensures
        match r {
            Ok(n) => offset_value(value@, readings@) == Ok::<i16, Problem>(n),
            Err(e) => offset_value(value@, readings@) == Err::<i16, Problem>(e@),
        },
{
    let text = find_length_text(value);
    match read_number(readings, text.as_slice()) {
        None => Err(StyleError::new(ProblemKind::InvalidLength, value)),
        Some(n) => {
            if n.is_below_minus(32768) || n.is_above(32767) {
                Err(StyleError::new(ProblemKind::LengthOutOfRange, value))
            } else {
                proof {
                    lemma_monotone(n, 32767, 0xffff);
                    lemma_monotone(n, 32768, 0xffff);
                }
                Ok(n.round() as i16)
            }
        },
    }
}

/// The texts in a value that may stand for numbers: the number of a length, and
/// the components of `rgb()`.
pub open spec fn number_texts_of(value: Seq<char>) -> Seq<Seq<char>> {
    let components = match rgb_body(trim(value)) {
        Some(body) => rgb_parts(body),
        None => Seq::empty(),
    };
    seq![length_text(value)] + components
}

/// The texts in a value that may stand for numbers.
pub fn number_texts(value: &str) -> (r: Vec<String>)
    ensures
        crate::text::views(r@) == number_texts_of(value@),
{
    let mut r: Vec<String> = Vec::new();
    let length = find_length_text(value);
    r.push(string_of(length.as_slice()));
    proof {
        assert(crate::text::views(r@) =~= seq![length_text(value@)]);
    }
    let chars = chars_of(value);
    match find_rgb_body(trimmed(chars.as_slice())) {
        Some(body) => {
            let parts = split_at_char(body, ',');
            let ghost all = rgb_parts(body@);
            let mut i: usize = 0;
            proof {
                assert(all.len() == parts@.len());
                assert(seq![length_text(value@)] + all.take(0) =~= seq![length_text(value@)]);
            }
            while i < parts.len()
                invariant
                    i <= parts@.len(),
                    all == rgb_parts(body@),
                    all.len() == parts@.len(),
                    slices(parts@) == split(body@, ','),
                    crate::text::views(r@) == seq![length_text(value@)] + all.take(i as int),
                decreases parts@.len() - i,
            {
                let ghost before = r@;
                let part = string_of(trimmed(parts[i]));
                r.push(part);
                proof {
                    assert(slices(parts@)[i as int] == parts@[i as int]@);
                    assert(all[i as int] == part@);
                    assert(crate::text::views(r@) =~= crate::text::views(before).push(part@));
                    assert(crate::text::views(r@) =~= seq![length_text(value@)] + all.take(i + 1));
                }
                i = i + 1;
            }
            proof {
                assert(all.take(all.len() as int) =~= all);
            }
        },
        None => {
            proof {
                assert(crate::text::views(r@) =~= number_texts_of(value@));
            }
        },
    }
    r
}

/// What a value stands for depends on the readings of its own number texts
/// only.
pub proof fn values_need_their_texts_only(
    value: Seq<char>,
    a: Pairs<Option<u64>>,
    b: Pairs<Option<u64>>,
)
    requires
        forall|i: int|
            0 <= i < number_texts_of(value).len() ==> reading(
                a,
                #[trigger] number_texts_of(value)[i],
            ) == reading(b, number_texts_of(value)[i]),
    ensures
        color_value(value, a) == color_value(value, b),
        length_value(value, a) == length_value(value, b),
        offset_value(value, a) == offset_value(value, b),
{
    assert(number_texts_of(value)[0] == length_text(value));
    match rgb_body(trim(value)) {
        Some(body) => {
            let parts = rgb_parts(body);
            if parts.len() == 3 {
                assert(number_texts_of(value)[1] == parts[0]);
                assert(number_texts_of(value)[2] == parts[1]);
                assert(number_texts_of(value)[3] == parts[2]);
            }
        },
        None => {},
    }
}

/// Whether every character is a hexadecimal digit.
pub open spec fn is_hex(s: Seq<char>) -> bool {
    forall|i: int| 0 <= i < s.len() ==> hex_digit(#[trigger] s[i]) is Some
}

/// A hexadecimal digit is one of sixteen: the ten decimal ones, and six letters
/// that may be large or small; its value is its place among them.
pub proof fn hexadecimal_digits_are_sixteen(c: char, k: int)
    requires
        0 <= k < 16,
    ensures
        "0123456789abcdef"@[k] == c ==> hex_digit(c) == Some(k),
        "0123456789ABCDEF"@[k] == c ==> hex_digit(c) == Some(k),
        hex_digit(c) matches Some(value) ==> 0 <= value < 16 && ("0123456789abcdef"@[value] == c
            || "0123456789ABCDEF"@[value] == c),
{
    reveal_strlit("0123456789abcdef");
    reveal_strlit("0123456789ABCDEF");
    let small = "0123456789abcdef"@;
    let large = "0123456789ABCDEF"@;
    assert(forall|j: int|
        0 <= j < 10 ==> (#[trigger] small[j]) as u32 == 48 + j && large[j] as u32 == 48 + j);
    assert(forall|j: int|
        10 <= j < 16 ==> (#[trigger] small[j]) as u32 == 87 + j && large[j] as u32 == 55 + j);
    if let Some(value) = hex_digit(c) {
        assert(small[value] == c || large[value] == c);
    }
}

/// The digits of a number count sixteen times as much with each further digit.
pub proof fn each_digit_counts_sixteen_times(s: Seq<char>, c: char)
    ensures
        hex_digits(Seq::empty()) == Some(0int),
        hex_digits(s.push(c)) == (match (hex_digits(s), hex_digit(c)) {
            (Some(high), Some(low)) => Some(16 * high + low),
            _ => None,
        }),
{
    assert(s.push(c).drop_last() =~= s);
}

proof fn lemma_hex_is_dark(c: char)
    requires
        hex_digit(c) is Some,
    ensures
        !is_white_space(c),
        c != '+',
        0 <= hex_digit(c)->0 < 16,
{
}

proof fn lemma_hex_some(s: Seq<char>)
    requires
        is_hex(s),
    ensures
        hex_digits(s) is Some,
        hex_digits(s)->0 >= 0,
    decreases s.len(),
{
    if s.len() > 0 {
        assert(hex_digit(s[s.len() - 1]) is Some);
        assert forall|i: int| 0 <= i < s.drop_last().len() implies hex_digit(
            #[trigger] s.drop_last()[i],
        ) is Some by {
            assert(hex_digit(s[i]) is Some);
        }
        lemma_hex_some(s.drop_last());
        lemma_hex_is_dark(s.last());
    }
}

/// What a colour behind `#` is read as.
proof fn lemma_hash_color(s: Seq<char>, readings: Pairs<Option<u64>>)
    requires
        is_hex(s),
        s.len() > 0,
    ensures
        hex_digits(s)->0 <= u32::MAX ==> color_value(seq!['#'] + s, readings) == (match hex_color(
            hex_digits(s)->0,
            s.len() as int,
        ) {
            Some(color) => Ok(color),
            None => Err(Problem { kind: ProblemKind::UnsupportedHexLength, text: s }),
        }),
        hex_digits(s)->0 > u32::MAX ==> color_value(seq!['#'] + s, readings) == Err::<u32, Problem>(
            Problem { kind: ProblemKind::InvalidHexColor, text: seq!['#'] + s },
        ),
{
    let value = seq!['#'] + s;
    let none: Seq<char> = Seq::empty();
    assert(hex_digit(s[0]) is Some && hex_digit(s[s.len() - 1]) is Some);
    lemma_hex_is_dark(s[0]);
    lemma_hex_is_dark(s[s.len() - 1]);
    lemma_hex_some(s);
    trimming_takes_white_space_away(none, value, none);
    assert(none + value + none =~= value);
    trimming_takes_white_space_away(none, s, none);
    assert(none + s + none =~= s);
    assert(value.skip(1) =~= s);
}

/// The value of the digits, one by one.
proof fn lemma_three(a: char, b: char, c: char)
    requires
        hex_digit(a) is Some,
        hex_digit(b) is Some,
        hex_digit(c) is Some,
    ensures
        hex_digits(seq![a, b, c]) == Some(
            256 * hex_digit(a)->0 + 16 * hex_digit(b)->0 + hex_digit(c)->0,
        ),
{
    let none: Seq<char> = Seq::empty();
    each_digit_counts_sixteen_times(none, a);
    each_digit_counts_sixteen_times(none.push(a), b);
    each_digit_counts_sixteen_times(none.push(a).push(b), c);
    assert(none.push(a).push(b).push(c) =~= seq![a, b, c]);
}

/// The value of two runs of digits, one behind the other.
proof fn lemma_digits_joined(s: Seq<char>, a: char, b: char)
    requires
        hex_digits(s) is Some,
        hex_digit(a) is Some,
        hex_digit(b) is Some,
    ensures
        hex_digits(s.push(a).push(b)) == Some(
            256 * hex_digits(s)->0 + 16 * hex_digit(a)->0 + hex_digit(b)->0,
        ),
{
    each_digit_counts_sixteen_times(s, a);
    each_digit_counts_sixteen_times(s.push(a), b);
}

/// A colour of six digits has two for each of red, green and blue. A colour of
/// three digits is the one with each digit written twice.
pub proof fn short_colours_double_their_digits(
    r: char,
    g: char,
    b: char,
    s: char,
    h: char,
    c: char,
    readings: Pairs<Option<u64>>,
)
    requires
        hex_digit(r) is Some,
        hex_digit(g) is Some,
        hex_digit(b) is Some,
        hex_digit(s) is Some,
        hex_digit(h) is Some,
        hex_digit(c) is Some,
    ensures
        color_value(seq!['#', r, s, g, h, b, c], readings) == Ok::<u32, Problem>(
            color_of(
                0,
                16 * hex_digit(r)->0 + hex_digit(s)->0,
                16 * hex_digit(g)->0 + hex_digit(h)->0,
                16 * hex_digit(b)->0 + hex_digit(c)->0,
            ),
        ),
        color_value(seq!['#', r, g, b], readings) == color_value(
            seq!['#', r, r, g, g, b, b],
            readings,
        ),
{
    lemma_six_color(r, s, g, h, b, c, readings);
    lemma_six_color(r, r, g, g, b, b, readings);
    lemma_three_color(r, g, b, readings);
}

proof fn lemma_six_color(
    r: char,
    s: char,
    g: char,
    h: char,
    b: char,
    c: char,
    readings: Pairs<Option<u64>>,
)
    requires
        hex_digit(r) is Some,
        hex_digit(g) is Some,
        hex_digit(b) is Some,
        hex_digit(s) is Some,
        hex_digit(h) is Some,
        hex_digit(c) is Some,
    ensures
        color_value(seq!['#', r, s, g, h, b, c], readings) == Ok::<u32, Problem>(
            color_of(
                0,
                16 * hex_digit(r)->0 + hex_digit(s)->0,
                16 * hex_digit(g)->0 + hex_digit(h)->0,
                16 * hex_digit(b)->0 + hex_digit(c)->0,
            ),
        ),
{
    lemma_hex_is_dark(r);
    lemma_hex_is_dark(g);
    lemma_hex_is_dark(b);
    lemma_hex_is_dark(s);
    lemma_hex_is_dark(h);
    lemma_hex_is_dark(c);
    let six = seq![r, s, g, h, b, c];
    lemma_six(r, s, g, h, b, c);
    lemma_hash_color(six, readings);
    assert(seq!['#'] + six =~= seq!['#', r, s, g, h, b, c]);
    assert(six.len() == 6);
}

proof fn lemma_three_color(r: char, g: char, b: char, readings: Pairs<Option<u64>>)
    requires
        hex_digit(r) is Some,
        hex_digit(g) is Some,
        hex_digit(b) is Some,
    ensures
        color_value(seq!['#', r, g, b], readings) == Ok::<u32, Problem>(
            color_of(
                0,
                16 * hex_digit(r)->0 + hex_digit(r)->0,
                16 * hex_digit(g)->0 + hex_digit(g)->0,
                16 * hex_digit(b)->0 + hex_digit(b)->0,
            ),
        ),
{
    lemma_hex_is_dark(r);
    lemma_hex_is_dark(g);
    lemma_hex_is_dark(b);
    let three = seq![r, g, b];
    lemma_three(r, g, b);
    assert(is_hex(three));
    lemma_hash_color(three, readings);
    assert(seq!['#'] + three =~= seq!['#', r, g, b]);
    assert(three.len() == 3);
    let x = hex_digit(r)->0;
    let y = hex_digit(g)->0;
    let z = hex_digit(b)->0;
    let n = 256 * x + 16 * y + z;
    assert(n / 0x100 == x);
    assert(n / 0x10 == 16 * x + y);
    assert(n % 16 == z);
    assert((16 * x + y) % 16 == y);
    assert(x % 16 == x);
}

proof fn lemma_six(a: char, b: char, c: char, d: char, e: char, f: char)
    requires
        hex_digit(a) is Some,
        hex_digit(b) is Some,
        hex_digit(c) is Some,
        hex_digit(d) is Some,
        hex_digit(e) is Some,
        hex_digit(f) is Some,
    ensures
        hex_digits(seq![a, b, c, d, e, f]) == Some(
            0x1_0000 * (16 * hex_digit(a)->0 + hex_digit(b)->0) + 0x100 * (16 * hex_digit(c)->0
                + hex_digit(d)->0) + (16 * hex_digit(e)->0 + hex_digit(f)->0),
        ),
        is_hex(seq![a, b, c, d, e, f]),
{
    let none: Seq<char> = Seq::empty();
    each_digit_counts_sixteen_times(none, a);
    lemma_digits_joined(none, a, b);
    lemma_digits_joined(none.push(a).push(b), c, d);
    lemma_digits_joined(none.push(a).push(b).push(c).push(d), e, f);
    assert(none.push(a).push(b).push(c).push(d).push(e).push(f) =~= seq![a, b, c, d, e, f]);
}

/// The alpha that a colour may name behind its three channels does not count.
pub proof fn alpha_does_not_count(s: Seq<char>, a: char, b: char, readings: Pairs<Option<u64>>)
    requires
        is_hex(s),
        hex_digit(a) is Some,
        hex_digit(b) is Some,
    ensures
        s.len() == 3 ==> color_value(seq!['#'] + s.push(a), readings) == color_value(
            seq!['#'] + s,
            readings,
        ),
        s.len() == 6 ==> color_value(seq!['#'] + s.push(a).push(b), readings) == color_value(
            seq!['#'] + s,
            readings,
        ),
{
    lemma_hex_is_dark(a);
    lemma_hex_is_dark(b);
    lemma_hex_some(s);
    each_digit_counts_sixteen_times(s, a);
    lemma_digits_joined(s, a, b);
    let four = s.push(a);
    let eight = s.push(a).push(b);
    assert forall|i: int| 0 <= i < four.len() implies hex_digit(#[trigger] four[i]) is Some by {
        if i < s.len() {
            assert(hex_digit(s[i]) is Some);
        }
    }
    assert forall|i: int| 0 <= i < eight.len() implies hex_digit(#[trigger] eight[i]) is Some by {
        if i < s.len() {
            assert(hex_digit(s[i]) is Some);
        }
    }
    lemma_hex_below(s);
    if s.len() == 3 {
        lemma_hash_color(s, readings);
        lemma_hash_color(four, readings);
        let n = hex_digits(s)->0;
        let m = 16 * n + hex_digit(a)->0;
        assert(m / 0x1000 == n / 0x100 && m / 0x100 == n / 0x10 && m / 0x10 == n);
    }
    if s.len() == 6 {
        lemma_hash_color(s, readings);
        lemma_hash_color(eight, readings);
        let n = hex_digits(s)->0;
        let m = 256 * n + 16 * hex_digit(a)->0 + hex_digit(b)->0;
        assert(m / 0x100 == n);
    }
}

proof fn lemma_hex_below(s: Seq<char>)
    requires
        is_hex(s),
    ensures
        s.len() == 3 ==> 0 <= hex_digits(s)->0 < 0x1000,
        s.len() == 6 ==> 0 <= hex_digits(s)->0 < 0x100_0000,
{
    if s.len() == 3 {
        assert(hex_digit(s[0]) is Some && hex_digit(s[1]) is Some && hex_digit(s[2]) is Some);
        lemma_three(s[0], s[1], s[2]);
        lemma_hex_is_dark(s[0]);
        lemma_hex_is_dark(s[1]);
        lemma_hex_is_dark(s[2]);
        assert(s =~= seq![s[0], s[1], s[2]]);
    }
    if s.len() == 6 {
        assert(hex_digit(s[0]) is Some && hex_digit(s[1]) is Some && hex_digit(s[2]) is Some);
        assert(hex_digit(s[3]) is Some && hex_digit(s[4]) is Some && hex_digit(s[5]) is Some);
        lemma_six(s[0], s[1], s[2], s[3], s[4], s[5]);
        lemma_hex_is_dark(s[0]);
        lemma_hex_is_dark(s[1]);
        lemma_hex_is_dark(s[2]);
        lemma_hex_is_dark(s[3]);
        lemma_hex_is_dark(s[4]);
        lemma_hex_is_dark(s[5]);
        assert(s =~= seq![s[0], s[1], s[2], s[3], s[4], s[5]]);
    }
}

/// A colour of any other number of digits is refused, and named in the problem.
pub proof fn other_numbers_of_digits_are_refused(s: Seq<char>, readings: Pairs<Option<u64>>)
    requires
        is_hex(s),
        s.len() > 0,
        hex_digits(s)->0 <= u32::MAX,
    ensures
        color_value(seq!['#'] + s, readings) is Ok <==> s.len() == 3 || s.len() == 4 || s.len() == 6
            || s.len() == 8,
        color_value(seq!['#'] + s, readings) matches Err(problem) ==> problem == (Problem {
            kind: ProblemKind::UnsupportedHexLength,
            text: s,
        }),
{
    lemma_hash_color(s, readings);
}

/// Five colours have names, which may be written in large or small letters; white
/// space around them does not count. Other names are refused.
pub proof fn five_colours_have_names(value: Seq<char>, readings: Pairs<Option<u64>>)
    requires
        trim(value).len() > 0,
        trim(value)[0] != '#',
        !has_prefix(trim(value), "rgb("@),
    ensures
        ({
            let name = ascii_lowercase(trim(value));
            let color = color_value(value, readings);
            &&& name == "black"@ ==> color == Ok::<u32, Problem>(0)
            &&& name == "white"@ ==> color == Ok::<u32, Problem>(0xffffff)
            &&& name == "red"@ ==> color == Ok::<u32, Problem>(0xff0000)
            &&& name == "green"@ ==> color == Ok::<u32, Problem>(0x008000)
            &&& name == "blue"@ ==> color == Ok::<u32, Problem>(0x0000ff)
            &&& color is Ok ==> seq!["black"@, "white"@, "red"@, "green"@, "blue"@].contains(name)
            &&& color matches Err(problem) ==> problem == (Problem {
                kind: ProblemKind::UnsupportedColor,
                text: name,
            })
        }),
{
    reveal_strlit("black");
    reveal_strlit("white");
    reveal_strlit("red");
    reveal_strlit("green");
    reveal_strlit("blue");
    assert("black"@[0] == 'b' && "white"@[0] == 'w' && "green"@[0] == 'g');
    assert("black"@.len() == 5 && "white"@.len() == 5 && "red"@.len() == 3 && "green"@.len() == 5
        && "blue"@.len() == 4);
    let all = seq!["black"@, "white"@, "red"@, "green"@, "blue"@];
    assert(all[0] == "black"@ && all[1] == "white"@ && all[2] == "red"@ && all[3] == "green"@
        && all[4] == "blue"@);
}

/// A colour in `rgb()` has three components between its commas, for red, green and
/// blue in that order; each is read as a number from 0 to 255 and rounded.
pub proof fn components_are_red_green_and_blue(
    r: Seq<char>,
    g: Seq<char>,
    b: Seq<char>,
    readings: Pairs<Option<u64>>,
)
    requires
        !r.contains(','),
        !g.contains(','),
        !b.contains(','),
    ensures
        ({
            let body = r.push(',') + (g.push(',') + b);
            let value = "rgb("@ + body + seq![')'];
            let red = reading(readings, trim(r));
            let green = reading(readings, trim(g));
            let blue = reading(readings, trim(b));
            let fits = |n: Option<Double>|
                n is Some && !n->0.is_nan() && !n->0.negative() && !n->0.above(255);
            let color = color_value(value, readings);
            &&& fits(red) && fits(green) && fits(blue) ==> color == Ok::<u32, Problem>(
                color_of(0, red->0.rounded(), green->0.rounded(), blue->0.rounded()),
            )
            &&& color is Ok ==> fits(red) && fits(green) && fits(blue)
            &&& red is None ==> color == Err::<u32, Problem>(
                Problem { kind: ProblemKind::InvalidRgbComponent, text: trim(r) },
            )
            &&& red is Some && !fits(red) ==> color == Err::<u32, Problem>(
                Problem { kind: ProblemKind::RgbComponentOutOfRange, text: trim(r) },
            )
            &&& fits(red) && green is None ==> color == Err::<u32, Problem>(
                Problem { kind: ProblemKind::InvalidRgbComponent, text: trim(g) },
            )
            &&& fits(red) && green is Some && !fits(green) ==> color == Err::<u32, Problem>(
                Problem { kind: ProblemKind::RgbComponentOutOfRange, text: trim(g) },
            )
        }),
{
    let body = r.push(',') + (g.push(',') + b);
    let value = "rgb("@ + body + seq![')'];
    reveal_strlit("rgb(");
    lemma_rgb_body(body);
    joined_texts_split_apart(r, g.push(',') + b, ',');
    joined_texts_split_apart(g, b, ',');
    parts_lie_between_separators(r, ',');
    parts_lie_between_separators(g, ',');
    parts_lie_between_separators(b, ',');
    assert(split(body, ',') =~= seq![r, g, b]);
    assert(rgb_parts(body) =~= seq![trim(r), trim(g), trim(b)]);
    assert(value[0] == 'r');
}

proof fn lemma_rgb_body(body: Seq<char>)
    ensures
        ({
            let value = "rgb("@ + body + seq![')'];
            &&& trim(value) == value
            &&& value.len() > 4
            &&& value[0] == 'r'
            &&& rgb_body(value) == Some(body)
        }),
{
    let value = "rgb("@ + body + seq![')'];
    let none: Seq<char> = Seq::empty();
    reveal_strlit("rgb(");
    assert("rgb("@.len() == 4);
    assert(value[0] == 'r' && value.last() == ')');
    trimming_takes_white_space_away(none, value, none);
    assert(none + value + none =~= value);
    assert(value.take(4) =~= "rgb("@);
    assert(value.subrange(4, value.len() - 1) =~= body);
}

/// A colour in `rgb()` with more or fewer than three components is refused.
pub proof fn rgb_takes_three_components(body: Seq<char>, readings: Pairs<Option<u64>>)
    requires
        split(body, ',').len() != 3,
    ensures
        color_value("rgb("@ + body + seq![')'], readings) == Err::<u32, Problem>(
            Problem {
                kind: ProblemKind::RgbComponentCount,
                text: "rgb("@ + body + seq![')'],
            },
        ),
{
    lemma_rgb_body(body);
}

/// A length may end in `px`, in large or small letters, and white space around it
/// does not count: the text in front is the number.
pub proof fn lengths_may_end_in_px(
    front: Seq<char>,
    number: Seq<char>,
    gap: Seq<char>,
    back: Seq<char>,
    p: char,
    x: char,
)
    requires
        is_blank(front),
        is_blank(gap),
        is_blank(back),
        number.len() > 0,
        !is_white_space(number[0]),
        !is_white_space(number.last()),
        number.last() != 'x',
        number.last() != 'X',
        p == 'p' || p == 'P',
        x == 'x' || x == 'X',
    ensures
        length_text(front + number + back) == number,
        length_text(front + (number + gap + seq![p, x]) + back) == number,
{
    let none: Seq<char> = Seq::empty();
    reveal_strlit("px");
    trimming_takes_white_space_away(front, number, back);
    trimming_takes_white_space_away(none, number, none);
    assert(none + number + none =~= number);
    let n = number.len();
    if n >= 2 {
        let tail = ascii_lowercase(number).skip(n - 2);
        assert(tail[1] == ascii_lower(number.last()));
        assert("px"@[1] == 'x');
        assert(tail != "px"@);
    }
    let long = number + gap + seq![p, x];
    assert(long[0] == number[0]);
    assert(long.last() == x);
    trimming_takes_white_space_away(front, long, back);
    let m = long.len();
    let tail = ascii_lowercase(long).skip(m - 2);
    assert(tail[0] == ascii_lower(p) && tail[1] == ascii_lower(x));
    assert(tail =~= "px"@);
    assert(long.take(m - 2) =~= number + gap);
    trimming_takes_white_space_away(none, number, gap);
    assert(none + number + gap =~= number + gap);
}

/// A length is a number from 0 to 65535 and an offset one from -32768 to 32767; both
/// are rounded. What is no number, or lies outside, is refused with the text that
/// was given.
pub proof fn lengths_have_their_bounds(value: Seq<char>, readings: Pairs<Option<u64>>)
    ensures
        match reading(readings, length_text(value)) {
            None => {
                &&& length_value(value, readings) == Err::<u16, Problem>(
                    Problem { kind: ProblemKind::InvalidLength, text: value },
                )
                &&& offset_value(value, readings) == Err::<i16, Problem>(
                    Problem { kind: ProblemKind::InvalidLength, text: value },
                )
            },
            Some(n) => {
                &&& n.negative() ==> length_value(value, readings) == Err::<u16, Problem>(
                    Problem { kind: ProblemKind::NegativeLength, text: value },
                )
                &&& n.above(65535) ==> length_value(value, readings) == Err::<u16, Problem>(
                    Problem { kind: ProblemKind::LengthTooLarge, text: value },
                )
                &&& !n.negative() && !n.above(65535) ==> length_value(value, readings) == Ok::<
                    u16,
                    Problem,
                >(n.rounded() as u16)
                &&& n.above(32767) || n.below_minus(32768) ==> offset_value(value, readings)
                    == Err::<i16, Problem>(
                    Problem { kind: ProblemKind::LengthOutOfRange, text: value },
                )
                &&& !n.above(32767) && !n.below_minus(32768) ==> offset_value(value, readings)
                    == Ok::<i16, Problem>(n.rounded() as i16)
            },
        },
{
}

/// A colour behind `#` with a character that is no hexadecimal digit is refused, and
/// named in the problem as it was written.
pub proof fn other_characters_are_refused(s: Seq<char>, i: int, readings: Pairs<Option<u64>>)
    requires
        0 <= i < s.len(),
        hex_digit(s[i]) is None,
        !is_white_space(s[0]),
        !is_white_space(s.last()),
        s[0] != '+',
    ensures
        color_value(seq!['#'] + s, readings) == Err::<u32, Problem>(
            Problem { kind: ProblemKind::InvalidHexColor, text: seq!['#'] + s },
        ),
{
    let value = seq!['#'] + s;
    let none: Seq<char> = Seq::empty();
    trimming_takes_white_space_away(none, value, none);
    assert(none + value + none =~= value);
    trimming_takes_white_space_away(none, s, none);
    assert(none + s + none =~= s);
    assert(value.skip(1) =~= s);
    lemma_hex_none(s, i);
}

proof fn lemma_hex_none(s: Seq<char>, i: int)
    requires
        0 <= i < s.len(),
        hex_digit(s[i]) is None,
    ensures
        hex_digits(s) is None,
    decreases s.len(),
{
    if i < s.len() - 1 {
        assert(s.drop_last()[i] == s[i]);
        lemma_hex_none(s.drop_last(), i);
    }
}

} // verus!
