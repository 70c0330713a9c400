//! Colours as 32-bit words: alpha, red, green and blue from the top byte down.

use vstd::prelude::*;

verus! {

/// The alpha byte of a colour.
pub open spec fn alpha_of(c: u32) -> int {
    c as int / 0x100_0000
}

/// The red byte of a colour.
pub open spec fn red_of(c: u32) -> int {
    (c as int / 0x1_0000) % 0x100
}

/// The green byte of a colour.
pub open spec fn green_of(c: u32) -> int {
    (c as int / 0x100) % 0x100
}

/// The blue byte of a colour.
pub open spec fn blue_of(c: u32) -> int {
    c as int % 0x100
}

/// The colour with the given bytes.
pub open spec fn color_of(a: int, r: int, g: int, b: int) -> u32 {
    (a * 0x100_0000 + r * 0x1_0000 + g * 0x100 + b) as u32
}

/// The alpha byte of a colour.
pub fn alpha(c: u32) -> (r: u32)
    ensures
        r == alpha_of(c),
        r < 256,
{
    proof {
        assert((c >> 24) & 0xff == c / 0x100_0000 && (c >> 24) & 0xff < 256) by (bit_vector);
    }
    (c >> 24) & 0xff
}

/// The red byte of a colour.
pub fn red(c: u32) -> (r: u32)
    ensures
        r == red_of(c),
        r < 256,
{
    proof {
        assert((c >> 16) & 0xff == (c / 0x1_0000) % 0x100) by (bit_vector);
    }
    (c >> 16) & 0xff
}

/// The green byte of a colour.
pub fn green(c: u32) -> (r: u32)
    ensures
        r == green_of(c),
        r < 256,
{
    proof {
        assert((c >> 8) & 0xff == (c / 0x100) % 0x100) by (bit_vector);
    }
    (c >> 8) & 0xff
}

/// The blue byte of a colour.
pub fn blue(c: u32) -> (r: u32)
    ensures
        r == blue_of(c),
        r < 256,
{
    proof {
        assert(c & 0xff == c % 0x100) by (bit_vector);
    }
    c & 0xff
}

/// The colour with the given bytes.
pub fn pack(a: u32, r: u32, g: u32, b: u32) -> (c: u32)
    requires
        a < 256,
        r < 256,
        g < 256,
        b < 256,
    ensures
        c == color_of(a as int, r as int, g as int, b as int),
        c as int == a * 0x100_0000 + r * 0x1_0000 + g * 0x100 + b,
        alpha_of(c) == a,
        red_of(c) == r,
        green_of(c) == g,
        blue_of(c) == b,
{
    proof {
        assert((a << 24) | (r << 16) | (g << 8) | b == a * 0x100_0000 + r * 0x1_0000 + g * 0x100
            + b) by (bit_vector)
            requires
                a < 256,
                r < 256,
                g < 256,
                b < 256,
        ;
    }
    (a << 24) | (r << 16) | (g << 8) | b
}

/// The mean of two colours, channel by channel and rounded down, without alpha.
pub open spec fn blended(a: u32, b: u32) -> u32 {
    color_of(
        0,
        (red_of(a) + red_of(b)) / 2,
        (green_of(a) + green_of(b)) / 2,
        (blue_of(a) + blue_of(b)) / 2,
    )
}

/// The mean of two colours, channel by channel and rounded down, without alpha.
pub fn blend_colors(a: u32, b: u32) -> (r: u32)
    ensures
        r == blended(a, b),
{
    pack(0, (red(a) + red(b)) / 2, (green(a) + green(b)) / 2, (blue(a) + blue(b)) / 2)
}

/// One channel of a pixel laid over a background, rounded to the nearest value.
pub open spec fn over(source: int, background: int, alpha: int) -> int {
    (source * alpha + background * (255 - alpha) + 127) / 255
}

/// One channel of a pixel laid over a background.
pub fn lay_over(source: u32, background: u32, alpha: u32) -> (r: u8)
    requires
        source < 256,
        background < 256,
        alpha < 256,
    ensures
        r == over(source as int, background as int, alpha as int),
{
    let inv_alpha: u32 = 255 - alpha;
    proof {
        assert(source * alpha <= 255 * alpha) by (nonlinear_arith)
            requires
                source <= 255,
        ;
        assert(background * inv_alpha <= 255 * inv_alpha) by (nonlinear_arith)
            requires
                background <= 255,
        ;
        assert(source * alpha >= 0 && background * inv_alpha >= 0) by (nonlinear_arith);
    }
    ((source * alpha + background * inv_alpha + 127) / 255) as u8
}

/// Blending does not depend on the order of the two colours, and a colour
/// blended with itself is itself with the alpha byte cleared.
pub proof fn blending_is_symmetric(a: u32, b: u32)
    ensures
        blended(a, b) == blended(b, a),
        blended(a, a) == color_of(0, red_of(a), green_of(a), blue_of(a)),
        blended(a, a) == a as int % 0x100_0000,
{
}

/// An opaque pixel hides the background, a transparent one shows it unchanged,
/// and a pixel of the background's own colour shows that colour.
pub proof fn laying_over_extremes(source: int, background: int, alpha: int)
    requires
        0 <= source < 256,
        0 <= background < 256,
        0 <= alpha < 256,
    ensures
        over(source, background, 255) == source,
        over(source, background, 0) == background,
        over(source, source, alpha) == source,
        0 <= over(source, background, alpha) < 256,
{
    assert(source * alpha + source * (255 - alpha) == source * 255) by (nonlinear_arith);
    assert(0 <= source * alpha <= 255 * alpha) by (nonlinear_arith)
        requires
            0 <= source <= 255,
            0 <= alpha,
    ;
    assert(0 <= background * (255 - alpha) <= 255 * (255 - alpha)) by (nonlinear_arith)
        requires
            0 <= background <= 255,
            alpha <= 255,
    ;
}

/// A colour is the number with alpha, red, green and blue as its bytes from the
/// top down; each of them is between 0 and 255.
pub proof fn colours_are_made_of_bytes(c: u32)
    ensures
        c == 0x100_0000 * alpha_of(c) + 0x1_0000 * red_of(c) + 0x100 * green_of(c) + blue_of(c),
        0 <= alpha_of(c) < 256,
        0 <= red_of(c) < 256,
        0 <= green_of(c) < 256,
        0 <= blue_of(c) < 256,
{
    let n = c as int;
    assert(n == 0x100 * (n / 0x100) + n % 0x100);
    assert(n / 0x100 == 0x100 * (n / 0x100 / 0x100) + (n / 0x100) % 0x100);
    assert(n / 0x100 / 0x100 == n / 0x1_0000);
    assert(n / 0x1_0000 == 0x100 * (n / 0x1_0000 / 0x100) + (n / 0x1_0000) % 0x100);
    assert(n / 0x1_0000 / 0x100 == n / 0x100_0000);
}

/// Bytes that are put together to a colour can be taken out of it again.
pub proof fn bytes_are_found_in_their_colour(a: int, r: int, g: int, b: int)
    requires
        0 <= a < 256,
        0 <= r < 256,
        0 <= g < 256,
        0 <= b < 256,
    ensures
        color_of(a, r, g, b) == 0x100_0000 * a + 0x1_0000 * r + 0x100 * g + b,
        alpha_of(color_of(a, r, g, b)) == a,
        red_of(color_of(a, r, g, b)) == r,
        green_of(color_of(a, r, g, b)) == g,
        blue_of(color_of(a, r, g, b)) == b,
{
    let n = color_of(a, r, g, b) as int;
    assert(n == 0x100_0000 * a + 0x1_0000 * r + 0x100 * g + b);
    assert(n / 0x100 == 0x1_0000 * a + 0x100 * r + g);
    assert(n / 0x1_0000 == 0x100 * a + r);
    assert(n / 0x100_0000 == a);
    assert((0x100 * (0x100 * a + r) + g) % 0x100 == g);
    assert((0x100 * a + r) % 0x100 == r);
}

/// A mix of two colours has no alpha, and each of its channels is the mean of
/// theirs, rounded down; so it lies between them.
pub proof fn a_mix_lies_in_the_middle(a: u32, b: u32)
    ensures
        alpha_of(blended(a, b)) == 0,
        2 * red_of(blended(a, b)) <= red_of(a) + red_of(b) <= 2 * red_of(blended(a, b)) + 1,
        2 * green_of(blended(a, b)) <= green_of(a) + green_of(b) <= 2 * green_of(blended(a, b)) + 1,
        2 * blue_of(blended(a, b)) <= blue_of(a) + blue_of(b) <= 2 * blue_of(blended(a, b)) + 1,
{
    colours_are_made_of_bytes(a);
    colours_are_made_of_bytes(b);
    bytes_are_found_in_their_colour(
        0,
        (red_of(a) + red_of(b)) / 2,
        (green_of(a) + green_of(b)) / 2,
        (blue_of(a) + blue_of(b)) / 2,
    );
}

/// A channel laid over another is the mean of the two, weighted by alpha, and as
/// near to it as a whole number can be.
pub proof fn laying_over_rounds_to_the_nearest(source: int, background: int, alpha: int)
    requires
        0 <= source < 256,
        0 <= background < 256,
        0 <= alpha < 256,
    ensures
        -127 <= 255 * over(source, background, alpha) - (alpha * source + (255 - alpha)
            * background) <= 127,
{
    assert(source * alpha == alpha * source) by (nonlinear_arith);
    assert(background * (255 - alpha) == (255 - alpha) * background) by (nonlinear_arith);
}

} // verus!
