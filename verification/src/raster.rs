//! Icons as the X server takes them: rows of pixels, laid over a background.

use crate::color::{alpha, alpha_of, blue, blue_of, green, green_of, lay_over, over, red, red_of};
use crate::icons::{Icon, IconImage};
use vstd::arithmetic::div_mod::lemma_fundamental_div_mod_converse;
use vstd::prelude::*;

verus! {

/// How the X server lays out images of a depth.
#[derive(Clone, Copy, Debug, PartialEq, Eq, Structural)]
pub struct PixmapFormat {
    pub depth: u8,
    pub bits_per_pixel: u8,
    pub scanline_pad: u8,
}

/// No layout is known for a depth.
#[derive(Clone, Copy, Debug, PartialEq, Eq, Structural)]
pub struct MissingFormat;

/// The first of the formats from position `from` on that is for a depth.
pub open spec fn format_from(formats: Seq<PixmapFormat>, depth: u8, from: int) -> Option<
    PixmapFormat,
>
    decreases formats.len() - from,
{
    if from >= formats.len() {
        None
    } else if formats[from].depth == depth {
        Some(formats[from])
    } else {
        format_from(formats, depth, from + 1)
    }
}

/// The first of the formats that is for a depth.
pub open spec fn format_of(formats: Seq<PixmapFormat>, depth: u8) -> Option<PixmapFormat> {
    format_from(formats, depth, 0)
}

/// The first of the formats that is for a depth.
pub fn format_for_depth(formats: &[PixmapFormat], depth: u8) -> (r: Option<PixmapFormat>)
    ensures
        r == format_of(formats@, depth),
{
    let mut i: usize = 0;
    while i < formats.len()
        invariant
            i <= formats@.len(),
            format_of(formats@, depth) == format_from(formats@, depth, i as int),
        decreases formats@.len() - i,
    {
        if formats[i].depth == depth {
            return Some(formats[i]);
        }
        i = i + 1;
    }
    None
}

/// The number of whole bytes in a pixel.
pub open spec fn pixel_bytes(format: PixmapFormat) -> int {
    format.bits_per_pixel as int / 8
}

/// The number of bytes whose multiples the rows are padded to.
pub open spec fn row_pad(format: PixmapFormat) -> int {
    if format.scanline_pad < 8 {
        1
    } else {
        format.scanline_pad as int / 8
    }
}

/// The number of bytes in a row with its padding.
pub open spec fn row_stride(width: int, format: PixmapFormat) -> int {
    (width * pixel_bytes(format) + row_pad(format) - 1) / row_pad(format) * row_pad(format)
}

/// A pixel laid over a background: its red, green and blue.
pub open spec fn pixel_over(pixel: u32, background: u32) -> (int, int, int) {
    (
        over(red_of(pixel), red_of(background), alpha_of(pixel)),
        over(green_of(pixel), green_of(background), alpha_of(pixel)),
        over(blue_of(pixel), blue_of(background), alpha_of(pixel)),
    )
}

/// Byte `at` of a pixel that takes `size` bytes. With the low byte first the
/// channels are blue, green, red; with the high byte first they are red, green,
/// blue and stand at the end.
pub open spec fn channel_byte(rgb: (int, int, int), at: int, size: int, little_endian: bool) -> u8 {
    let lead = if size >= 3 {
        size - 3
    } else {
        0
    };
    let (first, place) = if little_endian {
        (rgb.2, at)
    } else {
        (rgb.0, at - lead)
    };
    let last = if little_endian {
        rgb.0
    } else {
        rgb.2
    };
    if place == 0 {
        first as u8
    } else if place == 1 {
        rgb.1 as u8
    } else if place == 2 {
        last as u8
    } else {
        0
    }
}

/// Byte `k` of the image of an icon over a background; the padding is zero.
pub open spec fn image_byte(
    image: IconImage,
    background: u32,
    format: PixmapFormat,
    little_endian: bool,
    k: int,
) -> u8 {
    let stride = row_stride(image.width, format);
    let size = pixel_bytes(format);
    let row = k / stride;
    let at = k % stride;
    if at < image.width * size {
        channel_byte(
            pixel_over(image.pixels[row * image.width + at / size], background),
            at % size,
            size,
            little_endian,
        )
    } else {
        0
    }
}

/// The image of an icon over a background.
pub open spec fn image_data(
    image: IconImage,
    background: u32,
    format: PixmapFormat,
    little_endian: bool,
) -> Seq<u8> {
    Seq::new(
        (row_stride(image.width, format) * image.height) as nat,
        |k: int| image_byte(image, background, format, little_endian, k),
    )
}

/// Whether the image of an icon can be made: all its pixels are there, a pixel
/// takes a byte at least, and the bytes can be counted.
pub open spec fn can_be_imaged(image: IconImage, format: PixmapFormat) -> bool {
    &&& image.width * image.height <= image.pixels.len()
    &&& image.width > 0 && image.height > 0 ==> format.bits_per_pixel >= 8
    &&& row_stride(image.width, format) * image.height <= usize::MAX
}

/// A row holds its pixels, and no more padding than needed.
proof fn lemma_row_stride(width: int, format: PixmapFormat)
    requires
        0 <= width <= 0xffff,
    ensures
        width * pixel_bytes(format) <= row_stride(width, format) < width * pixel_bytes(format)
            + row_pad(format),
        0 <= width * pixel_bytes(format) <= 0xffff * 31,
        row_stride(width, format) % row_pad(format) == 0,
{
    let size = pixel_bytes(format);
    let pad = row_pad(format);
    assert(0 <= width * size <= 0xffff * 31) by (nonlinear_arith)
        requires
            0 <= width <= 0xffff,
            0 <= size <= 31,
    ;
    let n = width * size + pad - 1;
    vstd::arithmetic::div_mod::lemma_fundamental_div_mod(n, pad);
    assert(pad * (n / pad) == n / pad * pad) by (nonlinear_arith);
    vstd::arithmetic::div_mod::lemma_mod_multiples_basic(n / pad, pad);
}

/// Where byte `b` of the pixel in row `row` and column `col` stands.
proof fn lemma_pixel_position(
    row: int,
    col: int,
    b: int,
    stride: int,
    size: int,
    width: int,
    k: int,
)
    requires
        0 <= row,
        0 <= col < width,
        0 <= b < size,
        width * size <= stride,
        k == row * stride + col * size + b,
    ensures
        k / stride == row,
        k % stride == col * size + b,
        k % stride < width * size,
        (k % stride) / size == col,
        (k % stride) % size == b,
{
    let at = col * size + b;
    assert(0 <= at < width * size) by (nonlinear_arith)
        requires
            0 <= col < width,
            0 <= b < size,
            at == col * size + b,
    ;
    assert(row * stride + at == k);
    lemma_fundamental_div_mod_converse(k, stride, row, at);
    assert(col * size + b == at);
    lemma_fundamental_div_mod_converse(at, size, col, b);
}

/// Where padding byte `at` of row `row` stands.
proof fn lemma_padding_position(row: int, at: int, stride: int, k: int)
    requires
        0 <= row,
        0 <= at < stride,
        k == row * stride + at,
    ensures
        k / stride == row,
        k % stride == at,
{
    lemma_fundamental_div_mod_converse(k, stride, row, at);
}

/// Adds the bytes of one pixel to the image.
fn push_pixel(data: &mut Vec<u8>, pixel: u32, background: u32, size: usize, little_endian: bool)
    ensures
        final(data)@ == old(data)@ + Seq::new(
            size as nat,
            |b: int| channel_byte(pixel_over(pixel, background), b, size as int, little_endian),
        ),
{
    let a = alpha(pixel);
    let r = lay_over(red(pixel), red(background), a);
    let g = lay_over(green(pixel), green(background), a);
    let b = lay_over(blue(pixel), blue(background), a);
    let ghost before = data@;
    let ghost bytes = Seq::new(
        size as nat,
        |b: int| channel_byte(pixel_over(pixel, background), b, size as int, little_endian),
    );
    let lead: usize = if size >= 3 {
        size - 3
    } else {
        0
    };
    let mut at: usize = 0;
    proof {
        assert(data@ =~= before + bytes.take(0));
    }
    while at < size
        invariant
            at <= size,
            bytes.len() == size,
            forall|i: int|
                0 <= i < size ==> bytes[i] == channel_byte(
                    pixel_over(pixel, background),
                    i,
                    size as int,
                    little_endian,
                ),
            lead == (if size >= 3 {
                size - 3
            } else {
                0
            }),
            (r as int, g as int, b as int) == pixel_over(pixel, background),
            data@ == before + bytes.take(at as int),
        decreases size - at,
    {
        let byte: u8 = if little_endian {
            if at == 0 {
                b
            } else if at == 1 {
                g
            } else if at == 2 {
                r
            } else {
                0
            }
        } else if at < lead {
            0
        } else if at - lead == 0 {
            r
        } else if at - lead == 1 {
            g
        } else if at - lead == 2 {
            b
        } else {
            0
        };
        data.push(byte);
        proof {
            assert(byte == bytes[at as int]);
            assert(bytes.take(at + 1) =~= bytes.take(at as int).push(byte));
            assert(data@ =~= before + bytes.take(at + 1));
        }
        at = at + 1;
    }
    proof {
        assert(bytes.take(size as int) =~= bytes);
    }
}

/// The image of an icon over a background.
pub fn image_of(icon: &Icon, background: u32, format: &PixmapFormat, little_endian: bool) -> (r: Vec<
    u8,
>)
    requires
        can_be_imaged(icon@, *format),
    ensures
        r@ == image_data(icon@, background, *format, little_endian),
{
    let width: usize = icon.width as usize;
    let height: usize = icon.height as usize;
    let size: usize = (format.bits_per_pixel / 8) as usize;
    let pad: usize = if format.scanline_pad < 8 {
        1
    } else {
        (format.scanline_pad / 8) as usize
    };
    let ghost full = image_data(icon@, background, *format, little_endian);
    proof {
        lemma_row_stride(width as int, *format);
    }
    let stride: usize = (width * size + pad - 1) / pad * pad;
    let mut data: Vec<u8> = Vec::new();
    let mut row: usize = 0;
    proof {
        assert(stride == row_stride(width as int, *format));
        assert(0 * stride == 0) by (nonlinear_arith);
        assert(data@ =~= full.take(0));
    }
    while row < height
        invariant
            row <= height,
            width == icon.width,
            height == icon.height,
            size == pixel_bytes(*format),
            pad == row_pad(*format),
            stride == row_stride(width as int, *format),
            width * size <= stride,
            width > 0 && height > 0 ==> size > 0,
            full == image_data(icon@, background, *format, little_endian),
            full.len() == stride * height,
            stride * height <= usize::MAX,
            width * height <= icon.pixels@.len(),
            row * stride <= full.len(),
            data@ == full.take(row * stride),
        decreases height - row,
    {
        proof {
            assert(row * stride + stride <= stride * height && (row + 1) * stride == row * stride
                + stride) by (nonlinear_arith)
                requires
                    row < height,
                    stride >= 0,
            ;
            assert(row * width + width <= width * height) by (nonlinear_arith)
                requires
                    row < height,
                    width >= 0,
            ;
            assert(0 * size == 0) by (nonlinear_arith);
        }
        let mut col: usize = 0;
        while col < width
            invariant
                row < height,
                col <= width,
                width == icon.width,
                height == icon.height,
                size == pixel_bytes(*format),
                size > 0 || width == 0,
                stride == row_stride(width as int, *format),
                width * size <= stride,
                full == image_data(icon@, background, *format, little_endian),
                full.len() == stride * height,
                row * stride + stride <= full.len(),
                row * width + width <= icon.pixels@.len(),
                data@ == full.take(row * stride + col * size),
                0 <= col * size <= stride,
            decreases width - col,
        {
            let ghost before = data@;
            proof {
                assert(col * size + size <= width * size && (col + 1) * size == col * size + size)
                    by (nonlinear_arith)
                    requires
                        col < width,
                        size >= 0,
                ;
                assert(row * width >= 0) by (nonlinear_arith)
                    requires
                        row >= 0,
                        width >= 0,
                ;
                assert(icon.pixels@.len() == icon.pixels.len());
            }
            let pixel = icon.pixels[row * width + col];
            push_pixel(&mut data, pixel, background, size, little_endian);
            proof {
                let from = row * stride + col * size;
                assert forall|b: int| 0 <= b < size implies full[from + b] == channel_byte(
                    pixel_over(pixel, background),
                    b,
                    size as int,
                    little_endian,
                ) by {
                    lemma_pixel_position(
                        row as int,
                        col as int,
                        b,
                        stride as int,
                        size as int,
                        width as int,
                        from + b,
                    );
                }
                assert(row * stride >= 0) by (nonlinear_arith)
                    requires
                        row >= 0,
                        stride >= 0,
                ;
                assert(data@ =~= full.take(from + size));
            }
            col = col + 1;
        }
        let mut at: usize = width * size;
        while at < stride
            invariant
                row < height,
                width == icon.width,
                size == pixel_bytes(*format),
                width * size <= at <= stride,
                stride == row_stride(width as int, *format),
                full == image_data(icon@, background, *format, little_endian),
                row * stride + stride <= full.len(),
                data@ == full.take(row * stride + at),
            decreases stride - at,
        {
            data.push(0);
            proof {
                assert(row * stride >= 0) by (nonlinear_arith)
                    requires
                        row >= 0,
                        stride >= 0,
                ;
                lemma_padding_position(row as int, at as int, stride as int, row * stride + at);
                assert(full[row * stride + at] == 0);
                assert(data@ =~= full.take(row * stride + at + 1));
            }
            at = at + 1;
        }
        row = row + 1;
    }
    proof {
        assert(height * stride == stride * height) by (nonlinear_arith);
        assert(full.take(full.len() as int) =~= full);
    }
    data
}

/// Whether the image of an icon can be made, as far as a format for the depth is
/// known at all.
pub open spec fn drawable(icon: IconImage, formats: Seq<PixmapFormat>, depth: u8) -> bool {
    icon.pixels.len() > 0 && format_of(formats, depth) is Some ==> can_be_imaged(
        icon,
        format_of(formats, depth)->0,
    )
}

/// Whether the image of an icon can be made.
pub fn is_drawable(icon: &Icon, formats: &[PixmapFormat], depth: u8) -> (r: bool)
    ensures
        r == drawable(icon@, formats@, depth),
{
    if icon.pixels.len() == 0 {
        return true;
    }
    let format = match format_for_depth(formats, depth) {
        Some(format) => format,
        None => {
            return true;
        },
    };
    let width: u64 = icon.width as u64;
    let height: u64 = icon.height as u64;
    let size: u64 = (format.bits_per_pixel / 8) as u64;
    let pad: u64 = if format.scanline_pad < 8 {
        1
    } else {
        (format.scanline_pad / 8) as u64
    };
    proof {
        lemma_row_stride(width as int, format);
        assert(0 <= width * height <= 0xffff * 0xffff) by (nonlinear_arith)
            requires
                0 <= width <= 0xffff,
                0 <= height <= 0xffff,
        ;
    }
    let stride: u64 = (width * size + pad - 1) / pad * pad;
    proof {
        assert(stride == row_stride(width as int, format));
        assert(0 <= stride * height <= 0x20_0000 * 0xffff) by (nonlinear_arith)
            requires
                0 <= stride <= 0x20_0000,
                0 <= height <= 0xffff,
        ;
    }
    if width * height > icon.pixels.len() as u64 {
        return false;
    }
    if width > 0 && height > 0 && format.bits_per_pixel < 8 {
        return false;
    }
    stride * height <= usize::MAX as u64
}

/// The image of an icon for a screen of a depth: none if the icon is empty.
pub fn draw_icon(
    icon: &Icon,
    background: u32,
    formats: &[PixmapFormat],
    depth: u8,
    little_endian: bool,
) -> (r: Result<Option<Vec<u8>>, MissingFormat>)
    requires
        drawable(icon@, formats@, depth),
    ensures
        match r {
            Ok(None) => icon@.pixels.len() == 0,
            Ok(Some(data)) => {
                &&& icon@.pixels.len() > 0
                &&& format_of(formats@, depth) is Some
                &&& data@ == image_data(
                    icon@,
                    background,
                    format_of(formats@, depth)->0,
                    little_endian,
                )
            },
            Err(_) => icon@.pixels.len() > 0 && format_of(formats@, depth) is None,
        },
{
    if icon.pixels.len() == 0 {
        return Ok(None);
    }
    match format_for_depth(formats, depth) {
        None => Err(MissingFormat),
        Some(format) => Ok(Some(image_of(icon, background, &format, little_endian))),
    }
}

/// Where a pixel is opaque the icon covers the background, and where it is
/// transparent the background shows.
pub proof fn opaque_and_transparent_pixels(pixel: u32, background: u32)
    ensures
        alpha_of(pixel) == 255 ==> pixel_over(pixel, background) == (
            red_of(pixel),
            green_of(pixel),
            blue_of(pixel),
        ),
        alpha_of(pixel) == 0 ==> pixel_over(pixel, background) == (
            red_of(background),
            green_of(background),
            blue_of(background),
        ),
{
    let a = alpha_of(pixel);
    crate::color::laying_over_extremes(red_of(pixel), red_of(background), a);
    crate::color::laying_over_extremes(green_of(pixel), green_of(background), a);
    crate::color::laying_over_extremes(blue_of(pixel), blue_of(background), a);
}

/// Where the image of an icon has its pixels: row by row from the top, in each row
/// from the left, and in each pixel its bytes. With the low byte first these are
/// blue, green and red of the pixel over the background and then zeroes; with the
/// high byte first they are zeroes and then red, green and blue.
pub proof fn pixels_stand_row_by_row(
    image: IconImage,
    background: u32,
    format: PixmapFormat,
    row: int,
    col: int,
    b: int,
)
    requires
        0 <= row < image.height,
        0 <= col < image.width <= 0xffff,
        0 <= b < format.bits_per_pixel as int / 8,
    ensures
        ({
            let size = format.bits_per_pixel as int / 8;
            let at = row * row_stride(image.width, format) + col * size + b;
            let pixel = image.pixels[row * image.width + col];
            let low = image_data(image, background, format, true);
            let high = image_data(image, background, format, false);
            let alpha = alpha_of(pixel);
            let red = over(red_of(pixel), red_of(background), alpha);
            let green = over(green_of(pixel), green_of(background), alpha);
            let blue = over(blue_of(pixel), blue_of(background), alpha);
            &&& 0 <= at < low.len()
            &&& low.len() == high.len()
            &&& b == 0 ==> low[at] == blue
            &&& b == 1 ==> low[at] == green
            &&& b == 2 ==> low[at] == red
            &&& b > 2 ==> low[at] == 0
            &&& size >= 3 && b == size - 1 ==> high[at] == blue
            &&& size >= 3 && b == size - 2 ==> high[at] == green
            &&& size >= 3 && b == size - 3 ==> high[at] == red
            &&& size >= 3 && b < size - 3 ==> high[at] == 0
            &&& size < 3 && b == 0 ==> high[at] == red
            &&& size < 3 && b == 1 ==> high[at] == green
        }),
{
    let size = format.bits_per_pixel as int / 8;
    let width = image.width;
    let stride = row_stride(width, format);
    let at = row * stride + col * size + b;
    let pixel = image.pixels[row * width + col];
    lemma_row_stride(width, format);
    lemma_pixel_position(row, col, b, stride, size, width, at);
    assert(0 <= col * size && col * size + size <= width * size) by (nonlinear_arith)
        requires
            0 <= col < width,
            0 <= size,
    ;
    assert(0 <= row * stride && row * stride + stride <= stride * image.height)
        by (nonlinear_arith)
        requires
            0 <= row < image.height,
            0 <= stride,
    ;
    let a = alpha_of(pixel);
    crate::color::laying_over_extremes(red_of(pixel), red_of(background), a);
    crate::color::laying_over_extremes(green_of(pixel), green_of(background), a);
    crate::color::laying_over_extremes(blue_of(pixel), blue_of(background), a);
}

/// What a row has behind its pixels is zeroes, and an image takes as many rows as
/// the icon.
pub proof fn rows_end_in_zeroes(
    image: IconImage,
    background: u32,
    format: PixmapFormat,
    little_endian: bool,
    row: int,
    at: int,
)
    requires
        0 <= row < image.height,
        0 <= image.width <= 0xffff,
        image.width * (format.bits_per_pixel as int / 8) <= at < row_stride(image.width, format),
    ensures
        ({
            let stride = row_stride(image.width, format);
            let data = image_data(image, background, format, little_endian);
            &&& data.len() == stride * image.height
            &&& data[row * stride + at] == 0
        }),
{
    let stride = row_stride(image.width, format);
    lemma_row_stride(image.width, format);
    lemma_padding_position(row, at, stride, row * stride + at);
    assert(0 <= row * stride && row * stride + stride <= stride * image.height)
        by (nonlinear_arith)
        requires
            0 <= row < image.height,
            0 <= stride,
    ;
}

/// Where the rows need no padding they have none, and in any case an image takes a
/// whole number of padding units for each row, as few as hold its pixels.
pub proof fn rows_are_no_longer_than_needed(width: int, format: PixmapFormat)
    requires
        0 <= width <= 0xffff,
    ensures
        ({
            let used = width * (format.bits_per_pixel as int / 8);
            let stride = row_stride(width, format);
            &&& used <= stride
            &&& format.scanline_pad >= 8 ==> stride < used + format.scanline_pad as int / 8 && stride
                % (format.scanline_pad as int / 8) == 0
            &&& format.scanline_pad < 8 ==> stride == used
        }),
{
    lemma_row_stride(width, format);
}

/// Each row of an image is the image of that row of the icon.
pub proof fn an_image_is_made_of_its_rows(
    image: IconImage,
    background: u32,
    format: PixmapFormat,
    little_endian: bool,
    row: int,
)
    requires
        0 <= row < image.height,
        0 <= image.width <= 0xffff,
        image.width * image.height <= image.pixels.len(),
    ensures
        ({
            let stride = row_stride(image.width, format);
            let line = IconImage {
                width: image.width,
                height: 1,
                pixels: image.pixels.subrange(row * image.width, (row + 1) * image.width),
            };
            image_data(image, background, format, little_endian).subrange(
                row * stride,
                (row + 1) * stride,
            ) == image_data(line, background, format, little_endian)
        }),
{
    let width = image.width;
    let stride = row_stride(width, format);
    let size = pixel_bytes(format);
    let line = IconImage {
        width,
        height: 1,
        pixels: image.pixels.subrange(row * width, (row + 1) * width),
    };
    let all = image_data(image, background, format, little_endian);
    let one = image_data(line, background, format, little_endian);
    lemma_row_stride(width, format);
    assert(0 <= row * stride && row * stride + stride <= stride * image.height && (row + 1) * stride
        == row * stride + stride) by (nonlinear_arith)
        requires
            0 <= row < image.height,
            0 <= stride,
    ;
    assert(0 <= row * width && row * width + width <= width * image.height && (row + 1) * width
        == row * width + width) by (nonlinear_arith)
        requires
            0 <= row < image.height,
            0 <= width,
    ;
    let part = all.subrange(row * stride, (row + 1) * stride);
    assert forall|k: int| 0 <= k < stride implies part[k] == one[k] by {
        lemma_padding_position(row, k, stride, row * stride + k);
        assert(0 * stride == 0) by (nonlinear_arith);
        lemma_padding_position(0, k, stride, k);
        assert(0 * width == 0) by (nonlinear_arith);
        if k < width * size {
            assert(size > 0) by (nonlinear_arith)
                requires
                    0 <= k < width * size,
                    0 <= size,
            ;
            assert(0 <= k / size < width) by (nonlinear_arith)
                requires
                    0 <= k < width * size,
                    size > 0,
            ;
            assert(line.pixels[k / size] == image.pixels[row * width + k / size]);
        }
    }
    assert(part =~= one);
}

/// Where some format is for a depth, the first one that is counts.
pub proof fn the_first_format_of_the_depth_counts(
    formats: Seq<PixmapFormat>,
    depth: u8,
    i: int,
)
    requires
        0 <= i < formats.len(),
        formats[i].depth == depth,
    ensures
        format_of(formats, depth) is Some,
        format_of(formats, depth)->0.depth == depth,
        (forall|k: int| 0 <= k < i ==> (#[trigger] formats[k]).depth != depth) ==> format_of(
            formats,
            depth,
        ) == Some(formats[i]),
{
    lemma_first_format(formats, depth, 0, i);
}

proof fn lemma_first_format(formats: Seq<PixmapFormat>, depth: u8, from: int, i: int)
    requires
        0 <= from <= i < formats.len(),
        formats[i].depth == depth,
    ensures
        format_from(formats, depth, from) is Some,
        format_from(formats, depth, from)->0.depth == depth,
        (forall|k: int| from <= k < i ==> (#[trigger] formats[k]).depth != depth) ==> format_from(
            formats,
            depth,
            from,
        ) == Some(formats[i]),
    decreases i - from,
{
    if from < i && formats[from].depth != depth {
        lemma_first_format(formats, depth, from + 1, i);
    }
}

/// A format that is found is one of the formats and made for that depth.
pub proof fn formats_are_not_made_up(formats: Seq<PixmapFormat>, depth: u8)
    requires
        format_of(formats, depth) is Some,
    ensures
        formats.contains(format_of(formats, depth)->0),
        format_of(formats, depth)->0.depth == depth,
{
    lemma_format_is_listed(formats, depth, 0);
}

proof fn lemma_format_is_listed(formats: Seq<PixmapFormat>, depth: u8, from: int)
    requires
        0 <= from,
        format_from(formats, depth, from) is Some,
    ensures
        formats.contains(format_from(formats, depth, from)->0),
        format_from(formats, depth, from)->0.depth == depth,
    decreases formats.len() - from,
{
    if formats[from].depth == depth {
        assert(formats.contains(formats[from]));
    } else {
        lemma_format_is_listed(formats, depth, from + 1);
    }
}

/// An icon that has all its pixels can be drawn in every format of whole bytes.
pub proof fn whole_icons_can_be_drawn(icon: IconImage, formats: Seq<PixmapFormat>, depth: u8)
    requires
        0 <= icon.width <= 2000,
        0 <= icon.height <= 2000,
        icon.width * icon.height <= icon.pixels.len(),
        format_of(formats, depth) matches Some(format) ==> format.bits_per_pixel >= 8,
    ensures
        drawable(icon, formats, depth),
{
    if let Some(format) = format_of(formats, depth) {
        lemma_row_stride(icon.width, format);
        let stride = row_stride(icon.width, format);
        assert(icon.width * pixel_bytes(format) <= 2000 * 31) by (nonlinear_arith)
            requires
                0 <= icon.width <= 2000,
                0 <= pixel_bytes(format) <= 31,
        ;
        assert(0 <= stride * icon.height <= 70000 * 2000) by (nonlinear_arith)
            requires
                0 <= stride <= 70000,
                0 <= icon.height <= 2000,
        ;
    }
}

/// An icon without pixels needs no format, and one whose pixels are missing cannot
/// be drawn where there is a format.
pub proof fn torn_icons_cannot_be_drawn(icon: IconImage, formats: Seq<PixmapFormat>, depth: u8)
    ensures
        icon.pixels.len() == 0 ==> drawable(icon, formats, depth),
        format_of(formats, depth) is None ==> drawable(icon, formats, depth),
        format_of(formats, depth) is Some && 0 < icon.pixels.len() < icon.width * icon.height
            ==> !drawable(icon, formats, depth),
{
}

} // verus!
