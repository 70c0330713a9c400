//! Icons: their pixels, how they are read, and how they are brought to size.

use crate::color::{
    alpha, alpha_of, blue_of, bytes_are_found_in_their_colour, color_of, green_of, pack, red_of,
};
use vstd::arithmetic::div_mod::lemma_fundamental_div_mod_converse;
use vstd::prelude::*;
use vstd::slice::slice_subrange;

verus! {

/// An icon; the pixels are ARGB words, row by row.
#[derive(Debug, Clone)]
pub struct Icon {
    pub width: u16,
    pub height: u16,
    pub pixels: Vec<u32>,
}

/// What an icon shows.
#[verifier::ext_equal]
pub struct IconImage {
    pub width: int,
    pub height: int,
    pub pixels: Seq<u32>,
}

impl View for Icon {
    type V = IconImage;

    open spec fn view(&self) -> IconImage {
        IconImage { width: self.width as int, height: self.height as int, pixels: self.pixels@ }
    }
}

/// What an icon shows, if there is one.
pub open spec fn shown(icon: Option<Icon>) -> Option<IconImage> {
    match icon {
        Some(icon) => Some(icon@),
        None => None,
    }
}

/// A second icon that shows the same.
pub fn copy_icon(icon: &Icon) -> (r: Icon)
    ensures
        r@ == icon@,
{
    let pixels = vstd::slice::slice_to_vec(icon.pixels.as_slice());
    Icon { width: icon.width, height: icon.height, pixels }
}

/// The larger of two sides.
pub open spec fn larger(a: int, b: int) -> int {
    if a >= b {
        a
    } else {
        b
    }
}

/// Whether an image of this size is within the limit on both sides.
pub open spec fn within(width: int, height: int, limit: int) -> bool {
    width <= limit && height <= limit
}

/// The length of a side after the larger side has been brought to `limit`:
/// rounded to the nearest value, and at least one.
pub open spec fn scaled_side(side: int, max_side: int, limit: int) -> int {
    larger((side * limit + max_side / 2) / max_side, 1)
}

/// The position that stands for position `i` of `new_side` on a side of length
/// `side`.
pub open spec fn source_position(i: int, side: int, new_side: int) -> int {
    i * side / new_side
}

/// The index of the pixel of a `width` by `height` image that is shown at
/// column `x` and row `y` of a `new_width` by `new_height` one.
pub open spec fn source_index(
    x: int,
    y: int,
    width: int,
    height: int,
    new_width: int,
    new_height: int,
) -> int {
    source_position(y, height, new_height) * width + source_position(x, width, new_width)
}

/// The image brought within the limit: untouched if it is within it already,
/// else scaled by taking, for each pixel, the one at the matching position.
pub open spec fn scaled(pixels: Seq<u32>, width: int, height: int, limit: int) -> IconImage {
    if width == 0 || height == 0 {
        IconImage { width: 0, height: 0, pixels: Seq::empty() }
    } else if within(width, height, limit) {
        IconImage { width, height, pixels }
    } else {
        let new_width = scaled_side(width, larger(width, height), limit);
        let new_height = scaled_side(height, larger(width, height), limit);
        IconImage {
            width: new_width,
            height: new_height,
            pixels: Seq::new(
                (new_width * new_height) as nat,
                |k: int|
                    pixels[source_index(
                        k % new_width,
                        k / new_width,
                        width,
                        height,
                        new_width,
                        new_height,
                    )],
            ),
        }
    }
}

/// Whether `available` pixels are enough to scale an image of this size: every
/// pixel that is taken is there.
pub open spec fn enough_pixels(available: int, width: int, height: int, limit: int) -> bool {
    width == 0 || height == 0 || within(width, height, limit) || {
        let new_width = scaled_side(width, larger(width, height), limit);
        let new_height = scaled_side(height, larger(width, height), limit);
        forall|x: int, y: int|
            0 <= x < new_width && 0 <= y < new_height ==> #[trigger] source_index(
                x,
                y,
                width,
                height,
                new_width,
                new_height,
            ) < available
    }
}

/// A scaled side is at least one, and longer than the limit only where the
/// limit is zero.
proof fn lemma_scaled_side(side: int, max_side: int, limit: int)
    requires
        0 < side <= max_side,
        0 <= limit,
    ensures
        1 <= scaled_side(side, max_side, limit) <= larger(limit, 1),
        side == max_side && limit > 0 ==> scaled_side(side, max_side, limit) == limit,
{
    let n = side * limit + max_side / 2;
    assert(0 <= side * limit <= max_side * limit) by (nonlinear_arith)
        requires
            0 < side <= max_side,
            0 <= limit,
    ;
    assert(n / max_side <= limit) by (nonlinear_arith)
        requires
            0 <= n <= max_side * limit + max_side / 2,
            0 < max_side,
    ;
    assert(n / max_side >= 0) by (nonlinear_arith)
        requires
            0 <= n,
            0 < max_side,
    ;
    if side == max_side {
        assert(n / max_side >= limit) by (nonlinear_arith)
            requires
                n == max_side * limit + max_side / 2,
                0 < max_side,
        ;
    }
}

/// The position taken on a side is on that side.
proof fn lemma_source_position(i: int, side: int, new_side: int)
    requires
        0 <= i < new_side,
        0 < side,
    ensures
        0 <= source_position(i, side, new_side) < side,
{
    assert(0 <= i * side) by (nonlinear_arith)
        requires
            0 <= i,
            0 < side,
    ;
    assert(i * side < side * new_side) by (nonlinear_arith)
        requires
            i < new_side,
            0 < side,
    ;
    let p = i * side;
    assert(0 <= p / new_side) by (nonlinear_arith)
        requires
            0 <= p,
            0 < new_side,
    ;
    assert(p / new_side < side) by (nonlinear_arith)
        requires
            p < side * new_side,
            0 < new_side,
    ;
}

/// An image that has all its pixels has enough of them.
pub proof fn full_image_is_enough(available: int, width: int, height: int, limit: int)
    requires
        0 <= width,
        0 <= height,
        0 <= limit,
        width * height <= available,
    ensures
        enough_pixels(available, width, height, limit),
{
    if width != 0 && height != 0 && !within(width, height, limit) {
        let new_width = scaled_side(width, larger(width, height), limit);
        let new_height = scaled_side(height, larger(width, height), limit);
        assert forall|x: int, y: int|
            0 <= x < new_width && 0 <= y < new_height implies #[trigger] source_index(
            x,
            y,
            width,
            height,
            new_width,
            new_height,
        ) < available by {
            lemma_source_position(x, width, new_width);
            lemma_source_position(y, height, new_height);
            let sx = source_position(x, width, new_width);
            let sy = source_position(y, height, new_height);
            assert(sy * width + sx < width * height) by (nonlinear_arith)
                requires
                    0 <= sx < width,
                    0 <= sy <= height - 1,
            ;
        }
    }
}

/// A scaled side as a machine integer.
fn scale_side(side: usize, max_side: usize, limit: u16) -> (r: usize)
    requires
        0 < side <= max_side,
    ensures
        r == scaled_side(side as int, max_side as int, limit as int),
        1 <= r <= 65535,
{
    proof {
        lemma_scaled_side(side as int, max_side as int, limit as int);
        assert(side * limit <= 0xffff_ffff_ffff_ffff * 65535) by (nonlinear_arith)
            requires
                side <= 0xffff_ffff_ffff_ffff,
                limit <= 65535,
        ;
        assert(side * limit >= 0) by (nonlinear_arith);
    }
    let n: u128 = side as u128 * limit as u128 + (max_side / 2) as u128;
    let q: u128 = n / max_side as u128;
    if q < 1 {
        1
    } else {
        q as usize
    }
}

/// A source position as a machine integer.
fn source_of(i: usize, side: usize, new_side: usize) -> (r: usize)
    requires
        i < new_side <= 65535,
        0 < side,
    ensures
        r == source_position(i as int, side as int, new_side as int),
        r < side,
{
    proof {
        lemma_source_position(i as int, side as int, new_side as int);
        assert(0 <= i * side <= 65535 * 0xffff_ffff_ffff_ffff) by (nonlinear_arith)
            requires
                0 <= i <= 65535,
                0 <= side <= 0xffff_ffff_ffff_ffff,
        ;
    }
    (i as u128 * side as u128 / new_side as u128) as usize
}

/// Brings an image within the limit.
pub fn scale_icon_to_limit(pixels: Vec<u32>, width: usize, height: usize, max_icon_size: u16) -> (r:
    Icon)
    requires
        enough_pixels(pixels@.len() as int, width as int, height as int, max_icon_size as int),
    ensures
        r@ == scaled(pixels@, width as int, height as int, max_icon_size as int),
{
    if width == 0 || height == 0 {
        return Icon { width: 0, height: 0, pixels: Vec::new() };
    }
    let target: usize = max_icon_size as usize;
    if width <= target && height <= target {
        return Icon { width: width as u16, height: height as u16, pixels };
    }
    let max_dim: usize = if width >= height {
        width
    } else {
        height
    };
    let new_width = scale_side(width, max_dim, max_icon_size);
    let new_height = scale_side(height, max_dim, max_icon_size);
    let ghost image = scaled(pixels@, width as int, height as int, max_icon_size as int);
    let mut result: Vec<u32> = Vec::new();
    let mut y: usize = 0;
    proof {
        assert(0 * new_width == 0) by (nonlinear_arith);
        assert(image.pixels.take(0) =~= Seq::<u32>::empty());
        assert(image.pixels.len() == new_width * new_height) by {
            assert(new_width * new_height >= 0) by (nonlinear_arith);
        }
    }
    while y < new_height
        invariant
            0 < width,
            0 < height,
            !within(width as int, height as int, max_icon_size as int),
            y <= new_height <= 65535,
            1 <= new_width <= 65535,
            new_width == scaled_side(
                width as int,
                larger(width as int, height as int),
                max_icon_size as int,
            ),
            new_height == scaled_side(
                height as int,
                larger(width as int, height as int),
                max_icon_size as int,
            ),
            enough_pixels(pixels@.len() as int, width as int, height as int, max_icon_size as int),
            image == scaled(pixels@, width as int, height as int, max_icon_size as int),
            image.pixels.len() == new_width * new_height,
            result@ == image.pixels.take(y * new_width),
            0 <= y * new_width <= new_width * new_height,
        decreases new_height - y,
    {
        let src_y = source_of(y, height, new_height);
        let mut x: usize = 0;
        proof {
            assert((y + 1) * new_width == y * new_width + new_width) by (nonlinear_arith);
            assert((y + 1) * new_width <= new_width * new_height) by (nonlinear_arith)
                requires
                    y + 1 <= new_height,
                    1 <= new_width,
            ;
        }
        while x < new_width
            invariant
                0 < width,
                0 < height,
                !within(width as int, height as int, max_icon_size as int),
                y < new_height <= 65535,
                x <= new_width <= 65535,
                1 <= new_width,
                new_width == scaled_side(
                    width as int,
                    larger(width as int, height as int),
                    max_icon_size as int,
                ),
                new_height == scaled_side(
                    height as int,
                    larger(width as int, height as int),
                    max_icon_size as int,
                ),
                enough_pixels(
                    pixels@.len() as int,
                    width as int,
                    height as int,
                    max_icon_size as int,
                ),
                image == scaled(pixels@, width as int, height as int, max_icon_size as int),
                image.pixels.len() == new_width * new_height,
                src_y == source_position(y as int, height as int, new_height as int),
                0 <= y * new_width,
                (y + 1) * new_width == y * new_width + new_width,
                (y + 1) * new_width <= new_width * new_height,
                result@ == image.pixels.take(y * new_width + x),
            decreases new_width - x,
        {
            let src_x = source_of(x, width, new_width);
            let ghost k = y * new_width + x;
            proof {
                assert(source_index(
                    x as int,
                    y as int,
                    width as int,
                    height as int,
                    new_width as int,
                    new_height as int,
                ) == src_y * width + src_x);
                assert(0 <= src_y * width) by (nonlinear_arith);
                assert(src_y * width + src_x < pixels.len());
                vstd::arithmetic::div_mod::lemma_fundamental_div_mod_converse(
                    k,
                    new_width as int,
                    y as int,
                    x as int,
                );
                assert(image.pixels[k] == pixels@[src_y * width + src_x]);
                assert(image.pixels.take(k).push(image.pixels[k]) =~= image.pixels.take(k + 1));
            }
            result.push(pixels[src_y * width + src_x]);
            x = x + 1;
        }
        y = y + 1;
    }
    proof {
        assert(new_height * new_width == new_width * new_height) by (nonlinear_arith);
        assert(image.pixels.take(image.pixels.len() as int) =~= image.pixels);
    }
    Icon { width: new_width as u16, height: new_height as u16, pixels: result }
}

/// Scaling never leaves a side longer than the limit (a limit of zero counts as
/// one), keeps exactly one pixel for each position, brings the larger side of
/// an image that is too large to the limit, and does nothing the second time.
pub proof fn scaling_respects_the_limit(
    pixels: Seq<u32>,
    width: int,
    height: int,
    limit: int,
)
    requires
        0 <= width,
        0 <= height,
        0 <= limit,
        pixels.len() == width * height,
    ensures
        ({
            let r = scaled(pixels, width, height, limit);
            &&& 0 <= r.width <= larger(limit, 1)
            &&& 0 <= r.height <= larger(limit, 1)
            &&& r.pixels.len() == r.width * r.height
            &&& width > 0 && height > 0 ==> r.width > 0 && r.height > 0
            &&& limit > 0 && width > 0 && height > 0 && !within(width, height, limit) ==> larger(
                r.width,
                r.height,
            ) == limit
            &&& limit > 0 ==> scaled(r.pixels, r.width, r.height, limit) == r
        }),
{
    let r = scaled(pixels, width, height, limit);
    if width > 0 && height > 0 && !within(width, height, limit) {
        lemma_scaled_side(width, larger(width, height), limit);
        lemma_scaled_side(height, larger(width, height), limit);
        assert(r.width * r.height >= 0) by (nonlinear_arith)
            requires
                r.width >= 0,
                r.height >= 0,
        ;
    } else if width == 0 || height == 0 {
        assert(0int * 0int == 0);
    }
}

/// Whether an icon has no side that is longer than the limit (a limit of zero
/// counts as one), and exactly one pixel for each position.
pub open spec fn is_sized(icon: IconImage, limit: int) -> bool {
    &&& 0 <= icon.width <= larger(limit, 1)
    &&& 0 <= icon.height <= larger(limit, 1)
    &&& icon.pixels.len() == icon.width * icon.height
}

/// An image inside the words of an icon property: its size, and where its
/// pixels start.
pub struct IconRecord {
    pub width: int,
    pub height: int,
    pub start: int,
}

/// The images that the words of an icon property hold, from `idx` on. Each one
/// is its width, its height and then its pixels; one without pixels is left
/// out, and what does not hold all of its pixels ends the list.
pub open spec fn icon_records(data: Seq<u32>, idx: int) -> Seq<IconRecord>
    decreases data.len() - idx,
{
    if idx < 0 || idx + 2 > data.len() {
        Seq::empty()
    } else {
        let width = data[idx] as int;
        let height = data[idx + 1] as int;
        if width == 0 || height == 0 {
            icon_records(data, idx + 2)
        } else if idx + 2 + width * height > data.len() || width * height < 0 {
            Seq::empty()
        } else {
            seq![IconRecord { width, height, start: idx + 2 }] + icon_records(
                data,
                idx + 2 + width * height,
            )
        }
    }
}

/// The larger side of an image.
pub open spec fn extent(record: IconRecord) -> int {
    larger(record.width, record.height)
}

/// Whether an image is within the limit on both sides.
pub open spec fn fits(record: IconRecord, limit: int) -> bool {
    within(record.width, record.height, limit)
}

/// Whether image `i` is the first of the largest ones within the limit.
pub open spec fn is_largest_fitting(records: Seq<IconRecord>, limit: int, i: int) -> bool {
    &&& 0 <= i < records.len()
    &&& fits(records[i], limit)
    &&& forall|j: int|
        0 <= j < records.len() && fits(#[trigger] records[j], limit) ==> extent(records[j])
            < extent(records[i]) || (extent(records[j]) == extent(records[i]) && i <= j)
}

/// Whether image `i` is the first of the smallest ones that are too large.
pub open spec fn is_smallest_oversized(records: Seq<IconRecord>, limit: int, i: int) -> bool {
    &&& 0 <= i < records.len()
    &&& !fits(records[i], limit)
    &&& forall|j: int|
        0 <= j < records.len() && !fits(#[trigger] records[j], limit) ==> extent(records[i])
            < extent(records[j]) || (extent(records[j]) == extent(records[i]) && i <= j)
}

/// Whether no image is within the limit.
pub open spec fn none_fits(records: Seq<IconRecord>, limit: int) -> bool {
    forall|j: int| 0 <= j < records.len() ==> !fits(#[trigger] records[j], limit)
}

/// Whether image `i` is the one to show: the largest within the limit, or the
/// smallest one if all are too large.
pub open spec fn is_chosen(records: Seq<IconRecord>, limit: int, i: int) -> bool {
    ||| is_largest_fitting(records, limit, i)
    ||| none_fits(records, limit) && is_smallest_oversized(records, limit, i)
}

/// The pixels of an image inside the words of an icon property.
pub open spec fn record_pixels(data: Seq<u32>, record: IconRecord) -> Seq<u32> {
    data.subrange(record.start, record.start + record.width * record.height)
}

/// Whether an image has pixels, and all of them lie in the data.
spec fn inside(data: Seq<u32>, record: IconRecord) -> bool {
    &&& 0 < record.width
    &&& 0 < record.height
    &&& 0 <= record.start
    &&& 0 < record.width * record.height
    &&& record.start + record.width * record.height <= data.len()
}

/// The images in an icon property lie inside it.
proof fn lemma_records_inside(data: Seq<u32>, idx: int)
    requires
        0 <= idx,
    ensures
        forall|j: int|
            0 <= j < icon_records(data, idx).len() ==> inside(
                data,
                #[trigger] icon_records(data, idx)[j],
            ),
    decreases data.len() - idx,
{
    if idx + 2 <= data.len() {
        let width = data[idx] as int;
        let height = data[idx + 1] as int;
        if width == 0 || height == 0 {
            lemma_records_inside(data, idx + 2);
            assert(icon_records(data, idx) == icon_records(data, idx + 2));
        } else {
            assert(width * height > 0) by (nonlinear_arith)
                requires
                    width > 0,
                    height > 0,
            ;
            if idx + 2 + width * height <= data.len() {
                let rest = icon_records(data, idx + 2 + width * height);
                lemma_records_inside(data, idx + 2 + width * height);
                assert forall|j: int| 0 <= j < icon_records(data, idx).len() implies inside(
                    data,
                    #[trigger] icon_records(data, idx)[j],
                ) by {
                    if j > 0 {
                        assert(icon_records(data, idx)[j] == rest[j - 1]);
                    }
                }
            } else {
                assert(icon_records(data, idx).len() == 0);
            }
        }
    } else {
        assert(icon_records(data, idx).len() == 0);
    }
}

/// The choice stands when an image that is not better comes last.
proof fn lemma_choice_kept(records: Seq<IconRecord>, limit: int, next: IconRecord)
    ensures
        forall|i: int|
            #[trigger] is_largest_fitting(records, limit, i) && (!fits(next, limit) || extent(next)
                <= extent(records[i])) ==> is_largest_fitting(records.push(next), limit, i),
        forall|i: int|
            #[trigger] is_smallest_oversized(records, limit, i) && (fits(next, limit) || extent(
                next,
            ) >= extent(records[i])) ==> is_smallest_oversized(records.push(next), limit, i),
{
    let all = records.push(next);
    assert forall|i: int|
        #[trigger] is_largest_fitting(records, limit, i) && (!fits(next, limit) || extent(next)
            <= extent(records[i])) implies is_largest_fitting(all, limit, i) by {
        assert(all[i] == records[i]);
        assert forall|j: int| 0 <= j < all.len() && fits(#[trigger] all[j], limit) implies extent(
            all[j],
        ) < extent(all[i]) || (extent(all[j]) == extent(all[i]) && i <= j) by {
            if j < records.len() {
                assert(all[j] == records[j]);
            }
        }
    }
    assert forall|i: int|
        #[trigger] is_smallest_oversized(records, limit, i) && (fits(next, limit) || extent(next)
            >= extent(records[i])) implies is_smallest_oversized(all, limit, i) by {
        assert(all[i] == records[i]);
        assert forall|j: int| 0 <= j < all.len() && !fits(#[trigger] all[j], limit) implies extent(
            all[i],
        ) < extent(all[j]) || (extent(all[j]) == extent(all[i]) && i <= j) by {
            if j < records.len() {
                assert(all[j] == records[j]);
            }
        }
    }
}

/// Whether the images from `idx` on fill the words of an icon property up to the
/// end.
pub open spec fn is_whole(data: Seq<u32>, idx: int) -> bool
    decreases data.len() - idx,
{
    if idx < 0 || idx + 2 > data.len() {
        idx == data.len()
    } else {
        let width = data[idx] as int;
        let height = data[idx + 1] as int;
        if width == 0 || height == 0 {
            is_whole(data, idx + 2)
        } else if idx + 2 + width * height > data.len() || width * height < 0 {
            false
        } else {
            is_whole(data, idx + 2 + width * height)
        }
    }
}

/// Whether words are the start of an image that is cut off: its size is missing,
/// or some of its pixels are.
pub open spec fn is_cut_off(words: Seq<u32>) -> bool {
    words.len() < 2 || (words[0] > 0 && words[1] > 0 && 2 + words[0] * words[1] > words.len())
}

/// The icon in an icon property: the one to show, brought within the limit.
pub open spec fn property_icon(data: Seq<u32>, limit: int) -> Option<IconImage> {
    let records = icon_records(data, 0);
    if records.len() == 0 {
        None
    } else {
        let record = records[choose|i: int| is_chosen(records, limit, i)];
        Some(scaled(record_pixels(data, record), record.width, record.height, limit))
    }
}

/// Of several images there is always one to show, and only one.
pub proof fn one_image_is_chosen(records: Seq<IconRecord>, limit: int)
    requires
        records.len() > 0,
    ensures
        exists|i: int| is_chosen(records, limit, i),
        forall|i: int, j: int|
            #[trigger] is_chosen(records, limit, i) && #[trigger] is_chosen(records, limit, j)
                ==> i == j,
{
    lemma_some_image_is_chosen(records, limit);
    assert forall|i: int, j: int|
        #[trigger] is_chosen(records, limit, i) && #[trigger] is_chosen(
            records,
            limit,
            j,
        ) implies i == j by {
        assert(records[i] == records[i] && records[j] == records[j]);
    }
}

/// There is a largest image within the limit, if any is, and a smallest one
/// among the others, if there are others.
proof fn lemma_some_image_is_chosen(records: Seq<IconRecord>, limit: int)
    ensures
        none_fits(records, limit) || exists|i: int| is_largest_fitting(records, limit, i),
        (forall|j: int| 0 <= j < records.len() ==> fits(#[trigger] records[j], limit))
            || exists|i: int| is_smallest_oversized(records, limit, i),
        records.len() > 0 ==> exists|i: int| is_chosen(records, limit, i),
    decreases records.len(),
{
    if records.len() > 0 {
        let before = records.drop_last();
        let next = records.last();
        let at = before.len() as int;
        lemma_some_image_is_chosen(before, limit);
        lemma_choice_kept(before, limit, next);
        assert(before.push(next) =~= records);
        assert forall|j: int| 0 <= j < before.len() implies #[trigger] records[j] == before[j] by {}
        if fits(next, limit) {
            if none_fits(before, limit) {
                assert forall|j: int|
                    0 <= j < records.len() && fits(#[trigger] records[j], limit) implies j
                    == at by {
                    if j < at {
                        assert(!fits(before[j], limit));
                    }
                }
                assert(is_largest_fitting(records, limit, at));
            } else {
                let i = choose|i: int| is_largest_fitting(before, limit, i);
                if extent(next) > extent(before[i]) {
                    assert forall|j: int|
                        0 <= j < records.len() && fits(#[trigger] records[j], limit) implies extent(
                        records[j],
                    ) < extent(next) || j == at by {
                        if j < at {
                            assert(fits(before[j], limit));
                        }
                    }
                    assert(is_largest_fitting(records, limit, at));
                } else {
                    assert(is_largest_fitting(records, limit, i));
                }
            }
            if !(forall|j: int| 0 <= j < before.len() ==> fits(#[trigger] before[j], limit)) {
                let i = choose|i: int| is_smallest_oversized(before, limit, i);
                assert(is_smallest_oversized(records, limit, i));
            } else {
                assert forall|j: int| 0 <= j < records.len() implies fits(
                    #[trigger] records[j],
                    limit,
                ) by {
                    if j < at {
                        assert(fits(before[j], limit));
                    }
                }
            }
            let i = choose|i: int| is_largest_fitting(records, limit, i);
            assert(is_chosen(records, limit, i));
        } else {
            if forall|j: int| 0 <= j < before.len() ==> fits(#[trigger] before[j], limit) {
                assert forall|j: int|
                    0 <= j < records.len() && !fits(#[trigger] records[j], limit) implies j
                    == at by {
                    if j < at {
                        assert(fits(before[j], limit));
                    }
                }
                assert(is_smallest_oversized(records, limit, at));
            } else {
                let i = choose|i: int| is_smallest_oversized(before, limit, i);
                if extent(next) < extent(before[i]) {
                    assert forall|j: int|
                        0 <= j < records.len() && !fits(#[trigger] records[j], limit) implies extent(
                        next,
                    ) < extent(records[j]) || j == at by {
                        if j < at {
                            assert(!fits(before[j], limit));
                        }
                    }
                    assert(is_smallest_oversized(records, limit, at));
                } else {
                    assert(is_smallest_oversized(records, limit, i));
                }
            }
            if none_fits(before, limit) {
                assert forall|j: int| 0 <= j < records.len() implies !fits(
                    #[trigger] records[j],
                    limit,
                ) by {
                    if j < at {
                        assert(!fits(before[j], limit));
                    }
                }
                let i = choose|i: int| is_smallest_oversized(records, limit, i);
                assert(is_chosen(records, limit, i));
            } else {
                let i = choose|i: int| is_largest_fitting(before, limit, i);
                assert(is_largest_fitting(records, limit, i));
                assert(is_chosen(records, limit, i));
            }
        }
    }
}

/// The icon in an icon property has exactly one pixel for each position, and no
/// side that is longer than the limit (a limit of zero counts as one).
pub proof fn property_icons_have_all_pixels(data: Seq<u32>, limit: int)
    requires
        0 <= limit,
        property_icon(data, limit) is Some,
    ensures
        ({
            let icon = property_icon(data, limit)->0;
            &&& icon.pixels.len() == icon.width * icon.height
            &&& 0 < icon.width <= larger(limit, 1)
            &&& 0 < icon.height <= larger(limit, 1)
        }),
{
    let records = icon_records(data, 0);
    one_image_is_chosen(records, limit);
    let i = choose|i: int| is_chosen(records, limit, i);
    let record = records[i];
    lemma_records_inside(data, 0);
    assert(inside(data, icon_records(data, 0)[i]));
    scaling_respects_the_limit(record_pixels(data, record), record.width, record.height, limit);
}

/// The images in words that are filled by them stay the same when the start of an
/// image that is cut off follows.
proof fn lemma_records_before_cut(data: Seq<u32>, words: Seq<u32>, idx: int)
    requires
        0 <= idx,
        is_whole(data, idx),
        is_cut_off(words),
    ensures
        icon_records(data + words, idx) == icon_records(data, idx),
    decreases data.len() - idx,
{
    let all = data + words;
    if idx == data.len() {
        assert(icon_records(data, idx).len() == 0);
        if words.len() >= 2 {
            assert(all[idx] == words[0] && all[idx + 1] == words[1]);
        }
        assert(icon_records(all, idx).len() == 0);
    } else {
        let width = data[idx] as int;
        let height = data[idx + 1] as int;
        assert(all[idx] == data[idx] && all[idx + 1] == data[idx + 1]);
        if width == 0 || height == 0 {
            lemma_records_before_cut(data, words, idx + 2);
        } else {
            lemma_records_before_cut(data, words, idx + 2 + width * height);
        }
    }
}

/// An image that is cut off at the end of an icon property changes nothing: the
/// images before it count, and the icon is the one that they give.
pub proof fn a_cut_off_image_changes_nothing(data: Seq<u32>, words: Seq<u32>, limit: int)
    requires
        is_whole(data, 0),
        is_cut_off(words),
    ensures
        icon_records(data + words, 0) == icon_records(data, 0),
        property_icon(data + words, limit) == property_icon(data, limit),
{
    lemma_records_before_cut(data, words, 0);
    let records = icon_records(data, 0);
    if records.len() > 0 {
        one_image_is_chosen(records, limit);
        let i = choose|i: int| is_chosen(records, limit, i);
        lemma_records_inside(data, 0);
        assert(inside(data, icon_records(data, 0)[i]));
        assert(record_pixels(data + words, records[i]) =~= record_pixels(data, records[i]));
    }
}

/// Reads the images of an icon property and brings the best of them within the
/// limit.
pub fn parse_wm_icon(data: &[u32], max_icon_size: u16) -> (r: Option<Icon>)
    ensures
        shown(r) == property_icon(data@, max_icon_size as int),
{
    let target: usize = max_icon_size as usize;
    let ghost limit = max_icon_size as int;
    let ghost all = icon_records(data@, 0);
    let ghost mut seen: Seq<IconRecord> = Seq::empty();
    // The width, the height and the start of the pixels.
    let mut best: Option<(usize, usize, usize)> = None;
    let mut fallback: Option<(usize, usize, usize)> = None;
    let ghost mut best_at: int = 0;
    let ghost mut fallback_at: int = 0;
    let mut idx: usize = 0;
    let mut running = true;
    proof {
        assert(all =~= seen + icon_records(data@, 0));
    }
    while running && 2 <= data.len() - idx
        invariant
            idx <= data@.len(),
            limit == max_icon_size as int,
            target == max_icon_size as usize,
            all == icon_records(data@, 0),
            running ==> all == seen + icon_records(data@, idx as int),
            !running ==> all == seen,
            best matches Some(b) ==> {
                &&& is_largest_fitting(seen, limit, best_at)
                &&& seen[best_at] == (IconRecord {
                    width: b.0 as int,
                    height: b.1 as int,
                    start: b.2 as int,
                })
            },
            best is None ==> none_fits(seen, limit),
            fallback matches Some(b) ==> {
                &&& is_smallest_oversized(seen, limit, fallback_at)
                &&& seen[fallback_at] == (IconRecord {
                    width: b.0 as int,
                    height: b.1 as int,
                    start: b.2 as int,
                })
            },
            fallback is None ==> forall|j: int|
                0 <= j < seen.len() ==> fits(#[trigger] seen[j], limit),
        decreases (if running { 1int } else { 0int }), data@.len() - idx,
    {
        let width = data[idx] as usize;
        let height = data[idx + 1] as usize;
        idx = idx + 2;
        if width == 0 || height == 0 {
            continue;
        }
        let len: usize = match width.checked_mul(height) {
            Some(len) => len,
            None => {
                running = false;
                proof {
                    assert(all =~= seen);
                }
                continue;
            },
        };
        if len > data.len() - idx {
            running = false;
            proof {
                assert(all =~= seen);
            }
            continue;
        }
        let start: usize = idx;
        idx = idx + len;
        let max_dim: usize = if width >= height {
            width
        } else {
            height
        };
        let ghost next = IconRecord {
            width: width as int,
            height: height as int,
            start: start as int,
        };
        proof {
            assert(width * height > 0) by (nonlinear_arith)
                requires
                    width > 0,
                    height > 0,
            ;
            lemma_choice_kept(seen, limit, next);
            assert(all =~= seen.push(next) + icon_records(data@, idx as int));
        }
        let ghost before = seen;
        proof {
            seen = seen.push(next);
            assert forall|j: int| 0 <= j < before.len() implies #[trigger] seen[j] == before[j] by {}
        }
        if width <= target && height <= target {
            let better = match &best {
                Some(b) => max_dim > b.0 && max_dim > b.1,
                None => true,
            };
            if better {
                best = Some((width, height, start));
                proof {
                    best_at = before.len() as int;
                    assert(seen[best_at] == next);
                    assert forall|j: int|
                        0 <= j < seen.len() && fits(#[trigger] seen[j], limit) implies extent(
                        seen[j],
                    ) < extent(seen[best_at]) || (extent(seen[j]) == extent(seen[best_at])
                        && best_at <= j) by {
                        if j < before.len() {
                            assert(seen[j] == before[j]);
                        }
                    }
                }
            }
        } else {
            let better = match &fallback {
                Some(b) => max_dim < b.0 || max_dim < b.1,
                None => true,
            };
            if better {
                fallback = Some((width, height, start));
                proof {
                    fallback_at = before.len() as int;
                    assert(seen[fallback_at] == next);
                    assert forall|j: int|
                        0 <= j < seen.len() && !fits(#[trigger] seen[j], limit) implies extent(
                        seen[fallback_at],
                    ) < extent(seen[j]) || (extent(seen[j]) == extent(seen[fallback_at])
                        && fallback_at <= j) by {
                        if j < before.len() {
                            assert(seen[j] == before[j]);
                        }
                    }
                }
            }
        }
    }
    proof {
        assert(all =~= seen);
        lemma_records_inside(data@, 0);
    }
    let (chosen, ghost_at) = match best {
        Some(b) => (Some(b), Ghost(best_at)),
        None => (fallback, Ghost(fallback_at)),
    };
    match chosen {
        None => {
            proof {
                if all.len() > 0 {
                    assert(fits(seen[0], limit));
                }
            }
            None
        },
        Some((width, height, start)) => {
            let ghost at = ghost_at@;
            proof {
                assert(is_chosen(all, limit, at));
                one_image_is_chosen(all, limit);
                assert(all[at] == (IconRecord {
                    width: width as int,
                    height: height as int,
                    start: start as int,
                }));
                assert(inside(data@, icon_records(data@, 0)[at]));
                assert(start + width * height <= data.len());
                full_image_is_enough(width * height, width as int, height as int, limit);
            }
            let pixels = vstd::slice::slice_to_vec(
                slice_subrange(data, start, start + width * height),
            );
            Some(scale_icon_to_limit(pixels, width, height, max_icon_size))
        },
    }
}

/// Whether any pixel is not fully transparent.
pub open spec fn any_visible(pixels: Seq<u32>) -> bool {
    exists|i: int| 0 <= i < pixels.len() && alpha_of(#[trigger] pixels[i]) != 0
}

/// Whether any pixel is not fully transparent.
pub fn icon_has_visible_pixels(pixels: &[u32]) -> (r: bool)
    ensures
        r == any_visible(pixels@),
{
    let mut i: usize = 0;
    while i < pixels.len()
        invariant
            i <= pixels@.len(),
            forall|k: int| 0 <= k < i ==> alpha_of(#[trigger] pixels@[k]) == 0,
        decreases pixels@.len() - i,
    {
        if alpha(pixels[i]) != 0 {
            proof {
                assert(alpha_of(pixels@[i as int]) != 0);
            }
            return true;
        }
        i = i + 1;
    }
    false
}

/// The ARGB words of pixels given as bytes in the order red, green, blue, alpha.
pub open spec fn argb_words(rgba: Seq<u8>) -> Seq<u32> {
    Seq::new(
        (rgba.len() / 4) as nat,
        |i: int|
            color_of(
                rgba[4 * i + 3] as int,
                rgba[4 * i] as int,
                rgba[4 * i + 1] as int,
                rgba[4 * i + 2] as int,
            ),
    )
}

/// The icon made of RGBA bytes: none if nothing of it would be seen, else the
/// image brought within the limit.
pub open spec fn rgba_icon(rgba: Seq<u8>, width: int, height: int, limit: int) -> Option<
    IconImage,
> {
    if any_visible(argb_words(rgba)) {
        Some(scaled(argb_words(rgba), width, height, limit))
    } else {
        None
    }
}

/// Makes an icon of RGBA bytes.
pub fn icon_from_rgba(rgba: &[u8], width: usize, height: usize, max_icon_size: u16) -> (r: Option<
    Icon,
>)
    requires
        any_visible(argb_words(rgba@)) ==> enough_pixels(
            rgba@.len() as int / 4,
            width as int,
            height as int,
            max_icon_size as int,
        ),
    ensures
        shown(r) == rgba_icon(rgba@, width as int, height as int, max_icon_size as int),
{
    let mut pixels: Vec<u32> = Vec::new();
    let n: usize = rgba.len() / 4;
    let mut i: usize = 0;
    while i < n
        invariant
            i <= n,
            n == rgba.len() / 4,
            pixels@ == argb_words(rgba@).take(i as int),
        decreases n - i,
    {
        let at: usize = 4 * i;
        let pixel = pack(
            rgba[at + 3] as u32,
            rgba[at] as u32,
            rgba[at + 1] as u32,
            rgba[at + 2] as u32,
        );
        proof {
            assert(argb_words(rgba@).take(i as int).push(argb_words(rgba@)[i as int])
                =~= argb_words(rgba@).take(i + 1));
        }
        pixels.push(pixel);
        i = i + 1;
    }
    proof {
        assert(argb_words(rgba@).take(n as int) =~= argb_words(rgba@));
    }
    if !icon_has_visible_pixels(pixels.as_slice()) {
        return None;
    }
    Some(scale_icon_to_limit(pixels, width, height, max_icon_size))
}

/// What the `image` crate makes of the bytes of an image file with the given
/// file name extension: width, height and RGBA bytes, or nothing where it knows
/// no such format or cannot read the file.
pub uninterp spec fn decoded_rgba(extension: Seq<char>, bytes: Seq<u8>) -> Option<
    (u32, u32, Seq<u8>),
>;

/// Decodes an image file with the `image` crate: `ImageFormat::from_extension`
/// picks the format, `load_from_memory_with_format` reads the bytes, and
/// `DynamicImage::to_rgba8` turns the image into RGBA. Of the result it is
/// claimed that extension and bytes determine it (no decoding hook is asked where
/// the format is given), and that it holds exactly four bytes for each pixel: the
/// buffer of a decoder is as long as its image needs, and so is a converted one.
/// The decoders are taken to return on every sequence of bytes, with an image or
/// with an error.
#[verifier::external_body]
fn decode_rgba(extension: &str, bytes: &[u8]) -> (r: Option<(u32, u32, Vec<u8>)>)
    ensures
        r is Some <==> decoded_rgba(extension@, bytes@) is Some,
        r matches Some((width, height, rgba)) ==> {
            &&& decoded_rgba(extension@, bytes@) == Some((width, height, rgba@))
            &&& width * height * 4 == rgba@.len()
        },
{
    let format = image::ImageFormat::from_extension(extension)?;
    let rgba = image::load_from_memory_with_format(bytes, format).ok()?.to_rgba8();
    Some((rgba.width(), rgba.height(), rgba.into_raw()))
}

/// The icon in an image file, given its file name extension, if it has one, and
/// its bytes. A decoded image has four bytes for each pixel.
pub open spec fn file_icon(extension: Option<Seq<char>>, bytes: Seq<u8>, limit: int) -> Option<
    IconImage,
> {
    match extension {
        None => None,
        Some(extension) => match decoded_rgba(extension, bytes) {
            None => None,
            Some((width, height, rgba)) => if width * height * 4 == rgba.len() {
                rgba_icon(rgba, width as int, height as int, limit)
            } else {
                None
            },
        },
    }
}

/// An image file: its file name extension, if it has one, and its bytes.
pub struct IconFile {
    pub extension: Option<String>,
    pub bytes: Vec<u8>,
}

/// An image file: its file name extension, if it has one, and its bytes.
pub struct ImageFile {
    pub extension: Option<Seq<char>>,
    pub bytes: Seq<u8>,
}

impl View for IconFile {
    type V = ImageFile;

    open spec fn view(&self) -> ImageFile {
        ImageFile {
            extension: match self.extension {
                Some(extension) => Some(extension@),
                None => None,
            },
            bytes: self.bytes@,
        }
    }
}

/// The icon in an image file, if there is a file.
pub open spec fn icon_in(file: Option<ImageFile>, limit: int) -> Option<IconImage> {
    match file {
        Some(file) => file_icon(file.extension, file.bytes, limit),
        None => None,
    }
}

/// Whatever an image file holds, its icon is within the limit.
pub proof fn file_icons_are_sized(file: ImageFile, limit: int)
    requires
        0 <= limit,
    ensures
        icon_in(Some(file), limit) matches Some(icon) ==> is_sized(icon, limit),
{
    match file.extension {
        Some(extension) => match decoded_rgba(extension, file.bytes) {
            Some((width, height, rgba)) => {
                let w = width as int;
                let h = height as int;
                if w * h * 4 == rgba.len() {
                    assert(argb_words(rgba).len() == w * h);
                    scaling_respects_the_limit(argb_words(rgba), w, h, limit);
                }
            },
            None => {},
        },
        None => {},
    }
}

/// The view of a text, if there is one.
pub open spec fn some_text(text: Option<&str>) -> Option<Seq<char>> {
    match text {
        Some(text) => Some(text@),
        None => None,
    }
}

/// Reads the icon in an image file, given its file name extension, if it has
/// one, and its bytes.
pub fn decode_icon(extension: Option<&str>, bytes: &[u8], max_icon_size: u16) -> (r: Option<Icon>)
    ensures
        shown(r) == file_icon(some_text(extension), bytes@, max_icon_size as int),
        shown(r) matches Some(icon) ==> is_sized(icon, max_icon_size as int),
{
    let extension: &str = match extension {
        Some(extension) => extension,
        None => {
            return None;
        },
    };
    match decode_rgba(extension, bytes) {
        None => None,
        Some((width, height, rgba)) => {
            proof {
                let w = width as int;
                let h = height as int;
                assert(w * h <= rgba@.len() as int / 4) by (nonlinear_arith)
                    requires
                        w * h * 4 == rgba@.len(),
                ;
                full_image_is_enough(rgba@.len() as int / 4, w, h, max_icon_size as int);
                let file = ImageFile { extension: Some(extension@), bytes: bytes@ };
                file_icons_are_sized(file, max_icon_size as int);
            }
            icon_from_rgba(rgba.as_slice(), width as usize, height as usize, max_icon_size)
        },
    }
}

/// Fewer than three words hold no image.
pub proof fn small_properties_hold_no_image(words: Seq<u32>)
    requires
        words.len() < 3,
    ensures
        icon_records(words, 0).len() == 0,
{
    reveal_with_fuel(icon_records, 3);
    if words.len() == 2 && words[0] > 0 && words[1] > 0 {
        let width = words[0] as int;
        let height = words[1] as int;
        assert(width * height > 0) by (nonlinear_arith)
            requires
                width > 0,
                height > 0,
        ;
    }
}

/// An image within the limit stays as it is. Of a larger one each side is brought
/// down in the same proportion, as near as a whole number can be but to one at
/// least, so that the longer side has the length of the limit.
pub proof fn scaling_keeps_the_proportions(
    pixels: Seq<u32>,
    width: int,
    height: int,
    limit: int,
)
    requires
        0 < width,
        0 < height,
        0 < limit,
    ensures
        ({
            let r = scaled(pixels, width, height, limit);
            let longer = if width >= height {
                width
            } else {
                height
            };
            &&& width <= limit && height <= limit ==> r == (IconImage { width, height, pixels })
            &&& width > limit || height > limit ==> {
                &&& width >= height ==> r.width == limit
                &&& height >= width ==> r.height == limit
                &&& r.width == 1 || -longer <= 2 * (width * limit - r.width * longer) <= longer
                &&& r.height == 1 || -longer <= 2 * (height * limit - r.height * longer) <= longer
                &&& 2 * (width * limit - r.width * longer) <= longer
                &&& 2 * (height * limit - r.height * longer) <= longer
            }
        }),
{
    let longer = larger(width, height);
    if !within(width, height, limit) {
        lemma_scaled_side(width, longer, limit);
        lemma_scaled_side(height, longer, limit);
        lemma_side_is_near(width, longer, limit);
        lemma_side_is_near(height, longer, limit);
    }
}

proof fn lemma_side_is_near(side: int, longer: int, limit: int)
    requires
        0 < side <= longer,
        0 < limit,
    ensures
        ({
            let r = scaled_side(side, longer, limit);
            &&& r == 1 || -longer <= 2 * (side * limit - r * longer)
            &&& 2 * (side * limit - r * longer) <= longer
        }),
{
    let n = side * limit + longer / 2;
    let q = n / longer;
    assert(side * limit > 0) by (nonlinear_arith)
        requires
            side > 0,
            limit > 0,
    ;
    assert(q * longer <= n < (q + 1) * longer && q >= 0) by (nonlinear_arith)
        requires
            q == n / longer,
            longer > 0,
            n >= 0,
    ;
    assert((q + 1) * longer == q * longer + longer) by (nonlinear_arith);
    if q < 1 {
        assert(1 * longer == longer && 0 * longer == 0) by (nonlinear_arith);
    }
}

/// A pixel of an image that was scaled is the one at the matching place of the
/// image: as far from the left and from the top, in proportion.
pub proof fn pixels_are_taken_from_their_places(
    pixels: Seq<u32>,
    width: int,
    height: int,
    limit: int,
    x: int,
    y: int,
)
    requires
        0 < width,
        0 < height,
        0 < limit,
        width > limit || height > limit,
        0 <= x < scaled(pixels, width, height, limit).width,
        0 <= y < scaled(pixels, width, height, limit).height,
    ensures
        ({
            let r = scaled(pixels, width, height, limit);
            let column = x * width / r.width;
            let row = y * height / r.height;
            &&& r.pixels[y * r.width + x] == pixels[row * width + column]
            &&& column * r.width <= x * width < (column + 1) * r.width
            &&& row * r.height <= y * height < (row + 1) * r.height
        }),
{
    let r = scaled(pixels, width, height, limit);
    let k = y * r.width + x;
    lemma_fundamental_div_mod_converse(k, r.width, y, x);
    assert(0 <= k < r.width * r.height) by (nonlinear_arith)
        requires
            k == y * r.width + x,
            0 <= x < r.width,
            0 <= y < r.height,
    ;
    let column = x * width / r.width;
    let row = y * height / r.height;
    assert(column * r.width <= x * width < (column + 1) * r.width) by (nonlinear_arith)
        requires
            column == x * width / r.width,
            r.width > 0,
    ;
    assert(row * r.height <= y * height < (row + 1) * r.height) by (nonlinear_arith)
        requires
            row == y * height / r.height,
            r.height > 0,
    ;
}

/// Of the images in a property that are within the limit the largest one is shown,
/// the first one if several are; if none is within it, the smallest of all, again
/// the first one. Where there is no image there is no icon.
pub proof fn the_best_image_is_shown(data: Seq<u32>, limit: int) -> (i: int)
    ensures
        icon_records(data, 0).len() == 0 ==> property_icon(data, limit) is None,
        icon_records(data, 0).len() > 0 ==> {
            let records = icon_records(data, 0);
            let best = records[i];
            let side = larger(best.width, best.height);
            &&& 0 <= i < records.len()
            &&& property_icon(data, limit) == Some(
                scaled(
                    data.subrange(best.start, best.start + best.width * best.height),
                    best.width,
                    best.height,
                    limit,
                ),
            )
            &&& best.width <= limit && best.height <= limit ==> forall|j: int|
                0 <= j < records.len() && (#[trigger] records[j]).width <= limit
                    && records[j].height <= limit ==> larger(records[j].width, records[j].height)
                    <= side && (j < i ==> larger(records[j].width, records[j].height) < side)
            &&& best.width > limit || best.height > limit ==> forall|j: int|
                0 <= j < records.len() ==> ((#[trigger] records[j]).width > limit
                    || records[j].height > limit) && side <= larger(
                    records[j].width,
                    records[j].height,
                ) && (j < i ==> side < larger(records[j].width, records[j].height))
        },
{
    let records = icon_records(data, 0);
    if records.len() > 0 {
        one_image_is_chosen(records, limit);
        let i = choose|i: int| is_chosen(records, limit, i);
        let best = records[i];
        assert(is_chosen(records, limit, i));
        if fits(best, limit) {
            assert(is_largest_fitting(records, limit, i)) by {
                if none_fits(records, limit) {
                    assert(!fits(records[i], limit));
                }
            }
        } else {
            assert(none_fits(records, limit) && is_smallest_oversized(records, limit, i));
        }
        i
    } else {
        0
    }
}

/// The images in a property follow each other: a size, as many pixels as it says,
/// and then the next one.
pub proof fn images_follow_each_other(
    width: u32,
    height: u32,
    pixels: Seq<u32>,
    rest: Seq<u32>,
    k: int,
)
    requires
        width > 0,
        height > 0,
        pixels.len() == width * height,
    ensures
        ({
            let data = seq![width, height] + pixels + rest;
            let records = icon_records(data, 0);
            let others = icon_records(rest, 0);
            &&& records.len() == others.len() + 1
            &&& records[0].width == width && records[0].height == height
            &&& record_pixels(data, records[0]) == pixels
            &&& 0 <= k < others.len() ==> {
                &&& records[k + 1].width == others[k].width
                &&& records[k + 1].height == others[k].height
                &&& record_pixels(data, records[k + 1]) == record_pixels(rest, others[k])
            }
        }),
{
    let start = seq![width, height] + pixels;
    let data = start + rest;
    let records = icon_records(data, 0);
    let others = icon_records(rest, 0);
    let n = width as int * height as int;
    assert(data[0] == width && data[1] == height);
    assert(n > 0) by (nonlinear_arith)
        requires
            width > 0,
            height > 0,
            n == width as int * height as int,
    ;
    lemma_records_behind(start, rest, 0);
    lemma_records_inside(rest, 0);
    assert(data.subrange(2, 2 + n) =~= pixels);
    if 0 <= k < others.len() {
        assert(inside(rest, others[k]));
        assert(records[k + 1] == icon_records(data, start.len() as int)[k]);
        let s = others[k].start;
        let m = others[k].width * others[k].height;
        assert(data.subrange(start.len() + s, start.len() + s + m) =~= rest.subrange(s, s + m));
    }
}

/// The images from a place on do not depend on what stands before it.
proof fn lemma_records_behind(start: Seq<u32>, rest: Seq<u32>, idx: int)
    requires
        0 <= idx,
    ensures
        ({
            let behind = icon_records(start + rest, start.len() + idx);
            let own = icon_records(rest, idx);
            &&& behind.len() == own.len()
            &&& forall|k: int|
                0 <= k < own.len() ==> (#[trigger] behind[k]) == (IconRecord {
                    width: own[k].width,
                    height: own[k].height,
                    start: start.len() + own[k].start,
                })
        }),
    decreases rest.len() - idx,
{
    let all = start + rest;
    let n = start.len() as int;
    if idx + 2 <= rest.len() {
        assert(all[n + idx] == rest[idx] && all[n + idx + 1] == rest[idx + 1]);
        let width = rest[idx] as int;
        let height = rest[idx + 1] as int;
        if width == 0 || height == 0 {
            lemma_records_behind(start, rest, idx + 2);
        } else if idx + 2 + width * height <= rest.len() && width * height >= 0 {
            lemma_records_behind(start, rest, idx + 2 + width * height);
        }
    }
}

/// Four bytes make a pixel: red, green, blue and alpha, in that order.
pub proof fn four_bytes_make_a_pixel(rgba: Seq<u8>, i: int)
    requires
        0 <= i < rgba.len() as int / 4,
    ensures
        argb_words(rgba).len() == rgba.len() as int / 4,
        red_of(argb_words(rgba)[i]) == rgba[4 * i],
        green_of(argb_words(rgba)[i]) == rgba[4 * i + 1],
        blue_of(argb_words(rgba)[i]) == rgba[4 * i + 2],
        alpha_of(argb_words(rgba)[i]) == rgba[4 * i + 3],
{
    bytes_are_found_in_their_colour(
        rgba[4 * i + 3] as int,
        rgba[4 * i] as int,
        rgba[4 * i + 1] as int,
        rgba[4 * i + 2] as int,
    );
}

/// A picture of which nothing can be seen gives no icon, and any other one gives the
/// picture within the limit.
pub proof fn invisible_pictures_give_no_icon(
    rgba: Seq<u8>,
    width: int,
    height: int,
    limit: int,
    i: int,
)
    ensures
        0 <= i < rgba.len() as int / 4 && rgba[4 * i + 3] > 0 ==> rgba_icon(rgba, width, height, limit) == Some(
            scaled(argb_words(rgba), width, height, limit),
        ),
        (forall|k: int| 0 <= k < rgba.len() as int / 4 ==> #[trigger] rgba[4 * k + 3] == 0)
            ==> rgba_icon(rgba, width, height, limit) is None,
{
    if 0 <= i < rgba.len() as int / 4 {
        four_bytes_make_a_pixel(rgba, i);
    }
    if forall|k: int| 0 <= k < rgba.len() as int / 4 ==> #[trigger] rgba[4 * k + 3] == 0 {
        assert forall|k: int| 0 <= k < argb_words(rgba).len() implies alpha_of(
            #[trigger] argb_words(rgba)[k],
        ) == 0 by {
            four_bytes_make_a_pixel(rgba, k);
            assert(rgba[4 * k + 3] == 0);
        }
    }
}

/// A size without pixels says nothing: the images behind it are read on.
pub proof fn sizes_without_pixels_are_passed_over(
    width: u32,
    height: u32,
    rest: Seq<u32>,
    k: int,
)
    requires
        width == 0 || height == 0,
    ensures
        ({
            let data = seq![width, height] + rest;
            let records = icon_records(data, 0);
            let others = icon_records(rest, 0);
            &&& records.len() == others.len()
            &&& 0 <= k < others.len() ==> {
                &&& records[k].width == others[k].width
                &&& records[k].height == others[k].height
                &&& record_pixels(data, records[k]) == record_pixels(rest, others[k])
            }
        }),
{
    let start = seq![width, height];
    let data = start + rest;
    let others = icon_records(rest, 0);
    assert(data[0] == width && data[1] == height);
    lemma_records_behind(start, rest, 0);
    lemma_records_inside(rest, 0);
    assert(icon_records(data, 0) == icon_records(data, 2));
    if 0 <= k < others.len() {
        assert(inside(rest, others[k]));
        let s = others[k].start;
        let m = others[k].width * others[k].height;
        assert(data.subrange(start.len() + s, start.len() + s + m) =~= rest.subrange(s, s + m));
    }
}

/// Every image in a property has pixels, as many as its size says.
pub proof fn images_have_all_their_pixels(data: Seq<u32>, k: int)
    requires
        0 <= k < icon_records(data, 0).len(),
    ensures
        icon_records(data, 0)[k].width > 0,
        icon_records(data, 0)[k].height > 0,
        record_pixels(data, icon_records(data, 0)[k]).len() == icon_records(data, 0)[k].width
            * icon_records(data, 0)[k].height,
{
    lemma_records_inside(data, 0);
    assert(inside(data, icon_records(data, 0)[k]));
}

} // verus!
