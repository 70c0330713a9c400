//! Colours, icons and their images.

use image::{ColorType, ImageEncoder};
use xwitcher::color::{alpha, blend_colors, blue, green, lay_over, pack, red};
use xwitcher::icons::{
    copy_icon, decode_icon, icon_from_rgba, icon_has_visible_pixels, parse_wm_icon,
    scale_icon_to_limit, Icon,
};
use xwitcher::raster::{
    draw_icon, format_for_depth, image_of, is_drawable, MissingFormat, PixmapFormat,
};

fn png(width: u32, height: u32, rgba: &[u8]) -> Vec<u8> {
    let mut bytes: Vec<u8> = Vec::new();
    let encoder = image::codecs::png::PngEncoder::new(&mut bytes);
    match encoder.write_image(rgba, width, height, ColorType::Rgba8.into()) {
        Ok(()) => bytes,
        Err(error) => panic!("{error}"),
    }
}

fn parts(icon: Option<Icon>) -> Option<(u16, u16, Vec<u32>)> {
    icon.map(|icon| (icon.width, icon.height, icon.pixels))
}

const DEEP: PixmapFormat = PixmapFormat { depth: 24, bits_per_pixel: 32, scanline_pad: 32 };

#[test]
fn color_bytes() {
    let color = pack(1, 2, 3, 4);
    assert_eq!(color, 0x01020304);
    assert_eq!((alpha(color), red(color), green(color), blue(color)), (1, 2, 3, 4));
}

#[test]
fn blending_takes_the_mean_of_each_channel() {
    assert_eq!(blend_colors(0x000000, 0xffffff), 0x7f7f7f);
    assert_eq!(blend_colors(0xff102030, 0x20304050), 0x203040);
    assert_eq!(blend_colors(0x203040, 0x102030), blend_colors(0x102030, 0x203040));
    assert_eq!(blend_colors(0x102030, 0x102030), 0x102030);
    assert_eq!(blend_colors(0xff102030, 0xff102030), 0x102030);
}

#[test]
fn laying_over_rounds_to_the_nearest() {
    assert_eq!(lay_over(200, 100, 255), 200);
    assert_eq!(lay_over(200, 100, 0), 100);
    assert_eq!(lay_over(200, 100, 128), 150);
    assert_eq!(lay_over(0, 255, 127), 128);
}

#[test]
fn small_icons_are_kept() {
    let icon = scale_icon_to_limit(vec![1, 2, 3, 4, 5, 6], 3, 2, 3);
    assert_eq!((icon.width, icon.height, icon.pixels), (3, 2, vec![1, 2, 3, 4, 5, 6]));
}

#[test]
fn empty_icons_are_empty() {
    let icon = scale_icon_to_limit(vec![1, 2], 0, 2, 3);
    assert_eq!((icon.width, icon.height, icon.pixels), (0, 0, vec![]));
}

#[test]
fn large_icons_are_scaled() {
    let icon = scale_icon_to_limit((0..16).collect(), 4, 4, 2);
    assert_eq!((icon.width, icon.height, icon.pixels), (2, 2, vec![0, 2, 8, 10]));
    // A flat icon keeps at least one row.
    let flat = scale_icon_to_limit((0..8).collect(), 8, 1, 2);
    assert_eq!((flat.width, flat.height, flat.pixels), (2, 1, vec![0, 4]));
    // A limit of zero counts as one.
    let tiny = scale_icon_to_limit(vec![7, 8], 2, 1, 0);
    assert_eq!((tiny.width, tiny.height, tiny.pixels), (1, 1, vec![7]));
}

#[test]
fn scaling_twice_is_scaling_once() {
    let once = scale_icon_to_limit((0..60).collect(), 10, 6, 4);
    assert_eq!((once.width, once.height), (4, 2));
    let pixels = once.pixels.clone();
    let twice = scale_icon_to_limit(once.pixels, 4, 2, 4);
    assert_eq!((twice.width, twice.height, twice.pixels), (4, 2, pixels));
}

#[test]
fn the_largest_icon_within_the_limit_is_taken() {
    let data = [1, 1, 10, 2, 1, 20, 21, 1, 2, 30, 31, 3, 1, 40, 41, 42];
    assert_eq!(parts(parse_wm_icon(&data, 2)), Some((2, 1, vec![20, 21])));
    assert_eq!(parts(parse_wm_icon(&data, 3)), Some((3, 1, vec![40, 41, 42])));
}

#[test]
fn the_smallest_large_icon_is_scaled_down() {
    let data = [4, 1, 1, 2, 3, 4, 1, 3, 5, 6, 7, 3, 1, 8, 9, 10];
    assert_eq!(parts(parse_wm_icon(&data, 1)), Some((1, 1, vec![5])));
}

#[test]
fn broken_icon_properties() {
    assert_eq!(parts(parse_wm_icon(&[], 2)), None);
    assert_eq!(parts(parse_wm_icon(&[2, 2, 1, 1, 1], 2)), None);
    assert_eq!(parts(parse_wm_icon(&[0, 5, 1, 1, 9], 2)), Some((1, 1, vec![9])));
    assert_eq!(parts(parse_wm_icon(&[1, 1, 9, 2, 2, 1], 2)), Some((1, 1, vec![9])));
    assert_eq!(parts(parse_wm_icon(&[u32::MAX, u32::MAX, 1], 2)), None);
}

#[test]
fn visible_pixels() {
    assert!(!icon_has_visible_pixels(&[]));
    assert!(!icon_has_visible_pixels(&[0x00ffffff, 0]));
    assert!(icon_has_visible_pixels(&[0, 0x01000000]));
}

#[test]
fn rgba_bytes_become_argb_words() {
    assert_eq!(
        parts(icon_from_rgba(&[1, 2, 3, 4, 5, 6, 7, 8], 2, 1, 4)),
        Some((2, 1, vec![0x04010203, 0x08050607]))
    );
    assert_eq!(parts(icon_from_rgba(&[1, 2, 3, 0], 1, 1, 4)), None);
}

#[test]
fn image_files_are_decoded() {
    let bytes = png(2, 1, &[255, 0, 0, 255, 0, 0, 255, 128]);
    assert_eq!(
        parts(decode_icon(Some("png"), &bytes, 8)),
        Some((2, 1, vec![0xffff0000, 0x800000ff]))
    );
    assert_eq!(parts(decode_icon(Some("PNG"), &bytes, 1)), Some((1, 1, vec![0xffff0000])));
    assert_eq!(parts(decode_icon(Some("jpg"), &bytes, 8)), None);
    assert_eq!(parts(decode_icon(Some("txt"), &bytes, 8)), None);
    assert_eq!(parts(decode_icon(None, &bytes, 8)), None);
    assert_eq!(parts(decode_icon(Some("png"), &bytes[..20], 8)), None);
}

#[test]
fn invisible_image_files_have_no_icon() {
    let bytes = png(1, 1, &[255, 255, 255, 0]);
    assert_eq!(parts(decode_icon(Some("png"), &bytes, 8)), None);
}

#[test]
fn a_copied_icon_shows_the_same() {
    let icon = Icon { width: 1, height: 2, pixels: vec![3, 4] };
    let copy = copy_icon(&icon);
    assert_eq!((copy.width, copy.height, copy.pixels), (1, 2, vec![3, 4]));
}

#[test]
fn the_first_format_for_a_depth_is_taken() {
    let other = PixmapFormat { depth: 24, bits_per_pixel: 24, scanline_pad: 8 };
    let one = PixmapFormat { depth: 1, bits_per_pixel: 1, scanline_pad: 32 };
    assert_eq!(format_for_depth(&[one, DEEP, other], 24), Some(DEEP));
    assert_eq!(format_for_depth(&[one], 24), None);
}

#[test]
fn images_with_the_low_byte_first() {
    let icon = Icon { width: 2, height: 1, pixels: vec![0xff112233, 0x00112233] };
    assert_eq!(
        image_of(&icon, 0xaabbcc, &DEEP, true),
        vec![0x33, 0x22, 0x11, 0, 0xcc, 0xbb, 0xaa, 0]
    );
}

#[test]
fn images_with_the_high_byte_first() {
    let icon = Icon { width: 1, height: 1, pixels: vec![0xff112233] };
    assert_eq!(image_of(&icon, 0, &DEEP, false), vec![0, 0x11, 0x22, 0x33]);
    let packed = PixmapFormat { depth: 24, bits_per_pixel: 24, scanline_pad: 8 };
    assert_eq!(image_of(&icon, 0, &packed, false), vec![0x11, 0x22, 0x33]);
    let sixteen = PixmapFormat { depth: 16, bits_per_pixel: 16, scanline_pad: 8 };
    assert_eq!(image_of(&icon, 0, &sixteen, false), vec![0x11, 0x22]);
    assert_eq!(image_of(&icon, 0, &sixteen, true), vec![0x33, 0x22]);
    let eight = PixmapFormat { depth: 8, bits_per_pixel: 8, scanline_pad: 0 };
    assert_eq!(image_of(&icon, 0, &eight, false), vec![0x11]);
    assert_eq!(image_of(&icon, 0, &eight, true), vec![0x33]);
}

#[test]
fn rows_are_padded() {
    let packed = PixmapFormat { depth: 24, bits_per_pixel: 24, scanline_pad: 32 };
    let icon = Icon { width: 1, height: 2, pixels: vec![0xff010203, 0xff040506] };
    assert_eq!(image_of(&icon, 0, &packed, true), vec![3, 2, 1, 0, 6, 5, 4, 0]);
}

#[test]
fn drawing_needs_pixels_and_a_format() {
    let icon = Icon { width: 1, height: 1, pixels: vec![0x80ff0000] };
    assert_eq!(
        draw_icon(&icon, 0x0000ff, &[DEEP], 24, true),
        Ok(Some(vec![127, 0, 128, 0]))
    );
    assert_eq!(draw_icon(&icon, 0, &[DEEP], 8, true), Err(MissingFormat));
    let empty = Icon { width: 0, height: 0, pixels: vec![] };
    assert_eq!(draw_icon(&empty, 0, &[], 8, true), Ok(None));
}

#[test]
fn only_full_icons_can_be_drawn() {
    let full = Icon { width: 2, height: 1, pixels: vec![1, 2] };
    let torn = Icon { width: 2, height: 2, pixels: vec![1, 2] };
    let empty = Icon { width: 2, height: 2, pixels: vec![] };
    let bits = PixmapFormat { depth: 1, bits_per_pixel: 1, scanline_pad: 32 };
    assert!(is_drawable(&full, &[DEEP, bits], 24));
    assert!(!is_drawable(&full, &[DEEP, bits], 1));
    assert!(is_drawable(&full, &[DEEP, bits], 8));
    assert!(!is_drawable(&torn, &[DEEP], 24));
    assert!(is_drawable(&empty, &[DEEP], 24));
}

#[test]
fn decoded_icons_keep_to_the_limit() {
    let bytes = png(3, 2, &[255; 24]);
    for limit in [0, 1, 2, 3, 9] {
        match decode_icon(Some("png"), &bytes, limit) {
            Some(icon) => {
                assert!(icon.width <= limit.max(1) && icon.height <= limit.max(1));
                assert_eq!(icon.pixels.len(), icon.width as usize * icon.height as usize);
            }
            None => panic!("there is an icon"),
        }
    }
}

#[test]
fn images_that_are_cut_off_are_left_out() {
    let whole = [1, 1, 9, 0, 5, 2, 1, 7, 8];
    for words in [vec![], vec![3], vec![2, 2], vec![2, 2, 1, 1, 1], vec![u32::MAX, 1, 1]] {
        let mut data = whole.to_vec();
        data.extend(words);
        for limit in [1, 2, 3] {
            assert_eq!(parts(parse_wm_icon(&data, limit)), parts(parse_wm_icon(&whole, limit)));
        }
    }
}
