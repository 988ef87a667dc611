use screenshot::annotate::{
    default_mosaic_block_size, draw_filled_circle, mosaic_block_size, parse_color,
    pixelate_region,
};
use screenshot::raster::{Rgba, RgbaImage};

fn rgba(r: u8, g: u8, b: u8, a: u8) -> Rgba {
    Rgba { r, g, b, a }
}

const FALLBACK: Rgba = Rgba { r: 239, g: 68, b: 68, a: 255 };

#[test]
fn mosaic_block_sizes() {
    assert_eq!(default_mosaic_block_size(), 12);
    assert_eq!(mosaic_block_size(0), 4);
    assert_eq!(mosaic_block_size(3), 4);
    assert_eq!(mosaic_block_size(4), 4);
    assert_eq!(mosaic_block_size(12), 12);
}

#[test]
fn parses_hex_colours() {
    assert_eq!(parse_color("#ff0000"), rgba(255, 0, 0, 255));
    assert_eq!(parse_color("#12ABef"), rgba(0x12, 0xab, 0xef, 255));
    assert_eq!(parse_color("00ff00"), rgba(0, 255, 0, 255));
    assert_eq!(parse_color("##0000ff"), rgba(0, 0, 255, 255));
    assert_eq!(parse_color("#+fffff"), rgba(0x0f, 0xff, 0xff, 255));
}

#[test]
fn unreadable_colours_fall_back_to_red() {
    assert_eq!(parse_color("#fff"), FALLBACK);
    assert_eq!(parse_color("#gg0000"), FALLBACK);
    assert_eq!(parse_color("#-fffff"), FALLBACK);
    assert_eq!(parse_color("#ff00001"), FALLBACK);
    assert_eq!(parse_color(""), FALLBACK);
    assert_eq!(parse_color("red"), FALLBACK);
    assert_eq!(parse_color("#ff00é"), FALLBACK);
}

fn blank(width: u32, height: u32) -> RgbaImage {
    RgbaImage::new(width, height)
}

#[test]
fn disc_of_radius_one_is_a_plus() {
    let mut image = blank(5, 5);
    let red = rgba(255, 0, 0, 255);
    draw_filled_circle(&mut image, 2, 2, 1, red);
    let painted: Vec<(u32, u32)> = (0..5)
        .flat_map(|y| (0..5).map(move |x| (x, y)))
        .filter(|&(x, y)| image.get_pixel(x, y) == red)
        .collect();
    assert_eq!(painted, vec![(2, 1), (1, 2), (2, 2), (3, 2), (2, 3)]);
}

#[test]
fn disc_is_clipped_to_the_image() {
    let mut image = blank(3, 3);
    let blue = rgba(0, 0, 255, 255);
    draw_filled_circle(&mut image, 0, 0, 2, blue);
    let painted: Vec<(u32, u32)> = (0..3)
        .flat_map(|y| (0..3).map(move |x| (x, y)))
        .filter(|&(x, y)| image.get_pixel(x, y) == blue)
        .collect();
    assert_eq!(painted, vec![(0, 0), (1, 0), (2, 0), (0, 1), (1, 1), (0, 2)]);
    let mut untouched = blank(3, 3);
    draw_filled_circle(&mut untouched, 10, 10, 2, blue);
    assert!(untouched.as_raw() == blank(3, 3).as_raw());
    draw_filled_circle(&mut untouched, 1, 1, -1, blue);
    assert!(untouched.as_raw() == blank(3, 3).as_raw());
}

#[test]
fn mosaic_paints_block_averages() {
    // 4 x 2 image, blocks of 2: left block averages 10,20,30,40 -> 25.
    let data = vec![
        10, 0, 0, 7, 20, 0, 0, 7, 100, 1, 2, 7, 101, 1, 2, 7, //
        30, 0, 0, 7, 40, 0, 0, 7, 102, 1, 2, 7, 104, 1, 2, 7,
    ];
    let mut image = RgbaImage::from_raw(4, 2, data).unwrap();
    pixelate_region(&mut image, 0, 0, 4, 2, 2);
    for y in 0..2 {
        for x in 0..2 {
            assert_eq!(image.get_pixel(x, y), rgba(25, 0, 0, 255));
        }
        for x in 2..4 {
            assert_eq!(image.get_pixel(x, y), rgba(101, 1, 2, 255));
        }
    }
}

#[test]
fn mosaic_blocks_are_cut_at_the_region_edge() {
    let mut data = Vec::new();
    for y in 0..3_u8 {
        for x in 0..5_u8 {
            data.extend_from_slice(&[x * 10 + y, 0, 0, 0]);
        }
    }
    let original = RgbaImage::from_raw(5, 3, data).unwrap();
    let mut image = original.duplicate();
    pixelate_region(&mut image, 1, 1, 4, 3, 2);
    // Outside the region nothing changes.
    for x in 0..5 {
        assert_eq!(image.get_pixel(x, 0), original.get_pixel(x, 0));
    }
    assert_eq!(image.get_pixel(0, 1), original.get_pixel(0, 1));
    assert_eq!(image.get_pixel(4, 2), original.get_pixel(4, 2));
    // Block columns 1..3, rows 1..3: values 11, 21, 12, 22 -> 16.
    assert_eq!(image.get_pixel(1, 1), rgba(16, 0, 0, 255));
    assert_eq!(image.get_pixel(2, 2), rgba(16, 0, 0, 255));
    // Cut block column 3 only: values 31, 32 -> 31.
    assert_eq!(image.get_pixel(3, 1), rgba(31, 0, 0, 255));
    assert_eq!(image.get_pixel(3, 2), rgba(31, 0, 0, 255));
}

#[test]
fn mosaic_of_an_empty_region_changes_nothing() {
    let original = RgbaImage::from_raw(2, 2, vec![1; 16]).unwrap();
    let mut image = original.duplicate();
    pixelate_region(&mut image, 2, 0, 1, 2, 4);
    assert!(image.as_raw() == original.as_raw());
}

#[test]
fn pixelating_twice_changes_nothing_more() {
    let mut data = Vec::new();
    for i in 0..(9 * 7) {
        data.extend_from_slice(&[(i * 37 % 256) as u8, (i * 11 % 256) as u8, (i * 5 % 256) as u8, 255]);
    }
    let mut once = RgbaImage::from_raw(9, 7, data).unwrap();
    pixelate_region(&mut once, 1, 2, 8, 7, 3);
    let mut twice = once.duplicate();
    pixelate_region(&mut twice, 1, 2, 8, 7, 3);
    assert!(twice.as_raw() == once.as_raw());
}
