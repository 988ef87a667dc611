use screenshot::raster::{Rgba, RgbaImage};
use screenshot::search::{
    best_coarse_shifts, coarse_shifts, find_scroll_shift, pick_shift, refine_shifts, scroll_search_limit,
};
use screenshot::stitch::{blend_seam_channel, frames_unchanged, ScrollStitcher, StitchOutcome};

// The shift estimator that the application hands to the stitcher: row
// luminance and edge features for a coarse match, refined by sampling
// pixels of the overlap.

fn row_features(image: &RgbaImage) -> Vec<(f32, f32)> {
    let (width, height) = image.dimensions();
    let left = width / 12;
    let right = width.saturating_sub(left).max(left + 1);
    let mut output = Vec::with_capacity(height as usize);
    for y in 0..height {
        let mut luminance_sum = 0.0_f32;
        let mut edge_sum = 0.0_f32;
        let mut samples = 0_u32;
        let mut previous_luminance: Option<f32> = None;
        for x in (left..right).step_by(4) {
            let pixel = image.get_pixel(x, y);
            let luminance =
                0.299 * f32::from(pixel.r) + 0.587 * f32::from(pixel.g) + 0.114 * f32::from(pixel.b);
            luminance_sum += luminance;
            if let Some(previous) = previous_luminance {
                edge_sum += (luminance - previous).abs();
            }
            previous_luminance = Some(luminance);
            samples += 1;
        }
        let divisor = samples.max(1) as f32;
        output.push((luminance_sum / divisor, edge_sum / divisor));
    }
    output
}

fn row_match_cost(previous: &[(f32, f32)], current: &[(f32, f32)], shift: u32) -> f32 {
    let overlap = previous.len().saturating_sub(shift as usize);
    if overlap < 8 {
        return f32::MAX;
    }
    let start = overlap / 7;
    let end = overlap.saturating_sub(overlap / 20).max(start + 1);
    let mut cost = 0.0_f32;
    let mut weight_total = 0.0_f32;
    for current_y in (start..end).step_by(2) {
        let previous_y = current_y + shift as usize;
        let (previous_luma, previous_edge) = previous[previous_y];
        let (current_luma, current_edge) = current[current_y];
        let detail = previous_edge.max(current_edge);
        let weight = 1.0 + detail.min(12.0) * 0.45;
        cost += ((previous_luma - current_luma).abs() + 0.65 * (previous_edge - current_edge).abs())
            * weight;
        weight_total += weight;
    }
    cost / weight_total.max(1.0)
}

fn pixel_match_cost(
    previous: &RgbaImage,
    current: &RgbaImage,
    shift: u32,
    previous_rows: &[(f32, f32)],
    current_rows: &[(f32, f32)],
) -> f32 {
    let (width, height) = previous.dimensions();
    let overlap = height.saturating_sub(shift);
    let start_y = overlap / 7;
    let end_y = overlap.saturating_sub(overlap / 20).max(start_y + 1);
    let left = width / 10;
    let right = width.saturating_sub(left).max(left + 1);
    let mut total = 0.0_f32;
    let mut weight_total = 0.0_f32;
    for y in (start_y..end_y).step_by(8) {
        let previous_row = (y + shift) as usize;
        let current_row = y as usize;
        let detail = previous_rows
            .get(previous_row)
            .map(|(_, edge)| *edge)
            .unwrap_or_default()
            .max(current_rows.get(current_row).map(|(_, edge)| *edge).unwrap_or_default());
        let weight = 1.0 + detail.min(12.0) * 0.35;
        for x in (left..right).step_by(8) {
            let a = previous.get_pixel(x, y + shift);
            let b = current.get_pixel(x, y);
            let diff = u32::from(a.r.abs_diff(b.r))
                + u32::from(a.g.abs_diff(b.g))
                + u32::from(a.b.abs_diff(b.b));
            total += (diff as f32 / 3.0) * weight;
            weight_total += weight;
        }
    }
    total / weight_total.max(1.0)
}

fn find_vertical_shift(previous: &RgbaImage, current: &RgbaImage) -> Option<u32> {
    let (width, height) = previous.dimensions();
    if width < 32 || height < 120 {
        return None;
    }
    let minimum_overlap = (height / 4).max(96).min(height.saturating_sub(8));
    let maximum_shift = height.saturating_sub(minimum_overlap);
    if maximum_shift < 6 {
        return None;
    }
    let previous_rows = row_features(previous);
    let current_rows = row_features(current);
    let mut candidates: Vec<(f32, u32)> = Vec::new();
    for shift in (6..=maximum_shift).step_by(2) {
        candidates.push((row_match_cost(&previous_rows, &current_rows, shift), shift));
    }
    candidates.sort_by(|a, b| a.0.total_cmp(&b.0));
    candidates.first()?;
    let mut best: Option<(f32, f32, f32, u32)> = None;
    for (_, coarse_shift) in candidates.iter().take(12) {
        let refine_start = coarse_shift.saturating_sub(4).max(6);
        let refine_end = (coarse_shift + 4).min(maximum_shift);
        for shift in refine_start..=refine_end {
            let row_cost = row_match_cost(&previous_rows, &current_rows, shift);
            let pixel_cost = pixel_match_cost(previous, current, shift, &previous_rows, &current_rows);
            let combined = row_cost * 0.65 + pixel_cost * 0.9;
            if best.map(|(best_combined, _, _, _)| combined < best_combined).unwrap_or(true) {
                best = Some((combined, row_cost, pixel_cost, shift));
            }
        }
    }
    let (_, row_cost, pixel_cost, shift) = best?;
    if row_cost <= 22.0 && pixel_cost <= 28.0 {
        Some(shift)
    } else {
        None
    }
}

fn cost_key(cost: f32) -> u32 {
    let bits = cost.to_bits();
    if bits >> 31 == 1 {
        !bits
    } else {
        bits | 0x8000_0000
    }
}

// The same estimator with the library's search deciding which shifts are
// tried and which one is kept.
fn library_search(previous: &RgbaImage, current: &RgbaImage) -> Option<u32> {
    let (width, height) = previous.dimensions();
    let previous_rows = row_features(previous);
    let current_rows = row_features(current);
    find_scroll_shift(
        width,
        height,
        |shift| cost_key(row_match_cost(&previous_rows, &current_rows, shift)),
        |shift| {
            let row_cost = row_match_cost(&previous_rows, &current_rows, shift);
            let pixel_cost = pixel_match_cost(previous, current, shift, &previous_rows, &current_rows);
            (cost_key(row_cost * 0.65 + pixel_cost * 0.9), row_cost <= 22.0 && pixel_cost <= 28.0)
        },
    )
}

fn patterned_page(width: u32, height: u32) -> RgbaImage {
    let mut data = Vec::with_capacity((width * height * 4) as usize);
    for y in 0..height {
        for x in 0..width {
            let band = ((y / 23) % 9) as u8;
            data.push(band.wrapping_mul(27).wrapping_add((x % 17) as u8));
            data.push((y % 251) as u8);
            data.push(((x * 3 + y * 5) % 255) as u8);
            data.push(255);
        }
    }
    RgbaImage::from_raw(width, height, data).unwrap()
}

#[test]
fn stitches_scrolled_views() {
    let page = patterned_page(320, 1_600);
    let first = page.crop(0, 0, 320, 500);
    let second = page.crop(0, 280, 320, 500);
    let third = page.crop(0, 550, 320, 500);
    let mut stitcher = ScrollStitcher::new(first);
    assert_eq!(stitcher.try_push(second, find_vertical_shift), StitchOutcome::Added(280));
    assert_eq!(stitcher.try_push(third, find_vertical_shift), StitchOutcome::Added(270));
    assert_eq!(stitcher.finish().height(), 1_050);
}

#[test]
fn seam_blend_matches_float_rounding() {
    for overlap in 1..=10_u32 {
        for row in 0..overlap {
            let alpha = (row + 1) as f32 / (overlap + 1) as f32;
            for base in 0..=255_u8 {
                for top in 0..=255_u8 {
                    let expected =
                        (f32::from(base) * (1.0 - alpha) + f32::from(top) * alpha).round() as u8;
                    assert_eq!(
                        blend_seam_channel(base, top, row, overlap),
                        expected,
                        "base {base} top {top} row {row} overlap {overlap}"
                    );
                }
            }
        }
    }
}

#[test]
fn identical_frames_are_unchanged() {
    let page = patterned_page(64, 64);
    let copy = page.duplicate();
    assert!(frames_unchanged(&page, &copy));
    let mut stitcher = ScrollStitcher::new(page);
    assert_eq!(stitcher.try_push(copy, find_vertical_shift), StitchOutcome::Unchanged);
    assert_eq!(stitcher.total_height(), 64);
}

#[test]
fn frame_of_other_size_is_not_matched() {
    let mut stitcher = ScrollStitcher::new(patterned_page(64, 64));
    let outcome = stitcher.try_push(patterned_page(64, 32), find_vertical_shift);
    assert_eq!(outcome, StitchOutcome::NoReliableMatch);
    assert_eq!(stitcher.total_height(), 64);
}

#[test]
fn unchanged_threshold_is_strict() {
    // One sampled pixel (1x1 image): 3 channel samples, threshold 3.6.
    let a = RgbaImage::from_raw(1, 1, vec![10, 10, 10, 255]).unwrap();
    let b = RgbaImage::from_raw(1, 1, vec![11, 11, 11, 255]).unwrap();
    let c = RgbaImage::from_raw(1, 1, vec![12, 11, 11, 255]).unwrap();
    assert!(frames_unchanged(&a, &b));
    assert!(!frames_unchanged(&a, &c));
    let d = RgbaImage::from_raw(1, 1, vec![10, 10, 14, 255]).unwrap();
    assert!(!frames_unchanged(&a, &d));
    let pixel = Rgba { r: 1, g: 2, b: 3, a: 4 };
    assert_eq!(a.get_pixel(0, 0), Rgba { r: 10, g: 10, b: 10, a: 255 });
    assert_ne!(a.get_pixel(0, 0), pixel);
}

#[test]
fn stitched_page_matches_the_scrolled_page() {
    let page = patterned_page(320, 1_600);
    let mut stitcher = ScrollStitcher::new(page.crop(0, 0, 320, 500));
    assert_eq!(stitcher.try_push(page.crop(0, 280, 320, 500), find_vertical_shift), StitchOutcome::Added(280));
    assert_eq!(stitcher.try_push(page.crop(0, 550, 320, 500), find_vertical_shift), StitchOutcome::Added(270));
    assert_eq!(stitcher.total_height(), 1_050);
    let output = stitcher.finish();
    let expected = page.crop(0, 0, 320, 1_050);
    assert_eq!(output.dimensions(), (320, 1_050));
    assert!(output.as_raw() == expected.as_raw());
}

fn column_frame(seed: u32) -> RgbaImage {
    let mut data = Vec::new();
    for y in 0..500_u32 {
        let v = ((seed * 37 + y * 11) % 256) as u8;
        for _ in 0..32 {
            data.extend_from_slice(&[v, v.wrapping_add(40), v.wrapping_add(90), 255]);
        }
    }
    RgbaImage::from_raw(32, 500, data).unwrap()
}

#[test]
fn long_capture_stops_at_height_limit() {
    let mut stitcher = ScrollStitcher::new(column_frame(0));
    let estimate = |_: &RgbaImage, _: &RgbaImage| Some(375_u32);
    let mut seed = 1;
    loop {
        match stitcher.try_push(column_frame(seed), estimate) {
            StitchOutcome::Added(shift) => assert_eq!(shift, 375),
            StitchOutcome::LimitReached => break,
            other => panic!("unexpected outcome {other:?}"),
        }
        seed += 1;
    }
    assert_eq!(stitcher.total_height(), 40_000);
    assert_eq!(stitcher.try_push(column_frame(seed + 1), estimate), StitchOutcome::LimitReached);
    assert_eq!(stitcher.total_height(), 40_000);
    let output = stitcher.finish();
    assert_eq!(output.dimensions(), (32, 40_000));
}

#[test]
fn unmatched_frame_leaves_the_stitcher_unchanged() {
    let mut stitcher = ScrollStitcher::new(column_frame(0));
    let outcome = stitcher.try_push(column_frame(5), |_: &RgbaImage, _: &RgbaImage| None);
    assert_eq!(outcome, StitchOutcome::NoReliableMatch);
    assert_eq!(stitcher.total_height(), 500);
    let output = stitcher.finish();
    assert!(output.as_raw() == column_frame(0).as_raw());
}

#[test]
fn added_rows_are_the_bottom_of_the_frame() {
    let first = column_frame(0);
    let second = column_frame(9);
    let mut stitcher = ScrollStitcher::new(first.duplicate());
    let outcome = stitcher.try_push(second.duplicate(), |_: &RgbaImage, _: &RgbaImage| Some(100_u32));
    assert_eq!(outcome, StitchOutcome::Added(100));
    let output = stitcher.finish();
    assert_eq!(output.height(), 600);
    // Rows 0..490 are the first frame; 490..500 are the seam; 500..600
    // are the last 100 rows of the second frame.
    assert!(output.crop(0, 0, 32, 490).as_raw() == first.crop(0, 0, 32, 490).as_raw());
    assert!(output.crop(0, 500, 32, 100).as_raw() == second.crop(0, 400, 32, 100).as_raw());
    // The seam blends the first frame's bottom rows toward the second
    // frame's rows just above the new ones.
    for row in 0..10_u32 {
        let base = first.get_pixel(0, 490 + row);
        let top = second.get_pixel(0, 390 + row);
        let seam = output.get_pixel(0, 490 + row);
        assert_eq!(seam.r, blend_seam_channel(base.r, top.r, row, 10));
        assert_eq!(seam.a, 255);
    }
}

#[test]
fn seam_channel_values() {
    assert_eq!(blend_seam_channel(0, 255, 0, 1), 128);
    assert_eq!(blend_seam_channel(7, 4, 0, 5), 6);
    assert_eq!(blend_seam_channel(200, 100, 9, 10), 109);
}

#[test]
fn library_search_agrees_with_the_float_search() {
    let page = patterned_page(320, 1_600);
    let first = page.crop(0, 0, 320, 500);
    for offset in [0_u32, 4, 6, 7, 50, 120, 280, 375, 376, 500] {
        let next = page.crop(0, offset, 320, 500);
        assert_eq!(library_search(&first, &next), find_vertical_shift(&first, &next), "offset {offset}");
    }
    assert_eq!(library_search(&first, &next_found(&page)), Some(280));
    let narrow = page.crop(0, 0, 31, 500);
    assert_eq!(library_search(&narrow, &page.crop(0, 40, 31, 500)), None);
    let low = page.crop(0, 0, 320, 119);
    assert_eq!(library_search(&low, &page.crop(0, 20, 320, 119)), None);
}

fn next_found(page: &RgbaImage) -> RgbaImage {
    page.crop(0, 280, 320, 500)
}

#[test]
fn search_limit_keeps_a_quarter_in_common() {
    assert_eq!(scroll_search_limit(31, 500), None);
    assert_eq!(scroll_search_limit(32, 119), None);
    assert_eq!(scroll_search_limit(32, 120), Some(24));
    assert_eq!(scroll_search_limit(320, 500), Some(375));
    assert_eq!(scroll_search_limit(320, 1_000), Some(750));
}

#[test]
fn coarse_candidates_follow_a_stable_sort() {
    let shifts = vec![6_u32, 8, 10, 12, 14];
    let keys = vec![5_u32, 3, 5, 1, 3];
    assert_eq!(best_coarse_shifts(&shifts, &keys), vec![12, 8, 14, 6, 10]);
    let many: Vec<u32> = coarse_shifts(40);
    assert_eq!(many.len(), 18);
    let flat = vec![0_u32; 18];
    assert_eq!(best_coarse_shifts(&many, &flat), many[..12].to_vec());
    assert_eq!(refine_shifts(&vec![6, 40], 40), vec![6, 7, 8, 9, 10, 36, 37, 38, 39, 40]);
    assert_eq!(pick_shift(&vec![6, 7, 8], &vec![4, 2, 2], &vec![true, true, false]), Some(7));
    assert_eq!(pick_shift(&vec![6, 7, 8], &vec![4, 2, 1], &vec![true, true, false]), None);
    assert_eq!(pick_shift(&vec![], &vec![], &vec![]), None);
}

#[test]
fn seam_channel_lies_between_its_inputs() {
    for overlap in 1..=10_u32 {
        for row in 0..overlap {
            for base in (0..=255_u8).step_by(3) {
                for top in (0..=255_u8).step_by(5) {
                    let c = blend_seam_channel(base, top, row, overlap);
                    assert!(base.min(top) <= c && c <= base.max(top));
                }
            }
        }
    }
}

fn float_mean_difference(a: &RgbaImage, b: &RgbaImage) -> f32 {
    let (width, height) = a.dimensions();
    let mut total = 0_u64;
    let mut count = 0_u64;
    for y in (0..height).step_by(12) {
        for x in (0..width).step_by(12) {
            let l = a.get_pixel(x, y);
            let r = b.get_pixel(x, y);
            total += u64::from(l.r.abs_diff(r.r)) + u64::from(l.g.abs_diff(r.g)) + u64::from(l.b.abs_diff(r.b));
            count += 3;
        }
    }
    total as f32 / count.max(1) as f32
}

#[test]
fn unchanged_test_matches_single_precision_mean() {
    for seed in 0..200_u32 {
        let width = 1 + seed % 50;
        let height = 1 + (seed * 7) % 40;
        let mut da = Vec::new();
        let mut db = Vec::new();
        for i in 0..(width * height) {
            let v = ((i * 31 + seed * 17) % 256) as u8;
            let d = ((i * 13 + seed) % (1 + seed % 5)) as u8;
            da.extend_from_slice(&[v, v / 2, v / 3, 255]);
            db.extend_from_slice(&[v.wrapping_add(d), v / 2, (v / 3).wrapping_add(d / 2), 255]);
        }
        let a = RgbaImage::from_raw(width, height, da).unwrap();
        let b = RgbaImage::from_raw(width, height, db).unwrap();
        assert_eq!(frames_unchanged(&a, &b), float_mean_difference(&a, &b) < 1.2, "seed {seed}");
    }
}

#[test]
fn wide_seams_match_float_rounding() {
    let overlaps = [11_u32, 12, 63, 100, 1_000, 65_535, 16_777_215, 16_777_216, 16_777_217, 123_456_789, 4_294_967_294];
    for &overlap in &overlaps {
        let rows = [0_u32, 1, overlap / 3, overlap / 2, overlap - 2, overlap - 1];
        for &row in &rows {
            if row >= overlap {
                continue;
            }
            let alpha = (row + 1) as f32 / (overlap + 1) as f32;
            for base in (0..=255_u8).step_by(7) {
                for top in (0..=255_u8).step_by(11) {
                    let expected =
                        (f32::from(base) * (1.0 - alpha) + f32::from(top) * alpha).round() as u8;
                    assert_eq!(
                        blend_seam_channel(base, top, row, overlap),
                        expected,
                        "base {base} top {top} row {row} overlap {overlap}"
                    );
                }
            }
        }
    }
}
