//! Stitching of a long screenshot from frames captured while the user
//! scrolls down: only the rows that a frame adds at the bottom are kept,
//! and the seam between two pieces is blended over a few rows.
use vstd::prelude::*;

use crate::raster::{lemma_image_wf, ImageModel, Rgba, RgbaImage};

verus! {

/// Tallest long screenshot that is built, in pixels.
pub const MAX_OUTPUT_HEIGHT: u32 = 40_000;

/// Largest long screenshot that is built, in pixels.
pub const MAX_OUTPUT_PIXELS: u64 = 80_000_000;

/// Rows of the previous piece that a new piece is blended over.
pub const SEAM_OVERLAP_ROWS: u32 = 10;

/// What happened to a frame handed to [`ScrollStitcher::try_push`].
#[derive(Debug, Clone, Copy, PartialEq, Eq, Structural)]
pub enum StitchOutcome {
    /// The view moved down by this many rows and they were appended.
    Added(u32),
    /// The frame shows the same content as the previous one.
    Unchanged,
    /// No downward scroll could be matched between the two frames.
    NoReliableMatch,
    /// The size limit of the output was reached.
    LimitReached,
}

/// A piece of the output: an image whose first `overlap` rows repeat the
/// bottom of what precedes it.
pub struct SegmentModel {
    pub image: ImageModel,
    pub overlap: nat,
}

/// The model of a stitcher.
pub struct StitchModel {
    pub width: nat,
    pub viewport_height: nat,
    pub total_height: nat,
    pub last_frame: ImageModel,
    pub segments: Seq<SegmentModel>,
}

/// Rows that a piece adds below what precedes it.
pub open spec fn body_height(s: SegmentModel) -> int {
    s.image.height - s.overlap
}

/// Rows added by the first `n` pieces.
pub open spec fn body_sum(segs: Seq<SegmentModel>, n: nat) -> int
    decreases n,
{
    if n == 0 {
        0
    } else {
        body_sum(segs, (n - 1) as nat) + body_height(segs[n - 1])
    }
}

pub open spec fn max_nat(a: nat, b: nat) -> nat {
    if a >= b {
        a
    } else {
        b
    }
}

pub open spec fn min_nat(a: nat, b: nat) -> nat {
    if a <= b {
        a
    } else {
        b
    }
}

/// Rows that may still be appended to an output of the given width and
/// height before one of the two size limits is reached.
pub open spec fn remaining_rows(width: nat, total: nat) -> nat {
    let by_height: nat = if total < MAX_OUTPUT_HEIGHT {
        (MAX_OUTPUT_HEIGHT - total) as nat
    } else {
        0
    };
    let cap: nat = if width == 0 {
        0
    } else {
        MAX_OUTPUT_PIXELS as nat / width
    };
    let by_pixels: nat = if total < cap {
        (cap - total) as nat
    } else {
        0
    };
    min_nat(by_height, by_pixels)
}

/// Sum of the absolute red, green and blue differences of two pixels.
pub open spec fn pixel_difference(p: Rgba, q: Rgba) -> nat {
    (abs_diff(p.r, q.r) + abs_diff(p.g, q.g) + abs_diff(p.b, q.b)) as nat
}

pub open spec fn abs_diff(a: u8, b: u8) -> int {
    if a >= b {
        a - b
    } else {
        b - a
    }
}

/// Number of positions `0, 12, 24, ..` below `len`.
pub open spec fn sample_points(len: nat) -> nat {
    (len + 11) / 12
}

/// Differences summed over the first `n` sampled columns of row `y`.
pub open spec fn row_sample_difference(a: ImageModel, b: ImageModel, y: int, n: nat) -> nat
    decreases n,
{
    if n == 0 {
        0
    } else {
        row_sample_difference(a, b, y, (n - 1) as nat) + pixel_difference(
            a.pixel(12 * (n - 1), y),
            b.pixel(12 * (n - 1), y),
        )
    }
}

/// Differences summed over the first `m` sampled rows.
pub open spec fn sample_difference(a: ImageModel, b: ImageModel, m: nat) -> nat
    decreases m,
{
    if m == 0 {
        0
    } else {
        sample_difference(a, b, (m - 1) as nat) + row_sample_difference(
            a,
            b,
            12 * (m - 1),
            sample_points(a.width),
        )
    }
}

/// 1.2 rounded to single precision, in units of 2^-28.
pub open spec fn unchanged_threshold() -> nat {
    322122560
}

/// The two frames of equal size differ, on the pixels of a 12-pixel grid,
/// by less than 1.2 per colour channel on average, the average being
/// computed in single precision: the total and the number of samples
/// (at least one) each rounded to single precision, their quotient
/// rounded again, and compared with 1.2 rounded to single precision.
/// (Below 2^-4 [`single_round`] truncates where single precision would
/// round, which cannot change the comparison with 1.2.)
pub open spec fn frames_look_unchanged(a: ImageModel, b: ImageModel) -> bool {
    let count = 3 * (sample_points(a.width) * sample_points(a.height));
    let total = single_round(sample_difference(a, b, sample_points(a.height)), 1);
    let divisor = single_round(
        if count == 0 {
            1
        } else {
            count
        },
        1,
    );
    single_round(total * one_unit(), divisor) < unchanged_threshold()
}

/// Rows of the previous output repeated at the top of a new piece that
/// adds `allowed` rows.
pub open spec fn seam_overlap(viewport_height: nat, allowed: nat, total: nat) -> nat {
    min_nat(min_nat((viewport_height - allowed) as nat, SEAM_OVERLAP_ROWS as nat), total)
}

impl StitchModel {
    /// The piece at index `i` is consistent with what precedes it.
    pub open spec fn segment_fits(self, i: int) -> bool {
        let s = self.segments[i];
        &&& s.image.wf()
        &&& s.image.width == self.width
        &&& s.overlap <= s.image.height
        &&& s.overlap <= SEAM_OVERLAP_ROWS
        &&& s.overlap <= body_sum(self.segments, i as nat)
    }

    pub open spec fn well_formed(self) -> bool {
        &&& self.width <= u32::MAX
        &&& self.viewport_height <= u32::MAX
        &&& self.total_height <= u32::MAX
        &&& self.last_frame.wf()
        &&& self.last_frame.width == self.width
        &&& self.last_frame.height == self.viewport_height
        &&& self.segments.len() >= 1
        &&& self.segments[0].overlap == 0
        &&& self.segments[0].image.height == self.viewport_height
        &&& forall|i: int| 0 <= i < self.segments.len() ==> #[trigger] self.segment_fits(i)
        &&& self.total_height == body_sum(self.segments, self.segments.len())
        &&& 4 * (self.width * self.total_height) <= usize::MAX
        &&& self.total_height <= max_nat(self.viewport_height, MAX_OUTPUT_HEIGHT as nat)
        &&& self.width * self.total_height <= max_nat(
            self.width * self.viewport_height,
            MAX_OUTPUT_PIXELS as nat,
        )
    }

    /// The stitcher after appending the bottom `allowed` rows of `frame`.
    pub open spec fn appended(self, frame: ImageModel, allowed: nat) -> StitchModel {
        let overlap = seam_overlap(self.viewport_height, allowed, self.total_height);
        let crop_y = self.viewport_height - allowed - overlap;
        StitchModel {
            width: self.width,
            viewport_height: self.viewport_height,
            total_height: self.total_height + allowed,
            last_frame: frame,
            segments: self.segments.push(
                SegmentModel {
                    image: frame.crop(0, crop_y, self.width, allowed + overlap),
                    overlap,
                },
            ),
        }
    }

    /// The stitcher and outcome after a frame of the same size as the last
    /// one, whose content changed, was matched with the given shift.
    pub open spec fn after_shift(self, frame: ImageModel, shift: Option<u32>) -> (
        StitchModel,
        StitchOutcome,
    ) {
        match shift {
            None => (self, StitchOutcome::NoReliableMatch),
            Some(s) => {
                let allowed = min_nat(s as nat, remaining_rows(self.width, self.total_height));
                if allowed == 0 {
                    (self, StitchOutcome::LimitReached)
                } else if allowed < s {
                    (self.appended(frame, allowed), StitchOutcome::LimitReached)
                } else {
                    (self.appended(frame, allowed), StitchOutcome::Added(s))
                }
            },
        }
    }
}

/// Rows that the scroll search keeps in common between two frames at
/// least: a quarter of the height, and no fewer than 96.
pub open spec fn minimum_scroll_overlap(height: nat) -> nat {
    max_nat(height / 4, 96)
}

/// Whether `shift` is a scroll that the search may report between two
/// frames of the given size: frames at least 32 wide and 120 high, and a
/// shift of at least 6 rows that keeps [`minimum_scroll_overlap`] rows in
/// common.
pub open spec fn plausible_shift(width: nat, height: nat, shift: nat) -> bool {
    &&& width >= 32
    &&& height >= 120
    &&& 6 <= shift
    &&& shift + minimum_scroll_overlap(height) <= height
}

pub open spec fn pow2(k: nat) -> nat
    decreases k,
{
    if k == 0 {
        1
    } else {
        2 * pow2((k - 1) as nat)
    }
}

/// Number of binary digits of `v`.
pub open spec fn bit_length(v: nat) -> nat
    decreases v,
{
    if v == 0 {
        0
    } else {
        1 + bit_length(v / 2)
    }
}

/// `a / b` rounded to the nearest integer, ties to the even one.
pub open spec fn round_half_even(a: nat, b: nat) -> nat {
    let q = a / b;
    let r = a % b;
    if 2 * r > b || (2 * r == b && q % 2 == 1) {
        q + 1
    } else {
        q
    }
}

/// The value `num / den`, counted in some unit, rounded to the nearest
/// single-precision number (24 significant bits, ties to even).  Exact for
/// whole numbers of units (`den == 1`), and for quotients of at least
/// 2^24 units.
pub open spec fn single_round(num: nat, den: nat) -> nat {
    let whole = num / den;
    if bit_length(whole) <= 24 {
        whole
    } else {
        let shift = (bit_length(whole) - 24) as nat;
        round_half_even(num, den * pow2(shift)) * pow2(shift)
    }
}

/// One, as 2^28 units of 2^-28 (the unit of the mean sample difference).
pub open spec fn one_unit() -> nat {
    pow2(28)
}

/// One, as 2^56 units of 2^-56 (the unit of the seam blend).
pub open spec fn seam_unit() -> nat {
    pow2(56)
}

/// The blend weight `(row + 1) / (overlap + 1)` of a seam row in single
/// precision, in units of 2^-56: both counts converted to single precision
/// and their quotient rounded.
pub open spec fn seam_alpha(row: nat, overlap: nat) -> nat {
    single_round(single_round(row + 1, 1) * seam_unit(), single_round(overlap + 1, 1))
}

/// `1 - a` in single precision, for the weight `a` of [`seam_alpha`].
pub open spec fn seam_rest(row: nat, overlap: nat) -> nat {
    let alpha = seam_alpha(row, overlap);
    single_round(
        if alpha <= seam_unit() {
            (seam_unit() - alpha) as nat
        } else {
            0
        },
        1,
    )
}

/// Channel value of row `row` of a seam of `overlap` rows, as the
/// single-precision evaluation of `base * (1 - a) + top * a` with
/// `a = (row + 1) / (overlap + 1)` gives it: each conversion and operation
/// rounded to the nearest single-precision number, the sum then rounded to
/// the nearest integer with halves away from zero, and capped at 255.
pub open spec fn seam_channel(base: u8, top: u8, row: nat, overlap: nat) -> int {
    let alpha = seam_alpha(row, overlap);
    let rest = seam_rest(row, overlap);
    let sum = single_round(
        single_round((base * rest) as nat, 1) + single_round((top * alpha) as nat, 1),
        1,
    );
    let rounded = (sum + pow2(55)) / seam_unit();
    if rounded > 255 {
        255
    } else {
        rounded as int
    }
}

pub open spec fn seam_pixel(base: Rgba, top: Rgba, row: nat, overlap: nat) -> Rgba {
    Rgba {
        r: seam_channel(base.r, top.r, row, overlap) as u8,
        g: seam_channel(base.g, top.g, row, overlap) as u8,
        b: seam_channel(base.b, top.b, row, overlap) as u8,
        a: 255,
    }
}

/// `out` with rows `target_y .. target_y + overlap` blended with the first
/// `overlap` rows of `seg`.
pub open spec fn blend_seam(out: ImageModel, seg: ImageModel, target_y: int, overlap: nat) -> ImageModel {
    ImageModel {
        width: out.width,
        height: out.height,
        rows: Seq::new(
            out.height,
            |y: int|
                if target_y <= y < target_y + overlap {
                    Seq::new(
                        out.width,
                        |x: int|
                            if x < seg.width {
                                seam_pixel(
                                    out.rows[y][x],
                                    seg.rows[y - target_y][x],
                                    (y - target_y) as nat,
                                    overlap,
                                )
                            } else {
                                out.rows[y][x]
                            },
                    )
                } else {
                    out.rows[y]
                },
        ),
    }
}

/// `out` with rows `to .. to + count` replaced by rows `from ..` of `seg`.
pub open spec fn paste_rows(out: ImageModel, seg: ImageModel, from: int, to: int, count: int) -> ImageModel {
    ImageModel {
        width: out.width,
        height: out.height,
        rows: Seq::new(
            out.height,
            |y: int|
                if to <= y < to + count {
                    seg.rows[from + (y - to)]
                } else {
                    out.rows[y]
                },
        ),
    }
}

/// The output after the first `n` pieces were laid down, each below the
/// previous ones, its overlap rows blended over their bottom.
pub open spec fn compose(segs: Seq<SegmentModel>, n: nat, width: nat, height: nat) -> ImageModel
    decreases n,
{
    if n == 0 {
        ImageModel::filled(width, height, Rgba { r: 0, g: 0, b: 0, a: 0 })
    } else {
        let prev = compose(segs, (n - 1) as nat, width, height);
        let y = body_sum(segs, (n - 1) as nat);
        let s = segs[n - 1];
        let ov = min_nat(min_nat(s.overlap, s.image.height), y as nat);
        let blended = if ov > 0 {
            blend_seam(prev, s.image, y - ov, ov)
        } else {
            prev
        };
        let body = s.image.height - ov;
        if body > 0 {
            paste_rows(blended, s.image, ov as int, y, body)
        } else {
            blended
        }
    }
}

pub proof fn lemma_body_sum_push(segs: Seq<SegmentModel>, s: SegmentModel, n: nat)
    requires
        n <= segs.len(),
    ensures
        body_sum(segs.push(s), n) == body_sum(segs, n),
    decreases n,
{
    if n > 0 {
        lemma_body_sum_push(segs, s, (n - 1) as nat);
    }
}

pub proof fn lemma_body_sum_monotone(m: StitchModel, i: nat, j: nat)
    requires
        m.well_formed(),
        i <= j <= m.segments.len(),
    ensures
        0 <= body_sum(m.segments, i) <= body_sum(m.segments, j),
    decreases j,
{
    if j > 0 {
        assert(m.segment_fits(j - 1));
        if i < j {
            lemma_body_sum_monotone(m, i, (j - 1) as nat);
        } else {
            lemma_body_sum_monotone(m, (j - 1) as nat, (j - 1) as nat);
        }
    }
}

struct StitchSegment {
    image: RgbaImage,
    overlap: u32,
}

spec fn segment_model(s: StitchSegment) -> SegmentModel {
    SegmentModel { image: s.image@, overlap: s.overlap as nat }
}

/// Builds a long screenshot from successive frames of one scrolling region.
pub struct ScrollStitcher {
    width: u32,
    viewport_height: u32,
    total_height: u32,
    last_frame: RgbaImage,
    segments: Vec<StitchSegment>,
}

impl View for ScrollStitcher {
    type V = StitchModel;

    closed spec fn view(&self) -> StitchModel {
        StitchModel {
            width: self.width as nat,
            viewport_height: self.viewport_height as nat,
            total_height: self.total_height as nat,
            last_frame: self.last_frame@,
            segments: self.segments@.map_values(|s: StitchSegment| segment_model(s)),
        }
    }
}

/// Sum of the red, green and blue differences of two pixels.
fn pixel_difference_exec(p: Rgba, q: Rgba) -> (d: u32)
    ensures
        d == pixel_difference(p, q),
        d <= 765,
{
    let dr: u32 = if p.r >= q.r {
        (p.r - q.r) as u32
    } else {
        (q.r - p.r) as u32
    };
    let dg: u32 = if p.g >= q.g {
        (p.g - q.g) as u32
    } else {
        (q.g - p.g) as u32
    };
    let db: u32 = if p.b >= q.b {
        (p.b - q.b) as u32
    } else {
        (q.b - p.b) as u32
    };
    dr + dg + db
}

/// Whether two frames of the same size differ, on the pixels of a 12-pixel
/// grid, by less than 1.2 per colour channel on average.
pub fn frames_unchanged(a: &RgbaImage, b: &RgbaImage) -> (r: bool)
    requires
        a@.width == b@.width,
        a@.height == b@.height,
    ensures
        r == frames_look_unchanged(a@, b@),
{
    let (width, height) = a.dimensions();
    let ghost nx = sample_points(a@.width);
    let ghost ny = sample_points(a@.height);
    proof {
        lemma_image_wf(a);
        lemma_image_wf(b);
    }
    let mut total: u128 = 0;
    let mut seen: u128 = 0;
    let mut y: u64 = 0;
    let mut k: u64 = 0;
    while y < height as u64
        invariant
            y == 12 * k,
            k <= ny,
            k < ny <==> y < height,
            a@.width == width,
            a@.height == height,
            b@.width == width,
            b@.height == height,
            a@.wf(),
            b@.wf(),
            nx == sample_points(width as nat),
            ny == sample_points(height as nat),
            total == sample_difference(a@, b@, k as nat),
            seen == k * nx,
            seen <= k * 4294967296,
            total <= 765 * seen,
        decreases ny - k,
    {
        let mut x: u64 = 0;
        let mut i: u64 = 0;
        let ghost row_start = total;
        let ghost seen_start = seen;
        while x < width as u64
            invariant
                x == 12 * i,
                i <= nx,
                i < nx <==> x < width,
                y < height,
                y == 12 * k,
                k < ny,
                a@.width == width,
                a@.height == height,
                b@.width == width,
                b@.height == height,
                a@.wf(),
                b@.wf(),
                nx == sample_points(width as nat),
                ny == sample_points(height as nat),
                row_start == sample_difference(a@, b@, k as nat),
                total == row_start + row_sample_difference(a@, b@, y as int, i as nat),
                seen == seen_start + i,
                seen_start == k * nx,
                seen_start <= k * 4294967296,
                total <= 765 * seen,
            decreases nx - i,
        {
            let d = pixel_difference_exec(a.get_pixel(x as u32, y as u32), b.get_pixel(x as u32, y as u32));
            total = total + d as u128;
            seen = seen + 1;
            x = x + 12;
            i = i + 1;
        }
        proof {
            assert(nx <= 4294967296);
            assert((k + 1) * nx == k * nx + nx) by (nonlinear_arith);
        }
        y = y + 12;
        k = k + 1;
    }
    let count: u128 = 3 * seen;
    let divisor: u128 = if count == 0 {
        1
    } else {
        count
    };
    proof {
        assert(k == ny);
        assert(seen == ny * nx) by (nonlinear_arith)
            requires
                seen == k * nx,
                k == ny,
        ;
        lemma_pow2_values();
        assert(ny <= 357913942);
        assert(seen <= 357913942 * 4294967296) by (nonlinear_arith)
            requires
                seen <= k * 4294967296,
                k <= 357913942,
        ;
        assert(total / 1 == total && divisor / 1 == divisor);
    }
    let total_single = single_round_wide(total, 1);
    let divisor_single = single_round_wide(divisor, 1);
    proof {
        assert(total_single * 268435456 < pow2(100));
    }
    let mean = single_round_wide(total_single * 268435456, divisor_single);
    mean < 322122560
}

/// The powers of two that the single-precision models use.
proof fn lemma_pow2_values()
    ensures
        pow2(23) == 8388608,
        pow2(28) == 268435456,
        pow2(100) == 1267650600228229401496703205376,
        pow2(55) == 36028797018963968,
        pow2(56) == 72057594037927936,
        seam_unit() == 72057594037927936,
{
    assert(pow2(27) == 134217728) by {
        reveal_with_fuel(pow2, 28);
    }
    assert(pow2(20) == 1048576) by {
        reveal_with_fuel(pow2, 21);
    }
    assert(pow2(23) == 8388608) by {
        reveal_with_fuel(pow2, 24);
    }
    assert(pow2(28) == 268435456) by {
        reveal_with_fuel(pow2, 29);
    }
    assert(pow2(40) == 1099511627776) by {
        reveal_with_fuel(pow2, 41);
    }
    lemma_pow2_add(40, 40);
    lemma_pow2_add(80, 20);
    lemma_pow2_add(28, 28);
    lemma_pow2_add(28, 27);
    assert(pow2(55) == 268435456 * 134217728);
    assert(pow2(56) == 268435456 * 268435456);
    assert(pow2(100) == 1099511627776 * 1099511627776 * 1048576);
}

/// `pow2(a + b)` is `pow2(a) * pow2(b)`.
proof fn lemma_pow2_add(a: nat, b: nat)
    ensures
        pow2(a + b) == pow2(a) * pow2(b),
    decreases b,
{
    if b > 0 {
        lemma_pow2_add(a, (b - 1) as nat);
        let x = pow2(a);
        let y = pow2((b - 1) as nat);
        assert(a + (b - 1) as nat == (a + b - 1) as nat);
        assert(pow2((a + b - 1) as nat) == x * y);
        assert(pow2(a + b) == 2 * pow2((a + b - 1) as nat));
        assert(pow2(b) == 2 * y);
        assert(2 * (x * y) == x * (2 * y)) by (nonlinear_arith);
    } else {
        assert(pow2(0) == 1);
        assert(a + b == a);
        assert(pow2(a) * 1 == pow2(a));
    }
}

/// A positive number has its highest bit at `bit_length - 1`.
proof fn lemma_bit_length_low(w: nat)
    requires
        w >= 1,
    ensures
        bit_length(w) >= 1,
        pow2((bit_length(w) - 1) as nat) <= w < pow2(bit_length(w)),
    decreases w,
{
    if w == 1 {
        assert(bit_length(0) == 0);
        assert(bit_length(1) == 1);
        assert(pow2(1) == 2) by {
            reveal_with_fuel(pow2, 2);
        }
    } else {
        lemma_bit_length_low(w / 2);
        let b = bit_length(w / 2);
        assert(bit_length(w) == b + 1);
        assert(pow2(b) == 2 * pow2((b - 1) as nat));
        assert(pow2((b + 1) as nat) == 2 * pow2(b));
    }
}

/// [`single_round`] for quotients of wide integers.
fn single_round_wide(num: u128, den: u128) -> (r: u128)
    requires
        1 <= den,
        num < pow2(100),
    ensures
        r == single_round(num as nat, den as nat),
        r <= 2 * (num / den),
        num >= den ==> r >= 1,
{
    proof {
        lemma_pow2_values();
    }
    let whole: u128 = num / den;
    proof {
        assert(whole <= num) by (nonlinear_arith)
            requires
                whole == num / den,
                den >= 1,
        ;
        lemma_bit_length_bound(whole as nat, 100);
    }
    let mut v: u128 = whole;
    let mut bits: u32 = 0;
    while v > 0
        invariant
            bit_length(whole as nat) == bits + bit_length(v as nat),
            bit_length(whole as nat) <= 100,
        decreases v,
    {
        v = v / 2;
        bits = bits + 1;
    }
    if bits <= 24 {
        proof {
            if num >= den {
                assert(whole >= 1) by (nonlinear_arith)
                    requires
                        whole == num / den,
                        num >= den,
                        den >= 1,
                ;
            }
        }
        return whole;
    }
    let shift: u32 = bits - 24;
    let mut p: u128 = 1;
    let mut i: u32 = 0;
    while i < shift
        invariant
            i <= shift <= 76,
            p == pow2(i as nat),
            pow2(100) == 1267650600228229401496703205376,
        decreases shift - i,
    {
        proof {
            lemma_pow2_monotone((i + 1) as nat, 100);
        }
        p = p * 2;
        i = i + 1;
    }
    proof {
        lemma_bit_length_low(whole as nat);
        lemma_pow2_add(shift as nat, 23);
        assert((shift + 23) as nat == (bits - 1) as nat);
        assert(p * 8388608 <= whole);
        vstd::arithmetic::div_mod::lemma_fundamental_div_mod(num as int, den as int);
        vstd::arithmetic::div_mod::lemma_mod_bound(num as int, den as int);
        assert(den * p * 8388608 <= num) by (nonlinear_arith)
            requires
                p * 8388608 <= whole,
                num == den * whole + num % den,
                num % den >= 0,
                den >= 1,
        ;
        assert(den * p < pow2(100)) by (nonlinear_arith)
            requires
                den * p * 8388608 <= num,
                num < pow2(100),
        ;
    }
    proof {
        assert(den * p >= 1) by (nonlinear_arith)
            requires
                den >= 1,
                p >= 1,
        ;
    }
    let d: u128 = den * p;
    let q: u128 = num / d;
    let rem: u128 = num % d;
    proof {
        vstd::arithmetic::div_mod::lemma_div_denominator(num as int, den as int, p as int);
        assert(q == whole / p);
        vstd::arithmetic::div_mod::lemma_fundamental_div_mod(whole as int, p as int);
        vstd::arithmetic::div_mod::lemma_mod_bound(whole as int, p as int);
        vstd::arithmetic::div_mod::lemma_mod_bound(num as int, d as int);
        assert(q * p <= whole && q >= 8388608) by (nonlinear_arith)
            requires
                whole == p * q + whole % p,
                0 <= whole % p < p,
                p * 8388608 <= whole,
                p >= 1,
        ;
        assert(2 * rem < 2 * d);
    }
    let rounded: u128 = if 2 * rem > d || (2 * rem == d && q % 2 == 1) {
        q + 1
    } else {
        q
    };
    proof {
        assert(rounded * p <= 2 * whole && rounded * p >= 1) by (nonlinear_arith)
            requires
                rounded == q || rounded == q + 1,
                q * p <= whole,
                q >= 8388608,
                p >= 1,
                p * 8388608 <= whole,
        ;
        assert(rounded == round_half_even(num as nat, d as nat));
    }
    rounded * p
}

pub proof fn lemma_pow2_monotone(i: nat, j: nat)
    requires
        i <= j,
    ensures
        1 <= pow2(i) <= pow2(j),
    decreases j,
{
    if j > 0 {
        if i < j {
            lemma_pow2_monotone(i, (j - 1) as nat);
        } else {
            lemma_pow2_monotone((j - 1) as nat, (j - 1) as nat);
        }
    }
}

pub proof fn lemma_bit_length_bound(v: nat, k: nat)
    requires
        v < pow2(k),
    ensures
        bit_length(v) <= k,
    decreases k,
{
    if v > 0 && k > 0 {
        lemma_bit_length_bound(v / 2, (k - 1) as nat);
    }
}

/// Single-precision rounding of a quotient is within a relative 2^-23 of
/// the whole part of the quotient.
proof fn lemma_single_round_rel(num: nat, den: nat)
    requires
        den >= 1,
    ensures
        single_round(num, den) * 8388608 <= (num / den) * 8388609,
        (num / den) * 8388607 <= single_round(num, den) * 8388608,
{
    lemma_pow2_values();
    let whole = num / den;
    if bit_length(whole) > 24 {
        let s = (bit_length(whole) - 24) as nat;
        lemma_bit_length_low(whole);
        lemma_pow2_add(s, 23);
        assert((s + 23) as nat == (bit_length(whole) - 1) as nat);
        let d = pow2(s);
        lemma_pow2_monotone(0, s);
        assert(d * 8388608 <= whole);
        vstd::arithmetic::div_mod::lemma_div_denominator(num as int, den as int, d as int);
        let q = num / (den * d);
        assert(q == whole / d);
        let r = whole % d;
        vstd::arithmetic::div_mod::lemma_fundamental_div_mod(whole as int, d as int);
        vstd::arithmetic::div_mod::lemma_mod_bound(whole as int, d as int);
        let v = round_half_even(num, den * d);
        assert(v == q || v == q + 1);
        assert(v * d * 8388608 <= whole * 8388609 && whole * 8388607 <= v * d * 8388608)
            by (nonlinear_arith)
            requires
                whole == d * q + r,
                0 <= r < d,
                v == q || v == q + 1,
                d * 8388608 <= whole,
                d >= 1,
        ;
        assert(single_round(num, den) == v * d);
    }
}

/// The blend weight of a seam row is at most one by a relative 2^-20.
proof fn lemma_seam_alpha_bound(row: nat, overlap: nat)
    requires
        row < overlap,
    ensures
        single_round(overlap + 1, 1) >= 1,
        seam_alpha(row, overlap) * 1048576 <= 72057594037927936 * 1048577,
{
    lemma_pow2_values();
    let u: nat = 72057594037927936;
    let a = row + 1;
    let b = overlap + 1;
    assert(a / 1 == a && b / 1 == b);
    lemma_single_round_rel(a, 1);
    lemma_single_round_rel(b, 1);
    let ra = single_round(a, 1);
    let ob = single_round(b, 1);
    assert(ob >= 1);
    let wa = (ra * u) / ob;
    vstd::arithmetic::div_mod::lemma_fundamental_div_mod((ra * u) as int, ob as int);
    vstd::arithmetic::div_mod::lemma_mod_bound((ra * u) as int, ob as int);
    assert(wa * ob <= ra * u) by (nonlinear_arith)
        requires
            ra * u == ob * wa + (ra * u) % ob,
            (ra * u) % ob >= 0,
    ;
    assert(wa * 8388607 <= u * 8388609) by (nonlinear_arith)
        requires
            wa * ob <= ra * u,
            ra * 8388608 <= a * 8388609,
            b * 8388607 <= ob * 8388608,
            a <= b,
            b >= 1,
            u >= 0,
    ;
    lemma_single_round_rel(ra * u, ob);
    let alpha = seam_alpha(row, overlap);
    assert(alpha * 8388608 <= wa * 8388609);
    assert(alpha * 1048576 <= u * 1048577) by (nonlinear_arith)
        requires
            alpha * 8388608 <= wa * 8388609,
            wa * 8388607 <= u * 8388609,
            u == 72057594037927936,
    ;
}

/// `1 - a` and `a` of a seam row add up to one within a relative 2^-20.
proof fn lemma_seam_weights_sum(row: nat, overlap: nat)
    requires
        row < overlap,
    ensures
        ({
            let s = seam_rest(row, overlap) + seam_alpha(row, overlap);
            &&& s * 1048576 <= 72057594037927936 * 1048577
            &&& 72057594037927936 * 8388607 <= s * 8388608
        }),
{
    lemma_pow2_values();
    lemma_seam_alpha_bound(row, overlap);
    let u: nat = 72057594037927936;
    let alpha = seam_alpha(row, overlap);
    let rest = seam_rest(row, overlap);
    if alpha <= u {
        let rn = (u - alpha) as nat;
        assert(rn / 1 == rn);
        lemma_single_round_rel(rn, 1);
        assert((rest + alpha) * 8388608 <= u * 8388609);
    } else {
        assert(bit_length(0) == 0);
        assert(0nat / 1 == 0);
        assert(rest == 0);
    }
}

/// A blended seam channel lies between the two channels it blends.
pub proof fn lemma_seam_channel_between(base: u8, top: u8, row: nat, overlap: nat)
    requires
        row < overlap,
    ensures
        base <= top ==> base <= seam_channel(base, top, row, overlap) <= top,
        top <= base ==> top <= seam_channel(base, top, row, overlap) <= base,
{
    lemma_pow2_values();
    lemma_seam_weights_sum(row, overlap);
    let u: nat = 72057594037927936;
    let alpha = seam_alpha(row, overlap);
    let rest = seam_rest(row, overlap);
    let w = rest + alpha;
    let lo: int = if base <= top { base as int } else { top as int };
    let hi: int = if base <= top { top as int } else { base as int };
    let e1 = (base * rest) as nat;
    let e2 = (top * alpha) as nat;
    assert(e1 / 1 == e1 && e2 / 1 == e2);
    lemma_single_round_rel(e1, 1);
    lemma_single_round_rel(e2, 1);
    let p1 = single_round(e1, 1);
    let p2 = single_round(e2, 1);
    assert((p1 + p2) / 1 == p1 + p2);
    lemma_single_round_rel(p1 + p2, 1);
    let sum = single_round(p1 + p2, 1);
    assert(lo * w <= e1 + e2 <= hi * w) by (nonlinear_arith)
        requires
            lo <= base <= hi,
            lo <= top <= hi,
            e1 == base * rest,
            e2 == top * alpha,
            w == rest + alpha,
            rest >= 0,
            alpha >= 0,
    ;
    assert(hi * w * 1048576 <= hi * u * 1048577) by (nonlinear_arith)
        requires
            w * 1048576 <= u * 1048577,
            hi >= 0,
    ;
    assert(lo * u * 8388607 <= lo * w * 8388608) by (nonlinear_arith)
        requires
            u * 8388607 <= w * 8388608,
            lo >= 0,
    ;
    let rounded = (sum + 36028797018963968) / u;
    assert(lo <= rounded <= hi) by (nonlinear_arith)
        requires
            sum * 8388608 <= (p1 + p2) * 8388609,
            (p1 + p2) * 8388607 <= sum * 8388608,
            p1 * 8388608 <= e1 * 8388609,
            e1 * 8388607 <= p1 * 8388608,
            p2 * 8388608 <= e2 * 8388609,
            e2 * 8388607 <= p2 * 8388608,
            lo * w <= e1 + e2 <= hi * w,
            hi * w * 1048576 <= hi * u * 1048577,
            lo * u * 8388607 <= lo * w * 8388608,
            0 <= lo <= hi <= 255,
            u == 72057594037927936,
            rounded == (sum + 36028797018963968) / u,
            e1 >= 0,
            e2 >= 0,
    ;
}

/// One channel of a blended seam row; see [`seam_channel`].  The seam
/// count must leave room for `overlap + 1`.
pub fn blend_seam_channel(base: u8, top: u8, row: u32, overlap: u32) -> (c: u8)
    requires
        row < overlap < u32::MAX,
    ensures
        c == seam_channel(base, top, row as nat, overlap as nat),
{
    proof {
        lemma_pow2_values();
        lemma_seam_alpha_bound(row as nat, overlap as nat);
        assert((row + 1) as nat / 1 == (row + 1) as nat);
        assert((overlap + 1) as nat / 1 == (overlap + 1) as nat);
    }
    let unit: u128 = 72057594037927936;
    let ra = single_round_wide(row as u128 + 1, 1);
    let ob = single_round_wide(overlap as u128 + 1, 1);
    proof {
        assert(ra * unit < pow2(100)) by (nonlinear_arith)
            requires
                ra <= 2 * (row + 1),
                row < 4294967296,
                unit == 72057594037927936,
                pow2(100) == 1267650600228229401496703205376,
        ;
    }
    let alpha = single_round_wide(ra * unit, ob);
    let rest_num: u128 = if alpha <= unit {
        unit - alpha
    } else {
        0
    };
    let rest = single_round_wide(rest_num, 1);
    proof {
        assert(rest_num / 1 == rest_num);
        assert(alpha <= 2 * unit);
        assert(base as u128 * rest <= 255 * (2 * unit)) by (nonlinear_arith)
            requires
                base <= 255,
                rest <= 2 * unit,
        ;
        assert(top as u128 * alpha <= 255 * (2 * unit)) by (nonlinear_arith)
            requires
                top <= 255,
                alpha <= 2 * unit,
        ;
    }
    let p1 = single_round_wide(base as u128 * rest, 1);
    let p2 = single_round_wide(top as u128 * alpha, 1);
    proof {
        assert((base as u128 * rest) / 1 == base as u128 * rest);
        assert((top as u128 * alpha) / 1 == top as u128 * alpha);
    }
    let sum = single_round_wide(p1 + p2, 1);
    proof {
        assert((p1 + p2) / 1 == p1 + p2);
    }
    let rounded: u128 = (sum + 36028797018963968) / unit;
    if rounded > 255 {
        255
    } else {
        rounded as u8
    }
}

/// Blends the first `overlap` rows of `segment` into the rows of `output`
/// from `target_y` on (nothing when `overlap` is 0).
fn blend_overlap(output: &mut RgbaImage, segment: &RgbaImage, target_y: u32, overlap: u32)
    requires
        overlap < u32::MAX,
        target_y + overlap <= old(output)@.height,
        overlap <= segment@.height,
        segment@.width <= old(output)@.width,
    ensures
        final(output)@ == blend_seam(old(output)@, segment@, target_y as int, overlap as nat),
{
    let ghost start = output@;
    let ghost target = blend_seam(start, segment@, target_y as int, overlap as nat);
    proof {
        lemma_image_wf(output);
        lemma_image_wf(segment);
    }
    if overlap == 0 {
        proof {
            assert(output@ =~~= target);
        }
        return;
    }
    let width = segment.width();
    let mut y: u32 = 0;
    while y < overlap
        invariant
            y <= overlap < u32::MAX,
            target_y + overlap <= start.height,
            start.height <= u32::MAX,
            overlap <= segment@.height,
            segment@.width == width,
            width <= start.width,
            start.wf(),
            segment@.wf(),
            output@.width == start.width,
            output@.height == start.height,
            output@.wf(),
            target == blend_seam(start, segment@, target_y as int, overlap as nat),
            forall|r: int|
                0 <= r < start.height && !(target_y <= r < target_y + y) ==> #[trigger] output@.rows[r]
                    == start.rows[r],
            forall|r: int| target_y <= r < target_y + y ==> #[trigger] output@.rows[r] =~= target.rows[r],
        decreases overlap - y,
    {
        let mut x: u32 = 0;
        while x < width
            invariant
                x <= width,
                y < overlap < u32::MAX,
                target_y + overlap <= start.height,
                start.height <= u32::MAX,
            start.height <= u32::MAX,
                overlap <= segment@.height,
                segment@.width == width,
                width <= start.width,
                start.wf(),
                segment@.wf(),
                output@.width == start.width,
                output@.height == start.height,
                output@.wf(),
                target == blend_seam(start, segment@, target_y as int, overlap as nat),
                forall|r: int|
                    0 <= r < start.height && !(target_y <= r <= target_y + y) ==> #[trigger] output@.rows[r]
                        == start.rows[r],
                forall|r: int| target_y <= r < target_y + y ==> #[trigger] output@.rows[r] =~= target.rows[r],
                forall|c: int| 0 <= c < x ==> #[trigger] output@.rows[target_y + y][c] == target.rows[target_y + y][c],
                forall|c: int| x <= c < start.width ==> #[trigger] output@.rows[target_y + y][c] == start.rows[target_y + y][c],
            decreases width - x,
        {
            let base = output.get_pixel(x, target_y + y);
            let top = segment.get_pixel(x, y);
            let p = Rgba {
                r: blend_seam_channel(base.r, top.r, y, overlap),
                g: blend_seam_channel(base.g, top.g, y, overlap),
                b: blend_seam_channel(base.b, top.b, y, overlap),
                a: 255,
            };
            output.put_pixel(x, target_y + y, p);
            x = x + 1;
        }
        proof {
            assert(output@.rows[target_y + y] =~= target.rows[target_y + y]);
        }
        y = y + 1;
    }
    proof {
        assert forall|r: int| 0 <= r < start.height implies #[trigger] output@.rows[r] =~= target.rows[r] by {
        }
        assert(output@ =~~= target);
    }
}

fn paste_body(output: &mut RgbaImage, segment: &RgbaImage, from: u32, to: u32, count: u32)
    requires
        from + count <= segment@.height,
        to + count <= old(output)@.height,
        segment@.width == old(output)@.width,
    ensures
        final(output)@ == paste_rows(old(output)@, segment@, from as int, to as int, count as int),
{
    let ghost start = output@;
    let ghost target = paste_rows(start, segment@, from as int, to as int, count as int);
    proof {
        lemma_image_wf(output);
        lemma_image_wf(segment);
    }
    let width = segment.width();
    let mut k: u32 = 0;
    while k < count
        invariant
            k <= count,
            from + count <= segment@.height,
            to + count <= start.height,
            start.height <= u32::MAX,
            segment@.height <= u32::MAX,
            segment@.width == width,
            start.width == width,
            start.wf(),
            segment@.wf(),
            output@.width == start.width,
            output@.height == start.height,
            output@.wf(),
            target == paste_rows(start, segment@, from as int, to as int, count as int),
            forall|r: int|
                0 <= r < start.height && !(to <= r < to + k) ==> #[trigger] output@.rows[r]
                    == start.rows[r],
            forall|r: int| to <= r < to + k ==> #[trigger] output@.rows[r] =~= target.rows[r],
        decreases count - k,
    {
        let mut x: u32 = 0;
        while x < width
            invariant
                x <= width,
                k < count,
                from + count <= segment@.height,
                to + count <= start.height,
                start.height <= u32::MAX,
                segment@.height <= u32::MAX,
            start.height <= u32::MAX,
            segment@.height <= u32::MAX,
                segment@.width == width,
                start.width == width,
                start.wf(),
                segment@.wf(),
                output@.width == start.width,
                output@.height == start.height,
                output@.wf(),
                target == paste_rows(start, segment@, from as int, to as int, count as int),
                forall|r: int|
                    0 <= r < start.height && !(to <= r <= to + k) ==> #[trigger] output@.rows[r]
                        == start.rows[r],
                forall|r: int| to <= r < to + k ==> #[trigger] output@.rows[r] =~= target.rows[r],
                forall|c: int| 0 <= c < x ==> #[trigger] output@.rows[to + k][c] == target.rows[to + k][c],
                forall|c: int| x <= c < width ==> #[trigger] output@.rows[to + k][c] == start.rows[to + k][c],
            decreases width - x,
        {
            let p = segment.get_pixel(x, from + k);
            output.put_pixel(x, to + k, p);
            x = x + 1;
        }
        proof {
            assert(output@.rows[to + k] =~= target.rows[to + k]);
        }
        k = k + 1;
    }
    proof {
        assert forall|r: int| 0 <= r < start.height implies #[trigger] output@.rows[r] =~= target.rows[r] by {
        }
        assert(output@ =~~= target);
    }
}

impl ScrollStitcher {
    /// The frame that the next pushed frame is matched against.
    pub closed spec fn last_frame_value(&self) -> RgbaImage {
        self.last_frame
    }

    /// The frame that the next pushed frame is matched against is the last
    /// frame of the model.
    pub broadcast proof fn lemma_last_frame_value(&self)
        ensures
            #[trigger] self.last_frame_value()@ == self@.last_frame,
    {
    }

    /// Starts a long screenshot with its first frame.
    pub fn new(first_frame: RgbaImage) -> (st: ScrollStitcher)
        ensures
            st@.well_formed(),
            st@.width == first_frame@.width,
            st@.viewport_height == first_frame@.height,
            st@.total_height == first_frame@.height,
            st@.last_frame == first_frame@,
            st@.segments == seq![SegmentModel { image: first_frame@, overlap: 0 }],
    {
        let (width, viewport_height) = first_frame.dimensions();
        proof {
            lemma_image_wf(&first_frame);
        }
        let last_frame = first_frame.duplicate();
        let mut segments: Vec<StitchSegment> = Vec::new();
        segments.push(StitchSegment { image: first_frame, overlap: 0 });
        let st = ScrollStitcher {
            width,
            viewport_height,
            total_height: viewport_height,
            last_frame,
            segments,
        };
        proof {
            let m = st@;
            assert(m.segments =~= seq![SegmentModel { image: first_frame@, overlap: 0 }]);
            assert(body_sum(m.segments, 0) == 0);
            assert(body_sum(m.segments, 1) == viewport_height);
            assert(m.segment_fits(0));
            assert(m.width * m.total_height <= max_nat(m.width * m.viewport_height, MAX_OUTPUT_PIXELS as nat));
        }
        st
    }

    /// Height of the image that [`ScrollStitcher::finish`] would return.
    pub fn total_height(&self) -> (h: u32)
        ensures
            h == self@.total_height,
    {
        self.total_height
    }

    /// Offers the next frame.  A frame of another size, or whose content
    /// did not change, is not matched; otherwise `find_shift` estimates
    /// how many rows the view moved down between the last frame and this
    /// one, and as many of the new bottom rows as the size limits allow
    /// are appended.
    pub fn try_push<F: Fn(&RgbaImage, &RgbaImage) -> Option<u32>>(
        &mut self,
        frame: RgbaImage,
        find_shift: F,
    ) -> (outcome: StitchOutcome)
        requires
            old(self)@.well_formed(),
            forall|a: RgbaImage, b: RgbaImage| #[trigger] find_shift.requires((&a, &b)),
            forall|a: RgbaImage, b: RgbaImage, s: Option<u32>|
                #[trigger] find_shift.ensures((&a, &b), s) ==> (s matches Some(v) ==> plausible_shift(
                    a@.width,
                    a@.height,
                    v as nat,
                )),
        ensures
            final(self)@.well_formed(),
            ({
                let m = old(self)@;
                if frame@.width != m.last_frame.width || frame@.height != m.last_frame.height {
                    final(self)@ == m && outcome == StitchOutcome::NoReliableMatch
                } else if frames_look_unchanged(m.last_frame, frame@) {
                    final(self)@ == m && outcome == StitchOutcome::Unchanged
                } else {
                    exists|s: Option<u32>|
                        #[trigger] find_shift.ensures((&old(self).last_frame_value(), &frame), s)
                            && (final(self)@, outcome) == m.after_shift(frame@, s)
                }
            }),
    {
        let ghost m = self@;
        proof {
            lemma_image_wf(&frame);
        }
        let (fw, fh) = frame.dimensions();
        let (lw, lh) = self.last_frame.dimensions();
        if fw != lw || fh != lh {
            return StitchOutcome::NoReliableMatch;
        }
        if frames_unchanged(&self.last_frame, &frame) {
            return StitchOutcome::Unchanged;
        }
        let found = find_shift(&self.last_frame, &frame);
        let shift = match found {
            Some(s) => s,
            None => {
                return StitchOutcome::NoReliableMatch;
            },
        };
        let remaining_by_height: u32 = if self.total_height < MAX_OUTPUT_HEIGHT {
            MAX_OUTPUT_HEIGHT - self.total_height
        } else {
            0
        };
        let remaining_by_pixels: u32 = if self.width == 0 {
            0
        } else {
            let cap: u64 = MAX_OUTPUT_PIXELS / (self.width as u64);
            if (self.total_height as u64) < cap {
                (cap - self.total_height as u64) as u32
            } else {
                0
            }
        };
        let mut allowed: u32 = shift;
        if remaining_by_height < allowed {
            allowed = remaining_by_height;
        }
        if remaining_by_pixels < allowed {
            allowed = remaining_by_pixels;
        }
        assert(allowed == min_nat(shift as nat, remaining_rows(m.width, m.total_height)));
        if allowed == 0 {
            return StitchOutcome::LimitReached;
        }
        let start_y: u32 = self.viewport_height - allowed;
        let mut overlap: u32 = start_y;
        if SEAM_OVERLAP_ROWS < overlap {
            overlap = SEAM_OVERLAP_ROWS;
        }
        if self.total_height < overlap {
            overlap = self.total_height;
        }
        let crop_y: u32 = start_y - overlap;
        let tail = frame.crop(0, crop_y, self.width, allowed + overlap);
        proof {
            lemma_image_wf(&tail);
        }
        self.segments.push(StitchSegment { image: tail, overlap });
        self.total_height = self.total_height + allowed;
        self.last_frame = frame;
        proof {
            let n = m.segments.len();
            let new_seg = SegmentModel { image: tail@, overlap: overlap as nat };
            let e = m.appended(frame@, allowed as nat);
            assert(self@.segments =~= m.segments.push(new_seg));
            assert(e.segments =~= m.segments.push(new_seg));
            assert(self@ == e);
            lemma_body_sum_push(m.segments, new_seg, n);
            assert forall|i: int| 0 <= i < e.segments.len() implies #[trigger] e.segment_fits(i) by {
                if i < n {
                    assert(m.segment_fits(i));
                    lemma_body_sum_push(m.segments, new_seg, i as nat);
                }
            }
            assert(e.total_height == body_sum(e.segments, e.segments.len()));
            let w = m.width;
            let cap: nat = (MAX_OUTPUT_PIXELS as nat) / w;
            assert(w * cap <= MAX_OUTPUT_PIXELS) by (nonlinear_arith)
                requires
                    w > 0,
                    cap == (MAX_OUTPUT_PIXELS as nat) / w,
            ;
            assert(w * e.total_height <= w * cap) by (nonlinear_arith)
                requires
                    e.total_height <= cap,
            ;
        }
        if allowed < shift {
            StitchOutcome::LimitReached
        } else {
            StitchOutcome::Added(shift)
        }
    }

    /// Lays the pieces down one below the other, blending each seam, and
    /// returns the long screenshot.
    pub fn finish(self) -> (out: RgbaImage)
        requires
            self@.well_formed(),
        ensures
            out@.width == self@.width,
            out@.height == self@.total_height,
            out@ == compose(self@.segments, self@.segments.len(), self@.width, self@.total_height),
    {
        let ghost m = self@;
        let mut output = RgbaImage::new(self.width, self.total_height);
        proof {
            lemma_image_wf(&output);
        }
        let n = self.segments.len();
        let mut y: u32 = 0;
        let mut i: usize = 0;
        while i < n
            invariant
                m == self@,
                m.well_formed(),
                n == m.segments.len(),
                i <= n,
                y == body_sum(m.segments, i as nat),
                output@.width == m.width,
                output@.height == m.total_height,
                output@.wf(),
                output@ == compose(m.segments, i as nat, m.width, m.total_height),
            decreases n - i,
        {
            let segment = &self.segments[i];
            proof {
                assert(m.segment_fits(i as int));
                assert(m.segments[i as int] == segment_model(*segment));
                lemma_body_sum_monotone(m, (i + 1) as nat, n as nat);
                lemma_image_wf(&segment.image);
            }
            let seg_height = segment.image.height();
            let mut overlap: u32 = segment.overlap;
            if seg_height < overlap {
                overlap = seg_height;
            }
            if y < overlap {
                overlap = y;
            }
            if overlap > 0 {
                blend_overlap(&mut output, &segment.image, y - overlap, overlap);
            }
            let body_height: u32 = seg_height - overlap;
            if body_height > 0 {
                paste_body(&mut output, &segment.image, overlap, y, body_height);
            }
            y = y + body_height;
            i = i + 1;
        }
        output
    }
}

/// A long screenshot never grows past the documented limits: at most
/// 40 000 rows and 80 000 000 pixels, unless its first frame alone is
/// larger; and the image that finishing it gives is exactly as tall as the
/// rows it has gathered.
pub proof fn lemma_stitch_within_limits(m: StitchModel)
    requires
        m.well_formed(),
    ensures
        m.total_height <= max_nat(m.viewport_height, MAX_OUTPUT_HEIGHT as nat),
        m.width * m.total_height <= max_nat(m.width * m.viewport_height, MAX_OUTPUT_PIXELS as nat),
        compose(m.segments, m.segments.len(), m.width, m.total_height).height == m.total_height,
        compose(m.segments, m.segments.len(), m.width, m.total_height).width == m.width,
{
    lemma_compose_size(m.segments, m.segments.len(), m.width, m.total_height);
}

/// Single-precision rounding keeps a positive whole number positive.
proof fn lemma_single_round_positive(c: nat)
    requires
        c >= 1,
    ensures
        single_round(c, 1) >= 1,
{
    lemma_pow2_values();
    assert(c / 1 == c);
    if bit_length(c) > 24 {
        let s = (bit_length(c) - 24) as nat;
        lemma_bit_length_low(c);
        lemma_pow2_add(s, 23);
        assert((s + 23) as nat == (bit_length(c) - 1) as nat);
        let p = pow2(s);
        lemma_pow2_monotone(0, s);
        assert(1 * p == p);
        let q = c / p;
        assert(q >= 1) by (nonlinear_arith)
            requires
                p * 8388608 <= c,
                p >= 1,
                q == c / p,
        ;
        let v = round_half_even(c, 1 * p);
        assert(v >= q);
        assert(v * p >= 1) by (nonlinear_arith)
            requires
                v >= q,
                q >= 1,
                p >= 1,
        ;
    }
}

proof fn lemma_row_samples_match(a: ImageModel, b: ImageModel, y: int, n: nat)
    requires
        forall|i: int| 0 <= i < n ==> #[trigger] pixel_difference(a.pixel(12 * i, y), b.pixel(12 * i, y)) == 0,
    ensures
        row_sample_difference(a, b, y, n) == 0,
    decreases n,
{
    if n > 0 {
        lemma_row_samples_match(a, b, y, (n - 1) as nat);
        assert(pixel_difference(a.pixel(12 * (n - 1), y), b.pixel(12 * (n - 1), y)) == 0);
    }
}

proof fn lemma_samples_match(a: ImageModel, b: ImageModel, m: nat)
    requires
        forall|j: int, i: int|
            0 <= j < m && 0 <= i < sample_points(a.width) ==> #[trigger] pixel_difference(
                a.pixel(12 * i, 12 * j),
                b.pixel(12 * i, 12 * j),
            ) == 0,
    ensures
        sample_difference(a, b, m) == 0,
    decreases m,
{
    if m > 0 {
        lemma_samples_match(a, b, (m - 1) as nat);
        assert forall|i: int| 0 <= i < sample_points(a.width) implies #[trigger] pixel_difference(
            a.pixel(12 * i, 12 * (m - 1)),
            b.pixel(12 * i, 12 * (m - 1)),
        ) == 0 by {}
        lemma_row_samples_match(a, b, 12 * (m - 1), sample_points(a.width));
    }
}

/// Two frames whose red, green and blue agree on every pixel of the
/// 12-pixel sampling grid look unchanged (so a stitcher answers
/// `Unchanged` and keeps its state).
pub proof fn lemma_matching_samples_look_unchanged(a: ImageModel, b: ImageModel)
    requires
        forall|y: int, x: int|
            0 <= y < a.height && 0 <= x < a.width && y % 12 == 0 && x % 12 == 0 ==> {
                &&& #[trigger] a.rows[y][x].r == b.rows[y][x].r
                &&& a.rows[y][x].g == b.rows[y][x].g
                &&& a.rows[y][x].b == b.rows[y][x].b
            },
    ensures
        frames_look_unchanged(a, b),
{
    assert forall|j: int, i: int|
        0 <= j < sample_points(a.height) && 0 <= i < sample_points(a.width) implies #[trigger] pixel_difference(
            a.pixel(12 * i, 12 * j),
            b.pixel(12 * i, 12 * j),
        ) == 0 by {
        assert((12 * j) % 12 == 0 && (12 * i) % 12 == 0);
        assert(a.rows[12 * j][12 * i].r == b.rows[12 * j][12 * i].r);
    }
    lemma_samples_match(a, b, sample_points(a.height));
    let count = 3 * (sample_points(a.width) * sample_points(a.height));
    let c = if count == 0 {
        1
    } else {
        count
    };
    lemma_single_round_positive(c);
    assert(bit_length(0) == 0);
    assert(single_round(0, 1) == 0);
    lemma_pow2_values();
    assert(single_round(0, single_round(c, 1)) == 0);
}

/// The model of a stitcher that has just been given its first frame.
pub open spec fn first_frame_model(first: ImageModel) -> StitchModel {
    StitchModel {
        width: first.width,
        viewport_height: first.height,
        total_height: first.height,
        last_frame: first,
        segments: seq![SegmentModel { image: first, overlap: 0 }],
    }
}

/// A stitch of a first frame and one more frame that added `k` rows: the
/// output is `k` rows higher than the first frame, keeps the first frame
/// above the seam, ends with the new frame's bottom `k` rows, and its
/// [`SEAM_OVERLAP_ROWS`] rows above the join are opaque, each colour
/// channel between those of the first frame and of the new frame at the
/// same place of the page.
pub proof fn lemma_one_push_stitch(first: ImageModel, frame: ImageModel, k: u32)
    requires
        first_frame_model(first).well_formed(),
        frame.wf(),
        frame.width == first.width,
        frame.height == first.height,
        plausible_shift(first.width, first.height, k as nat),
        first_frame_model(first).after_shift(frame, Some(k)).1 == StitchOutcome::Added(k),
    ensures
        ({
            let next = first_frame_model(first).after_shift(frame, Some(k)).0;
            let out = compose(next.segments, next.segments.len(), next.width, next.total_height);
            let h = first.height as int;
            &&& out.width == first.width
            &&& out.height == first.height + k
            &&& forall|y: int, x: int|
                0 <= y < h - SEAM_OVERLAP_ROWS && 0 <= x < first.width ==> #[trigger] out.rows[y][x]
                    == first.rows[y][x]
            &&& forall|i: int, x: int|
                0 <= i < k && 0 <= x < first.width ==> #[trigger] out.rows[h + i][x] == frame.rows[h
                    - k + i][x]
            &&& forall|y: int, x: int|
                h - SEAM_OVERLAP_ROWS <= y < h && 0 <= x < first.width ==> {
                    let p = #[trigger] out.rows[y][x];
                    let a = first.rows[y][x];
                    let b = frame.rows[y - k][x];
                    &&& p.a == 255
                    &&& (a.r <= b.r ==> a.r <= p.r <= b.r) && (b.r <= a.r ==> b.r <= p.r <= a.r)
                    &&& (a.g <= b.g ==> a.g <= p.g <= b.g) && (b.g <= a.g ==> b.g <= p.g <= a.g)
                    &&& (a.b <= b.b ==> a.b <= p.b <= b.b) && (b.b <= a.b ==> b.b <= p.b <= a.b)
                }
        }),
{
    let m = first_frame_model(first);
    let w = first.width;
    let h = first.height;
    let next = m.after_shift(frame, Some(k)).0;
    let kk = k as nat;
    assert(min_nat(kk, remaining_rows(w, h)) == kk);
    assert(next == m.appended(frame, kk));
    let ov = seam_overlap(h, kk, h);
    assert(ov == SEAM_OVERLAP_ROWS);
    let seg2 = SegmentModel { image: frame.crop(0, h - kk - ov, w, kk + ov), overlap: ov };
    let segs = next.segments;
    assert(segs == seq![SegmentModel { image: first, overlap: 0 }].push(seg2));
    assert(segs.len() == 2);
    assert(segs[0] == SegmentModel { image: first, overlap: 0 });
    assert(segs[1] == seg2);
    let total = h + kk;
    assert(next.total_height == total);
    let c0 = compose(segs, 0, w, total);
    let c1 = compose(segs, 1, w, total);
    assert(body_sum(segs, 0) == 0);
    assert(body_sum(segs, 1) == h);
    assert(c1 == paste_rows(c0, first, 0, 0, h as int));
    let blended = blend_seam(c1, seg2.image, h - 10, 10);
    let out = compose(segs, 2, w, total);
    assert(out == paste_rows(blended, seg2.image, 10, h as int, kk as int));
    assert forall|y: int, x: int| 0 <= y < h - SEAM_OVERLAP_ROWS && 0 <= x < w implies #[trigger] out.rows[y][x]
        == first.rows[y][x] by {
        assert(c1.rows[y] == first.rows[y]);
    }
    assert forall|i: int, x: int| 0 <= i < k && 0 <= x < w implies #[trigger] out.rows[h + i][x]
        == frame.rows[h - k + i][x] by {
        assert(out.rows[h + i] == seg2.image.rows[10 + i]);
    }
    assert forall|y: int, x: int| h - SEAM_OVERLAP_ROWS <= y < h && 0 <= x < w implies {
        let p = #[trigger] out.rows[y][x];
        let a = first.rows[y][x];
        let b = frame.rows[y - k][x];
        &&& p.a == 255
        &&& (a.r <= b.r ==> a.r <= p.r <= b.r) && (b.r <= a.r ==> b.r <= p.r <= a.r)
        &&& (a.g <= b.g ==> a.g <= p.g <= b.g) && (b.g <= a.g ==> b.g <= p.g <= a.g)
        &&& (a.b <= b.b ==> a.b <= p.b <= b.b) && (b.b <= a.b ==> b.b <= p.b <= a.b)
    } by {
        let j = y - (h - 10);
        assert(out.rows[y] == blended.rows[y]);
        assert(c1.rows[y] == first.rows[y]);
        assert(seg2.image.rows[j][x] == frame.rows[y - k][x]);
        let a = first.rows[y][x];
        let b = frame.rows[y - k][x];
        assert(out.rows[y][x] == seam_pixel(a, b, j as nat, 10));
        lemma_seam_channel_between(a.r, b.r, j as nat, 10);
        lemma_seam_channel_between(a.g, b.g, j as nat, 10);
        lemma_seam_channel_between(a.b, b.b, j as nat, 10);
    }
    lemma_compose_size(segs, 2, w, total);
}

proof fn lemma_compose_size(segs: Seq<SegmentModel>, n: nat, w: nat, h: nat)
    ensures
        compose(segs, n, w, h).height == h,
        compose(segs, n, w, h).width == w,
    decreases n,
{
    if n > 0 {
        lemma_compose_size(segs, (n - 1) as nat, w, h);
    }
}

/// Every offered frame that is accepted grows the long screenshot by
/// exactly the reported shift, and what it adds is the bottom of that
/// frame: the rows that scrolled into view.  The frame then becomes the
/// one the next frame is matched against.
pub proof fn lemma_added_rows_come_from_frame_bottom(m: StitchModel, frame: ImageModel, shift: Option<u32>)
    requires
        m.well_formed(),
        frame.wf(),
        frame.width == m.width,
        frame.height == m.viewport_height,
        shift matches Some(v) && v < frame.height,
        m.after_shift(frame, shift).1 matches StitchOutcome::Added(_),
    ensures
        ({
            let (next, outcome) = m.after_shift(frame, shift);
            let s = shift.unwrap() as nat;
            let seg = next.segments.last();
            &&& outcome == StitchOutcome::Added(s as u32)
            &&& next.total_height == m.total_height + s
            &&& next.last_frame == frame
            &&& next.segments.len() == m.segments.len() + 1
            &&& forall|k: int, x: int|
                0 <= k < s && 0 <= x < m.width ==> #[trigger] seg.image.rows[seg.overlap + k][x]
                    == frame.rows[m.viewport_height - s + k][x]
        }),
{
}

/// The long screenshot ends with the rows that its last piece added,
/// exactly as captured: no seam blends over them.
pub proof fn lemma_stitched_bottom_is_last_piece(m: StitchModel)
    requires
        m.well_formed(),
    ensures
        ({
            let out = compose(m.segments, m.segments.len(), m.width, m.total_height);
            let last = m.segments.last();
            forall|k: int, x: int|
                0 <= k < body_height(last) && 0 <= x < m.width ==> #[trigger] out.rows[m.total_height
                    - body_height(last) + k][x] == last.image.rows[last.overlap + k][x]
        }),
{
    let n = m.segments.len();
    assert(m.segment_fits(n - 1));
    lemma_body_sum_monotone(m, (n - 1) as nat, n);
    let segs = m.segments;
    let last = segs.last();
    let y = body_sum(segs, (n - 1) as nat);
    let prev = compose(segs, (n - 1) as nat, m.width, m.total_height);
    let ov = min_nat(min_nat(last.overlap, last.image.height), y as nat);
    assert(ov == last.overlap);
    let blended = if ov > 0 {
        blend_seam(prev, last.image, y - ov, ov)
    } else {
        prev
    };
    let body = last.image.height - ov;
    let out = compose(segs, n, m.width, m.total_height);
    if body > 0 {
        assert(out == paste_rows(blended, last.image, ov as int, y, body));
        lemma_compose_size(segs, (n - 1) as nat, m.width, m.total_height);
        assert(m.total_height == y + body);
        assert forall|k: int, x: int|
            0 <= k < body_height(last) && 0 <= x < m.width implies #[trigger] out.rows[m.total_height
                - body_height(last) + k][x] == last.image.rows[last.overlap + k][x] by {
            assert(out.rows[y + k] == last.image.rows[ov + k]);
        }
    }
}

/// The long screenshot starts with its first frame: only the last
/// [`SEAM_OVERLAP_ROWS`] rows of that frame can be blended with what
/// follows.
pub proof fn lemma_stitched_top_is_first_frame(m: StitchModel)
    requires
        m.well_formed(),
    ensures
        ({
            let out = compose(m.segments, m.segments.len(), m.width, m.total_height);
            forall|r: int, x: int|
                0 <= r < m.viewport_height - SEAM_OVERLAP_ROWS && 0 <= x < m.width ==> #[trigger] out.rows[r][x]
                    == m.segments[0].image.rows[r][x]
        }),
{
    lemma_compose_keeps_top(m, m.segments.len());
}

proof fn lemma_compose_keeps_top(m: StitchModel, n: nat)
    requires
        m.well_formed(),
        1 <= n <= m.segments.len(),
    ensures
        forall|r: int, x: int|
            0 <= r < m.viewport_height - SEAM_OVERLAP_ROWS && 0 <= x < m.width ==> #[trigger] compose(
                m.segments,
                n,
                m.width,
                m.total_height,
            ).rows[r][x] == m.segments[0].image.rows[r][x],
    decreases n,
{
    assert(m.segment_fits(0));
    lemma_body_sum_monotone(m, 1, m.segments.len());
    let segs = m.segments;
    let prev = compose(segs, (n - 1) as nat, m.width, m.total_height);
    let out = compose(segs, n, m.width, m.total_height);
    let y = body_sum(segs, (n - 1) as nat);
    let s = segs[n - 1];
    let ov = min_nat(min_nat(s.overlap, s.image.height), y as nat);
    let blended = if ov > 0 {
        blend_seam(prev, s.image, y - ov, ov)
    } else {
        prev
    };
    let body = s.image.height - ov;
    lemma_compose_size(segs, (n - 1) as nat, m.width, m.total_height);
    assert(m.segment_fits(n - 1));
    lemma_body_sum_monotone(m, (n - 1) as nat, m.segments.len());
    assert(body_sum(m.segments, 1) == m.viewport_height) by {
        reveal_with_fuel(body_sum, 2);
    }
    if n == 1 {
        assert(y == 0);
        assert(ov == 0);
        assert(blended == prev);
        assert forall|r: int, x: int|
            0 <= r < m.viewport_height - SEAM_OVERLAP_ROWS && 0 <= x < m.width implies #[trigger] out.rows[r][x]
                == segs[0].image.rows[r][x] by {
            assert(out == paste_rows(blended, s.image, 0, 0, body));
            assert(out.rows[r] == s.image.rows[r]);
        }
    } else {
        lemma_compose_keeps_top(m, (n - 1) as nat);
        lemma_body_sum_monotone(m, 1, (n - 1) as nat);
        assert(y >= m.viewport_height);
        assert forall|r: int, x: int|
            0 <= r < m.viewport_height - SEAM_OVERLAP_ROWS && 0 <= x < m.width implies #[trigger] out.rows[r][x]
                == segs[0].image.rows[r][x] by {
            assert(blended.rows[r] == prev.rows[r]);
            if body > 0 {
                assert(out == paste_rows(blended, s.image, ov as int, y, body));
                assert(out.rows[r] == blended.rows[r]);
            } else {
                assert(out == blended);
            }
            assert(prev.rows[r][x] == segs[0].image.rows[r][x]);
        }
    }
}

} // verus!
