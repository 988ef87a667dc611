//! Rasterising annotations into a screenshot: stroke colours, the discs
//! that strokes are made of, and mosaic blocks.
use vstd::prelude::*;
use vstd::string::StringSliceAdditionalSpecFns;

use crate::raster::{lemma_image_wf, channel, ImageModel, Rgba, RgbaImage};

verus! {

/// Block edge, in pixels, of a mosaic annotation that does not name one.
pub fn default_mosaic_block_size() -> (size: u32)
    ensures
        size == 12,
{
    12
}

/// Block edge actually used for a mosaic: at least four pixels.
pub fn mosaic_block_size(requested: u32) -> (size: u32)
    ensures
        size == if requested < 4 {
            4
        } else {
            requested
        },
{
    if requested < 4 {
        4
    } else {
        requested
    }
}

/// Colour used for a stroke whose colour cannot be read.
pub open spec fn fallback_color() -> Rgba {
    Rgba { r: 239, g: 68, b: 68, a: 255 }
}

/// `s` without its leading `#` bytes.
pub open spec fn strip_hashes(s: Seq<u8>) -> Seq<u8>
    decreases s.len(),
{
    if s.len() > 0 && s[0] == 35u8 {
        strip_hashes(s.drop_first())
    } else {
        s
    }
}

/// Value of an ASCII hexadecimal digit.
pub open spec fn hex_digit(b: u8) -> Option<nat> {
    if 48 <= b <= 57 {
        Some((b - 48) as nat)
    } else if 97 <= b <= 102 {
        Some((b - 87) as nat)
    } else if 65 <= b <= 70 {
        Some((b - 55) as nat)
    } else {
        None
    }
}

/// Value of a string of hexadecimal digits, most significant first;
/// `None` if some byte is not a digit.
pub open spec fn hex_digits_value(s: Seq<u8>) -> Option<nat>
    decreases s.len(),
{
    if s.len() == 0 {
        Some(0)
    } else {
        match (hex_digits_value(s.drop_last()), hex_digit(s.last())) {
            (Some(high), Some(low)) => Some(16 * high + low),
            _ => None,
        }
    }
}

/// Reading of a base-16 unsigned number: an optional leading `+`
/// followed by at least one hexadecimal digit.
pub open spec fn parse_hex(s: Seq<u8>) -> Option<nat> {
    if s.len() == 0 {
        None
    } else if s[0] == 43u8 {
        if s.len() == 1 {
            None
        } else {
            hex_digits_value(s.drop_first())
        }
    } else {
        hex_digits_value(s)
    }
}

/// The colour that a stroke colour written as text stands for: after any
/// leading `#`, exactly six bytes read as a base-16 number `0xRRGGBB`
/// give an opaque colour; anything else gives [`fallback_color`].
pub open spec fn color_from_text(value: Seq<u8>) -> Rgba {
    let hex = strip_hashes(value);
    if hex.len() == 6 && parse_hex(hex) is Some {
        let rgb = parse_hex(hex).unwrap();
        Rgba {
            r: ((rgb / 65536) % 256) as u8,
            g: ((rgb / 256) % 256) as u8,
            b: (rgb % 256) as u8,
            a: 255,
        }
    } else {
        fallback_color()
    }
}

/// Whether `b` is an ASCII hexadecimal digit, in either case.
pub open spec fn is_hex_byte(b: u8) -> bool {
    (48 <= b && b <= 57) || (65 <= b && b <= 70) || (97 <= b && b <= 102)
}

/// A colour written as `#` and six hexadecimal digits, in either case, is
/// the opaque colour whose red, green and blue are the three digit pairs
/// read in base 16 (a digit `0`-`9` counting its face value, `a`-`f` and
/// `A`-`F` alike counting 10-15); so upper- and lower-case spellings give
/// the same colour.
pub proof fn lemma_hex_color(value: Seq<u8>)
    requires
        value.len() == 7,
        value[0] == 35u8,
        forall|i: int| 1 <= i < 7 ==> #[trigger] is_hex_byte(value[i]),
    ensures
        ({
            let v = |b: u8|
                {
                    if b <= 57 {
                        b - 48
                    } else if b <= 70 {
                        b - 55
                    } else {
                        b - 87
                    }
                };
            color_from_text(value) == Rgba {
                r: (16 * v(value[1]) + v(value[2])) as u8,
                g: (16 * v(value[3]) + v(value[4])) as u8,
                b: (16 * v(value[5]) + v(value[6])) as u8,
                a: 255,
            }
        }),
{
    let hex = value.drop_first();
    assert(is_hex_byte(value[1]));
    assert(hex[0] != 35u8);
    assert(strip_hashes(value) == strip_hashes(hex));
    assert(strip_hashes(hex) == hex);
    assert(hex[0] != 43u8);
    assert forall|i: int| 0 <= i < 6 implies #[trigger] hex_digit(hex[i]) is Some by {
        assert(is_hex_byte(value[i + 1]));
    }
    let d = |i: int| hex_digit(hex[i]).unwrap();
    assert(hex_digits_value(hex.subrange(0, 0)) == Some(0nat));
    assert forall|k: int| 0 <= k <= 6 implies #[trigger] hex_digits_value(hex.subrange(0, k)) is Some by {
        lemma_hex_prefix(hex, k);
    }
    let p1 = hex_digits_value(hex.subrange(0, 1)).unwrap();
    let p2 = hex_digits_value(hex.subrange(0, 2)).unwrap();
    let p3 = hex_digits_value(hex.subrange(0, 3)).unwrap();
    let p4 = hex_digits_value(hex.subrange(0, 4)).unwrap();
    let p5 = hex_digits_value(hex.subrange(0, 5)).unwrap();
    let p6 = hex_digits_value(hex.subrange(0, 6)).unwrap();
    assert(hex.subrange(0, 1).drop_last() =~= hex.subrange(0, 0));
    assert(hex.subrange(0, 2).drop_last() =~= hex.subrange(0, 1));
    assert(hex.subrange(0, 3).drop_last() =~= hex.subrange(0, 2));
    assert(hex.subrange(0, 4).drop_last() =~= hex.subrange(0, 3));
    assert(hex.subrange(0, 5).drop_last() =~= hex.subrange(0, 4));
    assert(hex.subrange(0, 6).drop_last() =~= hex.subrange(0, 5));
    assert(hex.subrange(0, 6) =~= hex);
    assert(p1 == d(0));
    assert(p2 == 16 * p1 + d(1));
    assert(p3 == 16 * p2 + d(2));
    assert(p4 == 16 * p3 + d(3));
    assert(p5 == 16 * p4 + d(4));
    assert(p6 == 16 * p5 + d(5));
    assert(parse_hex(hex) == Some(p6));
    assert forall|i: int| 0 <= i < 6 implies d(i) < 16 && d(i) as int == (if hex[i] <= 57 {
        hex[i] - 48
    } else if hex[i] <= 70 {
        hex[i] - 55
    } else {
        hex[i] - 87
    }) by {
        assert(is_hex_byte(value[i + 1]));
    }
    let rgb = p6;
    assert(rgb == 1048576 * d(0) + 65536 * d(1) + 4096 * d(2) + 256 * d(3) + 16 * d(4) + d(5));
    assert((rgb / 65536) % 256 == 16 * d(0) + d(1)) by (nonlinear_arith)
        requires
            rgb == 1048576 * d(0) + 65536 * d(1) + 4096 * d(2) + 256 * d(3) + 16 * d(4) + d(5),
            d(0) < 16,
            d(1) < 16,
            d(2) < 16,
            d(3) < 16,
            d(4) < 16,
            d(5) < 16,
    ;
    assert((rgb / 256) % 256 == 16 * d(2) + d(3)) by (nonlinear_arith)
        requires
            rgb == 1048576 * d(0) + 65536 * d(1) + 4096 * d(2) + 256 * d(3) + 16 * d(4) + d(5),
            d(0) < 16,
            d(1) < 16,
            d(2) < 16,
            d(3) < 16,
            d(4) < 16,
            d(5) < 16,
    ;
    assert(rgb % 256 == 16 * d(4) + d(5)) by (nonlinear_arith)
        requires
            rgb == 1048576 * d(0) + 65536 * d(1) + 4096 * d(2) + 256 * d(3) + 16 * d(4) + d(5),
            d(0) < 16,
            d(1) < 16,
            d(2) < 16,
            d(3) < 16,
            d(4) < 16,
            d(5) < 16,
    ;
}

proof fn lemma_hex_prefix(hex: Seq<u8>, k: int)
    requires
        0 <= k <= hex.len(),
        forall|i: int| 0 <= i < hex.len() ==> #[trigger] hex_digit(hex[i]) is Some,
    ensures
        hex_digits_value(hex.subrange(0, k)) is Some,
    decreases k,
{
    if k > 0 {
        lemma_hex_prefix(hex, k - 1);
        assert(hex.subrange(0, k).drop_last() =~= hex.subrange(0, k - 1));
        assert(hex_digit(hex[k - 1]) is Some);
    }
}

pub open spec fn pow16(n: nat) -> nat
    decreases n,
{
    if n == 0 {
        1
    } else {
        16 * pow16((n - 1) as nat)
    }
}

fn hex_digit_exec(b: u8) -> (d: Option<u32>)
    ensures
        d matches Some(v) ==> hex_digit(b) == Some(v as nat),
        d is None ==> hex_digit(b) is None,
{
    if 48 <= b && b <= 57 {
        Some((b - 48) as u32)
    } else if 97 <= b && b <= 102 {
        Some((b - 87) as u32)
    } else if 65 <= b && b <= 70 {
        Some((b - 55) as u32)
    } else {
        None
    }
}

/// Reads the stroke colour of an annotation; see [`color_from_text`].
pub fn parse_color(value: &str) -> (color: Rgba)
    ensures
        color == color_from_text(value.spec_bytes()),
{
    let bytes: &[u8] = value.as_bytes();
    let n = bytes.len();
    let mut start: usize = 0;
    proof {
        assert(bytes@.subrange(0, n as int) =~= bytes@);
    }
    while start < n && bytes[start] == 35u8
        invariant
            start <= n,
            n == bytes@.len(),
            strip_hashes(bytes@) == strip_hashes(bytes@.subrange(start as int, n as int)),
        decreases n - start,
    {
        proof {
            let rest = bytes@.subrange(start as int, n as int);
            assert(rest.drop_first() =~= bytes@.subrange(start + 1, n as int));
        }
        start = start + 1;
    }
    let ghost hex = bytes@.subrange(start as int, n as int);
    proof {
        assert(strip_hashes(hex) == hex);
        assert(bytes@.subrange(0, n as int) =~= bytes@);
    }
    if n - start != 6 {
        return Rgba { r: 239, g: 68, b: 68, a: 255 };
    }
    let mut i: usize = start;
    if bytes[start] == 43u8 {
        i = start + 1;
    }
    let first = i;
    let mut value: u32 = 0;
    let mut ok = true;
    proof {
        assert(hex.subrange(first - start, first - start) =~= Seq::<u8>::empty());
    }
    while i < n
        invariant
            start < first <= start + 1 || first == start,
            first <= i <= n,
            n == start + 6,
            n == bytes@.len(),
            hex == bytes@.subrange(start as int, n as int),
            ok ==> hex_digits_value(bytes@.subrange(first as int, i as int)) == Some(value as nat),
            ok ==> value < pow16((i - first) as nat),
            !ok ==> hex_digits_value(bytes@.subrange(first as int, n as int)) is None,
        decreases n - i,
    {
        let ghost prefix = bytes@.subrange(first as int, i as int);
        let ghost next = bytes@.subrange(first as int, i + 1);
        proof {
            assert(next.drop_last() =~= prefix);
            assert(next.last() == bytes@[i as int]);
        }
        if ok {
            match hex_digit_exec(bytes[i]) {
                Some(d) => {
                    proof {
                        assert(pow16((i + 1 - first) as nat) == 16 * pow16((i - first) as nat));
                        assert(pow16(6) == 16777216) by {
                            reveal_with_fuel(pow16, 7);
                        }
                        lemma_pow16_monotone((i - first) as nat, 5);
                    }
                    value = 16 * value + d;
                },
                None => {
                    proof {
                        lemma_hex_none_extends(bytes@.subrange(first as int, n as int), (i + 1 - first) as nat);
                        assert(bytes@.subrange(first as int, n as int).subrange(0, (i + 1 - first) as int) =~= next);
                    }
                    ok = false;
                },
            }
        }
        i = i + 1;
    }
    proof {
        if first == start + 1 {
            assert(hex.drop_first() =~= bytes@.subrange(first as int, n as int));
        } else {
            assert(hex =~= bytes@.subrange(first as int, n as int));
        }
    }
    if !ok {
        return Rgba { r: 239, g: 68, b: 68, a: 255 };
    }
    proof {
        assert((value >> 16) & 0xff == (value / 65536) % 256) by (bit_vector);
        assert((value >> 8) & 0xff == (value / 256) % 256) by (bit_vector);
        assert(value & 0xff == value % 256) by (bit_vector);
    }
    Rgba {
        r: ((value >> 16) & 0xff) as u8,
        g: ((value >> 8) & 0xff) as u8,
        b: (value & 0xff) as u8,
        a: 255,
    }
}

proof fn lemma_pow16_monotone(i: nat, j: nat)
    requires
        i <= j,
    ensures
        1 <= pow16(i) <= pow16(j),
    decreases j,
{
    if j > 0 {
        if i < j {
            lemma_pow16_monotone(i, (j - 1) as nat);
        } else {
            lemma_pow16_monotone((j - 1) as nat, (j - 1) as nat);
        }
    }
}

/// A string of hexadecimal digits with a bad byte in its first `k` bytes
/// has no value.
proof fn lemma_hex_none_extends(s: Seq<u8>, k: nat)
    requires
        k <= s.len(),
        hex_digits_value(s.subrange(0, k as int)) is None,
    ensures
        hex_digits_value(s) is None,
    decreases s.len() - k,
{
    if k < s.len() {
        let next = s.subrange(0, (k + 1) as int);
        assert(next.drop_last() =~= s.subrange(0, k as int));
        lemma_hex_none_extends(s, k + 1);
    } else {
        assert(s.subrange(0, k as int) =~= s);
    }
}

/// Whether the disc of the given centre and radius covers pixel `(x, y)`
/// of a `w` by `h` image, as the stroke rasteriser tests it: integer
/// offsets of at most `radius` on each axis whose squared length is at
/// most `radius * radius`, on an image whose sides fit in `i32`.
pub open spec fn in_disc(w: nat, h: nat, cx: int, cy: int, radius: int, x: int, y: int) -> bool {
    &&& -radius <= x - cx <= radius
    &&& -radius <= y - cy <= radius
    &&& (x - cx) * (x - cx) + (y - cy) * (y - cy) <= radius * radius
    &&& 0 <= x < w <= 0x7fff_ffff
    &&& 0 <= y < h <= 0x7fff_ffff
}

/// `img` with every pixel that the disc covers set to `color`.
pub open spec fn disc_drawn(img: ImageModel, cx: int, cy: int, radius: int, color: Rgba) -> ImageModel {
    ImageModel {
        width: img.width,
        height: img.height,
        rows: Seq::new(
            img.height,
            |y: int|
                Seq::new(
                    img.width,
                    |x: int|
                        if in_disc(img.width, img.height, cx, cy, radius, x, y) {
                            color
                        } else {
                            img.rows[y][x]
                        },
                ),
        ),
    }
}

proof fn lemma_square_bound(a: int, r: int)
    requires
        -r <= a <= r,
    ensures
        0 <= a * a <= r * r,
{
    assert(0 <= a * a <= r * r) by (nonlinear_arith)
        requires
            -r <= a <= r,
    ;
}

/// Paints a filled disc, clipped to the image.
pub fn draw_filled_circle(
    image: &mut RgbaImage,
    center_x: i32,
    center_y: i32,
    radius: i32,
    color: Rgba,
)
    requires
        radius * radius <= i32::MAX,
        radius >= 0 ==> 2 * (radius * radius) <= i32::MAX,
        radius >= 0 ==> i32::MIN <= center_x - radius && center_x + radius <= i32::MAX,
        radius >= 0 ==> i32::MIN <= center_y - radius && center_y + radius <= i32::MAX,
    ensures
        final(image)@ == disc_drawn(old(image)@, center_x as int, center_y as int, radius as int, color),
{
    let ghost start = image@;
    let ghost target = disc_drawn(start, center_x as int, center_y as int, radius as int, color);
    proof {
        lemma_image_wf(image);
        assert(radius * radius >= 0) by (nonlinear_arith);
    }
    let (width, height) = image.dimensions();
    let w: i32 = if width <= 0x7fff_ffff {
        width as i32
    } else {
        -1
    };
    let h: i32 = if height <= 0x7fff_ffff {
        height as i32
    } else {
        -1
    };
    let radius_squared: i32 = radius * radius;
    if radius < 0 {
        proof {
            assert(image@ =~~= target) by {
                assert forall|y: int| 0 <= y < start.height implies #[trigger] image@.rows[y] =~= target.rows[y] by {}
            }
        }
        return;
    }
    proof {
        assert(radius <= 32767) by (nonlinear_arith)
            requires
                radius >= 0,
                2 * (radius * radius) <= i32::MAX,
        ;
    }
    let mut offset_y: i32 = -radius;
    while offset_y <= radius
        invariant
            0 <= radius <= 32767,
            -radius <= offset_y <= radius + 1,
            radius_squared == radius * radius,
            2 * (radius * radius) <= i32::MAX,
            i32::MIN <= center_x - radius && center_x + radius <= i32::MAX,
            i32::MIN <= center_y - radius && center_y + radius <= i32::MAX,
            width == start.width,
            height == start.height,
            w == (if width <= 0x7fff_ffff { width as int } else { -1 }),
            h == (if height <= 0x7fff_ffff { height as int } else { -1 }),
            start.wf(),
            image@.width == start.width,
            image@.height == start.height,
            image@.wf(),
            target == disc_drawn(start, center_x as int, center_y as int, radius as int, color),
            forall|x: int, y: int|
                0 <= x < start.width && 0 <= y < start.height ==> #[trigger] image@.rows[y][x] == if in_disc(
                    start.width,
                    start.height,
                    center_x as int,
                    center_y as int,
                    radius as int,
                    x,
                    y,
                ) && y - center_y < offset_y {
                    color
                } else {
                    start.rows[y][x]
                },
        decreases radius + 1 - offset_y,
    {
        let mut offset_x: i32 = -radius;
        while offset_x <= radius
            invariant
                0 <= radius <= 32767,
                -radius <= offset_y <= radius,
                -radius <= offset_x <= radius + 1,
                radius_squared == radius * radius,
                2 * (radius * radius) <= i32::MAX,
                i32::MIN <= center_x - radius && center_x + radius <= i32::MAX,
                i32::MIN <= center_y - radius && center_y + radius <= i32::MAX,
                width == start.width,
                height == start.height,
                w == (if width <= 0x7fff_ffff { width as int } else { -1 }),
                h == (if height <= 0x7fff_ffff { height as int } else { -1 }),
                start.wf(),
                image@.width == start.width,
                image@.height == start.height,
                image@.wf(),
                forall|x: int, y: int|
                    0 <= x < start.width && 0 <= y < start.height ==> #[trigger] image@.rows[y][x] == if in_disc(
                        start.width,
                        start.height,
                        center_x as int,
                        center_y as int,
                        radius as int,
                        x,
                        y,
                    ) && (y - center_y < offset_y || (y - center_y == offset_y && x - center_x
                        < offset_x)) {
                        color
                    } else {
                        start.rows[y][x]
                    },
            decreases radius + 1 - offset_x,
        {
            proof {
                lemma_square_bound(offset_x as int, radius as int);
                lemma_square_bound(offset_y as int, radius as int);
            }
            if offset_x * offset_x + offset_y * offset_y <= radius_squared {
                let x = center_x + offset_x;
                let y = center_y + offset_y;
                if x >= 0 && y >= 0 && x < w && y < h {
                    image.put_pixel(x as u32, y as u32, color);
                }
            }
            offset_x = offset_x + 1;
        }
        offset_y = offset_y + 1;
    }
    proof {
        assert forall|y: int| 0 <= y < start.height implies #[trigger] image@.rows[y] =~= target.rows[y] by {}
        assert(image@ =~~= target);
    }
}

/// Sum of channel `c` over columns `x0 .. x1` of row `y`.
pub open spec fn row_channel_sum(img: ImageModel, c: int, y: int, x0: int, x1: int) -> nat
    decreases x1 - x0,
{
    if x1 <= x0 {
        0
    } else {
        row_channel_sum(img, c, y, x0, x1 - 1) + (channel(img.rows[y][x1 - 1], c) as nat)
    }
}

/// Sum of channel `c` over the block of columns `x0 .. x1` and rows
/// `y0 .. y1`.
pub open spec fn block_channel_sum(img: ImageModel, c: int, x0: int, x1: int, y0: int, y1: int) -> nat
    decreases y1 - y0,
{
    if y1 <= y0 {
        0
    } else {
        block_channel_sum(img, c, x0, x1, y0, y1 - 1) + row_channel_sum(img, c, y1 - 1, x0, x1)
    }
}

/// Opaque colour whose red, green and blue are the averages, rounded
/// down, of the block's pixels.
pub open spec fn block_average(img: ImageModel, x0: int, x1: int, y0: int, y1: int) -> Rgba {
    let n = (x1 - x0) * (y1 - y0);
    Rgba {
        r: (block_channel_sum(img, 0, x0, x1, y0, y1) as int / n) as u8,
        g: (block_channel_sum(img, 1, x0, x1, y0, y1) as int / n) as u8,
        b: (block_channel_sum(img, 2, x0, x1, y0, y1) as int / n) as u8,
        a: 255,
    }
}

/// First coordinate of the block of edge `size`, counted from `origin`,
/// that holds coordinate `p`.
pub open spec fn block_start(origin: int, size: int, p: int) -> int {
    origin + (p - origin) / size * size
}

pub open spec fn min_int(a: int, b: int) -> int {
    if a <= b {
        a
    } else {
        b
    }
}

/// The mosaic of the region `left .. right` by `top .. bottom`: blocks of
/// edge `size` laid from the region's top-left corner and cut at its
/// right and bottom sides, each painted with its average colour.
pub open spec fn mosaic(img: ImageModel, left: int, top: int, right: int, bottom: int, size: int) -> ImageModel {
    ImageModel {
        width: img.width,
        height: img.height,
        rows: Seq::new(
            img.height,
            |y: int|
                Seq::new(
                    img.width,
                    |x: int|
                        if left <= x < right && top <= y < bottom {
                            mosaic_pixel(img, left, top, right, bottom, size, x, y)
                        } else {
                            img.rows[y][x]
                        },
                ),
        ),
    }
}

pub open spec fn mosaic_pixel(
    img: ImageModel,
    left: int,
    top: int,
    right: int,
    bottom: int,
    size: int,
    x: int,
    y: int,
) -> Rgba {
    let bx = block_start(left, size, x);
    let by = block_start(top, size, y);
    block_average(img, bx, min_int(bx + size, right), by, min_int(by + size, bottom))
}

proof fn lemma_block_start(origin: int, size: int, j: int, p: int)
    requires
        size >= 1,
        j >= 0,
        origin + j * size <= p < origin + j * size + size,
    ensures
        block_start(origin, size, p) == origin + j * size,
{
    assert((p - origin) / size == j) by (nonlinear_arith)
        requires
            size >= 1,
            j >= 0,
            j * size <= p - origin < j * size + size,
    ;
}

proof fn lemma_row_sum_constant(img: ImageModel, c: int, y: int, x0: int, x1: int, v: nat)
    requires
        x0 <= x1,
        forall|x: int| x0 <= x < x1 ==> channel(#[trigger] img.rows[y][x], c) == v,
    ensures
        row_channel_sum(img, c, y, x0, x1) == (x1 - x0) * v,
    decreases x1 - x0,
{
    if x1 > x0 {
        lemma_row_sum_constant(img, c, y, x0, x1 - 1, v);
        assert(channel(img.rows[y][x1 - 1], c) == v);
        assert((x1 - 1 - x0) * v + v == (x1 - x0) * v) by (nonlinear_arith);
    } else {
        assert((x1 - x0) * v == 0) by (nonlinear_arith)
            requires
                x1 == x0,
        ;
    }
}

proof fn lemma_block_sum_constant(img: ImageModel, c: int, x0: int, x1: int, y0: int, y1: int, v: nat)
    requires
        x0 <= x1,
        y0 <= y1,
        forall|x: int, y: int| x0 <= x < x1 && y0 <= y < y1 ==> channel(#[trigger] img.rows[y][x], c) == v,
    ensures
        block_channel_sum(img, c, x0, x1, y0, y1) == (x1 - x0) * (y1 - y0) * v,
    decreases y1 - y0,
{
    if y1 > y0 {
        lemma_block_sum_constant(img, c, x0, x1, y0, y1 - 1, v);
        assert forall|x: int| x0 <= x < x1 implies channel(#[trigger] img.rows[y1 - 1][x], c) == v by {}
        lemma_row_sum_constant(img, c, y1 - 1, x0, x1, v);
        assert((x1 - x0) * (y1 - 1 - y0) * v + (x1 - x0) * v == (x1 - x0) * (y1 - y0) * v)
            by (nonlinear_arith);
    } else {
        assert((x1 - x0) * (y1 - y0) * v == 0) by (nonlinear_arith)
            requires
                y1 == y0,
        ;
    }
}

/// The average of a block whose pixels all have the colour of an average
/// is that colour.
proof fn lemma_average_of_uniform_block(img: ImageModel, x0: int, x1: int, y0: int, y1: int, col: Rgba)
    requires
        x0 < x1,
        y0 < y1,
        col.a == 255,
        forall|x: int, y: int| x0 <= x < x1 && y0 <= y < y1 ==> #[trigger] img.rows[y][x] == col,
    ensures
        block_average(img, x0, x1, y0, y1) == col,
{
    let n = (x1 - x0) * (y1 - y0);
    assert(n > 0) by (nonlinear_arith)
        requires
            x0 < x1,
            y0 < y1,
            n == (x1 - x0) * (y1 - y0),
    ;
    assert forall|c: int| 0 <= c < 3 implies (block_channel_sum(img, c, x0, x1, y0, y1) as int / n) == channel(col, c) by {
        let v = channel(col, c) as nat;
        assert forall|x: int, y: int| x0 <= x < x1 && y0 <= y < y1 implies channel(#[trigger] img.rows[y][x], c) == v by {}
        lemma_block_sum_constant(img, c, x0, x1, y0, y1, v);
        assert(((x1 - x0) * (y1 - y0) * v) / n == v) by (nonlinear_arith)
            requires
                n > 0,
                n == (x1 - x0) * (y1 - y0),
        ;
    }
    assert(block_channel_sum(img, 0, x0, x1, y0, y1) as int / n == col.r);
    assert(block_channel_sum(img, 1, x0, x1, y0, y1) as int / n == col.g);
    assert(block_channel_sum(img, 2, x0, x1, y0, y1) as int / n == col.b);
}

/// Pixelating a region a second time changes nothing: after the first
/// time each block is of one colour, its average.
pub proof fn lemma_mosaic_idempotent(img: ImageModel, left: int, top: int, right: int, bottom: int, size: int)
    requires
        img.wf(),
        0 <= left,
        0 <= top,
        right <= img.width,
        bottom <= img.height,
        size >= 1,
    ensures
        mosaic(mosaic(img, left, top, right, bottom, size), left, top, right, bottom, size) == mosaic(
            img,
            left,
            top,
            right,
            bottom,
            size,
        ),
{
    let m1 = mosaic(img, left, top, right, bottom, size);
    let m2 = mosaic(m1, left, top, right, bottom, size);
    assert forall|x: int, y: int|
        left <= x < right && top <= y < bottom implies #[trigger] m2.rows[y][x] == m1.rows[y][x] by {
        let jx = (x - left) / size;
        let jy = (y - top) / size;
        let bx = left + jx * size;
        let by = top + jy * size;
        {
            assert(bx <= x < bx + size) by (nonlinear_arith)
                requires
                    size >= 1,
                    x >= left,
                    jx == (x - left) / size,
                    bx == left + jx * size,
            ;
            assert(jx >= 0) by (nonlinear_arith)
                requires
                    size >= 1,
                    x >= left,
                    jx == (x - left) / size,
            ;
        }
        {
            assert(by <= y < by + size) by (nonlinear_arith)
                requires
                    size >= 1,
                    y >= top,
                    jy == (y - top) / size,
                    by == top + jy * size,
            ;
            assert(jy >= 0) by (nonlinear_arith)
                requires
                    size >= 1,
                    y >= top,
                    jy == (y - top) / size,
            ;
        }
        lemma_block_start(left, size, jx, x);
        lemma_block_start(top, size, jy, y);
        let ex = min_int(bx + size, right);
        let ey = min_int(by + size, bottom);
        let col = block_average(img, bx, ex, by, ey);
        assert forall|x2: int, y2: int| bx <= x2 < ex && by <= y2 < ey implies #[trigger] m1.rows[y2][x2] == col by {
            lemma_block_start(left, size, jx, x2);
            lemma_block_start(top, size, jy, y2);
        }
        lemma_average_of_uniform_block(m1, bx, ex, by, ey, col);
    }
    assert(m2 =~~= m1);
}

proof fn lemma_row_sum_agree(a: ImageModel, b: ImageModel, c: int, y: int, x0: int, x1: int)
    requires
        forall|x: int| x0 <= x < x1 ==> #[trigger] a.rows[y][x] == b.rows[y][x],
    ensures
        row_channel_sum(a, c, y, x0, x1) == row_channel_sum(b, c, y, x0, x1),
    decreases x1 - x0,
{
    if x1 > x0 {
        lemma_row_sum_agree(a, b, c, y, x0, x1 - 1);
    }
}

proof fn lemma_block_sum_agree(a: ImageModel, b: ImageModel, c: int, x0: int, x1: int, y0: int, y1: int)
    requires
        forall|x: int, y: int| x0 <= x < x1 && y0 <= y < y1 ==> #[trigger] a.rows[y][x] == b.rows[y][x],
    ensures
        block_channel_sum(a, c, x0, x1, y0, y1) == block_channel_sum(b, c, x0, x1, y0, y1),
    decreases y1 - y0,
{
    if y1 > y0 {
        lemma_block_sum_agree(a, b, c, x0, x1, y0, y1 - 1);
        assert forall|x: int| x0 <= x < x1 implies #[trigger] a.rows[y1 - 1][x] == b.rows[y1 - 1][x] by {}
        lemma_row_sum_agree(a, b, c, y1 - 1, x0, x1);
    }
}

proof fn lemma_row_sum_bound(img: ImageModel, c: int, y: int, x0: int, x1: int)
    requires
        x0 <= x1,
    ensures
        row_channel_sum(img, c, y, x0, x1) <= 255 * (x1 - x0),
    decreases x1 - x0,
{
    if x1 > x0 {
        lemma_row_sum_bound(img, c, y, x0, x1 - 1);
    }
}

proof fn lemma_block_sum_bound(img: ImageModel, c: int, x0: int, x1: int, y0: int, y1: int)
    requires
        x0 <= x1 <= x0 + 4294967296,
        y0 <= y1,
    ensures
        block_channel_sum(img, c, x0, x1, y0, y1) <= 1095216660480 * (y1 - y0),
    decreases y1 - y0,
{
    if y1 > y0 {
        lemma_block_sum_bound(img, c, x0, x1, y0, y1 - 1);
        lemma_row_sum_bound(img, c, y1 - 1, x0, x1);
        assert(block_channel_sum(img, c, x0, x1, y0, y1) == block_channel_sum(img, c, x0, x1, y0, y1 - 1)
            + row_channel_sum(img, c, y1 - 1, x0, x1));
        assert(255 * (x1 - x0) <= 1095216660480);
        assert(1095216660480 * (y1 - 1 - y0) + 1095216660480 == 1095216660480 * (y1 - y0));
    }
}

proof fn lemma_block_sum_average_bound(img: ImageModel, c: int, x0: int, x1: int, y0: int, y1: int)
    requires
        x0 < x1,
        y0 < y1,
    ensures
        block_channel_sum(img, c, x0, x1, y0, y1) as int / ((x1 - x0) * (y1 - y0)) <= 255,
{
    lemma_block_sum_area_bound(img, c, x0, x1, y0, y1);
    let n = (x1 - x0) * (y1 - y0);
    let t = block_channel_sum(img, c, x0, x1, y0, y1) as int;
    assert(n > 0) by (nonlinear_arith)
        requires
            x0 < x1,
            y0 < y1,
            n == (x1 - x0) * (y1 - y0),
    ;
    assert(t / n <= 255) by (nonlinear_arith)
        requires
            t <= 255 * n,
            n > 0,
            t >= 0,
    ;
}

proof fn lemma_block_sum_area_bound(img: ImageModel, c: int, x0: int, x1: int, y0: int, y1: int)
    requires
        x0 <= x1,
        y0 <= y1,
    ensures
        block_channel_sum(img, c, x0, x1, y0, y1) <= 255 * ((x1 - x0) * (y1 - y0)),
    decreases y1 - y0,
{
    if y1 > y0 {
        lemma_block_sum_area_bound(img, c, x0, x1, y0, y1 - 1);
        lemma_row_sum_bound(img, c, y1 - 1, x0, x1);
        assert((x1 - x0) * (y1 - 1 - y0) + (x1 - x0) == (x1 - x0) * (y1 - y0)) by (nonlinear_arith);
    }
}

/// Channel sums of one block of the image.
fn block_sums(image: &RgbaImage, x0: u32, x1: u32, y0: u32, y1: u32) -> (s: (u128, u128, u128))
    requires
        x0 < x1 <= image@.width,
        y0 < y1 <= image@.height,
    ensures
        s.0 == block_channel_sum(image@, 0, x0 as int, x1 as int, y0 as int, y1 as int),
        s.1 == block_channel_sum(image@, 1, x0 as int, x1 as int, y0 as int, y1 as int),
        s.2 == block_channel_sum(image@, 2, x0 as int, x1 as int, y0 as int, y1 as int),
{
    let ghost img = image@;
    proof {
        lemma_image_wf(image);
    }
    let mut r: u128 = 0;
    let mut g: u128 = 0;
    let mut b: u128 = 0;
    let mut y: u32 = y0;
    while y < y1
        invariant
            y0 <= y <= y1 <= img.height,
            x0 < x1 <= img.width,
            img == image@,
            img.wf(),
            img.width <= u32::MAX,
            r == block_channel_sum(img, 0, x0 as int, x1 as int, y0 as int, y as int),
            g == block_channel_sum(img, 1, x0 as int, x1 as int, y0 as int, y as int),
            b == block_channel_sum(img, 2, x0 as int, x1 as int, y0 as int, y as int),
        decreases y1 - y,
    {
        proof {
            lemma_block_sum_bound(img, 0, x0 as int, x1 as int, y0 as int, y + 1);
            lemma_block_sum_bound(img, 1, x0 as int, x1 as int, y0 as int, y + 1);
            lemma_block_sum_bound(img, 2, x0 as int, x1 as int, y0 as int, y + 1);
        }
        let mut x: u32 = x0;
        while x < x1
            invariant
                y0 <= y < y1 <= img.height,
                x0 <= x <= x1 <= img.width,
                img == image@,
                img.wf(),
                img.width <= u32::MAX,
                r == block_channel_sum(img, 0, x0 as int, x1 as int, y0 as int, y as int)
                    + row_channel_sum(img, 0, y as int, x0 as int, x as int),
                g == block_channel_sum(img, 1, x0 as int, x1 as int, y0 as int, y as int)
                    + row_channel_sum(img, 1, y as int, x0 as int, x as int),
                b == block_channel_sum(img, 2, x0 as int, x1 as int, y0 as int, y as int)
                    + row_channel_sum(img, 2, y as int, x0 as int, x as int),
                block_channel_sum(img, 0, x0 as int, x1 as int, y0 as int, y + 1) <= 1095216660480 * (y + 1 - y0),
                block_channel_sum(img, 1, x0 as int, x1 as int, y0 as int, y + 1) <= 1095216660480 * (y + 1 - y0),
                block_channel_sum(img, 2, x0 as int, x1 as int, y0 as int, y + 1) <= 1095216660480 * (y + 1 - y0),
            decreases x1 - x,
        {
            proof {
                lemma_row_sum_bound(img, 0, y as int, x0 as int, x + 1);
                lemma_row_sum_bound(img, 0, y as int, x + 1, x1 as int);
                lemma_row_sum_bound(img, 1, y as int, x0 as int, x + 1);
                lemma_row_sum_bound(img, 2, y as int, x0 as int, x + 1);
                lemma_row_split(img, 0, y as int, x0 as int, x + 1, x1 as int);
                lemma_row_split(img, 1, y as int, x0 as int, x + 1, x1 as int);
                lemma_row_split(img, 2, y as int, x0 as int, x + 1, x1 as int);
            }
            proof {
                assert(block_channel_sum(img, 0, x0 as int, x1 as int, y0 as int, y + 1)
                    == block_channel_sum(img, 0, x0 as int, x1 as int, y0 as int, y as int)
                    + row_channel_sum(img, 0, y as int, x0 as int, x1 as int));
                assert(block_channel_sum(img, 1, x0 as int, x1 as int, y0 as int, y + 1)
                    == block_channel_sum(img, 1, x0 as int, x1 as int, y0 as int, y as int)
                    + row_channel_sum(img, 1, y as int, x0 as int, x1 as int));
                assert(block_channel_sum(img, 2, x0 as int, x1 as int, y0 as int, y + 1)
                    == block_channel_sum(img, 2, x0 as int, x1 as int, y0 as int, y as int)
                    + row_channel_sum(img, 2, y as int, x0 as int, x1 as int));
                assert(1095216660480 * (y + 1 - y0) <= 4703919738795935662080);
            }
            let p = image.get_pixel(x, y);
            r = r + p.r as u128;
            g = g + p.g as u128;
            b = b + p.b as u128;
            x = x + 1;
        }
        y = y + 1;
    }
    (r, g, b)
}

proof fn lemma_row_split(img: ImageModel, c: int, y: int, x0: int, xm: int, x1: int)
    requires
        x0 <= xm <= x1,
    ensures
        row_channel_sum(img, c, y, x0, x1) == row_channel_sum(img, c, y, x0, xm) + row_channel_sum(
            img,
            c,
            y,
            xm,
            x1,
        ),
    decreases x1 - xm,
{
    if x1 > xm {
        lemma_row_split(img, c, y, x0, xm, x1 - 1);
    }
}

/// `img` with every pixel of columns `x0 .. x1` and rows `y0 .. y1` set to
/// `color`.
pub open spec fn fill_rect(img: ImageModel, x0: int, x1: int, y0: int, y1: int, color: Rgba) -> ImageModel {
    ImageModel {
        width: img.width,
        height: img.height,
        rows: Seq::new(
            img.height,
            |y: int|
                Seq::new(
                    img.width,
                    |x: int|
                        if x0 <= x < x1 && y0 <= y < y1 {
                            color
                        } else {
                            img.rows[y][x]
                        },
                ),
        ),
    }
}

fn fill_block(image: &mut RgbaImage, x0: u32, x1: u32, y0: u32, y1: u32, color: Rgba)
    requires
        x0 <= x1 <= old(image)@.width,
        y0 <= y1 <= old(image)@.height,
    ensures
        final(image)@ == fill_rect(old(image)@, x0 as int, x1 as int, y0 as int, y1 as int, color),
{
    let ghost start = image@;
    proof {
        lemma_image_wf(image);
    }
    let mut y: u32 = y0;
    while y < y1
        invariant
            y0 <= y <= y1 <= start.height,
            x0 <= x1 <= start.width,
            start.wf(),
            image@.width == start.width,
            image@.height == start.height,
            image@.wf(),
            forall|px: int, py: int|
                0 <= px < start.width && 0 <= py < start.height ==> #[trigger] image@.rows[py][px]
                    == if x0 <= px < x1 && y0 <= py < y {
                    color
                } else {
                    start.rows[py][px]
                },
        decreases y1 - y,
    {
        let mut x: u32 = x0;
        while x < x1
            invariant
                y0 <= y < y1 <= start.height,
                x0 <= x <= x1 <= start.width,
                start.wf(),
                image@.width == start.width,
                image@.height == start.height,
                image@.wf(),
                forall|px: int, py: int|
                    0 <= px < start.width && 0 <= py < start.height ==> #[trigger] image@.rows[py][px]
                        == if x0 <= px < x1 && (y0 <= py < y || (py == y && px < x)) {
                        color
                    } else {
                        start.rows[py][px]
                    },
            decreases x1 - x,
        {
            image.put_pixel(x, y, color);
            x = x + 1;
        }
        y = y + 1;
    }
    proof {
        let t = fill_rect(start, x0 as int, x1 as int, y0 as int, y1 as int, color);
        assert forall|py: int| 0 <= py < start.height implies #[trigger] image@.rows[py] =~= t.rows[py] by {}
        assert(image@ =~~= t);
    }
}

/// Replaces each block of a mosaic region by its average colour; see
/// [`mosaic`].  Blocks are laid from `(left, top)` with edge
/// `block_size`.
pub fn pixelate_region(
    image: &mut RgbaImage,
    left: u32,
    top: u32,
    right: u32,
    bottom: u32,
    block_size: u32,
)
    requires
        right <= old(image)@.width,
        bottom <= old(image)@.height,
        block_size >= 1,
    ensures
        final(image)@ == mosaic(
            old(image)@,
            left as int,
            top as int,
            right as int,
            bottom as int,
            block_size as int,
        ),
{
    let ghost start = image@;
    let ghost bs = block_size as int;
    proof {
        lemma_image_wf(image);
    }
    let mut by: u32 = top;
    let ghost mut jy: int = 0;
    while by < bottom
        invariant
            start.wf(),
            right <= start.width,
            bottom <= start.height,
            bs == block_size as int,
            block_size >= 1,
            jy >= 0,
            by >= top,
            by < bottom ==> by == top + jy * bs,
            image@.width == start.width,
            image@.height == start.height,
            image@.wf(),
            forall|px: int, py: int|
                0 <= px < start.width && 0 <= py < start.height ==> #[trigger] image@.rows[py][px]
                    == if left <= px < right && top <= py < bottom && py < by {
                    mosaic_pixel(start, left as int, top as int, right as int, bottom as int, bs, px, py)
                } else {
                    start.rows[py][px]
                },
        decreases bottom - by,
    {
        let bb: u32 = if (by as u64) + (block_size as u64) < bottom as u64 {
            by + block_size
        } else {
            bottom
        };
        let mut bx: u32 = left;
        let ghost mut jx: int = 0;
        while bx < right
            invariant
                start.wf(),
                right <= start.width,
                bottom <= start.height,
                bs == block_size as int,
                block_size >= 1,
                jy >= 0,
                jx >= 0,
                top <= by < bb <= bottom,
                by == top + jy * bs,
                bb == min_int(by + bs, bottom as int),
                bx >= left,
                bx < right ==> bx == left + jx * bs,
                image@.width == start.width,
                image@.height == start.height,
                image@.wf(),
                forall|px: int, py: int|
                    0 <= px < start.width && 0 <= py < start.height ==> #[trigger] image@.rows[py][px]
                        == if left <= px < right && top <= py < bottom && (py < by || (py < bb && px < bx)) {
                        mosaic_pixel(start, left as int, top as int, right as int, bottom as int, bs, px, py)
                    } else {
                        start.rows[py][px]
                    },
            decreases right - bx,
        {
            let br: u32 = if (bx as u64) + (block_size as u64) < right as u64 {
                bx + block_size
            } else {
                right
            };
            let ghost cur = image@;
            proof {
                assert forall|px: int, py: int| bx <= px < br && by <= py < bb implies #[trigger] cur.rows[py][px]
                    == start.rows[py][px] by {}
                lemma_block_sum_agree(cur, start, 0, bx as int, br as int, by as int, bb as int);
                lemma_block_sum_agree(cur, start, 1, bx as int, br as int, by as int, bb as int);
                lemma_block_sum_agree(cur, start, 2, bx as int, br as int, by as int, bb as int);
            }
            let (r, g, b) = block_sums(image, bx, br, by, bb);
            proof {
                assert((br - bx) * (bb - by) <= 4294967296 * 4294967296) by (nonlinear_arith)
                    requires
                        0 < br - bx <= 4294967296,
                        0 < bb - by <= 4294967296,
                ;
                lemma_block_sum_average_bound(start, 0, bx as int, br as int, by as int, bb as int);
                lemma_block_sum_average_bound(start, 1, bx as int, br as int, by as int, bb as int);
                lemma_block_sum_average_bound(start, 2, bx as int, br as int, by as int, bb as int);
            }
            let count: u128 = ((br - bx) as u128) * ((bb - by) as u128);
            proof {
                assert(count > 0) by (nonlinear_arith)
                    requires
                        count == (br - bx) * (bb - by),
                        br > bx,
                        bb > by,
                ;
            }
            let color = Rgba { r: (r / count) as u8, g: (g / count) as u8, b: (b / count) as u8, a: 255 };
            fill_block(image, bx, br, by, bb, color);
            proof {
                assert forall|px: int, py: int| bx <= px < br && by <= py < bb implies mosaic_pixel(
                    start,
                    left as int,
                    top as int,
                    right as int,
                    bottom as int,
                    bs,
                    px,
                    py,
                ) == color by {
                    lemma_block_start(left as int, bs, jx, px);
                    lemma_block_start(top as int, bs, jy, py);
                }
                assert forall|px: int, py: int|
                    0 <= px < start.width && 0 <= py < start.height implies #[trigger] image@.rows[py][px]
                        == if left <= px < right && top <= py < bottom && (py < by || (py < bb && px < br)) {
                        mosaic_pixel(start, left as int, top as int, right as int, bottom as int, bs, px, py)
                    } else {
                        start.rows[py][px]
                    } by {
                    if bx <= px < br && by <= py < bb {
                        assert(mosaic_pixel(start, left as int, top as int, right as int, bottom as int, bs, px, py) == color);
                    }
                }
            }
            bx = br;
            proof {
                assert(left + (jx + 1) * bs == left + jx * bs + bs) by (nonlinear_arith);
                jx = jx + 1;
            }
        }
        by = bb;
        proof {
            assert(top + (jy + 1) * bs == top + jy * bs + bs) by (nonlinear_arith);
            jy = jy + 1;
        }
    }
    proof {
        let t = mosaic(start, left as int, top as int, right as int, bottom as int, bs);
        assert forall|py: int| 0 <= py < start.height implies #[trigger] image@.rows[py] =~= t.rows[py] by {}
        assert(image@ =~~= t);
    }
}

} // verus!
