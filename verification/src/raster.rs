//! An owned RGBA8 pixel buffer and its mathematical model.
use vstd::prelude::*;

verus! {

/// One pixel: red, green, blue and alpha channels.
#[derive(Clone, Copy, PartialEq, Eq, Debug, Structural)]
pub struct Rgba {
    pub r: u8,
    pub g: u8,
    pub b: u8,
    pub a: u8,
}

/// The model of an image: its dimensions and its pixels, row by row.
#[verifier::ext_equal]
pub struct ImageModel {
    pub width: nat,
    pub height: nat,
    pub rows: Seq<Seq<Rgba>>,
}

/// The pixel stored at pixel index `i` of a row-major RGBA byte buffer.
pub open spec fn pixel_at(data: Seq<u8>, i: int) -> Rgba {
    Rgba { r: data[4 * i], g: data[4 * i + 1], b: data[4 * i + 2], a: data[4 * i + 3] }
}

/// The channel `c` (0 = red .. 3 = alpha) of a pixel.
pub open spec fn channel(p: Rgba, c: int) -> u8 {
    if c == 0 {
        p.r
    } else if c == 1 {
        p.g
    } else if c == 2 {
        p.b
    } else {
        p.a
    }
}

impl ImageModel {
    /// The image described by a row-major RGBA byte buffer.
    pub open spec fn from_bytes(width: nat, height: nat, data: Seq<u8>) -> ImageModel {
        ImageModel {
            width,
            height,
            rows: Seq::new(
                height,
                |y: int| Seq::new(width, |x: int| pixel_at(data, y * width + x)),
            ),
        }
    }

    /// The row-major RGBA bytes of the image.
    pub open spec fn bytes(self) -> Seq<u8> {
        Seq::new(
            4 * (self.width * self.height),
            |k: int|
                channel(
                    self.rows[(k / 4) / (self.width as int)][(k / 4) % (self.width as int)],
                    k % 4,
                ),
        )
    }

    /// Rows and columns agree with the dimensions.
    pub open spec fn wf(self) -> bool {
        &&& self.rows.len() == self.height
        &&& forall|y: int| 0 <= y < self.height ==> #[trigger] self.rows[y].len() == self.width
    }

    /// The pixel at column `x` of row `y`.
    pub open spec fn pixel(self, x: int, y: int) -> Rgba {
        self.rows[y][x]
    }

    /// The same image with one pixel replaced.
    pub open spec fn with_pixel(self, x: int, y: int, p: Rgba) -> ImageModel {
        ImageModel {
            width: self.width,
            height: self.height,
            rows: self.rows.update(y, self.rows[y].update(x, p)),
        }
    }

    /// The `w` by `h` sub-image whose top-left corner is at `(x, y)`.
    pub open spec fn crop(self, x: int, y: int, w: nat, h: nat) -> ImageModel {
        ImageModel {
            width: w,
            height: h,
            rows: Seq::new(h, |j: int| Seq::new(w, |i: int| self.rows[y + j][x + i])),
        }
    }

    /// An image of the given size whose every pixel is `p`.
    pub open spec fn filled(width: nat, height: nat, p: Rgba) -> ImageModel {
        ImageModel {
            width,
            height,
            rows: Seq::new(height, |y: int| Seq::new(width, |x: int| p)),
        }
    }
}

pub proof fn lemma_pixel_index(w: int, h: int, x: int, y: int)
    requires
        0 <= x < w,
        0 <= y < h,
    ensures
        0 <= y * w + x < w * h,
        4 * (y * w + x) + 3 < 4 * (w * h),
{
    assert(y * w + x < w * h) by (nonlinear_arith)
        requires
            0 <= x < w,
            0 <= y < h,
    ;
    assert(0 <= y * w) by (nonlinear_arith)
        requires
            0 <= x < w,
            0 <= y < h,
    ;
}

/// The bytes of the image described by a buffer are that buffer.
pub proof fn lemma_bytes_of_buffer(w: nat, h: nat, data: Seq<u8>)
    requires
        data.len() == 4 * (w * h),
    ensures
        ImageModel::from_bytes(w, h, data).bytes() == data,
{
    let m = ImageModel::from_bytes(w, h, data);
    assert forall|k: int| 0 <= k < data.len() implies #[trigger] m.bytes()[k] == data[k] by {
        let i = k / 4;
        let c = k % 4;
        assert(k == 4 * i + c && 0 <= c < 4);
        assert(0 <= i < w * h);
        assert(w > 0) by (nonlinear_arith)
            requires
                0 <= i < w * h,
        ;
        let y = i / (w as int);
        let x = i % (w as int);
        assert(i == y * w + x && 0 <= x < w) by (nonlinear_arith)
            requires
                w > 0,
                y == i / (w as int),
                x == i % (w as int),
        ;
        assert(0 <= y < h) by (nonlinear_arith)
            requires
                w > 0,
                0 <= i < w * h,
                y == i / (w as int),
        ;
        assert(m.rows[y][x] == pixel_at(data, i));
    }
    assert(m.bytes() =~= data);
}

pub proof fn lemma_pixel_index_distinct(w: int, x1: int, y1: int, x2: int, y2: int)
    requires
        0 <= x1 < w,
        0 <= x2 < w,
        x1 != x2 || y1 != y2,
    ensures
        y1 * w + x1 != y2 * w + x2,
{
    if y1 == y2 {
    } else if y1 < y2 {
        assert(y1 * w + w <= y2 * w) by (nonlinear_arith)
            requires
                y1 < y2,
                0 < w,
        ;
    } else {
        assert(y2 * w + w <= y1 * w) by (nonlinear_arith)
            requires
                y2 < y1,
                0 < w,
        ;
    }
}

/// An owned image of 8-bit RGBA pixels stored row by row.
pub struct RgbaImage {
    width: u32,
    height: u32,
    data: Vec<u8>,
}

impl View for RgbaImage {
    type V = ImageModel;

    closed spec fn view(&self) -> ImageModel {
        ImageModel::from_bytes(self.width as nat, self.height as nat, self.data@)
    }
}

/// Every image model is well formed and its dimensions fit in `u32`.
pub broadcast proof fn lemma_image_wf(img: &RgbaImage)
    ensures
        #[trigger] img@.wf(),
        img@.width <= u32::MAX,
        img@.height <= u32::MAX,
{
}

impl RgbaImage {
    #[verifier::type_invariant]
    spec fn well_formed(&self) -> bool {
        self.data@.len() == 4 * ((self.width as int) * (self.height as int))
    }

    /// The raw buffer size stays within the address space.
    pub open spec fn fits(&self) -> bool {
        4 * (self@.width * self@.height) <= usize::MAX
    }

    /// An image of the given size with every byte zero.
    pub fn new(width: u32, height: u32) -> (img: RgbaImage)
        requires
            4 * (width * height) <= usize::MAX,
        ensures
            img@ == ImageModel::filled(width as nat, height as nat, Rgba { r: 0, g: 0, b: 0, a: 0 }),
    {
        let wh: usize = (width as usize) * (height as usize);
        let n: usize = 4 * wh;
        let mut data: Vec<u8> = Vec::with_capacity(n);
        while data.len() < n
            invariant
                data@.len() <= n,
                forall|k: int| 0 <= k < data@.len() ==> data@[k] == 0,
            decreases n - data@.len(),
        {
            data.push(0);
        }
        let img = RgbaImage { width, height, data };
        proof {
            let m = img@;
            let f = ImageModel::filled(width as nat, height as nat, Rgba { r: 0, g: 0, b: 0, a: 0 });
            assert forall|y: int| 0 <= y < height implies #[trigger] m.rows[y] =~= f.rows[y] by {
                assert forall|x: int| 0 <= x < width implies m.rows[y][x] == f.rows[y][x] by {
                    lemma_pixel_index(width as int, height as int, x, y);
                }
            }
            assert(m =~~= f);
        }
        img
    }

    /// Wraps a row-major RGBA buffer; `None` when its length is not
    /// four bytes per pixel.
    pub fn from_raw(width: u32, height: u32, data: Vec<u8>) -> (img: Option<RgbaImage>)
        ensures
            img is Some <==> data@.len() == 4 * (width * height),
            img matches Some(img) ==> img@ == ImageModel::from_bytes(
                width as nat,
                height as nat,
                data@,
            ),
    {
        let w: u64 = width as u64;
        let h: u64 = height as u64;
        proof {
            assert(w * h <= u32::MAX * u32::MAX) by (nonlinear_arith)
                requires
                    w <= u32::MAX,
                    h <= u32::MAX,
            ;
        }
        let pixels: u64 = w * h;
        let len: usize = data.len();
        if pixels > (usize::MAX / 4) as u64 {
            None
        } else if len != 4 * (pixels as usize) {
            None
        } else {
            Some(RgbaImage { width, height, data })
        }
    }

    pub fn width(&self) -> (w: u32)
        ensures
            w == self@.width,
            self.fits(),
    {
        proof {
            use_type_invariant(self);
        }
        let _ = self.data.len();
        self.width
    }

    pub fn height(&self) -> (h: u32)
        ensures
            h == self@.height,
            self.fits(),
    {
        proof {
            use_type_invariant(self);
        }
        let _ = self.data.len();
        self.height
    }

    pub fn dimensions(&self) -> (d: (u32, u32))
        ensures
            d.0 == self@.width,
            d.1 == self@.height,
            self.fits(),
    {
        (self.width(), self.height())
    }

    /// The row-major RGBA bytes of the image.
    pub fn as_raw(&self) -> (data: &[u8])
        ensures
            data@.len() == 4 * (self@.width * self@.height),
            data@ == self@.bytes(),
            ImageModel::from_bytes(self@.width, self@.height, data@) == self@,
    {
        proof {
            use_type_invariant(self);
            lemma_bytes_of_buffer(self.width as nat, self.height as nat, self.data@);
        }
        self.data.as_slice()
    }

    /// Gives up the image and returns its row-major RGBA bytes.
    pub fn into_raw(self) -> (data: Vec<u8>)
        ensures
            data@.len() == 4 * (self@.width * self@.height),
            data@ == self@.bytes(),
    {
        proof {
            use_type_invariant(&self);
            lemma_bytes_of_buffer(self.width as nat, self.height as nat, self.data@);
        }
        self.data
    }

    fn byte_index(&self, x: u32, y: u32) -> (i: usize)
        requires
            x < self@.width,
            y < self@.height,
        ensures
            i == 4 * (y * self@.width + x),
            i + 3 < self.data@.len(),
    {
        proof {
            use_type_invariant(self);
            lemma_pixel_index(self.width as int, self.height as int, x as int, y as int);
        }
        let _ = self.data.len();
        let row: usize = (y as usize) * (self.width as usize);
        4 * (row + (x as usize))
    }

    /// The pixel at column `x` of row `y`.
    pub fn get_pixel(&self, x: u32, y: u32) -> (p: Rgba)
        requires
            x < self@.width,
            y < self@.height,
        ensures
            p == self@.pixel(x as int, y as int),
    {
        let i = self.byte_index(x, y);
        Rgba { r: self.data[i], g: self.data[i + 1], b: self.data[i + 2], a: self.data[i + 3] }
    }

    /// Replaces the pixel at column `x` of row `y`.
    pub fn put_pixel(&mut self, x: u32, y: u32, p: Rgba)
        requires
            x < old(self)@.width,
            y < old(self)@.height,
        ensures
            final(self)@ == old(self)@.with_pixel(x as int, y as int, p),
    {
        proof {
            use_type_invariant(&*self);
        }
        let i = self.byte_index(x, y);
        let ghost old_data = self.data@;
        self.data[i] = p.r;
        self.data[i + 1] = p.g;
        self.data[i + 2] = p.b;
        self.data[i + 3] = p.a;
        proof {
            let w = self.width as int;
            let h = self.height as int;
            let m = self@;
            let e = ImageModel::from_bytes(w as nat, h as nat, old_data).with_pixel(
                x as int,
                y as int,
                p,
            );
            assert forall|yy: int| 0 <= yy < h implies #[trigger] m.rows[yy] =~= e.rows[yy] by {
                assert forall|xx: int| 0 <= xx < w implies m.rows[yy][xx] == e.rows[yy][xx] by {
                    lemma_pixel_index(w, h, xx, yy);
                    if xx != x || yy != y {
                        lemma_pixel_index_distinct(w, xx, yy, x as int, y as int);
                    }
                }
            }
            assert(m =~~= e);
        }
    }

    /// A copy of the image.
    pub fn duplicate(&self) -> (out: RgbaImage)
        ensures
            out@ == self@,
    {
        let w = self.width();
        let h = self.height();
        let out = self.crop(0, 0, w, h);
        proof {
            lemma_image_wf(self);
            let c = self@.crop(0, 0, w as nat, h as nat);
            assert forall|j: int| 0 <= j < h implies #[trigger] c.rows[j] =~= self@.rows[j] by {}
            assert(c =~~= self@);
        }
        out
    }

    /// The `w` by `h` sub-image whose top-left corner is at `(x, y)`.
    pub fn crop(&self, x: u32, y: u32, w: u32, h: u32) -> (out: RgbaImage)
        requires
            x + w <= self@.width,
            y + h <= self@.height,
        ensures
            out@ == self@.crop(x as int, y as int, w as nat, h as nat),
    {
        proof {
            use_type_invariant(self);
            let _ = self.data@.len();
            assert(w * h <= self@.width * self@.height) by (nonlinear_arith)
                requires
                    w <= self@.width,
                    h <= self@.height,
            ;
        }
        let _ = self.width();
        let mut out = RgbaImage::new(w, h);
        let ghost src = self@;
        proof {
            lemma_image_wf(self);
            lemma_image_wf(&out);
        }
        let mut j: u32 = 0;
        while j < h
            invariant
                j <= h,
                y + h <= src.height,
                x + w <= src.width,
                src == self@,
                src.wf(),
                out@.width == w,
                out@.height == h,
                out@.wf(),
                forall|jj: int, ii: int|
                    0 <= jj < j && 0 <= ii < w ==> #[trigger] out@.rows[jj][ii] == src.rows[y
                        + jj][x + ii],
            decreases h - j,
        {
            let mut i: u32 = 0;
            while i < w
                invariant
                    i <= w,
                    j < h,
                    y + h <= src.height,
                    x + w <= src.width,
                    src == self@,
                    src.wf(),
                    out@.width == w,
                    out@.height == h,
                    out@.wf(),
                    forall|jj: int, ii: int|
                        0 <= jj < j && 0 <= ii < w ==> #[trigger] out@.rows[jj][ii] == src.rows[y
                            + jj][x + ii],
                    forall|ii: int|
                        0 <= ii < i ==> #[trigger] out@.rows[j as int][ii] == src.rows[y + j][x
                            + ii],
                decreases w - i,
            {
                let p = self.get_pixel(x + i, y + j);
                out.put_pixel(i, j, p);
                i += 1;
            }
            j += 1;
        }
        proof {
            let c = src.crop(x as int, y as int, w as nat, h as nat);
            assert forall|jj: int| 0 <= jj < h implies #[trigger] out@.rows[jj] =~= c.rows[jj] by {
                assert forall|ii: int| 0 <= ii < w implies out@.rows[jj][ii] == c.rows[jj][ii] by {
                }
            }
            assert(out@ =~~= c);
        }
        out
    }
}

} // verus!
