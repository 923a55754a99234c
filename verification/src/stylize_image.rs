//! Small, bounded deterministic image kernels of the reference repair study.
use vstd::prelude::*;
use crate::render::trunc_div;
use crate::geometry::{
    component_matches, connected_components, count_label, is_binary, labels_settled, lemma_grid_bound,
    lemma_index, lemma_position, on_path, Connectivity, Raster, EDGE_OFF, EDGE_ON,
};

verus! {

/// One RGB pixel.
pub type Rgb = [u8; 3];

/// Fail-closed stylization error.
#[derive(Clone, Debug, Eq, PartialEq)]
pub enum StylizeError {
    /// An input or report violates a contract invariant.
    Invalid(String),
    /// PNG decoding failed; the decoder's own description.
    Png(String),
}

impl StylizeError {
    /// Human-readable description.
    pub fn message(&self) -> (r: &str)
        ensures
            r@ == (match *self {
                StylizeError::Invalid(m) => m@,
                StylizeError::Png(m) => m@,
            }),
    {
        match self {
            StylizeError::Invalid(message) => message.as_str(),
            StylizeError::Png(message) => message.as_str(),
        }
    }
}

fn invalid(message: &str) -> (e: StylizeError)
    ensures
        e matches StylizeError::Invalid(m) && m@ == message@,
{
    StylizeError::Invalid(message.to_string())
}

/// Tightly packed RGB image.
#[derive(Clone, Debug, Eq, PartialEq)]
pub struct RgbImage {
    /// Pixel width.
    pub width: usize,
    /// Pixel height.
    pub height: usize,
    /// Row-major RGB pixels.
    pub pixels: Vec<Rgb>,
}

/// Accepted image dimensions with one pixel per grid position.
pub open spec fn image_ok(img: RgbImage) -> bool {
    1 <= img.width <= 4096 && 1 <= img.height <= 4096 && img.pixels@.len() == img.width * img.height
}

impl RgbImage {
    /// Construct an image after checking its dimensions and pixel count.
    pub fn new(width: usize, height: usize, pixels: Vec<Rgb>) -> (r: Result<RgbImage, StylizeError>)
        ensures
            r is Ok <==> (1 <= width <= 4096 && 1 <= height <= 4096 && pixels@.len() == width * height),
            r matches Ok(img) ==> img.width == width && img.height == height && img.pixels@ == pixels@,
    {
        if width == 0 || height == 0 || width > 4_096 || height > 4_096 {
            return Err(invalid("RGB image dimensions are invalid"));
        }
        proof {
            assert(width * height <= 4096 * 4096) by (nonlinear_arith)
                requires
                    width <= 4096,
                    height <= 4096,
            ;
        }
        if width * height != pixels.len() {
            return Err(invalid("RGB image dimensions are invalid"));
        }
        Ok(RgbImage { width, height, pixels })
    }
}

/// Weighted 8-bit luminance.
pub open spec fn luma(p: Rgb) -> u8 {
    ((54 * p[0] + 183 * p[1] + 19 * p[2]) / 256) as u8
}

/// Weighted 8-bit luminance of a pixel.
pub fn luminance(pixel: Rgb) -> (r: u8)
    ensures
        r == luma(pixel),
{
    let value = 54 * pixel[0] as u32 + 183 * pixel[1] as u32 + 19 * pixel[2] as u32;
    (value / 256) as u8
}

fn copy_pixels(pixels: &Vec<Rgb>) -> (r: Vec<Rgb>)
    ensures
        r@ == pixels@,
{
    let mut out: Vec<Rgb> = Vec::new();
    let mut i: usize = 0;
    while i < pixels.len()
        invariant
            i <= pixels@.len(),
            out@ == pixels@.subrange(0, i as int),
        decreases pixels@.len() - i,
    {
        out.push(pixels[i]);
        proof {
            assert(out@ =~= pixels@.subrange(0, i + 1));
        }
        i += 1;
    }
    proof {
        assert(out@ =~= pixels@);
    }
    out
}

fn luminance_all(pixels: &Vec<Rgb>) -> (r: Vec<u8>)
    ensures
        r@.len() == pixels@.len(),
        forall|i: int| 0 <= i < r@.len() ==> #[trigger] r@[i] == luma(pixels@[i]),
{
    let mut out: Vec<u8> = Vec::new();
    let mut i: usize = 0;
    while i < pixels.len()
        invariant
            i <= pixels@.len(),
            out@.len() == i,
            forall|j: int| 0 <= j < i ==> #[trigger] out@[j] == luma(pixels@[j]),
        decreases pixels@.len() - i,
    {
        out.push(luminance(pixels[i]));
        i += 1;
    }
    out
}

/// Rounded mean of four channel samples.
pub open spec fn mean4(a: u8, b: u8, c: u8, d: u8) -> u8 {
    ((a + b + c + d + 2) / 4) as u8
}

/// The 2x2 reduction of one output pixel.
pub open spec fn reduced_pixel(img: RgbImage, x: int, y: int) -> Rgb {
    let w = img.width as int;
    let p0 = img.pixels@[(2 * y) * w + 2 * x];
    let p1 = img.pixels@[(2 * y) * w + 2 * x + 1];
    let p2 = img.pixels@[(2 * y + 1) * w + 2 * x];
    let p3 = img.pixels@[(2 * y + 1) * w + 2 * x + 1];
    [mean4(p0[0], p1[0], p2[0], p3[0]), mean4(p0[1], p1[1], p2[1], p3[1]), mean4(p0[2], p1[2], p2[2], p3[2])]
}

/// Halve an image by averaging each 2x2 block.
pub fn reduce_rgb_2x(image: &RgbImage) -> (r: Result<RgbImage, StylizeError>)
    requires
        image_ok(*image),
    ensures
        r is Ok <==> (image.width % 2 == 0 && image.height % 2 == 0),
        r matches Ok(out) ==> {
            &&& out.width == image.width / 2 && out.height == image.height / 2
            &&& out.pixels@.len() == out.width * out.height
            &&& forall|i: int|
                0 <= i < out.pixels@.len() ==> #[trigger] out.pixels@[i] == reduced_pixel(
                    *image,
                    i % out.width as int,
                    i / out.width as int,
                )
        },
{
    if image.width % 2 != 0 || image.height % 2 != 0 {
        return Err(invalid("logical pixel reduction requires even dimensions"));
    }
    let width = image.width / 2;
    let height = image.height / 2;
    let ghost w = width as int;
    let ghost h = height as int;
    let mut pixels: Vec<Rgb> = Vec::new();
    let mut y: usize = 0;
    while y < height
        invariant
            image_ok(*image),
            width == image.width / 2 && height == image.height / 2,
            image.width == 2 * width && image.height == 2 * height,
            w == width as int && h == height as int,
            y <= height,
            pixels@.len() == y * w,
            forall|i: int| 0 <= i < y * w ==> #[trigger] pixels@[i] == reduced_pixel(*image, i % w, i / w),
        decreases height - y,
    {
        let mut x: usize = 0;
        while x < width
            invariant
                image_ok(*image),
                width == image.width / 2 && height == image.height / 2,
                image.width == 2 * width && image.height == 2 * height,
                w == width as int && h == height as int,
                y < height,
                x <= width,
                pixels@.len() == y * w + x,
                forall|i: int| 0 <= i < y * w + x ==> #[trigger] pixels@[i] == reduced_pixel(*image, i % w, i / w),
            decreases width - x,
        {
            proof {
                lemma_index(w, h, x as int, y as int);
                assert((2 * y + 1) * image.width + 2 * x + 1 < image.width * image.height) by (nonlinear_arith)
                    requires
                        y < height,
                        x < width,
                        image.width == 2 * width,
                        image.height == 2 * height,
                ;
                assert((2 * y) * image.width + image.width == (2 * y + 1) * image.width) by (nonlinear_arith);
                assert((2 * y) * image.width + image.width < image.pixels@.len());
            }
            let w2 = image.width;
            let y2 = 2 * y;
            let n = image.pixels.len();
            assert(y2 * w2 + w2 < n);
            let row0 = y2 * w2;
            let row1 = row0 + w2;
            let p0 = image.pixels[row0 + 2 * x];
            let p1 = image.pixels[row0 + 2 * x + 1];
            let p2 = image.pixels[row1 + 2 * x];
            let p3 = image.pixels[row1 + 2 * x + 1];
            let r0 = ((p0[0] as u16 + p1[0] as u16 + p2[0] as u16 + p3[0] as u16 + 2) / 4) as u8;
            let r1 = ((p0[1] as u16 + p1[1] as u16 + p2[1] as u16 + p3[1] as u16 + 2) / 4) as u8;
            let r2 = ((p0[2] as u16 + p1[2] as u16 + p2[2] as u16 + p3[2] as u16 + 2) / 4) as u8;
            pixels.push([r0, r1, r2]);
            proof {
                assert(pixels@[y * w + x] =~= reduced_pixel(*image, x as int, y as int));
            }
            x += 1;
        }
        proof {
            assert((y + 1) * w == y * w + w) by (nonlinear_arith);
        }
        y += 1;
    }
    proof {
        assert(pixels@.len() == w * h) by (nonlinear_arith)
            requires
                pixels@.len() == height * w,
                height == h,
        ;
    }
    RgbImage::new(width, height, pixels)
}

/// Sum of `v[y * w + x]` for `a <= x < b`.
pub open spec fn row_sum(v: Seq<u8>, w: int, y: int, a: int, b: int) -> int
    decreases b - a,
{
    if b <= a {
        0
    } else {
        row_sum(v, w, y, a, b - 1) + v[y * w + b - 1]
    }
}

/// Sum of `v[y * w + x]` for `a <= y < b`.
pub open spec fn col_sum(v: Seq<u8>, w: int, x: int, a: int, b: int) -> int
    decreases b - a,
{
    if b <= a {
        0
    } else {
        col_sum(v, w, x, a, b - 1) + v[(b - 1) * w + x]
    }
}

/// First index of a clamped window of radius `r` around `x`.
pub open spec fn span_lo(x: int, r: int) -> int {
    if x >= r { x - r } else { 0 }
}

/// One past the last index of a clamped window of radius `r` around `x` in `[0, n)`.
pub open spec fn span_hi(x: int, r: int, n: int) -> int {
    if x + r + 1 <= n { x + r + 1 } else { n }
}

/// Rounded mean of a sum over `c` samples.
pub open spec fn rounded_mean(sum: int, c: int) -> u8 {
    ((sum + c / 2) / c) as u8
}

/// Horizontal box mean at `(x, y)`.
pub open spec fn hmean(v: Seq<u8>, w: int, r: int, x: int, y: int) -> u8 {
    let l = span_lo(x, r);
    let rt = span_hi(x, r, w);
    rounded_mean(row_sum(v, w, y, l, rt), rt - l)
}

/// Vertical box mean at `(x, y)`.
pub open spec fn vmean(v: Seq<u8>, w: int, h: int, r: int, x: int, y: int) -> u8 {
    let t = span_lo(y, r);
    let b = span_hi(y, r, h);
    rounded_mean(col_sum(v, w, x, t, b), b - t)
}

/// The horizontal pass of the separable box blur.
pub open spec fn blur_rows(v: Seq<u8>, w: int, h: int, r: int) -> Seq<u8> {
    Seq::new((w * h) as nat, |i: int| hmean(v, w, r, i % w, i / w))
}

/// Separable box blur with per-pass rounding and clamped windows.
pub open spec fn box_blur_spec(v: Seq<u8>, w: int, h: int, r: int) -> Seq<u8> {
    let hz = blur_rows(v, w, h, r);
    Seq::new((w * h) as nat, |i: int| vmean(hz, w, h, r, i % w, i / w))
}

proof fn lemma_row_sum_split(v: Seq<u8>, w: int, y: int, a: int, m: int, b: int)
    requires
        a <= m <= b,
    ensures
        row_sum(v, w, y, a, b) == row_sum(v, w, y, a, m) + row_sum(v, w, y, m, b),
    decreases b - m,
{
    if m < b {
        lemma_row_sum_split(v, w, y, a, m, b - 1);
    }
}

proof fn lemma_col_sum_split(v: Seq<u8>, w: int, x: int, a: int, m: int, b: int)
    requires
        a <= m <= b,
    ensures
        col_sum(v, w, x, a, b) == col_sum(v, w, x, a, m) + col_sum(v, w, x, m, b),
    decreases b - m,
{
    if m < b {
        lemma_col_sum_split(v, w, x, a, m, b - 1);
    }
}

proof fn lemma_row_sum_bound(v: Seq<u8>, w: int, y: int, a: int, b: int)
    requires
        a <= b,
    ensures
        0 <= row_sum(v, w, y, a, b) <= 255 * (b - a),
    decreases b - a,
{
    if a < b {
        lemma_row_sum_bound(v, w, y, a, b - 1);
    }
}

proof fn lemma_col_sum_bound(v: Seq<u8>, w: int, x: int, a: int, b: int)
    requires
        a <= b,
    ensures
        0 <= col_sum(v, w, x, a, b) <= 255 * (b - a),
    decreases b - a,
{
    if a < b {
        lemma_col_sum_bound(v, w, x, a, b - 1);
    }
}

proof fn lemma_rounded_mean_fits(sum: int, c: int)
    requires
        c >= 1,
        0 <= sum <= 255 * c,
    ensures
        0 <= (sum + c / 2) / c <= 255,
{
    assert(0 <= (sum + c / 2) / c <= 255) by (nonlinear_arith)
        requires
            c >= 1,
            0 <= sum <= 255 * c,
            c / 2 < c,
            c / 2 >= 0,
    ;
}

/// Window bounds `[lo, hi)` of radius `radius` around `x` in `[0, n)`, without overflow.
fn clamped_window(x: usize, radius: usize, n: usize) -> (r: (usize, usize))
    requires
        x < n,
    ensures
        r.0 == span_lo(x as int, radius as int),
        r.1 == span_hi(x as int, radius as int, n as int),
        r.0 <= x < r.1 <= n,
{
    let lo = if x >= radius { x - radius } else { 0 };
    let hi = if radius >= n - x { n } else { x + radius + 1 };
    (lo, hi)
}

/// Separable box blur with rounding after each pass and clamped edges.
pub fn box_blur(values: &Vec<u8>, width: usize, height: usize, radius: usize) -> (r: Vec<u8>)
    requires
        1 <= width <= 4096,
        1 <= height <= 4096,
        values@.len() == width * height,
    ensures
        r@ == box_blur_spec(values@, width as int, height as int, radius as int),
{
    let ghost v = values@;
    let ghost w = width as int;
    let ghost h = height as int;
    let ghost rr = radius as int;
    proof {
        lemma_grid_bound(w, h);
    }
    let mut horizontal: Vec<u8> = Vec::new();
    let mut y: usize = 0;
    while y < height
        invariant
            1 <= width <= 4096,
            1 <= height <= 4096,
            values@ == v,
            v.len() == w * h,
            w == width as int && h == height as int && rr == radius as int,
            y <= height,
            horizontal@.len() == y * w,
            forall|i: int| 0 <= i < y * w ==> #[trigger] horizontal@[i] == hmean(v, w, rr, i % w, i / w),
        decreases height - y,
    {
        let mut prefix: Vec<u32> = Vec::new();
        prefix.push(0);
        let mut x: usize = 0;
        while x < width
            invariant
                1 <= width <= 4096,
                1 <= height <= 4096,
                values@ == v,
                v.len() == w * h,
                w == width as int && h == height as int,
                y < height,
                x <= width,
                prefix@.len() == x + 1,
                forall|k: int| 0 <= k <= x ==> #[trigger] prefix@[k] == row_sum(v, w, y as int, 0, k),
            decreases width - x,
        {
            proof {
                lemma_index(w, h, x as int, y as int);
                lemma_grid_bound(w, h);
                lemma_row_sum_bound(v, w, y as int, 0, x as int);
                lemma_row_sum_bound(v, w, y as int, 0, x + 1);
            }
            let next = prefix[x] + values[y * width + x] as u32;
            prefix.push(next);
            x += 1;
        }
        let mut x: usize = 0;
        while x < width
            invariant
                1 <= width <= 4096,
                1 <= height <= 4096,
                values@ == v,
                v.len() == w * h,
                w == width as int && h == height as int && rr == radius as int,
                y < height,
                x <= width,
                prefix@.len() == width + 1,
                forall|k: int| 0 <= k <= width ==> #[trigger] prefix@[k] == row_sum(v, w, y as int, 0, k),
                horizontal@.len() == y * w + x,
                forall|i: int| 0 <= i < y * w + x ==> #[trigger] horizontal@[i] == hmean(v, w, rr, i % w, i / w),
            decreases width - x,
        {
            let (left, right) = clamped_window(x, radius, width);
            proof {
                lemma_index(w, h, x as int, y as int);
                lemma_row_sum_split(v, w, y as int, 0, left as int, right as int);
                lemma_row_sum_bound(v, w, y as int, left as int, right as int);
                lemma_row_sum_bound(v, w, y as int, 0, left as int);
                lemma_rounded_mean_fits(row_sum(v, w, y as int, left as int, right as int), right - left);
            }
            let count = (right - left) as u32;
            let total = prefix[right] - prefix[left];
            let mean = ((total + count / 2) / count) as u8;
            horizontal.push(mean);
            proof {
                assert(horizontal@[y * w + x] == hmean(v, w, rr, x as int, y as int));
            }
            x += 1;
        }
        proof {
            assert((y + 1) * w == y * w + w) by (nonlinear_arith);
        }
        y += 1;
    }
    let ghost hz = horizontal@;
    proof {
        assert(h * w == w * h) by (nonlinear_arith);
        assert(hz =~= blur_rows(v, w, h, rr));
    }
    let mut columns: Vec<u32> = Vec::new();
    let mut x: usize = 0;
    while x < width
        invariant
            1 <= width <= 4096,
            w == width as int,
            x <= width,
            columns@.len() == x,
            forall|j: int| 0 <= j < x ==> #[trigger] columns@[j] == 0,
        decreases width - x,
    {
        columns.push(0);
        x += 1;
    }
    let mut k: usize = 0;
    while k < height
        invariant
            1 <= width <= 4096,
            1 <= height <= 4096,
            horizontal@ == hz,
            hz.len() == w * h,
            w == width as int && h == height as int,
            k <= height,
            columns@.len() == (k + 1) * w,
            forall|kk: int, j: int| 0 <= kk <= k && 0 <= j < w ==> #[trigger] columns@[kk * w + j] == col_sum(hz, w, j, 0, kk),
        decreases height - k,
    {
        let mut j: usize = 0;
        while j < width
            invariant
                1 <= width <= 4096,
                1 <= height <= 4096,
                horizontal@ == hz,
                hz.len() == w * h,
                w == width as int && h == height as int,
                k < height,
                j <= width,
                columns@.len() == (k + 1) * w + j,
                forall|kk: int, jj: int| 0 <= kk <= k && 0 <= jj < w ==> #[trigger] columns@[kk * w + jj] == col_sum(hz, w, jj, 0, kk),
                forall|jj: int| 0 <= jj < j ==> #[trigger] columns@[(k + 1) * w + jj] == col_sum(hz, w, jj, 0, k + 1),
            decreases width - j,
        {
            proof {
                lemma_index(w, h, j as int, k as int);
                lemma_col_sum_bound(hz, w, j as int, 0, k as int);
                assert(k * w + j < (k + 1) * w) by (nonlinear_arith)
                    requires j < w;
                assert((k + 1) * w + j <= (h + 1) * w) by (nonlinear_arith)
                    requires k < h, j < w;
                assert((h + 1) * w <= 4097 * 4096) by (nonlinear_arith)
                    requires 0 <= h <= 4096, 1 <= w <= 4096;
            }
            let next = columns[k * width + j] + horizontal[k * width + j] as u32;
            columns.push(next);
            proof {
                assert forall|kk: int, jj: int| 0 <= kk <= k && 0 <= jj < w implies #[trigger] columns@[kk * w + jj] == col_sum(hz, w, jj, 0, kk) by {
                    assert(kk * w + jj < (k + 1) * w) by (nonlinear_arith)
                        requires 0 <= kk <= k, 0 <= jj < w;
                }
            }
            j += 1;
        }
        proof {
            assert((k + 2) * w == (k + 1) * w + w) by (nonlinear_arith);
            assert forall|kk: int, jj: int| 0 <= kk <= k + 1 && 0 <= jj < w implies #[trigger] columns@[kk * w + jj] == col_sum(hz, w, jj, 0, kk) by {
                if kk == k + 1 {
                    assert(columns@[(k + 1) * w + jj] == col_sum(hz, w, jj, 0, k + 1));
                }
            }
        }
        k += 1;
    }
    let mut output: Vec<u8> = Vec::new();
    let mut y: usize = 0;
    while y < height
        invariant
            1 <= width <= 4096,
            1 <= height <= 4096,
            horizontal@ == hz,
            hz.len() == w * h,
            w == width as int && h == height as int && rr == radius as int,
            columns@.len() == (h + 1) * w,
            forall|kk: int, j: int| 0 <= kk <= h && 0 <= j < w ==> #[trigger] columns@[kk * w + j] == col_sum(hz, w, j, 0, kk),
            y <= height,
            output@.len() == y * w,
            forall|i: int| 0 <= i < y * w ==> #[trigger] output@[i] == vmean(hz, w, h, rr, i % w, i / w),
        decreases height - y,
    {
        let (top, bottom) = clamped_window(y, radius, height);
        let mut x: usize = 0;
        while x < width
            invariant
                1 <= width <= 4096,
                1 <= height <= 4096,
                horizontal@ == hz,
                hz.len() == w * h,
                w == width as int && h == height as int && rr == radius as int,
                columns@.len() == (h + 1) * w,
                forall|kk: int, j: int| 0 <= kk <= h && 0 <= j < w ==> #[trigger] columns@[kk * w + j] == col_sum(hz, w, j, 0, kk),
                y < height,
                top == span_lo(y as int, rr) && bottom == span_hi(y as int, rr, h),
                top <= y < bottom <= height,
                x <= width,
                output@.len() == y * w + x,
                forall|i: int| 0 <= i < y * w + x ==> #[trigger] output@[i] == vmean(hz, w, h, rr, i % w, i / w),
            decreases width - x,
        {
            proof {
                lemma_index(w, h, x as int, y as int);
                lemma_col_sum_split(hz, w, x as int, 0, top as int, bottom as int);
                lemma_col_sum_bound(hz, w, x as int, top as int, bottom as int);
                lemma_col_sum_bound(hz, w, x as int, 0, top as int);
                lemma_rounded_mean_fits(col_sum(hz, w, x as int, top as int, bottom as int), bottom - top);
                assert(bottom * w + x < (h + 1) * w) by (nonlinear_arith)
                    requires bottom <= h, x < w;
                assert(top * w + x < (h + 1) * w) by (nonlinear_arith)
                    requires top <= h, x < w;
                assert((h + 1) * w <= 4097 * 4096) by (nonlinear_arith)
                    requires 0 <= h <= 4096, 1 <= w <= 4096;
            }
            let count = (bottom - top) as u32;
            let total = columns[bottom * width + x] - columns[top * width + x];
            let mean = ((total + count / 2) / count) as u8;
            output.push(mean);
            proof {
                assert(output@[y * w + x] == vmean(hz, w, h, rr, x as int, y as int));
            }
            x += 1;
        }
        proof {
            assert((y + 1) * w == y * w + w) by (nonlinear_arith);
        }
        y += 1;
    }
    proof {
        assert(output@ =~= box_blur_spec(v, w, h, rr));
    }
    output
}


/// Whether `(x, y)` lies on the grid and is set in `m`.
pub open spec fn mask_at(m: Seq<bool>, w: int, h: int, x: int, y: int) -> bool {
    0 <= x < w && 0 <= y < h && m[y * w + x]
}

/// Whether any pixel of the 3x3 window centered on `(x, y)` is set.
pub open spec fn dilate3_px(m: Seq<bool>, w: int, h: int, x: int, y: int) -> bool {
    mask_at(m, w, h, x - 1, y - 1) || mask_at(m, w, h, x, y - 1) || mask_at(m, w, h, x + 1, y - 1)
        || mask_at(m, w, h, x - 1, y) || mask_at(m, w, h, x, y) || mask_at(m, w, h, x + 1, y)
        || mask_at(m, w, h, x - 1, y + 1) || mask_at(m, w, h, x, y + 1) || mask_at(m, w, h, x + 1, y + 1)
}

/// Whether every pixel of the 3x3 window centered on `(x, y)` lies on the grid and is set.
pub open spec fn erode3_px(m: Seq<bool>, w: int, h: int, x: int, y: int) -> bool {
    mask_at(m, w, h, x - 1, y - 1) && mask_at(m, w, h, x, y - 1) && mask_at(m, w, h, x + 1, y - 1)
        && mask_at(m, w, h, x - 1, y) && mask_at(m, w, h, x, y) && mask_at(m, w, h, x + 1, y)
        && mask_at(m, w, h, x - 1, y + 1) && mask_at(m, w, h, x, y + 1) && mask_at(m, w, h, x + 1, y + 1)
}

/// 3x3 binary dilation.
pub open spec fn dilate3(m: Seq<bool>, w: int, h: int) -> Seq<bool> {
    Seq::new((w * h) as nat, |i: int| dilate3_px(m, w, h, i % w, i / w))
}

/// 3x3 binary erosion; off-grid pixels count as unset.
pub open spec fn erode3(m: Seq<bool>, w: int, h: int) -> Seq<bool> {
    Seq::new((w * h) as nat, |i: int| erode3_px(m, w, h, i % w, i / w))
}

/// The window sample at offset `(dx - 1, dy - 1)` from `(x, y)`.
fn window_sample(mask: &Vec<bool>, width: usize, height: usize, x: usize, y: usize, dx: usize, dy: usize) -> (r: bool)
    requires
        1 <= width <= 4096,
        1 <= height <= 4096,
        mask@.len() == width * height,
        x < width,
        y < height,
        dx < 3,
        dy < 3,
    ensures
        r == mask_at(mask@, width as int, height as int, x + dx - 1, y + dy - 1),
{
    if x + dx == 0 || y + dy == 0 {
        return false;
    }
    let nx = x + dx - 1;
    let ny = y + dy - 1;
    if nx >= width || ny >= height {
        return false;
    }
    proof {
        lemma_index(width as int, height as int, nx as int, ny as int);
        lemma_grid_bound(width as int, height as int);
    }
    mask[ny * width + nx]
}

/// Apply 3x3 dilation (`grow`) or erosion to a registered mask.
fn morph3(mask: &Vec<bool>, width: usize, height: usize, grow: bool) -> (r: Vec<bool>)
    requires
        1 <= width <= 4096,
        1 <= height <= 4096,
        mask@.len() == width * height,
    ensures
        grow ==> r@ == dilate3(mask@, width as int, height as int),
        !grow ==> r@ == erode3(mask@, width as int, height as int),
{
    let ghost m = mask@;
    let ghost w = width as int;
    let ghost h = height as int;
    let mut output: Vec<bool> = Vec::new();
    let mut y: usize = 0;
    while y < height
        invariant
            1 <= width <= 4096,
            1 <= height <= 4096,
            mask@ == m,
            m.len() == w * h,
            w == width as int && h == height as int,
            y <= height,
            output@.len() == y * w,
            forall|i: int| 0 <= i < y * w ==> #[trigger] output@[i] == if grow {
                dilate3_px(m, w, h, i % w, i / w)
            } else {
                erode3_px(m, w, h, i % w, i / w)
            },
        decreases height - y,
    {
        let mut x: usize = 0;
        while x < width
            invariant
                1 <= width <= 4096,
                1 <= height <= 4096,
                mask@ == m,
                m.len() == w * h,
                w == width as int && h == height as int,
                y < height,
                x <= width,
                output@.len() == y * w + x,
                forall|i: int| 0 <= i < y * w + x ==> #[trigger] output@[i] == if grow {
                    dilate3_px(m, w, h, i % w, i / w)
                } else {
                    erode3_px(m, w, h, i % w, i / w)
                },
            decreases width - x,
        {
            let s00 = window_sample(mask, width, height, x, y, 0, 0);
            let s10 = window_sample(mask, width, height, x, y, 1, 0);
            let s20 = window_sample(mask, width, height, x, y, 2, 0);
            let s01 = window_sample(mask, width, height, x, y, 0, 1);
            let s11 = window_sample(mask, width, height, x, y, 1, 1);
            let s21 = window_sample(mask, width, height, x, y, 2, 1);
            let s02 = window_sample(mask, width, height, x, y, 0, 2);
            let s12 = window_sample(mask, width, height, x, y, 1, 2);
            let s22 = window_sample(mask, width, height, x, y, 2, 2);
            let value = if grow {
                s00 || s10 || s20 || s01 || s11 || s21 || s02 || s12 || s22
            } else {
                s00 && s10 && s20 && s01 && s11 && s21 && s02 && s12 && s22
            };
            proof {
                lemma_index(w, h, x as int, y as int);
            }
            output.push(value);
            x += 1;
        }
        proof {
            assert((y + 1) * w == y * w + w) by (nonlinear_arith);
        }
        y += 1;
    }
    proof {
        assert(h * w == w * h) by (nonlinear_arith);
        if grow {
            assert(output@ =~= dilate3(m, w, h));
        } else {
            assert(output@ =~= erode3(m, w, h));
        }
    }
    output
}

/// The 0/255 byte image of a boolean mask.
pub open spec fn mask_bytes(m: Seq<bool>) -> Seq<u8> {
    Seq::new(m.len(), |i: int| if m[i] { EDGE_ON } else { EDGE_OFF })
}

/// A labeling of the 4-connected components of the set pixels of `px`: unset
/// pixels carry zero, set neighbors share a label, and each labeled pixel is
/// joined by a path of set pixels to the first pixel carrying its label.
pub open spec fn four_labeling(px: Seq<u8>, w: int, h: int, lab: Seq<u32>) -> bool {
    &&& lab.len() == px.len()
    &&& forall|j: int| 0 <= j < lab.len() ==> (#[trigger] lab[j] == 0 <==> px[j] != EDGE_ON)
    &&& forall|j: int| 0 <= j < lab.len() && #[trigger] lab[j] != 0 ==> labels_settled(px, w, h, false, lab, j)
    &&& forall|j: int|
        0 <= j < lab.len() && #[trigger] lab[j] != 0 ==> exists|path: Seq<int>|
            #[trigger] on_path(px, w, h, false, path) && path.last() == j && lab[path[0]] == lab[j]
                && forall|k: int| 0 <= k < path[0] ==> lab[k] != lab[j]
}

/// `r` keeps exactly the set pixels of `m` whose 4-connected component has at least `minimum` pixels.
pub open spec fn small_components_removed(m: Seq<bool>, w: int, h: int, minimum: int, r: Seq<bool>) -> bool {
    &&& r.len() == m.len()
    &&& exists|lab: Seq<u32>|
        #[trigger] four_labeling(mask_bytes(m), w, h, lab) && forall|i: int|
            0 <= i < m.len() ==> #[trigger] r[i] == (m[i] && count_label(lab, lab[i] as int) >= minimum)
}

/// Clear every 4-connected component of fewer than `minimum` pixels.
pub fn remove_small_components(mask: &mut Vec<bool>, width: usize, height: usize, minimum: usize)
    requires
        1 <= width <= 4096,
        1 <= height <= 4096,
        old(mask)@.len() == width * height,
    ensures
        small_components_removed(old(mask)@, width as int, height as int, minimum as int, final(mask)@),
{
    let ghost m = mask@;
    let ghost w = width as int;
    let ghost h = height as int;
    let mut bytes: Vec<u8> = Vec::new();
    let mut i: usize = 0;
    while i < mask.len()
        invariant
            mask@ == m,
            i <= m.len(),
            bytes@.len() == i,
            forall|j: int| 0 <= j < i ==> #[trigger] bytes@[j] == mask_bytes(m)[j],
        decreases m.len() - i,
    {
        bytes.push(if mask[i] { EDGE_ON } else { EDGE_OFF });
        i += 1;
    }
    proof {
        assert(bytes@ =~= mask_bytes(m));
    }
    let raster = match Raster::new(width as u32, height as u32, bytes) {
        Ok(raster) => raster,
        Err(_) => {
            proof {
                assert(false);
            }
            return;
        },
    };
    let (labels, components) = match connected_components(&raster, Connectivity::Four) {
        Ok(result) => result,
        Err(_) => {
            proof {
                assert(is_binary(mask_bytes(m)));
                assert(false);
            }
            return;
        },
    };
    let ghost lab = labels.px();
    labels.facts();
    proof {
        assert(lab.len() == m.len());
        assert(four_labeling(mask_bytes(m), w, h, lab));
    }
    let label_pixels = labels.pixels();
    let mut i: usize = 0;
    while i < mask.len()
        invariant
            label_pixels@ == lab,
            lab.len() == m.len(),
            mask@.len() == m.len(),
            forall|j: int| 0 <= j < lab.len() ==> (#[trigger] lab[j] == 0 <==> !m[j]) && lab[j] <= components@.len(),
            forall|k: int| 0 <= k < components@.len() ==> component_matches(#[trigger] components@[k], lab, w, k + 1),
            i <= m.len(),
            forall|j: int| 0 <= j < i ==> #[trigger] mask@[j] == (m[j] && count_label(lab, lab[j] as int) >= minimum),
            forall|j: int| i <= j < m.len() ==> #[trigger] mask@[j] == m[j],
        decreases m.len() - i,
    {
        if mask[i] {
            let label = label_pixels[i];
            proof {
                assert(lab[i as int] != 0);
                assert(component_matches(components@[label - 1], lab, w, label as int));
            }
            let area = components[(label - 1) as usize].area;
            if (area as usize) < minimum {
                mask.set(i, false);
            }
        }
        i += 1;
    }
    proof {
        assert(small_components_removed(m, w, h, minimum as int, mask@));
    }
}


/// Absolute difference.
pub open spec fn absdiff(a: int, b: int) -> int {
    if a >= b { a - b } else { b - a }
}

fn abs_diff_u8(a: u8, b: u8) -> (r: u8)
    ensures
        r == absdiff(a as int, b as int),
{
    if a >= b { a - b } else { b - a }
}

fn abs_diff_u32(a: u32, b: u32) -> (r: u32)
    ensures
        r == absdiff(a as int, b as int),
{
    if a >= b { a - b } else { b - a }
}

/// One channel of a row-major RGB pixel sequence.
pub open spec fn channel_of(pixels: Seq<Rgb>, c: int) -> Seq<u8> {
    Seq::new(pixels.len(), |i: int| pixels[i][c])
}

/// Per-pixel canopy evidence: green vegetation color, or rough dark normals that are not red.
pub open spec fn canopy_evidence(p: Rgb, n: Rgb, m0: u8, m1: u8, m2: u8) -> bool {
    let red = p[0] as int;
    let green = p[1] as int;
    let blue = p[2] as int;
    let roughness = absdiff(n[0] as int, m0 as int) + absdiff(n[1] as int, m1 as int) + absdiff(n[2] as int, m2 as int);
    let green_evidence = 2 * green - red - blue > 5 && 100 * green > 98 * blue && red < 175;
    let red_exclusion = 100 * red > 125 * green && 100 * red > 130 * blue;
    green_evidence || (roughness > 23 && luma(p) < 105 && !red_exclusion)
}

/// Raw per-pixel canopy evidence against the radius-2 mean of each normal channel.
pub open spec fn canopy_raw(img: Seq<Rgb>, normals: Seq<Rgb>, w: int, h: int) -> Seq<bool> {
    let m0 = box_blur_spec(channel_of(normals, 0), w, h, 2);
    let m1 = box_blur_spec(channel_of(normals, 1), w, h, 2);
    let m2 = box_blur_spec(channel_of(normals, 2), w, h, 2);
    Seq::new(img.len(), |i: int| canopy_evidence(img[i], normals[i], m0[i], m1[i], m2[i]))
}

fn channel(pixels: &Vec<Rgb>, c: usize) -> (r: Vec<u8>)
    requires
        c < 3,
    ensures
        r@ == channel_of(pixels@, c as int),
{
    let mut out: Vec<u8> = Vec::new();
    let mut i: usize = 0;
    while i < pixels.len()
        invariant
            c < 3,
            i <= pixels@.len(),
            out@.len() == i,
            forall|j: int| 0 <= j < i ==> #[trigger] out@[j] == pixels@[j][c as int],
        decreases pixels@.len() - i,
    {
        out.push(pixels[i][c]);
        i += 1;
    }
    proof {
        assert(out@ =~= channel_of(pixels@, c as int));
    }
    out
}

/// Vegetation mask: raw evidence, closed by a 3x3 dilation then erosion, without components under 64 pixels.
pub fn canopy_mask(image: &RgbImage, normals: &RgbImage) -> (r: Result<Vec<bool>, StylizeError>)
    requires
        image_ok(*image),
        image_ok(*normals),
    ensures
        r is Ok <==> (image.width == normals.width && image.height == normals.height),
        r matches Ok(mask) ==> small_components_removed(
            erode3(dilate3(canopy_raw(image.pixels@, normals.pixels@, image.width as int, image.height as int), image.width as int, image.height as int), image.width as int, image.height as int),
            image.width as int,
            image.height as int,
            64,
            mask@,
        ),
{
    if image.width != normals.width || image.height != normals.height {
        return Err(invalid("canopy guidance is not registered to color"));
    }
    let width = image.width;
    let height = image.height;
    let ghost w = width as int;
    let ghost h = height as int;
    let n0 = channel(&normals.pixels, 0);
    let n1 = channel(&normals.pixels, 1);
    let n2 = channel(&normals.pixels, 2);
    let m0 = box_blur(&n0, width, height, 2);
    let m1 = box_blur(&n1, width, height, 2);
    let m2 = box_blur(&n2, width, height, 2);
    let ghost raw = canopy_raw(image.pixels@, normals.pixels@, image.width as int, image.height as int);
    let mut mask: Vec<bool> = Vec::new();
    let mut i: usize = 0;
    while i < image.pixels.len()
        invariant
            image_ok(*image),
            image_ok(*normals),
            image.width == normals.width && image.height == normals.height,
            w == image.width as int && h == image.height as int,
            m0@ == box_blur_spec(channel_of(normals.pixels@, 0), w, h, 2),
            m1@ == box_blur_spec(channel_of(normals.pixels@, 1), w, h, 2),
            m2@ == box_blur_spec(channel_of(normals.pixels@, 2), w, h, 2),
            raw == canopy_raw(image.pixels@, normals.pixels@, image.width as int, image.height as int),
            i <= image.pixels@.len(),
            mask@.len() == i,
            forall|j: int| 0 <= j < i ==> #[trigger] mask@[j] == raw[j],
        decreases image.pixels@.len() - i,
    {
        let pixel = image.pixels[i];
        let normal = normals.pixels[i];
        let red = pixel[0] as i32;
        let green = pixel[1] as i32;
        let blue = pixel[2] as i32;
        let luma = luminance(pixel) as i32;
        let roughness = abs_diff_u8(normal[0], m0[i]) as i32 + abs_diff_u8(normal[1], m1[i]) as i32
            + abs_diff_u8(normal[2], m2[i]) as i32;
        let green_evidence = 2 * green - red - blue > 5 && 100 * green > 98 * blue && red < 175;
        let red_exclusion = 100 * red > 125 * green && 100 * red > 130 * blue;
        mask.push(green_evidence || (roughness > 23 && luma < 105 && !red_exclusion));
        i += 1;
    }
    proof {
        assert(mask@ =~= raw);
    }
    let grown = morph3(&mask, width, height, true);
    let mut closed = morph3(&grown, width, height, false);
    proof {
        assert(h * w == w * h) by (nonlinear_arith);
    }
    remove_small_components(&mut closed, width, height, 64);
    Ok(closed)
}


/// Horizontal offset of smoothing neighbor `k`: four edge neighbors, then four corners.
pub open spec fn nb_dx(k: int) -> int {
    if k == 0 || k == 4 || k == 6 {
        -1
    } else if k == 1 || k == 5 || k == 7 {
        1
    } else {
        0
    }
}

/// Vertical offset of smoothing neighbor `k`.
pub open spec fn nb_dy(k: int) -> int {
    if k == 2 || k == 4 || k == 5 {
        -1
    } else if k == 3 || k == 6 || k == 7 {
        1
    } else {
        0
    }
}

/// Weight of smoothing neighbor `k`: edges weigh 4, corners 2; the center weighs 8.
pub open spec fn nb_weight(k: int) -> int {
    if k < 4 { 4 } else { 2 }
}

/// Optional normal and depth guidance admit mixing pixel `i` with pixel `n`.
pub open spec fn guidance_ok(nm: Option<Seq<Rgb>>, d: Option<Seq<u32>>, i: int, n: int) -> bool {
    &&& match nm {
        Some(p) => absdiff(p[i][0] as int, p[n][0] as int) + absdiff(p[i][1] as int, p[n][1] as int) + absdiff(
            p[i][2] as int,
            p[n][2] as int,
        ) < 70,
        None => true,
    }
    &&& match d {
        Some(v) => v[i] != 0 && v[n] != 0 && absdiff(v[i] as int, v[n] as int) <= 2000,
        None => true,
    }
}

/// Whether neighbor `k` of `(x, y)` takes part in the smoothing average.
pub open spec fn smooth_accepts(cur: Seq<Rgb>, w: int, h: int, nm: Option<Seq<Rgb>>, d: Option<Seq<u32>>, x: int, y: int, k: int) -> bool {
    let nx = x + nb_dx(k);
    let ny = y + nb_dy(k);
    &&& 0 <= nx < w
    &&& 0 <= ny < h
    &&& absdiff(luma(cur[y * w + x]) as int, luma(cur[ny * w + nx]) as int) < 28
    &&& guidance_ok(nm, d, y * w + x, ny * w + nx)
}

/// Total weight after the first `k` neighbors.
pub open spec fn smooth_den(cur: Seq<Rgb>, w: int, h: int, nm: Option<Seq<Rgb>>, d: Option<Seq<u32>>, x: int, y: int, k: int) -> int
    decreases k,
{
    if k <= 0 {
        8
    } else {
        smooth_den(cur, w, h, nm, d, x, y, k - 1) + if smooth_accepts(cur, w, h, nm, d, x, y, k - 1) {
            nb_weight(k - 1)
        } else {
            0
        }
    }
}

/// Weighted channel sum after the first `k` neighbors.
pub open spec fn smooth_sum(cur: Seq<Rgb>, w: int, h: int, nm: Option<Seq<Rgb>>, d: Option<Seq<u32>>, x: int, y: int, c: int, k: int) -> int
    decreases k,
{
    if k <= 0 {
        8 * cur[y * w + x][c]
    } else {
        smooth_sum(cur, w, h, nm, d, x, y, c, k - 1) + if smooth_accepts(cur, w, h, nm, d, x, y, k - 1) {
            nb_weight(k - 1) * cur[(y + nb_dy(k - 1)) * w + x + nb_dx(k - 1)][c]
        } else {
            0
        }
    }
}

/// One smoothed pixel.
pub open spec fn smoothed_px(cur: Seq<Rgb>, w: int, h: int, nm: Option<Seq<Rgb>>, d: Option<Seq<u32>>, x: int, y: int) -> Rgb {
    let den = smooth_den(cur, w, h, nm, d, x, y, 8);
    [
        rounded_mean(smooth_sum(cur, w, h, nm, d, x, y, 0, 8), den),
        rounded_mean(smooth_sum(cur, w, h, nm, d, x, y, 1, 8), den),
        rounded_mean(smooth_sum(cur, w, h, nm, d, x, y, 2, 8), den),
    ]
}

/// One edge-aware smoothing pass.
pub open spec fn smooth_step(cur: Seq<Rgb>, w: int, h: int, nm: Option<Seq<Rgb>>, d: Option<Seq<u32>>) -> Seq<Rgb> {
    Seq::new(cur.len(), |i: int| smoothed_px(cur, w, h, nm, d, i % w, i / w))
}

/// `n` edge-aware smoothing passes.
pub open spec fn smooth_iter(cur: Seq<Rgb>, w: int, h: int, nm: Option<Seq<Rgb>>, d: Option<Seq<u32>>, n: nat) -> Seq<Rgb>
    decreases n,
{
    if n == 0 {
        cur
    } else {
        smooth_step(smooth_iter(cur, w, h, nm, d, (n - 1) as nat), w, h, nm, d)
    }
}

/// The pixel sequence of optional normal guidance.
pub open spec fn normal_view(normals: Option<&RgbImage>) -> Option<Seq<Rgb>> {
    match normals {
        Some(n) => Some(n.pixels@),
        None => None,
    }
}

/// The value sequence of optional depth guidance.
pub open spec fn depth_view(depth: Option<&[u32]>) -> Option<Seq<u32>> {
    match depth {
        Some(v) => Some(v@),
        None => None,
    }
}

fn neighbor_offset(k: usize) -> (r: (usize, usize, u32))
    requires
        k < 8,
    ensures
        r.0 as int == nb_dx(k as int) + 1,
        r.1 as int == nb_dy(k as int) + 1,
        r.2 as int == nb_weight(k as int),
{
    match k {
        0 => (0, 1, 4),
        1 => (2, 1, 4),
        2 => (1, 0, 4),
        3 => (1, 2, 4),
        4 => (0, 0, 2),
        5 => (2, 0, 2),
        6 => (0, 2, 2),
        _ => (2, 2, 2),
    }
}

fn guidance_accepts(normals: Option<&RgbImage>, depth: Option<&[u32]>, index: usize, neighbor: usize) -> (r: bool)
    requires
        normals matches Some(n) ==> index < n.pixels@.len() && neighbor < n.pixels@.len(),
        depth matches Some(v) ==> index < v@.len() && neighbor < v@.len(),
    ensures
        r == guidance_ok(normal_view(normals), depth_view(depth), index as int, neighbor as int),
{
    if let Some(normal) = normals {
        let a = normal.pixels[index];
        let b = normal.pixels[neighbor];
        let difference = abs_diff_u8(a[0], b[0]) as u16 + abs_diff_u8(a[1], b[1]) as u16 + abs_diff_u8(a[2], b[2]) as u16;
        if difference >= 70 {
            return false;
        }
    }
    if let Some(values) = depth {
        let first = values[index];
        let second = values[neighbor];
        if first == 0 || second == 0 || abs_diff_u32(first, second) > 2_000 {
            return false;
        }
    }
    true
}

fn smooth_pixel(
    current: &Vec<Rgb>,
    luma_values: &Vec<u8>,
    width: usize,
    height: usize,
    normals: Option<&RgbImage>,
    depth: Option<&[u32]>,
    x: usize,
    y: usize,
) -> (r: Rgb)
    requires
        1 <= width <= 4096,
        1 <= height <= 4096,
        current@.len() == width * height,
        luma_values@.len() == current@.len(),
        forall|j: int| 0 <= j < current@.len() ==> #[trigger] luma_values@[j] == luma(current@[j]),
        normals matches Some(n) ==> n.pixels@.len() == current@.len(),
        depth matches Some(v) ==> v@.len() == current@.len(),
        x < width,
        y < height,
    ensures
        r == smoothed_px(current@, width as int, height as int, normal_view(normals), depth_view(depth), x as int, y as int),
{
    let ghost cur = current@;
    let ghost w = width as int;
    let ghost h = height as int;
    let ghost nm = normal_view(normals);
    let ghost dv = depth_view(depth);
    proof {
        lemma_index(w, h, x as int, y as int);
        lemma_grid_bound(w, h);
    }
    let index = y * width + x;
    let center = current[index];
    let mut den: u32 = 8;
    let mut s0: u32 = 8 * center[0] as u32;
    let mut s1: u32 = 8 * center[1] as u32;
    let mut s2: u32 = 8 * center[2] as u32;
    let mut k: usize = 0;
    while k < 8
        invariant
            1 <= width <= 4096,
            1 <= height <= 4096,
            current@ == cur,
            cur.len() == w * h,
            w == width as int && h == height as int,
            nm == normal_view(normals),
            dv == depth_view(depth),
            luma_values@.len() == cur.len(),
            forall|j: int| 0 <= j < cur.len() ==> #[trigger] luma_values@[j] == luma(cur[j]),
            normals matches Some(n) ==> n.pixels@.len() == cur.len(),
            depth matches Some(v) ==> v@.len() == cur.len(),
            x < width,
            y < height,
            index == y * w + x,
            index < cur.len(),
            k <= 8,
            den == smooth_den(cur, w, h, nm, dv, x as int, y as int, k as int),
            s0 == smooth_sum(cur, w, h, nm, dv, x as int, y as int, 0, k as int),
            s1 == smooth_sum(cur, w, h, nm, dv, x as int, y as int, 1, k as int),
            s2 == smooth_sum(cur, w, h, nm, dv, x as int, y as int, 2, k as int),
            8 <= den <= 8 + 4 * k,
            s0 <= 255 * den && s1 <= 255 * den && s2 <= 255 * den,
        decreases 8 - k,
    {
        let (ox, oy, weight) = neighbor_offset(k);
        let mut take = false;
        if x + ox >= 1 && y + oy >= 1 && x + ox - 1 < width && y + oy - 1 < height {
            let nx = x + ox - 1;
            let ny = y + oy - 1;
            proof {
                lemma_index(w, h, nx as int, ny as int);
                lemma_grid_bound(w, h);
            }
            let neighbor = ny * width + nx;
            if abs_diff_u8(luma_values[index], luma_values[neighbor]) < 28 {
                if guidance_accepts(normals, depth, index, neighbor) {
                    let value = current[neighbor];
                    den = den + weight;
                    s0 = s0 + weight * value[0] as u32;
                    s1 = s1 + weight * value[1] as u32;
                    s2 = s2 + weight * value[2] as u32;
                    take = true;
                }
            }
        }
        proof {
            assert(take == smooth_accepts(cur, w, h, nm, dv, x as int, y as int, k as int));
        }
        k += 1;
    }
    proof {
        lemma_rounded_mean_fits(s0 as int, den as int);
        lemma_rounded_mean_fits(s1 as int, den as int);
        lemma_rounded_mean_fits(s2 as int, den as int);
    }
    let r0 = ((s0 + den / 2) / den) as u8;
    let r1 = ((s1 + den / 2) / den) as u8;
    let r2 = ((s2 + den / 2) / den) as u8;
    proof {
        assert([r0, r1, r2] =~= smoothed_px(cur, w, h, nm, dv, x as int, y as int));
    }
    [r0, r1, r2]
}

/// Edge-aware smoothing: each pass averages a pixel with the 3x3 neighbors whose
/// luminance, normals, and depth agree with it.
pub fn edge_aware_smooth(image: &RgbImage, normals: Option<&RgbImage>, depth: Option<&[u32]>, iterations: u8) -> (r: Result<
    RgbImage,
    StylizeError,
>)
    requires
        image_ok(*image),
        normals matches Some(n) ==> image_ok(*n),
    ensures
        r is Ok <==> (!(normals matches Some(n) && (n.width != image.width || n.height != image.height)) && !(
        depth matches Some(v) && v@.len() != image.pixels@.len())),
        r matches Ok(out) ==> out.width == image.width && out.height == image.height && out.pixels@ == smooth_iter(
            image.pixels@,
            image.width as int,
            image.height as int,
            normal_view(normals),
            depth_view(depth),
            iterations as nat,
        ),
{
    if let Some(normal) = normals {
        if normal.width != image.width || normal.height != image.height {
            return Err(invalid("smoothing guidance is not registered to color"));
        }
    }
    if let Some(values) = depth {
        if values.len() != image.pixels.len() {
            return Err(invalid("smoothing guidance is not registered to color"));
        }
    }
    let width = image.width;
    let height = image.height;
    let ghost w = width as int;
    let ghost h = height as int;
    let ghost nm = normal_view(normals);
    let ghost dv = depth_view(depth);
    let mut current: Vec<Rgb> = copy_pixels(&image.pixels);
    let mut pass: u8 = 0;
    while pass < iterations
        invariant
            image_ok(*image),
            width == image.width && height == image.height,
            w == width as int && h == height as int,
            nm == normal_view(normals),
            dv == depth_view(depth),
            normals matches Some(n) ==> n.pixels@.len() == image.pixels@.len(),
            depth matches Some(v) ==> v@.len() == image.pixels@.len(),
            pass <= iterations,
            current@.len() == w * h,
            current@ == smooth_iter(image.pixels@, w, h, nm, dv, pass as nat),
        decreases iterations - pass,
    {
        let luma_values = luminance_all(&current);
        let mut output: Vec<Rgb> = Vec::new();
        let mut y: usize = 0;
        while y < height
            invariant
                image_ok(*image),
                width == image.width && height == image.height,
                w == width as int && h == height as int,
                nm == normal_view(normals),
                dv == depth_view(depth),
                normals matches Some(n) ==> n.pixels@.len() == current@.len(),
                depth matches Some(v) ==> v@.len() == current@.len(),
                current@.len() == w * h,
                luma_values@.len() == current@.len(),
                forall|j: int| 0 <= j < current@.len() ==> #[trigger] luma_values@[j] == luma(current@[j]),
                y <= height,
                output@.len() == y * w,
                forall|i: int| 0 <= i < y * w ==> #[trigger] output@[i] == smoothed_px(current@, w, h, nm, dv, i % w, i / w),
            decreases height - y,
        {
            let mut x: usize = 0;
            while x < width
                invariant
                    image_ok(*image),
                    width == image.width && height == image.height,
                    w == width as int && h == height as int,
                    nm == normal_view(normals),
                    dv == depth_view(depth),
                    normals matches Some(n) ==> n.pixels@.len() == current@.len(),
                    depth matches Some(v) ==> v@.len() == current@.len(),
                    current@.len() == w * h,
                    luma_values@.len() == current@.len(),
                    forall|j: int| 0 <= j < current@.len() ==> #[trigger] luma_values@[j] == luma(current@[j]),
                    y < height,
                    x <= width,
                    output@.len() == y * w + x,
                    forall|i: int| 0 <= i < y * w + x ==> #[trigger] output@[i] == smoothed_px(current@, w, h, nm, dv, i % w, i / w),
                decreases width - x,
            {
                let value = smooth_pixel(&current, &luma_values, width, height, normals, depth, x, y);
                proof {
                    lemma_index(w, h, x as int, y as int);
                }
                output.push(value);
                x += 1;
            }
            proof {
                assert((y + 1) * w == y * w + w) by (nonlinear_arith);
            }
            y += 1;
        }
        proof {
            assert(h * w == w * h) by (nonlinear_arith);
            assert(output@ =~= smooth_step(current@, w, h, nm, dv));
        }
        current = output;
        pass += 1;
    }
    Ok(RgbImage { width, height, pixels: current })
}


/// Weighted squared color distance.
pub open spec fn color_distance(p: Rgb, c: Rgb) -> int {
    let red = p[0] as int - c[0] as int;
    let green = p[1] as int - c[1] as int;
    let blue = p[2] as int - c[2] as int;
    2 * (red * red) + 3 * (green * green) + blue * blue
}

/// Whether `c` is the first palette color at minimum distance from `p`.
pub open spec fn nearest_color(palette: Seq<Rgb>, p: Rgb, c: Rgb) -> bool {
    exists|k: int| is_nearest(palette, p, k) && c == palette[k]
}

/// Whether palette entry `k` is the first entry at minimum distance from `p`.
pub open spec fn is_nearest(palette: Seq<Rgb>, p: Rgb, k: int) -> bool {
    &&& 0 <= k < palette.len()
    &&& forall|j: int| 0 <= j < palette.len() ==> color_distance(p, #[trigger] palette[j]) >= color_distance(p, palette[k])
    &&& forall|j: int| 0 <= j < k ==> color_distance(p, #[trigger] palette[j]) > color_distance(p, palette[k])
}

fn distance(p: Rgb, c: Rgb) -> (r: i32)
    ensures
        r == color_distance(p, c),
{
    let red = p[0] as i32 - c[0] as i32;
    let green = p[1] as i32 - c[1] as i32;
    let blue = p[2] as i32 - c[2] as i32;
    proof {
        assert(-255 <= red <= 255 && -255 <= green <= 255 && -255 <= blue <= 255);
        assert(0 <= red * red <= 65025) by (nonlinear_arith)
            requires -255 <= red <= 255;
        assert(0 <= green * green <= 65025) by (nonlinear_arith)
            requires -255 <= green <= 255;
        assert(0 <= blue * blue <= 65025) by (nonlinear_arith)
            requires -255 <= blue <= 255;
    }
    2 * (red * red) + 3 * (green * green) + blue * blue
}

/// The first palette color at minimum weighted distance.
fn nearest(pixel: Rgb, palette: &Vec<Rgb>) -> (r: Rgb)
    requires
        palette@.len() >= 1,
    ensures
        nearest_color(palette@, pixel, r),
{
    let mut best: usize = 0;
    let mut best_distance = distance(pixel, palette[0]);
    let mut j: usize = 1;
    while j < palette.len()
        invariant
            palette@.len() >= 1,
            1 <= j <= palette@.len(),
            best < j,
            best_distance == color_distance(pixel, palette@[best as int]),
            forall|q: int| 0 <= q < j ==> color_distance(pixel, #[trigger] palette@[q]) >= best_distance,
            forall|q: int| 0 <= q < best ==> color_distance(pixel, #[trigger] palette@[q]) > best_distance,
        decreases palette@.len() - j,
    {
        let candidate = distance(pixel, palette[j]);
        if candidate < best_distance {
            best = j;
            best_distance = candidate;
        }
        j += 1;
    }
    proof {
        assert(is_nearest(palette@, pixel, best as int));
    }
    palette[best]
}

/// Map every pixel to its nearest palette color.
pub fn quantize(image: &RgbImage, palette: &Vec<Rgb>) -> (r: Result<RgbImage, StylizeError>)
    requires
        image_ok(*image),
    ensures
        r is Ok <==> 1 <= palette@.len() <= 128,
        r matches Ok(out) ==> {
            &&& out.width == image.width && out.height == image.height
            &&& out.pixels@.len() == image.pixels@.len()
            &&& forall|i: int|
                0 <= i < out.pixels@.len() ==> nearest_color(palette@, image.pixels@[i], #[trigger] out.pixels@[i])
            &&& forall|i: int, j: int|
                0 <= i < out.pixels@.len() && 0 <= j < palette@.len() ==> {
                    let p = image.pixels@[i];
                    let c = #[trigger] out.pixels@[i];
                    let q = #[trigger] palette@[j];
                    2 * ((p[0] - c[0]) * (p[0] - c[0])) + 3 * ((p[1] - c[1]) * (p[1] - c[1])) + (p[2] - c[2]) * (p[2]
                        - c[2]) <= 2 * ((p[0] - q[0]) * (p[0] - q[0])) + 3 * ((p[1] - q[1]) * (p[1] - q[1])) + (p[2]
                        - q[2]) * (p[2] - q[2])
                }
        },
{
    if palette.len() == 0 || palette.len() > 128 {
        return Err(invalid("candidate palette must contain 1 to 128 colors"));
    }
    let mut pixels: Vec<Rgb> = Vec::new();
    let mut i: usize = 0;
    while i < image.pixels.len()
        invariant
            1 <= palette@.len() <= 128,
            i <= image.pixels@.len(),
            pixels@.len() == i,
            forall|j: int| 0 <= j < i ==> nearest_color(palette@, image.pixels@[j], #[trigger] pixels@[j]),
        decreases image.pixels@.len() - i,
    {
        let value = nearest(image.pixels[i], palette);
        pixels.push(value);
        proof {
            assert(pixels@[i as int] == value);
        }
        i += 1;
    }
    proof {
        assert forall|i: int, j: int| 0 <= i < pixels@.len() && 0 <= j < palette@.len() implies {
            let p = image.pixels@[i];
            let c = #[trigger] pixels@[i];
            let q = #[trigger] palette@[j];
            2 * ((p[0] - c[0]) * (p[0] - c[0])) + 3 * ((p[1] - c[1]) * (p[1] - c[1])) + (p[2] - c[2]) * (p[2] - c[2])
                <= 2 * ((p[0] - q[0]) * (p[0] - q[0])) + 3 * ((p[1] - q[1]) * (p[1] - q[1])) + (p[2] - q[2]) * (p[2]
                - q[2])
        } by {
            lemma_quantize_picks_first_weighted_nearest(palette@, image.pixels@[i], pixels@[i]);
        }
    }
    RgbImage::new(image.width, image.height, pixels)
}

/// Palette quantization picks, among the palette entries, the first one that minimizes the
/// weighted squared distance: twice the squared red difference, plus three times the squared
/// green difference, plus the squared blue difference.
pub proof fn lemma_quantize_picks_first_weighted_nearest(palette: Seq<Rgb>, p: Rgb, c: Rgb)
    requires
        nearest_color(palette, p, c),
    ensures
        exists|k: int| 0 <= k < palette.len() && c == palette[k] && forall|j: int| 0 <= j < k ==> {
            let q = #[trigger] palette[j];
            2 * ((p[0] - c[0]) * (p[0] - c[0])) + 3 * ((p[1] - c[1]) * (p[1] - c[1])) + (p[2] - c[2]) * (p[2] - c[2])
                < 2 * ((p[0] - q[0]) * (p[0] - q[0])) + 3 * ((p[1] - q[1]) * (p[1] - q[1])) + (p[2] - q[2]) * (p[2]
                - q[2])
        },
        forall|j: int| 0 <= j < palette.len() ==> {
            let q = #[trigger] palette[j];
            2 * ((p[0] - c[0]) * (p[0] - c[0])) + 3 * ((p[1] - c[1]) * (p[1] - c[1])) + (p[2] - c[2]) * (p[2] - c[2])
                <= 2 * ((p[0] - q[0]) * (p[0] - q[0])) + 3 * ((p[1] - q[1]) * (p[1] - q[1])) + (p[2] - q[2]) * (p[2]
                - q[2])
        },
{
    let k = choose|k: int| is_nearest(palette, p, k) && c == palette[k];
    assert forall|j: int| 0 <= j < palette.len() implies {
        let q = #[trigger] palette[j];
        2 * ((p[0] - c[0]) * (p[0] - c[0])) + 3 * ((p[1] - c[1]) * (p[1] - c[1])) + (p[2] - c[2]) * (p[2] - c[2])
            <= 2 * ((p[0] - q[0]) * (p[0] - q[0])) + 3 * ((p[1] - q[1]) * (p[1] - q[1])) + (p[2] - q[2]) * (p[2] - q[2])
    } by {
        assert(color_distance(p, palette[j]) >= color_distance(p, palette[k]));
    }
    assert forall|j: int| 0 <= j < k implies {
        let q = #[trigger] palette[j];
        2 * ((p[0] - c[0]) * (p[0] - c[0])) + 3 * ((p[1] - c[1]) * (p[1] - c[1])) + (p[2] - c[2]) * (p[2] - c[2])
            < 2 * ((p[0] - q[0]) * (p[0] - q[0])) + 3 * ((p[1] - q[1]) * (p[1] - q[1])) + (p[2] - q[2]) * (p[2] - q[2])
    } by {
        assert(color_distance(p, palette[j]) > color_distance(p, palette[k]));
    }
}

/// Clamp to `[lo, hi]`.
pub open spec fn clamp(v: int, lo: int, hi: int) -> int {
    if v < lo { lo } else if v > hi { hi } else { v }
}

fn clamp_i32(v: i32, lo: i32, hi: i32) -> (r: i32)
    requires
        lo <= hi,
    ensures
        r == clamp(v as int, lo as int, hi as int),
{
    if v < lo { lo } else if v > hi { hi } else { v }
}

/// Relighting factor from the local illumination and the normal's synthetic light.
pub open spec fn relight_factor(n: Rgb, illumination: u8) -> int {
    let nx = n[0] as int - 128;
    let ny = n[1] as int - 128;
    let nz = n[2] as int - 128;
    let synthetic = clamp(220 + trunc_div(-nx + ny + 2 * nz, 10), 185, 270);
    clamp(256 + trunc_div(112 - illumination as int, 10) + trunc_div(synthetic - 225, 5), 226, 286)
}

/// One relit pixel.
pub open spec fn relit_px(p: Rgb, n: Rgb, illumination: u8) -> Rgb {
    let f = relight_factor(n, illumination);
    [
        clamp(trunc_div(p[0] as int * f + 128, 256), 0, 255) as u8,
        clamp(trunc_div(p[1] as int * f + 128, 256), 0, 255) as u8,
        clamp(trunc_div(p[2] as int * f + 128, 256), 0, 255) as u8,
    ]
}

/// Luminance image of a pixel sequence.
pub open spec fn luma_of(pixels: Seq<Rgb>) -> Seq<u8> {
    Seq::new(pixels.len(), |i: int| luma(pixels[i]))
}

/// Relight color from the radius-18 blurred luminance and the normals.
pub fn relight(image: &RgbImage, normals: &RgbImage) -> (r: Result<RgbImage, StylizeError>)
    requires
        image_ok(*image),
        image_ok(*normals),
    ensures
        r is Ok <==> (image.width == normals.width && image.height == normals.height),
        r matches Ok(out) ==> {
            let illum = box_blur_spec(luma_of(image.pixels@), image.width as int, image.height as int, 18);
            &&& out.width == image.width && out.height == image.height
            &&& out.pixels@.len() == image.pixels@.len()
            &&& forall|i: int|
                0 <= i < out.pixels@.len() ==> #[trigger] out.pixels@[i] == relit_px(image.pixels@[i], normals.pixels@[i], illum[i])
        },
{
    if image.width != normals.width || image.height != normals.height {
        return Err(invalid("relighting guidance is not registered to color"));
    }
    let luma_values = luminance_all(&image.pixels);
    proof {
        assert(luma_values@ =~= luma_of(image.pixels@));
    }
    let illumination = box_blur(&luma_values, image.width, image.height, 18);
    let mut pixels: Vec<Rgb> = Vec::new();
    let mut i: usize = 0;
    while i < image.pixels.len()
        invariant
            image_ok(*image),
            image_ok(*normals),
            image.width == normals.width && image.height == normals.height,
            illumination@ == box_blur_spec(luma_of(image.pixels@), image.width as int, image.height as int, 18),
            illumination@.len() == image.pixels@.len(),
            i <= image.pixels@.len(),
            pixels@.len() == i,
            forall|j: int|
                0 <= j < i ==> #[trigger] pixels@[j] == relit_px(image.pixels@[j], normals.pixels@[j], illumination@[j]),
        decreases image.pixels@.len() - i,
    {
        let pixel = image.pixels[i];
        let normal = normals.pixels[i];
        let nx = normal[0] as i32 - 128;
        let ny = normal[1] as i32 - 128;
        let nz = normal[2] as i32 - 128;
        let synthetic = clamp_i32(220 + (-nx + ny + 2 * nz) / 10, 185, 270);
        let factor = clamp_i32(256 + (112 - illumination[i] as i32) / 10 + (synthetic - 225) / 5, 226, 286);
        proof {
            assert(0 <= pixel[0] * factor <= 255 * 286) by (nonlinear_arith)
                requires 0 <= pixel[0] <= 255, 226 <= factor <= 286;
            assert(0 <= pixel[1] * factor <= 255 * 286) by (nonlinear_arith)
                requires 0 <= pixel[1] <= 255, 226 <= factor <= 286;
            assert(0 <= pixel[2] * factor <= 255 * 286) by (nonlinear_arith)
                requires 0 <= pixel[2] <= 255, 226 <= factor <= 286;
        }
        let c0 = clamp_i32((pixel[0] as i32 * factor + 128) / 256, 0, 255) as u8;
        let c1 = clamp_i32((pixel[1] as i32 * factor + 128) / 256, 0, 255) as u8;
        let c2 = clamp_i32((pixel[2] as i32 * factor + 128) / 256, 0, 255) as u8;
        pixels.push([c0, c1, c2]);
        proof {
            assert(factor == relight_factor(normal, illumination@[i as int]));
            assert(pixels@[i as int] =~= relit_px(pixel, normal, illumination@[i as int]));
        }
        i += 1;
    }
    RgbImage::new(image.width, image.height, pixels)
}


/// Whether adjacent pixels `a` and `b` straddle a structural edge: normals differ by
/// more than 190 in total, or depth is missing or differs by more than 2000.
pub open spec fn structural_pair(n: Seq<Rgb>, d: Seq<u32>, a: int, b: int) -> bool {
    let normal_difference = absdiff(n[a][0] as int, n[b][0] as int) + absdiff(n[a][1] as int, n[b][1] as int)
        + absdiff(n[a][2] as int, n[b][2] as int);
    normal_difference > 190 || d[a] == 0 || d[b] == 0 || absdiff(d[a] as int, d[b] as int) > 2000
}

/// Pixel `(x, y)` touches an edge (`pair`) with one of its four neighbors.
pub open spec fn touches_edge(pair: spec_fn(int, int) -> bool, w: int, h: int, x: int, y: int) -> bool {
    let i = y * w + x;
    ||| x > 0 && pair(i, i - 1)
    ||| y > 0 && pair(i, i - w)
    ||| x + 1 < w && pair(i + 1, i)
    ||| y + 1 < h && pair(i + w, i)
}

/// The structural edge mask of registered normals and depth.
pub open spec fn structural_mask(n: Seq<Rgb>, d: Seq<u32>, w: int, h: int) -> Seq<bool> {
    Seq::new(n.len(), |i: int| touches_edge(|a: int, b: int| structural_pair(n, d, a, b), w, h, i % w, i / w))
}

fn structural_pair_exec(normals: &Vec<Rgb>, depth: &[u32], a: usize, b: usize) -> (r: bool)
    requires
        a < normals@.len(),
        b < normals@.len(),
        depth@.len() == normals@.len(),
    ensures
        r == structural_pair(normals@, depth@, a as int, b as int),
{
    let na = normals[a];
    let nb = normals[b];
    let normal_difference = abs_diff_u8(na[0], nb[0]) as u16 + abs_diff_u8(na[1], nb[1]) as u16 + abs_diff_u8(na[2], nb[2]) as u16;
    normal_difference > 190 || depth[a] == 0 || depth[b] == 0 || abs_diff_u32(depth[a], depth[b]) > 2_000
}

/// Mark both pixels of every 4-adjacent pair that straddles a structural edge.
pub fn structural_edges(normals: &RgbImage, depth: &[u32]) -> (r: Result<Vec<bool>, StylizeError>)
    requires
        image_ok(*normals),
    ensures
        r is Ok <==> depth@.len() == normals.pixels@.len(),
        r matches Ok(mask) ==> mask@ == structural_mask(normals.pixels@, depth@, normals.width as int, normals.height as int),
{
    if depth.len() != normals.pixels.len() {
        return Err(invalid("structural edge guidance is not registered"));
    }
    let width = normals.width;
    let height = normals.height;
    let ghost w = width as int;
    let ghost h = height as int;
    let ghost n = normals.pixels@;
    let ghost d = depth@;
    let ghost pair = |a: int, b: int| structural_pair(n, d, a, b);
    let mut output: Vec<bool> = Vec::new();
    let mut y: usize = 0;
    while y < height
        invariant
            image_ok(*normals),
            n == normals.pixels@,
            d == depth@,
            d.len() == n.len(),
            pair == (|a: int, b: int| structural_pair(n, d, a, b)),
            w == width as int && h == height as int,
            width == normals.width && height == normals.height,
            y <= height,
            output@.len() == y * w,
            forall|i: int| 0 <= i < y * w ==> #[trigger] output@[i] == touches_edge(pair, w, h, i % w, i / w),
        decreases height - y,
    {
        let mut x: usize = 0;
        while x < width
            invariant
                image_ok(*normals),
                n == normals.pixels@,
                d == depth@,
                d.len() == n.len(),
                pair == (|a: int, b: int| structural_pair(n, d, a, b)),
                w == width as int && h == height as int,
                width == normals.width && height == normals.height,
                y < height,
                x <= width,
                output@.len() == y * w + x,
                forall|i: int| 0 <= i < y * w + x ==> #[trigger] output@[i] == touches_edge(pair, w, h, i % w, i / w),
            decreases width - x,
        {
            proof {
                lemma_index(w, h, x as int, y as int);
                lemma_grid_bound(w, h);
                assert(y * w + x + w < w * h <==> y + 1 < h) by (nonlinear_arith)
                    requires 0 <= x < w, 0 <= y < h;
                assert(y * w + x >= w <==> y > 0) by (nonlinear_arith)
                    requires 0 <= x < w, 0 <= y < h;
                assert(x + 1 < w ==> y * w + x + 1 < w * h) by (nonlinear_arith)
                    requires 0 <= x < w, 0 <= y < h;
            }
            let index = y * width + x;
            let mut edge = false;
            if x > 0 && structural_pair_exec(&normals.pixels, depth, index, index - 1) {
                edge = true;
            }
            if y > 0 && structural_pair_exec(&normals.pixels, depth, index, index - width) {
                edge = true;
            }
            if x + 1 < width && structural_pair_exec(&normals.pixels, depth, index + 1, index) {
                edge = true;
            }
            if y + 1 < height && structural_pair_exec(&normals.pixels, depth, index + width, index) {
                edge = true;
            }
            output.push(edge);
            proof {
                assert(output@[y * w + x] == touches_edge(pair, w, h, x as int, y as int));
            }
            x += 1;
        }
        proof {
            assert((y + 1) * w == y * w + w) by (nonlinear_arith);
        }
        y += 1;
    }
    proof {
        assert(h * w == w * h) by (nonlinear_arith);
        assert(output@ =~= structural_mask(n, d, w, h));
    }
    Ok(output)
}

/// Whether adjacent pixels differ in luminance by more than 18.
pub open spec fn luma_step(p: Seq<Rgb>, a: int, b: int) -> bool {
    absdiff(luma(p[a]) as int, luma(p[b]) as int) > 18
}

/// Luminance edges of an output image: both pixels of every 4-adjacent pair differing by more than 18.
pub open spec fn luma_edges(p: Seq<Rgb>, w: int, h: int) -> Seq<bool> {
    Seq::new(p.len(), |i: int| touches_edge(|a: int, b: int| luma_step(p, a, b), w, h, i % w, i / w))
}

/// Luminance edge mask of an image.
pub fn output_edges(image: &RgbImage) -> (r: Vec<bool>)
    requires
        image_ok(*image),
    ensures
        r@ == luma_edges(image.pixels@, image.width as int, image.height as int),
{
    let luma_values = luminance_all(&image.pixels);
    let width = image.width;
    let height = image.height;
    let ghost w = width as int;
    let ghost h = height as int;
    let ghost p = image.pixels@;
    let ghost pair = |a: int, b: int| luma_step(p, a, b);
    let mut output: Vec<bool> = Vec::new();
    let mut y: usize = 0;
    while y < height
        invariant
            image_ok(*image),
            p == image.pixels@,
            luma_values@.len() == p.len(),
            forall|j: int| 0 <= j < p.len() ==> #[trigger] luma_values@[j] == luma(p[j]),
            pair == (|a: int, b: int| luma_step(p, a, b)),
            w == width as int && h == height as int,
            width == image.width && height == image.height,
            y <= height,
            output@.len() == y * w,
            forall|i: int| 0 <= i < y * w ==> #[trigger] output@[i] == touches_edge(pair, w, h, i % w, i / w),
        decreases height - y,
    {
        let mut x: usize = 0;
        while x < width
            invariant
                image_ok(*image),
                p == image.pixels@,
                luma_values@.len() == p.len(),
                forall|j: int| 0 <= j < p.len() ==> #[trigger] luma_values@[j] == luma(p[j]),
                pair == (|a: int, b: int| luma_step(p, a, b)),
                w == width as int && h == height as int,
                width == image.width && height == image.height,
                y < height,
                x <= width,
                output@.len() == y * w + x,
                forall|i: int| 0 <= i < y * w + x ==> #[trigger] output@[i] == touches_edge(pair, w, h, i % w, i / w),
            decreases width - x,
        {
            proof {
                lemma_index(w, h, x as int, y as int);
                lemma_grid_bound(w, h);
                assert(y * w + x + w < w * h <==> y + 1 < h) by (nonlinear_arith)
                    requires 0 <= x < w, 0 <= y < h;
                assert(y * w + x >= w <==> y > 0) by (nonlinear_arith)
                    requires 0 <= x < w, 0 <= y < h;
                assert(x + 1 < w ==> y * w + x + 1 < w * h) by (nonlinear_arith)
                    requires 0 <= x < w, 0 <= y < h;
            }
            let index = y * width + x;
            let mut edge = false;
            if x > 0 && abs_diff_u8(luma_values[index], luma_values[index - 1]) > 18 {
                edge = true;
            }
            if y > 0 && abs_diff_u8(luma_values[index], luma_values[index - width]) > 18 {
                edge = true;
            }
            if x + 1 < width && abs_diff_u8(luma_values[index + 1], luma_values[index]) > 18 {
                edge = true;
            }
            if y + 1 < height && abs_diff_u8(luma_values[index + width], luma_values[index]) > 18 {
                edge = true;
            }
            output.push(edge);
            proof {
                assert(output@[y * w + x] == touches_edge(pair, w, h, x as int, y as int));
            }
            x += 1;
        }
        proof {
            assert((y + 1) * w == y * w + w) by (nonlinear_arith);
        }
        y += 1;
    }
    proof {
        assert(h * w == w * h) by (nonlinear_arith);
        assert(output@ =~= luma_edges(p, w, h));
    }
    output
}

/// Pixel `i` and its four neighbors all lie inside the mask.
pub open spec fn interior(m: Seq<bool>, i: int, w: int, h: int) -> bool {
    let x = i % w;
    let y = i / w;
    x > 0 && y > 0 && x + 1 < w && y + 1 < h && m[i - 1] && m[i + 1] && m[i - w] && m[i + w]
}

/// Whether pixel `index` and its four neighbors all lie inside the mask.
pub fn mask_interior(mask: &Vec<bool>, index: usize, width: usize, height: usize) -> (r: bool)
    requires
        1 <= width <= 4096,
        1 <= height <= 4096,
        mask@.len() == width * height,
        index < mask@.len(),
    ensures
        r == interior(mask@, index as int, width as int, height as int),
{
    let x = index % width;
    let y = index / width;
    proof {
        lemma_position(width as int, height as int, index as int);
        lemma_grid_bound(width as int, height as int);
        assert(index + width < width * height <==> y + 1 < height) by (nonlinear_arith)
            requires index == y * width + x, 0 <= x < width, 0 <= y < height;
        assert(index >= width <==> y > 0) by (nonlinear_arith)
            requires index == y * width + x, 0 <= x < width, 0 <= y < height;
    }
    x > 0 && y > 0 && x + 1 < width && y + 1 < height && mask[index - 1] && mask[index + 1] && mask[index - width]
        && mask[index + width]
}

/// Outline structural edges outside canopy interiors.
pub fn apply_structural_outlines(image: &RgbImage, structural: &Vec<bool>, canopy: &Vec<bool>, outline: Rgb) -> (r: Result<
    RgbImage,
    StylizeError,
>)
    requires
        image_ok(*image),
    ensures
        r is Ok <==> (structural@.len() == image.pixels@.len() && canopy@.len() == image.pixels@.len()),
        r matches Ok(out) ==> {
            &&& out.width == image.width && out.height == image.height
            &&& out.pixels@.len() == image.pixels@.len()
            &&& forall|i: int|
                0 <= i < out.pixels@.len() ==> #[trigger] out.pixels@[i] == if structural@[i] && !interior(
                    canopy@,
                    i,
                    image.width as int,
                    image.height as int,
                ) {
                    outline
                } else {
                    image.pixels@[i]
                }
        },
{
    if structural.len() != image.pixels.len() || canopy.len() != image.pixels.len() {
        return Err(invalid("structural outline inputs are not registered"));
    }
    let mut pixels: Vec<Rgb> = Vec::new();
    let mut i: usize = 0;
    while i < image.pixels.len()
        invariant
            image_ok(*image),
            structural@.len() == image.pixels@.len(),
            canopy@.len() == image.pixels@.len(),
            i <= image.pixels@.len(),
            pixels@.len() == i,
            forall|j: int| 0 <= j < i ==> #[trigger] pixels@[j] == if structural@[j] && !interior(
                canopy@,
                j,
                image.width as int,
                image.height as int,
            ) {
                outline
            } else {
                image.pixels@[j]
            },
        decreases image.pixels@.len() - i,
    {
        if structural[i] && !mask_interior(canopy, i, image.width, image.height) {
            pixels.push(outline);
        } else {
            pixels.push(image.pixels[i]);
        }
        i += 1;
    }
    RgbImage::new(image.width, image.height, pixels)
}

/// A white-on-black image of a mask.
pub fn mask_image(mask: &Vec<bool>, width: usize, height: usize) -> (r: Result<RgbImage, StylizeError>)
    ensures
        r is Ok <==> (1 <= width <= 4096 && 1 <= height <= 4096 && mask@.len() == width * height),
        r matches Ok(out) ==> out.width == width && out.height == height && out.pixels@.len() == mask@.len()
            && forall|i: int|
            0 <= i < mask@.len() ==> #[trigger] out.pixels@[i] == if mask@[i] {
                [255u8, 255u8, 255u8]
            } else {
                [0u8, 0u8, 0u8]
            },
{
    let mut pixels: Vec<Rgb> = Vec::new();
    let mut i: usize = 0;
    while i < mask.len()
        invariant
            i <= mask@.len(),
            pixels@.len() == i,
            forall|j: int| 0 <= j < i ==> #[trigger] pixels@[j] == if mask@[j] {
                [255u8, 255u8, 255u8]
            } else {
                [0u8, 0u8, 0u8]
            },
        decreases mask@.len() - i,
    {
        if mask[i] {
            pixels.push([0xff, 0xff, 0xff]);
        } else {
            pixels.push([0, 0, 0]);
        }
        i += 1;
    }
    RgbImage::new(width, height, pixels)
}


/// The sample as a one-element sequence when it is valid (nonzero).
pub open spec fn keep_nonzero(v: u32) -> Seq<u32> {
    if v != 0 { seq![v] } else { Seq::empty() }
}

/// The valid samples of a 2x2 depth block, in block order.
pub open spec fn nonzero4(a: u32, b: u32, c: u32, d: u32) -> Seq<u32> {
    keep_nonzero(a) + keep_nonzero(b) + keep_nonzero(c) + keep_nonzero(d)
}

/// Ascending order on depths.
pub open spec fn depth_le() -> spec_fn(u32, u32) -> bool {
    |a: u32, b: u32| a <= b
}

/// The element at index `len / 2` of the sorted valid samples, or zero when none is valid.
pub open spec fn block_median(a: u32, b: u32, c: u32, d: u32) -> u32 {
    let s = nonzero4(a, b, c, d).sort_by(depth_le());
    if s.len() == 0 { 0 } else { s[(s.len() / 2) as int] }
}

/// The 2x2 depth reduction of one output sample.
pub open spec fn reduced_depth(depth: Seq<u32>, w: int, x: int, y: int) -> u32 {
    block_median(
        depth[(2 * y) * w + 2 * x],
        depth[(2 * y) * w + 2 * x + 1],
        depth[(2 * y + 1) * w + 2 * x],
        depth[(2 * y + 1) * w + 2 * x + 1],
    )
}

proof fn lemma_depth_le_total()
    ensures
        vstd::relations::total_ordering(depth_le()),
{
    let leq = depth_le();
    assert(vstd::relations::reflexive(leq));
    assert(vstd::relations::antisymmetric(leq));
    assert(vstd::relations::transitive(leq));
    assert(vstd::relations::strongly_connected(leq));
}

fn sort_depths(values: &mut Vec<u32>)
    ensures
        final(values)@.to_multiset() == old(values)@.to_multiset(),
        vstd::relations::sorted_by(final(values)@, depth_le()),
{
    let ghost original = values@;
    let mut i: usize = 1;
    if values.len() == 0 {
        return;
    }
    while i < values.len()
        invariant
            1 <= i <= values@.len(),
            values@.len() == original.len(),
            values@.to_multiset() == original.to_multiset(),
            forall|a: int, b: int| 0 <= a < b < i ==> #[trigger] values@[a] <= #[trigger] values@[b],
        decreases original.len() - i,
    {
        let mut j: usize = i;
        while j > 0 && values[j - 1] > values[j]
            invariant
                j <= i < values@.len(),
                values@.len() == original.len(),
                values@.to_multiset() == original.to_multiset(),
                forall|a: int, b: int| 0 <= a < b <= i && a != j && b != j ==> #[trigger] values@[a] <= #[trigger] values@[b],
                forall|b: int| j < b <= i ==> values@[j as int] < #[trigger] values@[b],
                forall|a: int, b: int| 0 <= a < j < b <= i ==> #[trigger] values@[a] <= #[trigger] values@[b],
            decreases j,
        {
            let ghost before = values@;
            let upper = values[j - 1];
            let lower = values[j];
            values.set(j - 1, lower);
            values.set(j, upper);
            proof {
                crate::raster::lemma_swap_preserves_multiset(before, j - 1, j as int);
                assert(values@ == before.update(j - 1, before[j as int]).update(j as int, before[j - 1]));
            }
            j -= 1;
        }
        i += 1;
    }
    proof {
        assert(vstd::relations::sorted_by(values@, depth_le()));
    }
}

/// The median of the valid samples of one 2x2 block.
fn median_of_block(a: u32, b: u32, c: u32, d: u32) -> (r: u32)
    ensures
        r == block_median(a, b, c, d),
{
    let mut valid: Vec<u32> = Vec::new();
    if a != 0 {
        valid.push(a);
    }
    if b != 0 {
        valid.push(b);
    }
    if c != 0 {
        valid.push(c);
    }
    if d != 0 {
        valid.push(d);
    }
    let ghost s = nonzero4(a, b, c, d);
    proof {
        assert(valid@ =~= s);
    }
    sort_depths(&mut valid);
    proof {
        lemma_depth_le_total();
        s.lemma_sort_by_ensures(depth_le());
        vstd::seq_lib::lemma_sorted_unique(valid@, s.sort_by(depth_le()), depth_le());
    }
    if valid.len() == 0 {
        0
    } else {
        valid[valid.len() / 2]
    }
}

/// Halve a depth grid, keeping the median of the valid samples of each 2x2 block.
pub fn reduce_depth_2x(width: usize, height: usize, depth: &[u32]) -> (r: Result<Vec<u32>, StylizeError>)
    ensures
        r is Ok <==> (width * height == depth@.len() && width % 2 == 0 && height % 2 == 0),
        r matches Ok(out) ==> {
            let ow = width as int / 2;
            &&& out@.len() == ow * (height as int / 2)
            &&& forall|i: int|
                0 <= i < out@.len() ==> #[trigger] out@[i] == reduced_depth(depth@, width as int, i % ow, i / ow)
        },
{
    let n = depth.len();
    let total = width.checked_mul(height);
    match total {
        None => {
            proof {
                assert(width * height > n);
            }
            return Err(invalid("depth reduction dimensions are invalid"));
        },
        Some(t) => {
            if t != depth.len() || width % 2 != 0 || height % 2 != 0 {
                return Err(invalid("depth reduction dimensions are invalid"));
            }
        },
    }
    let ow = width / 2;
    let oh = height / 2;
    let ghost w = width as int;
    let ghost owi = ow as int;
    let mut output: Vec<u32> = Vec::new();
    let mut y: usize = 0;
    while y < oh
        invariant
            width * height == depth@.len(),
            width == 2 * ow && height == 2 * oh,
            w == width as int && owi == ow as int,
            y <= oh,
            output@.len() == y * owi,
            forall|i: int| 0 <= i < y * owi ==> #[trigger] output@[i] == reduced_depth(depth@, w, i % owi, i / owi),
        decreases oh - y,
    {
        let mut x: usize = 0;
        while x < ow
            invariant
                width * height == depth@.len(),
                width == 2 * ow && height == 2 * oh,
                w == width as int && owi == ow as int,
                y < oh,
                x <= ow,
                output@.len() == y * owi + x,
                forall|i: int| 0 <= i < y * owi + x ==> #[trigger] output@[i] == reduced_depth(depth@, w, i % owi, i / owi),
            decreases ow - x,
        {
            proof {
                assert((2 * y + 1) * width + 2 * x + 1 < width * height) by (nonlinear_arith)
                    requires y < oh, x < ow, width == 2 * ow, height == 2 * oh;
                assert((2 * y) * width + width == (2 * y + 1) * width) by (nonlinear_arith);
                lemma_index(owi, oh as int, x as int, y as int);
            }
            let n = depth.len();
            let y2 = 2 * y;
            assert(y2 * width + width < n);
            let row0 = y2 * width;
            let row1 = row0 + width;
            let value = median_of_block(
                depth[row0 + 2 * x],
                depth[row0 + 2 * x + 1],
                depth[row1 + 2 * x],
                depth[row1 + 2 * x + 1],
            );
            output.push(value);
            proof {
                assert(output@[y * owi + x] == reduced_depth(depth@, w, x as int, y as int));
            }
            x += 1;
        }
        proof {
            assert((y + 1) * owi == y * owi + owi) by (nonlinear_arith);
        }
        y += 1;
    }
    proof {
        assert(oh * owi == owi * (height as int / 2)) by (nonlinear_arith)
            requires height == 2 * oh;
    }
    Ok(output)
}

/// Canopy shade index from the blurred crown luminance and the normal.
pub open spec fn canopy_shade(n: Rgb, crown: u8) -> int {
    let nx = n[0] as int - 128;
    let ny = n[1] as int - 128;
    let nz = n[2] as int - 128;
    let light = crown as int + trunc_div(-nx + ny + 2 * nz, 24);
    clamp(trunc_div(light - 18, 20), 0, 6)
}

/// A masked pixel with a 4-neighbor off the grid or outside the mask.
pub open spec fn mask_boundary(m: Seq<bool>, w: int, h: int, i: int) -> bool {
    let x = i % w;
    let y = i / w;
    ||| x == 0 || !m[i - 1]
    ||| x + 1 >= w || !m[i + 1]
    ||| y == 0 || !m[i - w]
    ||| y + 1 >= h || !m[i + w]
}

/// One pixel of the canopy replacement.
pub open spec fn replaced_px(baseline: Seq<Rgb>, palette: Seq<Rgb>, normals: Seq<Rgb>, crown: Seq<u8>, m: Seq<bool>, w: int, h: int, i: int) -> Rgb {
    if !m[i] {
        baseline[i]
    } else if mask_boundary(m, w, h, i) {
        palette[0]
    } else {
        let shade = canopy_shade(normals[i], crown[i]);
        palette[if shade < palette.len() - 1 { shade } else { palette.len() - 1 }]
    }
}

/// Repaint masked canopy with shaded palette colors and outline its boundary with the first color.
pub fn replace_canopy(baseline: &RgbImage, source: &RgbImage, normals: &RgbImage, mask: &Vec<bool>, palette: &Vec<Rgb>) -> (r: Result<
    RgbImage,
    StylizeError,
>)
    requires
        image_ok(*baseline),
        image_ok(*source),
        image_ok(*normals),
    ensures
        r is Ok <==> (mask@.len() == baseline.pixels@.len() && baseline.width == source.width && baseline.height
            == source.height && baseline.width == normals.width && baseline.height == normals.height && palette@.len() >= 2),
        r matches Ok(out) ==> {
            let w = baseline.width as int;
            let h = baseline.height as int;
            let crown = box_blur_spec(luma_of(source.pixels@), w, h, 4);
            &&& out.width == baseline.width && out.height == baseline.height
            &&& out.pixels@.len() == baseline.pixels@.len()
            &&& forall|i: int|
                0 <= i < out.pixels@.len() ==> #[trigger] out.pixels@[i] == replaced_px(
                    baseline.pixels@,
                    palette@,
                    normals.pixels@,
                    crown,
                    mask@,
                    w,
                    h,
                    i,
                )
        },
{
    if mask.len() != baseline.pixels.len() || baseline.width != source.width || baseline.height != source.height
        || baseline.width != normals.width || baseline.height != normals.height || palette.len() < 2 {
        return Err(invalid("canopy replacement inputs are not registered"));
    }
    let width = baseline.width;
    let height = baseline.height;
    let ghost w = width as int;
    let ghost h = height as int;
    let luma_values = luminance_all(&source.pixels);
    proof {
        assert(luma_values@ =~= luma_of(source.pixels@));
    }
    let crown = box_blur(&luma_values, width, height, 4);
    let mut pixels: Vec<Rgb> = Vec::new();
    let mut i: usize = 0;
    while i < baseline.pixels.len()
        invariant
            image_ok(*baseline),
            image_ok(*source),
            image_ok(*normals),
            mask@.len() == baseline.pixels@.len(),
            width == baseline.width && height == baseline.height,
            w == width as int && h == height as int,
            source.width == width && source.height == height && normals.width == width && normals.height == height,
            palette@.len() >= 2,
            crown@ == box_blur_spec(luma_of(source.pixels@), w, h, 4),
            crown@.len() == baseline.pixels@.len(),
            i <= baseline.pixels@.len(),
            pixels@.len() == i,
            forall|j: int|
                0 <= j < i ==> #[trigger] pixels@[j] == replaced_px(baseline.pixels@, palette@, normals.pixels@, crown@, mask@, w, h, j),
        decreases baseline.pixels@.len() - i,
    {
        if !mask[i] {
            pixels.push(baseline.pixels[i]);
        } else {
            let x = i % width;
            let y = i / width;
            proof {
                lemma_position(w, h, i as int);
                assert(i + w < w * h <==> y + 1 < h) by (nonlinear_arith)
                    requires i == y * w + x, 0 <= x < w, 0 <= y < h;
                assert(i >= w <==> y > 0) by (nonlinear_arith)
                    requires i == y * w + x, 0 <= x < w, 0 <= y < h;
                assert(x + 1 < w ==> i + 1 < w * h) by (nonlinear_arith)
                    requires i == y * w + x, 0 <= x < w, 0 <= y < h;
            }
            let boundary = x == 0 || !mask[i - 1] || x + 1 >= width || !mask[i + 1] || y == 0 || !mask[i - width]
                || y + 1 >= height || !mask[i + width];
            if boundary {
                pixels.push(palette[0]);
            } else {
                let normal = normals.pixels[i];
                let nx = normal[0] as i32 - 128;
                let ny = normal[1] as i32 - 128;
                let nz = normal[2] as i32 - 128;
                let light = crown[i] as i32 + (-nx + ny + 2 * nz) / 24;
                let shade = clamp_i32((light - 18) / 20, 0, 6) as usize;
                let last = palette.len() - 1;
                let pick = if shade < last { shade } else { last };
                pixels.push(palette[pick]);
            }
        }
        i += 1;
    }
    RgbImage::new(width, height, pixels)
}

/// Luminance weighs red, green and blue by 54, 183 and 19 out of 256, rounding down, so a gray
/// pixel keeps its level.
pub proof fn lemma_luma_weights(p: Rgb)
    ensures
        256 * luma(p) <= 54 * p[0] + 183 * p[1] + 19 * p[2] < 256 * (luma(p) + 1),
        p[0] == p[1] && p[1] == p[2] ==> luma(p) == p[0],
{
    assert(54 * p[0] + 183 * p[1] + 19 * p[2] <= 256 * 255);
}

/// The 2x2 reduction mean rounds half up: four times the mean lies within two of the sum.
pub proof fn lemma_mean4_rounds_half_up(a: u8, b: u8, c: u8, d: u8)
    ensures
        4 * mean4(a, b, c, d) <= a + b + c + d + 2 < 4 * mean4(a, b, c, d) + 4,
{
}

/// Two neighboring logical pixels form a structural edge when their normals differ by more
/// than 190 in summed channel distance, when either has no depth, or when their depths differ
/// by more than 2 m.
pub proof fn lemma_structural_pair_thresholds(n: Seq<Rgb>, d: Seq<u32>, a: int, b: int)
    ensures
        structural_pair(n, d, a, b) <==> ({
            let dn = (if n[a][0] >= n[b][0] { n[a][0] - n[b][0] } else { n[b][0] - n[a][0] }) + (if n[a][1] >= n[b][1] {
                n[a][1] - n[b][1]
            } else {
                n[b][1] - n[a][1]
            }) + (if n[a][2] >= n[b][2] { n[a][2] - n[b][2] } else { n[b][2] - n[a][2] });
            dn > 190 || d[a] == 0 || d[b] == 0 || (if d[a] >= d[b] { d[a] - d[b] } else { d[b] - d[a] }) > 2000
        }),
{
}

} // verus!
