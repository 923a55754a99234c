//! Bounded fixed-point triangle rasterization with an integer depth buffer.
use vstd::prelude::*;
use vstd::multiset::Multiset;
use crate::render::{IndexedImage, RenderError, trunc_div};

verus! {

broadcast use vstd::seq_lib::group_to_multiset_ensures, vstd::multiset::group_multiset_axioms;

/// Subpixels per pixel edge.
pub const SUBPIXELS_PER_PIXEL: i64 = 256;
/// Offset of a pixel's sample point from its corner.
pub const SAMPLE_OFFSET: i64 = 128;
/// Largest raster edge.
pub const MAX_RASTER_DIMENSION: u32 = 4_096;
/// Largest absolute vertex coordinate in subpixels.
pub const MAX_VERTEX_SUBPIXELS: i64 = 1_000_000_000_000;

/// One fixed-point screen vertex and its integer depth value.
#[derive(Clone, Copy, Debug, Eq, PartialEq, Structural)]
pub struct RasterVertex {
    /// Horizontal coordinate in 1/256 pixel subpixels.
    pub x_subpx: i64,
    /// Vertical coordinate in 1/256 pixel subpixels.
    pub y_subpx: i64,
    /// Integer depth. Larger values are closer to the camera.
    pub depth: i32,
}

impl RasterVertex {
    /// Constructs a fixed-point raster vertex.
    pub fn new(x_subpx: i64, y_subpx: i64, depth: i32) -> (r: Self)
        ensures
            r == (RasterVertex { x_subpx, y_subpx, depth }),
    {
        RasterVertex { x_subpx, y_subpx, depth }
    }
}

/// One indexed triangle with a stable source-derived primitive key.
#[derive(Clone, Copy, Debug, Eq, PartialEq)]
pub struct Triangle {
    /// Triangle vertices.
    pub vertices: [RasterVertex; 3],
    /// Output palette index.
    pub palette_index: u8,
    /// Nonzero stable key used to canonicalize equal-depth ownership.
    pub stable_key: u64,
}

/// Twice the signed area spanned by `a -> b` and `a -> p`.
pub open spec fn edge_spec(a: RasterVertex, b: RasterVertex, p: (int, int)) -> int {
    (b.x_subpx - a.x_subpx) * (p.1 - a.y_subpx) - (b.y_subpx - a.y_subpx) * (p.0 - a.x_subpx)
}

/// Vertices in counter-clockwise order (the second and third swapped for a clockwise input).
pub open spec fn oriented(t: Triangle) -> Seq<RasterVertex> {
    let v = t.vertices@;
    if edge_spec(v[0], v[1], (v[2].x_subpx as int, v[2].y_subpx as int)) < 0 {
        seq![v[0], v[2], v[1]]
    } else {
        seq![v[0], v[1], v[2]]
    }
}

/// The sample point of pixel `(x, y)`.
pub open spec fn sample_point(x: int, y: int) -> (int, int) {
    (x * 256 + 128, y * 256 + 128)
}

/// Whether an edge owns samples that lie exactly on it (top-left rule).
pub open spec fn inclusive_edge_spec(s: RasterVertex, e: RasterVertex) -> bool {
    s.y_subpx < e.y_subpx || (s.y_subpx == e.y_subpx && s.x_subpx < e.x_subpx)
}

/// The barycentric weight opposite vertex `k` of the oriented triangle at a point.
pub open spec fn weight(v: Seq<RasterVertex>, k: int, p: (int, int)) -> int {
    edge_spec(v[(k + 1) % 3], v[(k + 2) % 3], p)
}

/// Whether the oriented triangle covers a sample point.
pub open spec fn covers_point(v: Seq<RasterVertex>, p: (int, int)) -> bool {
    forall|k: int|
        0 <= k < 3 ==> #[trigger] weight(v, k, p) > 0 || (weight(v, k, p) == 0 && inclusive_edge_spec(
            v[(k + 1) % 3],
            v[(k + 2) % 3],
        ))
}

/// Whether a triangle covers pixel `(x, y)`.
pub open spec fn covers(t: Triangle, x: int, y: int) -> bool {
    covers_point(oriented(t), sample_point(x, y))
}

/// The interpolated fragment depth of a triangle at pixel `(x, y)`.
pub open spec fn fragment_depth(t: Triangle, x: int, y: int) -> int {
    let v = oriented(t);
    let p = sample_point(x, y);
    let area = edge_spec(v[0], v[1], (v[2].x_subpx as int, v[2].y_subpx as int));
    trunc_div(weight(v, 0, p) * v[0].depth + weight(v, 1, p) * v[1].depth + weight(v, 2, p) * v[2].depth, area)
}

/// Depth and palette index of every pixel.
pub type RasterState = (Seq<i32>, Seq<u8>);

/// Draw one triangle: each covered pixel takes the fragment when it is strictly closer.
pub open spec fn draw_spec(s: RasterState, t: Triangle, w: int) -> RasterState {
    (
        Seq::new(s.0.len(), |i: int| if covers(t, i % w, i / w) && fragment_depth(t, i % w, i / w) > s.0[i] {
            fragment_depth(t, i % w, i / w) as i32
        } else {
            s.0[i]
        }),
        Seq::new(s.1.len(), |i: int| if covers(t, i % w, i / w) && fragment_depth(t, i % w, i / w) > s.0[i] {
            t.palette_index
        } else {
            s.1[i]
        }),
    )
}

/// Draw triangles in sequence.
pub open spec fn draw_all(s: RasterState, ts: Seq<Triangle>, w: int) -> RasterState
    decreases ts.len(),
{
    if ts.len() == 0 {
        s
    } else {
        draw_spec(draw_all(s, ts.drop_last(), w), ts.last(), w)
    }
}

/// Triangles ordered by strictly increasing stable key.
pub open spec fn keys_increasing(ts: Seq<Triangle>) -> bool {
    forall|i: int, j: int| 0 <= i < j < ts.len() ==> #[trigger] ts[i].stable_key < #[trigger] ts[j].stable_key
}

/// Whether a vertex lies in the accepted coordinate range.
pub open spec fn vertex_ok(v: RasterVertex) -> bool {
    &&& -MAX_VERTEX_SUBPIXELS <= v.x_subpx <= MAX_VERTEX_SUBPIXELS
    &&& -MAX_VERTEX_SUBPIXELS <= v.y_subpx <= MAX_VERTEX_SUBPIXELS
    &&& v.depth != i32::MIN
}

/// The twice-signed area of a triangle as given.
pub open spec fn signed_area(t: Triangle) -> int {
    let v = t.vertices@;
    edge_spec(v[0], v[1], (v[2].x_subpx as int, v[2].y_subpx as int))
}

/// The first batch error among the first `n` triangles, checked in order.
pub open spec fn batch_error(ts: Seq<Triangle>, palette_len: int, n: int) -> Option<RenderError>
    decreases n,
{
    if n <= 0 {
        None
    } else {
        match batch_error(ts, palette_len, n - 1) {
            Some(e) => Some(e),
            None => {
                let t = ts[n - 1];
                if t.stable_key == 0 || exists|j: int| 0 <= j < n - 1 && #[trigger] ts[j].stable_key == t.stable_key {
                    Some(RenderError::InvalidPrimitiveKey)
                } else if t.palette_index >= palette_len {
                    Some(RenderError::PaletteIndex)
                } else if !(vertex_ok(t.vertices@[0]) && vertex_ok(t.vertices@[1]) && vertex_ok(t.vertices@[2])) {
                    Some(RenderError::InvalidVertex)
                } else if signed_area(t) == 0 {
                    Some(RenderError::DegenerateTriangle)
                } else {
                    None
                }
            },
        }
    }
}

proof fn lemma_expand2(a: int, b: int, c: int, d: int)
    ensures
        (a - b) * (c - d) == a * c - a * d - b * c + b * d,
{
    assert((a - b) * (c - d) == a * c - a * d - b * c + b * d) by (nonlinear_arith);
}

proof fn lemma_expand3(a: int, b: int, c: int, d: int, e: int)
    ensures
        ((a - b) * (c - d)) * e == a * c * e - a * d * e - b * c * e + b * d * e,
{
    lemma_expand2(a, b, c, d);
    let x1 = a * c;
    let x2 = a * d;
    let x3 = b * c;
    let x4 = b * d;
    vstd::arithmetic::mul::lemma_mul_is_distributive_add_other_way(e, x1 - x2 - x3, x4);
    vstd::arithmetic::mul::lemma_mul_is_distributive_sub_other_way(e, x1 - x2, x3);
    vstd::arithmetic::mul::lemma_mul_is_distributive_sub_other_way(e, x1, x2);
}

proof fn lemma_weight_sum(ax: int, ay: int, bx: int, by: int, cx: int, cy: int, px: int, py: int)
    ensures
        ((cx - bx) * (py - by) - (cy - by) * (px - bx)) + ((ax - cx) * (py - cy) - (ay - cy) * (px - cx)) + ((bx - ax) * (
            py - ay) - (by - ay) * (px - ax)) == (bx - ax) * (cy - ay) - (by - ay) * (cx - ax),
{
    lemma_expand2(cx, bx, py, by);
    lemma_expand2(cy, by, px, bx);
    lemma_expand2(ax, cx, py, cy);
    lemma_expand2(ay, cy, px, cx);
    lemma_expand2(bx, ax, py, ay);
    lemma_expand2(by, ay, px, ax);
    lemma_expand2(bx, ax, cy, ay);
    lemma_expand2(by, ay, cx, ax);
}

/// In translated coordinates (`p` at the origin) the weights are cross products,
/// and their combination with the vertex coordinates vanishes.
proof fn lemma_barycentric_translated(ax: int, ay: int, bx: int, by: int, cx: int, cy: int)
    ensures
        (bx * cy - by * cx) * ax + (cx * ay - cy * ax) * bx + (ax * by - ay * bx) * cx == 0,
        (bx * cy - by * cx) * ay + (cx * ay - cy * ax) * by + (ax * by - ay * bx) * cy == 0,
{
    assert((bx * cy - by * cx) * ax + (cx * ay - cy * ax) * bx + (ax * by - ay * bx) * cx == 0) by (nonlinear_arith);
    assert((bx * cy - by * cx) * ay + (cx * ay - cy * ax) * by + (ax * by - ay * bx) * cy == 0) by (nonlinear_arith);
}

/// A convex combination with nonnegative weights stays between the extremes.
proof fn lemma_convex(w0: int, w1: int, w2: int, a: int, b: int, c: int, area: int, total: int)
    requires
        w0 >= 0 && w1 >= 0 && w2 >= 0,
        w0 + w1 + w2 == area,
        area > 0,
        total == w0 * a + w1 * b + w2 * c,
    ensures
        area * min3(a, b, c) <= total <= area * max3(a, b, c),
{
    let lo = min3(a, b, c);
    let hi = max3(a, b, c);
    assert(w0 * a >= w0 * lo) by (nonlinear_arith)
        requires
            w0 >= 0,
            a >= lo,
    ;
    assert(w1 * b >= w1 * lo) by (nonlinear_arith)
        requires
            w1 >= 0,
            b >= lo,
    ;
    assert(w2 * c >= w2 * lo) by (nonlinear_arith)
        requires
            w2 >= 0,
            c >= lo,
    ;
    assert(w0 * a <= w0 * hi) by (nonlinear_arith)
        requires
            w0 >= 0,
            a <= hi,
    ;
    assert(w1 * b <= w1 * hi) by (nonlinear_arith)
        requires
            w1 >= 0,
            b <= hi,
    ;
    assert(w2 * c <= w2 * hi) by (nonlinear_arith)
        requires
            w2 >= 0,
            c <= hi,
    ;
    assert(w0 * lo + w1 * lo + w2 * lo == area * lo) by (nonlinear_arith)
        requires
            w0 + w1 + w2 == area,
    ;
    assert(w0 * hi + w1 * hi + w2 * hi == area * hi) by (nonlinear_arith)
        requires
            w0 + w1 + w2 == area,
    ;
}

/// Smallest of three integers.
pub open spec fn min3(a: int, b: int, c: int) -> int {
    if a <= b && a <= c {
        a
    } else if b <= c {
        b
    } else {
        c
    }
}

/// Largest of three integers.
pub open spec fn max3(a: int, b: int, c: int) -> int {
    if a >= b && a >= c {
        a
    } else if b >= c {
        b
    } else {
        c
    }
}

proof fn lemma_edge_translated(b: RasterVertex, c: RasterVertex, px: int, py: int)
    ensures
        edge_spec(b, c, (px, py)) == (b.x_subpx - px) * (c.y_subpx - py) - (b.y_subpx - py) * (c.x_subpx - px),
{
    let bx = b.x_subpx as int;
    let by = b.y_subpx as int;
    let cx = c.x_subpx as int;
    let cy = c.y_subpx as int;
    lemma_expand2(cx, bx, py, by);
    lemma_expand2(cy, by, px, bx);
    lemma_expand2(bx, px, cy, py);
    lemma_expand2(by, py, cx, px);
}

/// A covered sample lies inside the bounding box of the triangle's vertices.
proof fn lemma_covered_in_box(v: Seq<RasterVertex>, p: (int, int))
    requires
        v.len() == 3,
        edge_spec(v[0], v[1], (v[2].x_subpx as int, v[2].y_subpx as int)) > 0,
        covers_point(v, p),
    ensures
        min3(v[0].x_subpx as int, v[1].x_subpx as int, v[2].x_subpx as int) <= p.0 <= max3(
            v[0].x_subpx as int,
            v[1].x_subpx as int,
            v[2].x_subpx as int,
        ),
        min3(v[0].y_subpx as int, v[1].y_subpx as int, v[2].y_subpx as int) <= p.1 <= max3(
            v[0].y_subpx as int,
            v[1].y_subpx as int,
            v[2].y_subpx as int,
        ),
{
    let w0 = weight(v, 0, p);
    let w1 = weight(v, 1, p);
    let w2 = weight(v, 2, p);
    assert(w0 >= 0 && w1 >= 0 && w2 >= 0);
    lemma_weight_sum(
        v[0].x_subpx as int,
        v[0].y_subpx as int,
        v[1].x_subpx as int,
        v[1].y_subpx as int,
        v[2].x_subpx as int,
        v[2].y_subpx as int,
        p.0,
        p.1,
    );
    let area = edge_spec(v[0], v[1], (v[2].x_subpx as int, v[2].y_subpx as int));
    assert(w0 + w1 + w2 == area);
    lemma_edge_translated(v[1], v[2], p.0, p.1);
    lemma_edge_translated(v[2], v[0], p.0, p.1);
    lemma_edge_translated(v[0], v[1], p.0, p.1);
    let ax = v[0].x_subpx - p.0;
    let ay = v[0].y_subpx - p.1;
    let bx = v[1].x_subpx - p.0;
    let by = v[1].y_subpx - p.1;
    let cx = v[2].x_subpx - p.0;
    let cy = v[2].y_subpx - p.1;
    lemma_barycentric_translated(ax, ay, bx, by, cx, cy);
    assert(w0 == bx * cy - by * cx);
    assert(w1 == cx * ay - cy * ax);
    assert(w2 == ax * by - ay * bx);
    lemma_positive_combination(w0, w1, w2, ax, bx, cx);
    lemma_positive_combination(w0, w1, w2, ay, by, cy);
}

proof fn lemma_positive_combination(w0: int, w1: int, w2: int, a: int, b: int, c: int)
    requires
        w0 >= 0 && w1 >= 0 && w2 >= 0,
        w0 + w1 + w2 > 0,
        w0 * a + w1 * b + w2 * c == 0,
    ensures
        min3(a, b, c) <= 0 <= max3(a, b, c),
{
    if a > 0 && b > 0 && c > 0 {
        assert(w0 * a + w1 * b + w2 * c > 0) by (nonlinear_arith)
            requires
                w0 >= 0 && w1 >= 0 && w2 >= 0,
                w0 + w1 + w2 > 0,
                a > 0 && b > 0 && c > 0,
        ;
    }
    if a < 0 && b < 0 && c < 0 {
        assert(w0 * a + w1 * b + w2 * c < 0) by (nonlinear_arith)
            requires
                w0 >= 0 && w1 >= 0 && w2 >= 0,
                w0 + w1 + w2 > 0,
                a < 0 && b < 0 && c < 0,
        ;
    }
}

proof fn lemma_trunc_div_bounds(num: int, area: int, lo: int, hi: int)
    requires
        area > 0,
        area * lo <= num <= area * hi,
    ensures
        lo <= trunc_div(num, area) <= hi,
{
    if num >= 0 {
        vstd::arithmetic::div_mod::lemma_div_is_ordered(num, area * hi, area);
        vstd::arithmetic::div_mod::lemma_div_multiples_vanish(hi, area);
        if lo > 0 {
            vstd::arithmetic::div_mod::lemma_div_is_ordered(area * lo, num, area);
            vstd::arithmetic::div_mod::lemma_div_multiples_vanish(lo, area);
        }
        vstd::arithmetic::div_mod::lemma_div_pos_is_pos(num, area);
    } else {
        let m = -num;
        assert(area * (-hi) <= m <= area * (-lo)) by (nonlinear_arith)
            requires
                area * lo <= num <= area * hi,
                m == -num,
        ;
        vstd::arithmetic::div_mod::lemma_div_is_ordered(m, area * (-lo), area);
        vstd::arithmetic::div_mod::lemma_div_multiples_vanish(-lo, area);
        if hi < 0 {
            vstd::arithmetic::div_mod::lemma_div_is_ordered(area * (-hi), m, area);
            vstd::arithmetic::div_mod::lemma_div_multiples_vanish(-hi, area);
        }
        vstd::arithmetic::div_mod::lemma_div_pos_is_pos(m, area);
    }
}

/// A bounded raster target using five bytes per active pixel.
#[derive(Debug, Eq, PartialEq)]
pub struct RasterSurface {
    image: IndexedImage,
    depth: Vec<i32>,
    palette_len: u8,
    rasterized: bool,
}

impl Clone for RasterSurface {
    fn clone(&self) -> (r: Self)
        ensures
            r.img().w() == self.img().w() && r.img().h() == self.img().h(),
            r.img().px() == self.img().px(),
            r.depths() == self.depths(),
            r.plen() == self.plen(),
            r.done() == self.done(),
    {
        RasterSurface {
            image: self.image.clone(),
            depth: self.depth.clone(),
            palette_len: self.palette_len,
            rasterized: self.rasterized,
        }
    }
}

impl RasterSurface {
    /// The output image.
    pub closed spec fn img(&self) -> IndexedImage {
        self.image
    }

    /// The depth buffer.
    pub closed spec fn depths(&self) -> Seq<i32> {
        self.depth@
    }

    /// The palette length that every pixel indexes below.
    pub closed spec fn plen(&self) -> u8 {
        self.palette_len
    }

    /// Whether the one accepted batch has been drawn.
    pub closed spec fn done(&self) -> bool {
        self.rasterized
    }

    /// Bounded grid, one depth per pixel, and every pixel inside the palette.
    pub closed spec fn wf(&self) -> bool {
        &&& self.image.w() <= MAX_RASTER_DIMENSION && self.image.h() <= MAX_RASTER_DIMENSION
        &&& self.depth@.len() == self.image.px().len()
        &&& 1 <= self.palette_len <= 128
        &&& forall|i: int| 0 <= i < self.image.px().len() ==> #[trigger] self.image.px()[i] < self.palette_len
    }

    /// Bytes held by the palette image and the depth buffer: one palette byte and one 32-bit
    /// depth per pixel.
    pub fn pixel_buffer_bytes(&self) -> (r: usize)
        requires
            self.wf(),
        ensures
            r == self.img().px().len() + self.depths().len() * 4,
            r == 5 * self.img().w() * self.img().h(),
    {
        self.image.facts();
        proof {
            assert(self.image.w() * self.image.h() <= 4096 * 4096) by (nonlinear_arith)
                requires
                    1 <= self.image.w() <= 4096,
                    1 <= self.image.h() <= 4096,
            ;
            let n = self.image.w() * self.image.h();
            assert(n + n * 4 == 5 * self.image.w() * self.image.h()) by (nonlinear_arith)
                requires
                    n == self.image.w() * self.image.h(),
            ;
        }
        self.image.pixels().len() + self.depth.len() * 4
    }

    /// Allocates one palette byte and one 32-bit depth value per pixel.
    pub fn new(width: u32, height: u32, background: u8, palette_len: u8) -> (r: Result<Self, RenderError>)
        ensures
            !(1 <= width <= MAX_RASTER_DIMENSION && 1 <= height <= MAX_RASTER_DIMENSION) ==> r == Err::<Self, RenderError>(
                RenderError::InvalidDimensions,
            ),
            (1 <= width <= MAX_RASTER_DIMENSION && 1 <= height <= MAX_RASTER_DIMENSION) && !(1 <= palette_len <= 128
                && background < palette_len) ==> r == Err::<Self, RenderError>(RenderError::PaletteIndex),
            r is Ok <==> (1 <= width <= MAX_RASTER_DIMENSION && 1 <= height <= MAX_RASTER_DIMENSION && 1 <= palette_len <= 128
                && background < palette_len),
            r matches Ok(s) ==> {
                &&& s.wf() && !s.done() && s.plen() == palette_len
                &&& s.img().w() == width && s.img().h() == height
                &&& s.img().px() == Seq::new((width * height) as nat, |i: int| background)
                &&& s.depths() == Seq::new((width * height) as nat, |i: int| i32::MIN)
            },
    {
        if width == 0 || height == 0 || width > MAX_RASTER_DIMENSION || height > MAX_RASTER_DIMENSION {
            return Err(RenderError::InvalidDimensions);
        }
        if palette_len == 0 || palette_len > 128 || background >= palette_len {
            return Err(RenderError::PaletteIndex);
        }
        let image = match IndexedImage::new(width, height, background) {
            Ok(img) => img,
            Err(e) => return Err(e),
        };
        image.facts();
        proof {
            assert(width as int * height as int <= 4096 * 4096) by (nonlinear_arith)
                requires
                    width <= 4096,
                    height <= 4096,
            ;
        }
        let length = width as usize * height as usize;
        let mut depth: Vec<i32> = Vec::new();
        let mut i: usize = 0;
        while i < length
            invariant
                i <= length,
                depth@.len() == i,
                forall|j: int| 0 <= j < i ==> #[trigger] depth@[j] == i32::MIN,
            decreases length - i,
        {
            depth.push(i32::MIN);
            i += 1;
        }
        proof {
            assert(depth@ =~= Seq::new((width * height) as nat, |i: int| i32::MIN));
        }
        Ok(RasterSurface { image, depth, palette_len, rasterized: false })
    }

    /// Returns the palette-indexed output.
    pub fn image(&self) -> (r: &IndexedImage)
        ensures
            *r == self.img(),
    {
        &self.image
    }

    /// Consumes the surface and returns its palette-indexed output.
    pub fn into_image(self) -> (r: IndexedImage)
        ensures
            r == self.img(),
    {
        self.image
    }
}

fn edge(start: RasterVertex, end: RasterVertex, px: i64, py: i64) -> (r: i128)
    requires
        -2_000_000_000_000 <= start.x_subpx <= 2_000_000_000_000,
        -2_000_000_000_000 <= start.y_subpx <= 2_000_000_000_000,
        -2_000_000_000_000 <= end.x_subpx <= 2_000_000_000_000,
        -2_000_000_000_000 <= end.y_subpx <= 2_000_000_000_000,
        -2_000_000_000_000 <= px <= 2_000_000_000_000,
        -2_000_000_000_000 <= py <= 2_000_000_000_000,
    ensures
        r == edge_spec(start, end, (px as int, py as int)),
        -32_000_000_000_000_000_000_000_000 <= r <= 32_000_000_000_000_000_000_000_000,
{
    let a = end.x_subpx as i128 - start.x_subpx as i128;
    let b = py as i128 - start.y_subpx as i128;
    let c = end.y_subpx as i128 - start.y_subpx as i128;
    let d = px as i128 - start.x_subpx as i128;
    proof {
        assert(-4_000_000_000_000 <= a <= 4_000_000_000_000);
        assert(a * b <= 16_000_000_000_000_000_000_000_000 && a * b >= -16_000_000_000_000_000_000_000_000) by (nonlinear_arith)
            requires
                -4_000_000_000_000 <= a <= 4_000_000_000_000,
                -4_000_000_000_000 <= b <= 4_000_000_000_000,
        ;
        assert(c * d <= 16_000_000_000_000_000_000_000_000 && c * d >= -16_000_000_000_000_000_000_000_000) by (nonlinear_arith)
            requires
                -4_000_000_000_000 <= c <= 4_000_000_000_000,
                -4_000_000_000_000 <= d <= 4_000_000_000_000,
        ;
    }
    a * b - c * d
}

fn inclusive_edge(start: RasterVertex, end: RasterVertex) -> (r: bool)
    ensures
        r == inclusive_edge_spec(start, end),
{
    start.y_subpx < end.y_subpx || (start.y_subpx == end.y_subpx && start.x_subpx < end.x_subpx)
}

/// Floor division by the pixel size.
fn floor_div_pixel(value: i64) -> (r: i64)
    ensures
        r == value as int / 256,
{
    let quotient = value / 256;
    let remainder = value % 256;
    proof {
        assert(quotient == trunc_div(value as int, 256));
        assert(remainder == value - quotient * 256);
    }
    if remainder < 0 {
        proof {
            vstd::arithmetic::div_mod::lemma_fundamental_div_mod_converse(value as int, 256, quotient - 1, remainder + 256);
        }
        quotient - 1
    } else {
        proof {
            vstd::arithmetic::div_mod::lemma_fundamental_div_mod_converse(value as int, 256, quotient as int, remainder as int);
        }
        quotient
    }
}

/// Whether a triangle passes every batch check.
pub open spec fn triangle_ok(t: Triangle, palette_len: int) -> bool {
    t.palette_index < palette_len && vertex_ok(t.vertices@[0]) && vertex_ok(t.vertices@[1]) && vertex_ok(t.vertices@[2])
        && signed_area(t) != 0
}

fn vertex_in_range(v: RasterVertex) -> (r: bool)
    ensures
        r == vertex_ok(v),
{
    -MAX_VERTEX_SUBPIXELS <= v.x_subpx && v.x_subpx <= MAX_VERTEX_SUBPIXELS && -MAX_VERTEX_SUBPIXELS <= v.y_subpx
        && v.y_subpx <= MAX_VERTEX_SUBPIXELS && v.depth != i32::MIN
}

proof fn lemma_batch_prefix_ok(ts: Seq<Triangle>, palette_len: int, n: int, k: int)
    requires
        0 <= k < n <= ts.len(),
        batch_error(ts, palette_len, n) is None,
    ensures
        batch_error(ts, palette_len, k + 1) is None,
        triangle_ok(ts[k], palette_len),
        ts[k].stable_key != 0,
        forall|j: int| 0 <= j < k ==> #[trigger] ts[j].stable_key != ts[k].stable_key,
    decreases n - k,
{
    if k + 1 < n {
        lemma_batch_prefix_ok(ts, palette_len, n - 1, k);
    }
}

/// Check a batch before drawing: nonzero unique keys, palette indexes,
/// vertex ranges, and nonzero areas, reporting the first violation.
pub fn validate_batch(triangles: &[Triangle], palette_len: u8) -> (r: Result<(), RenderError>)
    ensures
        r == (match batch_error(triangles@, palette_len as int, triangles@.len() as int) {
            None => Ok::<(), RenderError>(()),
            Some(e) => Err(e),
        }),
{
    let mut k: usize = 0;
    while k < triangles.len()
        invariant
            k <= triangles@.len(),
            batch_error(triangles@, palette_len as int, k as int) is None,
        decreases triangles@.len() - k,
    {
        let ghost ts = triangles@;
        let t = triangles[k];
        let mut duplicate = false;
        let mut j: usize = 0;
        while j < k
            invariant
                j <= k < triangles@.len(),
                t == triangles@[k as int],
                duplicate <==> exists|i: int| 0 <= i < j && #[trigger] triangles@[i].stable_key == t.stable_key,
            decreases k - j,
        {
            if triangles[j].stable_key == t.stable_key {
                duplicate = true;
            }
            j += 1;
        }
        let v = t.vertices;
        let mut result: Result<(), RenderError> = Ok(());
        if t.stable_key == 0 || duplicate {
            result = Err(RenderError::InvalidPrimitiveKey);
        } else if t.palette_index >= palette_len {
            result = Err(RenderError::PaletteIndex);
        } else if !(vertex_in_range(v[0]) && vertex_in_range(v[1]) && vertex_in_range(v[2])) {
            result = Err(RenderError::InvalidVertex);
        } else if edge(v[0], v[1], v[2].x_subpx, v[2].y_subpx) == 0 {
            result = Err(RenderError::DegenerateTriangle);
        }
        match result {
            Err(e) => {
                proof {
                    lemma_batch_error_sticky(triangles@, palette_len as int, k as int + 1, triangles@.len() as int);
                }
                return Err(e);
            },
            Ok(()) => {},
        }
        k += 1;
    }
    Ok(())
}

proof fn lemma_batch_error_sticky(ts: Seq<Triangle>, palette_len: int, k: int, n: int)
    requires
        1 <= k <= n,
        batch_error(ts, palette_len, k) is Some,
    ensures
        batch_error(ts, palette_len, n) == batch_error(ts, palette_len, k),
    decreases n - k,
{
    if k < n {
        lemma_batch_error_sticky(ts, palette_len, k, n - 1);
    }
}

/// Triangles in nondecreasing stable-key order.
pub open spec fn keys_sorted(ts: Seq<Triangle>) -> bool {
    forall|i: int, j: int| 0 <= i < j < ts.len() ==> #[trigger] ts[i].stable_key <= #[trigger] ts[j].stable_key
}

/// Swapping two entries keeps the multiset of a sequence.
pub proof fn lemma_swap_preserves_multiset<A>(s: Seq<A>, i: int, j: int)
    requires
        0 <= i < s.len(),
        0 <= j < s.len(),
    ensures
        s.update(i, s[j]).update(j, s[i]).to_multiset() =~= s.to_multiset(),
{
    let t = s.update(i, s[j]);
    assert(t.to_multiset() == s.to_multiset().insert(s[j]).remove(s[i]));
    assert(t.update(j, s[i]).to_multiset() == t.to_multiset().insert(s[i]).remove(t[j]));
}

/// Order triangles by stable key (insertion sort, stable).
fn sort_by_key(triangles: &[Triangle]) -> (r: Vec<Triangle>)
    ensures
        r@.to_multiset() == triangles@.to_multiset(),
        keys_sorted(r@),
{
    let mut out: Vec<Triangle> = Vec::new();
    let mut i: usize = 0;
    while i < triangles.len()
        invariant
            i <= triangles@.len(),
            out@.to_multiset() == triangles@.subrange(0, i as int).to_multiset(),
            keys_sorted(out@),
        decreases triangles@.len() - i,
    {
        proof {
            assert(triangles@.subrange(0, i + 1) =~= triangles@.subrange(0, i as int).push(triangles@[i as int]));
        }
        out.push(triangles[i]);
        let mut j: usize = out.len() - 1;
        while j > 0 && out[j - 1].stable_key > out[j].stable_key
            invariant
                j < out@.len(),
                out@.to_multiset() == triangles@.subrange(0, i + 1).to_multiset(),
                forall|a: int, b: int|
                    0 <= a < b < out@.len() && a != j && b != j ==> #[trigger] out@[a].stable_key <= #[trigger] out@[b].stable_key,
                forall|b: int| j < b < out@.len() ==> out@[j as int].stable_key < #[trigger] out@[b].stable_key,
                forall|a: int, b: int|
                    0 <= a < j < b < out@.len() ==> #[trigger] out@[a].stable_key <= #[trigger] out@[b].stable_key,
            decreases j,
        {
            let ghost before = out@;
            let upper = out[j - 1];
            let lower = out[j];
            out.set(j - 1, lower);
            out.set(j, upper);
            proof {
                lemma_swap_preserves_multiset(before, j - 1, j as int);
                assert(out@ == before.update(j - 1, before[j as int]).update(j as int, before[j - 1]));
            }
            j -= 1;
        }
        i += 1;
    }
    proof {
        assert(triangles@.subrange(0, triangles@.len() as int) =~= triangles@);
    }
    out
}

proof fn lemma_edge_swap(a: RasterVertex, b: RasterVertex, c: RasterVertex)
    ensures
        edge_spec(a, c, (b.x_subpx as int, b.y_subpx as int)) == -edge_spec(a, b, (c.x_subpx as int, c.y_subpx as int)),
{
    let ax = a.x_subpx as int;
    let ay = a.y_subpx as int;
    let bx = b.x_subpx as int;
    let by = b.y_subpx as int;
    let cx = c.x_subpx as int;
    let cy = c.y_subpx as int;
    lemma_expand2(cx, ax, by, ay);
    lemma_expand2(cy, ay, bx, ax);
    lemma_expand2(bx, ax, cy, ay);
    lemma_expand2(by, ay, cx, ax);
}

/// Pixels of the drawing pass already visited: earlier rows of the box, then
/// the current row up to column `x`.
pub open spec fn visited(xi: int, yi: int, x0: int, x1: int, y0: int, y: int, x: int) -> bool {
    (y0 <= yi < y && x0 <= xi <= x1) || (yi == y && x0 <= xi < x)
}

proof fn lemma_weight_bound(v: Seq<RasterVertex>, k: int, p: (int, int))
    requires
        v.len() == 3,
        0 <= k < 3,
        forall|j: int| 0 <= j < 3 ==> vertex_ok(#[trigger] v[j]),
        -2_000_000_000_000 <= p.0 <= 2_000_000_000_000,
        -2_000_000_000_000 <= p.1 <= 2_000_000_000_000,
    ensures
        -32_000_000_000_000_000_000_000_000 <= weight(v, k, p) <= 32_000_000_000_000_000_000_000_000,
{
    let a = v[(k + 1) % 3];
    let b = v[(k + 2) % 3];
    assert(vertex_ok(a) && vertex_ok(b));
    let d1 = b.x_subpx - a.x_subpx;
    let d2 = p.1 - a.y_subpx;
    let d3 = b.y_subpx - a.y_subpx;
    let d4 = p.0 - a.x_subpx;
    assert(-16_000_000_000_000_000_000_000_000 <= d1 * d2 <= 16_000_000_000_000_000_000_000_000) by (nonlinear_arith)
        requires
            -4_000_000_000_000 <= d1 <= 4_000_000_000_000,
            -4_000_000_000_000 <= d2 <= 4_000_000_000_000,
    ;
    assert(-16_000_000_000_000_000_000_000_000 <= d3 * d4 <= 16_000_000_000_000_000_000_000_000) by (nonlinear_arith)
        requires
            -4_000_000_000_000 <= d3 <= 4_000_000_000_000,
            -4_000_000_000_000 <= d4 <= 4_000_000_000_000,
    ;
}

impl RasterSurface {
    /// Draw one triangle: each covered pixel takes the fragment when it is strictly closer.
    #[verifier::rlimit(100)]
    #[verifier::spinoff_prover]
    fn draw_triangle(&mut self, t: Triangle)
        requires
            old(self).wf(),
            triangle_ok(t, old(self).plen() as int),
        ensures
            final(self).wf(),
            final(self).img().w() == old(self).img().w() && final(self).img().h() == old(self).img().h(),
            final(self).plen() == old(self).plen() && final(self).done() == old(self).done(),
            (final(self).depths(), final(self).img().px()) == draw_spec(
                (old(self).depths(), old(self).img().px()),
                t,
                old(self).img().w(),
            ),
    {
        self.image.facts();
        let width = self.image.width();
        let height = self.image.height();
        let ghost w = width as int;
        let ghost h = height as int;
        let ghost d0 = self.depth@;
        let ghost c0 = self.image.px();
        let ghost target = draw_spec((d0, c0), t, w);
        let ghost pl = self.palette_len;
        let ghost done0 = self.rasterized;
        let mut v0 = t.vertices[0];
        let mut v1 = t.vertices[1];
        let mut v2 = t.vertices[2];
        let mut area = edge(v0, v1, v2.x_subpx, v2.y_subpx);
        if area < 0 {
            let tmp = v1;
            v1 = v2;
            v2 = tmp;
            proof {
                lemma_edge_swap(t.vertices@[0], t.vertices@[1], t.vertices@[2]);
            }
            area = -area;
        }
        let ghost ov = oriented(t);
        assert(ov == seq![v0, v1, v2]);
        assert(area == edge_spec(ov[0], ov[1], (ov[2].x_subpx as int, ov[2].y_subpx as int)));
        assert(area > 0);
        let min_x = if v0.x_subpx <= v1.x_subpx && v0.x_subpx <= v2.x_subpx { v0.x_subpx } else if v1.x_subpx <= v2.x_subpx { v1.x_subpx } else { v2.x_subpx };
        let max_x = if v0.x_subpx >= v1.x_subpx && v0.x_subpx >= v2.x_subpx { v0.x_subpx } else if v1.x_subpx >= v2.x_subpx { v1.x_subpx } else { v2.x_subpx };
        let min_y = if v0.y_subpx <= v1.y_subpx && v0.y_subpx <= v2.y_subpx { v0.y_subpx } else if v1.y_subpx <= v2.y_subpx { v1.y_subpx } else { v2.y_subpx };
        let max_y = if v0.y_subpx >= v1.y_subpx && v0.y_subpx >= v2.y_subpx { v0.y_subpx } else if v1.y_subpx >= v2.y_subpx { v1.y_subpx } else { v2.y_subpx };
        let last_x = width as i64 - 1;
        let last_y = height as i64 - 1;
        proof {
            assert forall|i: int| 0 <= i < d0.len() && #[trigger] covers(t, i % w, i / w) implies min_x <= (i % w) * 256 + 128 <= max_x
                && min_y <= (i / w) * 256 + 128 <= max_y && 0 <= i % w <= last_x && 0 <= i / w <= last_y by {
                lemma_covered_in_box(ov, sample_point(i % w, i / w));
                crate::geometry::lemma_position(w, h, i);
            }
        }
        if max_x < SAMPLE_OFFSET || max_y < SAMPLE_OFFSET || min_x > last_x * SUBPIXELS_PER_PIXEL + SAMPLE_OFFSET || min_y
            > last_y * SUBPIXELS_PER_PIXEL + SAMPLE_OFFSET {
            proof {
                assert(draw_spec((d0, c0), t, w).0 =~= d0);
                assert(draw_spec((d0, c0), t, w).1 =~= c0);
            }
            return;
        }
        let fx0 = floor_div_pixel(min_x - SAMPLE_OFFSET);
        let fx1 = floor_div_pixel(max_x - SAMPLE_OFFSET);
        let fy0 = floor_div_pixel(min_y - SAMPLE_OFFSET);
        let fy1 = floor_div_pixel(max_y - SAMPLE_OFFSET);
        let x0: i64 = if fx0 < 0 { 0 } else if fx0 > last_x { last_x } else { fx0 };
        let x1: i64 = if fx1 < 0 { 0 } else if fx1 > last_x { last_x } else { fx1 };
        let y0: i64 = if fy0 < 0 { 0 } else if fy0 > last_y { last_y } else { fy0 };
        let y1: i64 = if fy1 < 0 { 0 } else if fy1 > last_y { last_y } else { fy1 };
        proof {
            assert forall|i: int| 0 <= i < d0.len() && #[trigger] covers(t, i % w, i / w) implies x0 <= i % w <= x1 && y0
                <= i / w <= y1 by {
                let xi = i % w;
                let yi = i / w;
                assert(min_x <= xi * 256 + 128 <= max_x);
                vstd::arithmetic::div_mod::lemma_div_is_ordered(min_x - 128, xi * 256, 256);
                vstd::arithmetic::div_mod::lemma_div_is_ordered(xi * 256, max_x - 128, 256);
                vstd::arithmetic::div_mod::lemma_div_multiples_vanish(xi, 256);
                vstd::arithmetic::div_mod::lemma_div_is_ordered(min_y - 128, yi * 256, 256);
                vstd::arithmetic::div_mod::lemma_div_is_ordered(yi * 256, max_y - 128, 256);
                vstd::arithmetic::div_mod::lemma_div_multiples_vanish(yi, 256);
            }
        }
        if x0 > x1 || y0 > y1 {
            proof {
                assert(draw_spec((d0, c0), t, w).0 =~= d0);
                assert(draw_spec((d0, c0), t, w).1 =~= c0);
            }
            return;
        }
        let d_0 = v0.depth as i128;
        let d_1 = v1.depth as i128;
        let d_2 = v2.depth as i128;
        let mut y: i64 = y0;
        while y <= y1
            invariant
                self.wf(),
                self.image.w() == w && self.image.h() == h && self.palette_len == pl && self.rasterized == done0,
                1 <= w <= 4096 && 1 <= h <= 4096 && width == w && height == h,
                d0.len() == w * h && c0.len() == w * h,
                self.depth@.len() == w * h,
                target == draw_spec((d0, c0), t, w),
                ov == oriented(t) && ov == seq![v0, v1, v2],
                forall|j: int| 0 <= j < 3 ==> vertex_ok(#[trigger] ov[j]),
                area == edge_spec(ov[0], ov[1], (ov[2].x_subpx as int, ov[2].y_subpx as int)) && area > 0,
                d_0 == v0.depth && d_1 == v1.depth && d_2 == v2.depth,
                t.palette_index < pl,
                0 <= x0 <= x1 <= w - 1 && 0 <= y0 <= y1 <= h - 1,
                y0 <= y <= y1 + 1,
                forall|i: int| 0 <= i < d0.len() && #[trigger] covers(t, i % w, i / w) ==> x0 <= i % w <= x1 && y0 <= i / w <= y1,
                draw_progress(self.depth@, self.image.px(), d0, c0, target, w, h, x0 as int, x1 as int, y0 as int, y as int, x0 as int),
            decreases y1 + 1 - y,
        {
            let mut x: i64 = x0;
            while x <= x1
                invariant
                    self.wf(),
                    self.image.w() == w && self.image.h() == h && self.palette_len == pl && self.rasterized == done0,
                    1 <= w <= 4096 && 1 <= h <= 4096 && width == w && height == h,
                    d0.len() == w * h && c0.len() == w * h,
                    self.depth@.len() == w * h,
                    target == draw_spec((d0, c0), t, w),
                    ov == oriented(t) && ov == seq![v0, v1, v2],
                    forall|j: int| 0 <= j < 3 ==> vertex_ok(#[trigger] ov[j]),
                    area == edge_spec(ov[0], ov[1], (ov[2].x_subpx as int, ov[2].y_subpx as int)) && area > 0,
                    d_0 == v0.depth && d_1 == v1.depth && d_2 == v2.depth,
                    t.palette_index < pl,
                    0 <= x0 <= x1 <= w - 1 && 0 <= y0 <= y1 <= h - 1,
                    y0 <= y <= y1,
                    x0 <= x <= x1 + 1,
                    draw_progress(self.depth@, self.image.px(), d0, c0, target, w, h, x0 as int, x1 as int, y0 as int, y as int, x as int),
                decreases x1 + 1 - x,
            {
                let sx = x * SUBPIXELS_PER_PIXEL + SAMPLE_OFFSET;
                let sy = y * SUBPIXELS_PER_PIXEL + SAMPLE_OFFSET;
                let ghost p = sample_point(x as int, y as int);
                assert(p == (sx as int, sy as int));
                let w0 = edge(v1, v2, sx, sy);
                let w1 = edge(v2, v0, sx, sy);
                let w2 = edge(v0, v1, sx, sy);
                assert(w0 == weight(ov, 0, p) && w1 == weight(ov, 1, p) && w2 == weight(ov, 2, p));
                let inside = (w0 > 0 || (w0 == 0 && inclusive_edge(v1, v2))) && (w1 > 0 || (w1 == 0 && inclusive_edge(v2, v0)))
                    && (w2 > 0 || (w2 == 0 && inclusive_edge(v0, v1)));
                proof {
                    crate::geometry::lemma_index(w, h, x as int, y as int);
                    assert(inside == covers(t, x as int, y as int)) by {
                        if inside {
                            assert forall|k: int| 0 <= k < 3 implies #[trigger] weight(ov, k, p) > 0 || (weight(ov, k, p) == 0
                                && inclusive_edge_spec(ov[(k + 1) % 3], ov[(k + 2) % 3])) by {
                                if k == 0 {
                                } else if k == 1 {
                                } else {
                                }
                            }
                        } else {
                            if covers(t, x as int, y as int) {
                                assert(weight(ov, 0, p) > 0 || (weight(ov, 0, p) == 0 && inclusive_edge_spec(ov[1], ov[2])));
                                assert(weight(ov, 1, p) > 0 || (weight(ov, 1, p) == 0 && inclusive_edge_spec(ov[2], ov[0])));
                                assert(weight(ov, 2, p) > 0 || (weight(ov, 2, p) == 0 && inclusive_edge_spec(ov[0], ov[1])));
                            }
                        }
                    }
                }
                proof {
                    assert(y * width + x <= 4096 * 4096) by (nonlinear_arith)
                        requires
                            0 <= y <= 4095,
                            width <= 4096,
                            0 <= x <= 4095,
                    ;
                }
                let index = (y as usize) * (width as usize) + (x as usize);
                let ghost old_depth = self.depth@;
                let ghost old_px = self.image.px();
                let ghost ii = index as int;
                assert(ii == grid_index_of(w, x as int, y as int));
                if inside {
                    proof {
                        lemma_weight_bound(ov, 0, p);
                        lemma_weight_bound(ov, 1, p);
                        lemma_weight_bound(ov, 2, p);
                        lemma_weight_sum(
                            ov[0].x_subpx as int,
                            ov[0].y_subpx as int,
                            ov[1].x_subpx as int,
                            ov[1].y_subpx as int,
                            ov[2].x_subpx as int,
                            ov[2].y_subpx as int,
                            p.0,
                            p.1,
                        );
                        assert(-32_000_000_000_000_000_000_000_000 * 2147483648 <= w0 * d_0 <= 32_000_000_000_000_000_000_000_000 * 2147483648) by (nonlinear_arith)
                            requires
                                -32_000_000_000_000_000_000_000_000 <= w0 <= 32_000_000_000_000_000_000_000_000,
                                -2147483648 <= d_0 <= 2147483647,
                        ;
                        assert(-32_000_000_000_000_000_000_000_000 * 2147483648 <= w1 * d_1 <= 32_000_000_000_000_000_000_000_000 * 2147483648) by (nonlinear_arith)
                            requires
                                -32_000_000_000_000_000_000_000_000 <= w1 <= 32_000_000_000_000_000_000_000_000,
                                -2147483648 <= d_1 <= 2147483647,
                        ;
                        assert(-32_000_000_000_000_000_000_000_000 * 2147483648 <= w2 * d_2 <= 32_000_000_000_000_000_000_000_000 * 2147483648) by (nonlinear_arith)
                            requires
                                -32_000_000_000_000_000_000_000_000 <= w2 <= 32_000_000_000_000_000_000_000_000,
                                -2147483648 <= d_2 <= 2147483647,
                        ;
                    }
                    let numerator = w0 * d_0 + w1 * d_1 + w2 * d_2;
                    proof {
                        lemma_convex(w0 as int, w1 as int, w2 as int, d_0 as int, d_1 as int, d_2 as int, area as int, numerator as int);
                        lemma_trunc_div_bounds(numerator as int, area as int, min3(d_0 as int, d_1 as int, d_2 as int), max3(d_0 as int, d_1 as int, d_2 as int));
                    }
                    let fragment = (numerator / area) as i32;
                    assert(fragment == fragment_depth(t, x as int, y as int));
                    if fragment > self.depth[index] {
                        self.depth[index] = fragment;
                        self.image.set_index(index, t.palette_index);
                    }
                }
                proof {
                    assert forall|i: int|
                        0 <= i < w * h implies if visited(i % w, i / w, x0 as int, x1 as int, y0 as int, y as int, x + 1) {
                            self.depth@[i] == target.0[i] && #[trigger] self.image.px()[i] == target.1[i]
                        } else {
                            self.depth@[i] == d0[i] && self.image.px()[i] == c0[i]
                        } by {
                        assert(draw_progress(old_depth, old_px, d0, c0, target, w, h, x0 as int, x1 as int, y0 as int, y as int, x as int));
                        crate::geometry::lemma_position(w, h, i);
                        if i == ii {
                            assert(i % w == x && i / w == y);
                        } else {
                            assert(!(i % w == x && i / w == y)) by {
                                if i % w == x && i / w == y {
                                    assert(i == (i / w) * w + i % w);
                                }
                            }
                        }
                    }
                }
                x += 1;
            }
            proof {
                lemma_next_row(self.depth@, self.image.px(), d0, c0, target, w, h, x0 as int, x1 as int, y0 as int, y as int);
            }
            y += 1;
        }
        proof {
            assert forall|i: int| 0 <= i < w * h implies self.depth@[i] == target.0[i] && #[trigger] self.image.px()[i] == target.1[i] by {
                assert(draw_progress(self.depth@, self.image.px(), d0, c0, target, w, h, x0 as int, x1 as int, y0 as int, y as int, x0 as int));
                crate::geometry::lemma_position(w, h, i);
                if !visited(i % w, i / w, x0 as int, x1 as int, y0 as int, y as int, x0 as int) {
                    assert(!covers(t, i % w, i / w));
                }
            }
            assert(self.depth@ =~= target.0);
            assert(self.image.px() =~= target.1);
        }
    }
}

/// Progress of one drawing pass: visited pixels hold the target, the others their start values.
pub open spec fn draw_progress(
    depth: Seq<i32>,
    px: Seq<u8>,
    d0: Seq<i32>,
    c0: Seq<u8>,
    target: RasterState,
    w: int,
    h: int,
    x0: int,
    x1: int,
    y0: int,
    y: int,
    x: int,
) -> bool {
    forall|i: int|
        #![trigger px[i]]
        #![trigger depth[i]]
        0 <= i < w * h ==> (visited(i % w, i / w, x0, x1, y0, y, x) ==> depth[i] == target.0[i] && px[i] == target.1[i])
            && (!visited(i % w, i / w, x0, x1, y0, y, x) ==> depth[i] == d0[i] && px[i] == c0[i])
}

proof fn lemma_next_row(
    depth: Seq<i32>,
    px: Seq<u8>,
    d0: Seq<i32>,
    c0: Seq<u8>,
    target: RasterState,
    w: int,
    h: int,
    x0: int,
    x1: int,
    y0: int,
    y: int,
)
    requires
        draw_progress(depth, px, d0, c0, target, w, h, x0, x1, y0, y, x1 + 1),
        x0 <= x1 + 1,
        y0 <= y,
    ensures
        draw_progress(depth, px, d0, c0, target, w, h, x0, x1, y0, y + 1, x0),
{
    assert forall|i: int| 0 <= i < w * h implies if visited(i % w, i / w, x0, x1, y0, y + 1, x0) {
        depth[i] == target.0[i] && #[trigger] px[i] == target.1[i]
    } else {
        depth[i] == d0[i] && px[i] == c0[i]
    } by {
        assert(visited(i % w, i / w, x0, x1, y0, y + 1, x0) == visited(i % w, i / w, x0, x1, y0, y, x1 + 1));
        assert(if visited(i % w, i / w, x0, x1, y0, y, x1 + 1) {
            depth[i] == target.0[i] && px[i] == target.1[i]
        } else {
            depth[i] == d0[i] && px[i] == c0[i]
        });
    }
}

/// Row-major index of a grid position.
pub open spec fn grid_index_of(w: int, x: int, y: int) -> int {
    y * w + x
}

impl RasterSurface {
    /// Rasterizes one batch in stable-key order; equal-depth fragments keep the
    /// lowest stable key. An invalid batch is refused before anything is drawn.
    pub fn rasterize(&mut self, triangles: &[Triangle]) -> (r: Result<(), RenderError>)
        requires
            old(self).wf(),
        ensures
            final(self).wf(),
            final(self).plen() == old(self).plen(),
            final(self).img().w() == old(self).img().w() && final(self).img().h() == old(self).img().h(),
            old(self).done() ==> r == Err::<(), RenderError>(RenderError::SurfaceAlreadyRasterized),
            !old(self).done() ==> match batch_error(triangles@, old(self).plen() as int, triangles@.len() as int) {
                Some(e) => r == Err::<(), RenderError>(e),
                None => r is Ok,
            },
            r is Err ==> final(self).depths() == old(self).depths() && final(self).img().px() == old(self).img().px()
                && final(self).done() == old(self).done(),
            r is Ok ==> final(self).done() && exists|order: Seq<Triangle>|
                order.to_multiset() == triangles@.to_multiset() && keys_sorted(order) && (
                final(self).depths(),
                final(self).img().px(),
            ) == draw_all((old(self).depths(), old(self).img().px()), order, old(self).img().w()),
    {
        if self.rasterized {
            return Err(RenderError::SurfaceAlreadyRasterized);
        }
        match validate_batch(triangles, self.palette_len) {
            Err(e) => return Err(e),
            Ok(()) => {},
        }
        let ordered = sort_by_key(triangles);
        let ghost w = self.image.w();
        let ghost start: RasterState = (self.depth@, self.image.px());
        let ghost pl = self.palette_len as int;
        let ghost n = triangles@.len() as int;
        let mut k: usize = 0;
        while k < ordered.len()
            invariant
                self.wf(),
                !self.rasterized,
                self.image.w() == w && self.palette_len == pl,
                self.image.h() == old(self).img().h(),
                start == (old(self).depths(), old(self).img().px()),
                w == old(self).img().w(),
                pl == old(self).plen(),
                k <= ordered@.len(),
                ordered@.to_multiset() == triangles@.to_multiset(),
                n == triangles@.len(),
                batch_error(triangles@, pl, n) is None,
                (self.depth@, self.image.px()) == draw_all(start, ordered@.subrange(0, k as int), w),
            decreases ordered@.len() - k,
        {
            let t = ordered[k];
            proof {
                assert(ordered@.contains(t));
                assert(ordered@.to_multiset().count(t) > 0);
                assert(triangles@.contains(t));
                let j = choose|j: int| 0 <= j < triangles@.len() && triangles@[j] == t;
                lemma_batch_prefix_ok(triangles@, pl, n, j);
                assert(ordered@.subrange(0, k + 1).drop_last() =~= ordered@.subrange(0, k as int));
            }
            self.draw_triangle(t);
            k += 1;
        }
        self.rasterized = true;
        proof {
            assert(ordered@.subrange(0, ordered@.len() as int) =~= ordered@);
        }
        Ok(())
    }
}


/// No two primitives of a batch share a stable key.
pub open spec fn keys_distinct(ts: Seq<Triangle>) -> bool {
    forall|i: int, j: int| 0 <= i < ts.len() && 0 <= j < ts.len() && i != j ==> #[trigger] ts[i].stable_key != #[trigger] ts[j].stable_key
}

proof fn lemma_sorted_copy_strict(a: Seq<Triangle>, o: Seq<Triangle>)
    requires
        keys_distinct(a),
        o.to_multiset() == a.to_multiset(),
        keys_sorted(o),
    ensures
        forall|i: int, j: int| 0 <= i < j < o.len() ==> (#[trigger] o[i]).stable_key < (#[trigger] o[j]).stable_key,
        forall|x: Triangle| #[trigger] o.contains(x) <==> a.contains(x),
{
    broadcast use vstd::seq_lib::group_to_multiset_ensures;
    assert(a.no_duplicates()) by {
        assert forall|i: int, j: int| 0 <= i < a.len() && 0 <= j < a.len() && i != j implies a[i] != a[j] by {
            assert(a[i].stable_key != a[j].stable_key);
        }
    }
    a.lemma_multiset_has_no_duplicates();
    o.lemma_multiset_has_no_duplicates_conv();
    assert forall|x: Triangle| #[trigger] o.contains(x) <==> a.contains(x) by {
        assert(o.contains(x) <==> o.to_multiset().count(x) > 0);
        assert(a.contains(x) <==> a.to_multiset().count(x) > 0);
    }
    assert forall|i: int, j: int| 0 <= i < j < o.len() implies (#[trigger] o[i]).stable_key < (#[trigger] o[j]).stable_key by {
        assert(o[i].stable_key <= o[j].stable_key);
        assert(o[i] != o[j]);
        assert(o.contains(o[i]) && o.contains(o[j]));
        let p = choose|p: int| 0 <= p < a.len() && a[p] == o[i];
        let q = choose|q: int| 0 <= q < a.len() && a[q] == o[j];
        assert(p != q);
        assert(a[p].stable_key != a[q].stable_key);
    }
}

/// Rasterizing does not depend on the order of a batch: two batches holding the same
/// primitives with distinct stable keys, drawn in stable-key order, leave the same surface.
pub proof fn lemma_rasterize_order_independent(
    a: Seq<Triangle>,
    b: Seq<Triangle>,
    order_a: Seq<Triangle>,
    order_b: Seq<Triangle>,
    start: RasterState,
    w: int,
)
    requires
        keys_distinct(a),
        a.to_multiset() == b.to_multiset(),
        order_a.to_multiset() == a.to_multiset() && keys_sorted(order_a),
        order_b.to_multiset() == b.to_multiset() && keys_sorted(order_b),
    ensures
        order_a == order_b,
        draw_all(start, order_a, w) == draw_all(start, order_b, w),
{
    lemma_sorted_copy_strict(a, order_a);
    lemma_sorted_copy_strict(a, order_b);
    let lt = |x: Triangle, y: Triangle| x.stable_key < y.stable_key;
    assert forall|i: int, j: int| 0 <= i < j < order_a.len() implies lt(#[trigger] order_a[i], #[trigger] order_a[j]) by {}
    assert forall|i: int, j: int| 0 <= i < j < order_b.len() implies lt(#[trigger] order_b[i], #[trigger] order_b[j]) by {}
    crate::scene::lemma_sorted_unique(order_a, order_b, lt);
}

/// A primitive acceptable on its own: a nonzero stable key, an entry of the palette, vertices in
/// range and a nonzero area.
pub open spec fn primitive_ok(t: Triangle, palette_len: int) -> bool {
    &&& t.stable_key != 0
    &&& t.palette_index < palette_len
    &&& vertex_ok(t.vertices@[0]) && vertex_ok(t.vertices@[1]) && vertex_ok(t.vertices@[2])
    &&& signed_area(t) != 0
}

proof fn lemma_batch_error_none(ts: Seq<Triangle>, palette_len: int, n: int)
    requires
        0 <= n <= ts.len(),
    ensures
        batch_error(ts, palette_len, n) is None <==> (keys_distinct(ts.take(n)) && forall|i: int|
            0 <= i < n ==> primitive_ok(#[trigger] ts[i], palette_len)),
    decreases n,
{
    if n > 0 {
        lemma_batch_error_none(ts, palette_len, n - 1);
        let t = ts[n - 1];
        let shorter = ts.take(n - 1);
        let longer = ts.take(n);
        assert(longer =~= shorter.push(t));
        if batch_error(ts, palette_len, n) is None {
            assert(batch_error(ts, palette_len, n - 1) is None);
            assert(!exists|j: int| 0 <= j < n - 1 && #[trigger] ts[j].stable_key == t.stable_key);
            assert forall|i: int, j: int| 0 <= i < longer.len() && 0 <= j < longer.len() && i != j implies #[trigger] longer[i].stable_key
                != #[trigger] longer[j].stable_key by {
                if i == n - 1 {
                    assert(longer[j] == ts[j]);
                } else if j == n - 1 {
                    assert(longer[i] == ts[i]);
                } else {
                    assert(longer[i] == shorter[i] && longer[j] == shorter[j]);
                }
            }
        } else if batch_error(ts, palette_len, n - 1) is None {
            if keys_distinct(longer) {
                assert forall|j: int| 0 <= j < n - 1 implies #[trigger] ts[j].stable_key != t.stable_key by {
                    assert(longer[j] == ts[j] && longer[n - 1] == t);
                }
            }
        } else {
            if keys_distinct(longer) {
                assert forall|i: int, j: int| 0 <= i < shorter.len() && 0 <= j < shorter.len() && i != j implies #[trigger] shorter[i].stable_key
                    != #[trigger] shorter[j].stable_key by {
                    assert(longer[i] == shorter[i] && longer[j] == shorter[j]);
                }
            }
        }
    }
}

/// Whether a batch is accepted does not depend on its order: every reordering of an accepted
/// batch is accepted.
pub proof fn lemma_batch_validity_survives_permutation(a: Seq<Triangle>, b: Seq<Triangle>, palette_len: int)
    requires
        a.to_multiset() == b.to_multiset(),
        batch_error(a, palette_len, a.len() as int) is None,
    ensures
        batch_error(b, palette_len, b.len() as int) is None,
{
    broadcast use vstd::seq_lib::group_to_multiset_ensures;
    assert(a.len() == a.to_multiset().len() && b.len() == b.to_multiset().len());
    lemma_batch_error_none(a, palette_len, a.len() as int);
    lemma_batch_error_none(b, palette_len, b.len() as int);
    assert(a.take(a.len() as int) =~= a);
    assert(b.take(b.len() as int) =~= b);
    assert(a.no_duplicates()) by {
        assert forall|i: int, j: int| 0 <= i < a.len() && 0 <= j < a.len() && i != j implies a[i] != a[j] by {
            assert(a[i].stable_key != a[j].stable_key);
        }
    }
    a.lemma_multiset_has_no_duplicates();
    b.lemma_multiset_has_no_duplicates_conv();
    assert forall|i: int| 0 <= i < b.len() implies primitive_ok(#[trigger] b[i], palette_len) by {
        assert(b.contains(b[i]));
        assert(a.to_multiset().count(b[i]) > 0);
        let p = choose|p: int| 0 <= p < a.len() && a[p] == b[i];
        assert(primitive_ok(a[p], palette_len));
    }
    assert forall|i: int, j: int| 0 <= i < b.len() && 0 <= j < b.len() && i != j implies #[trigger] b[i].stable_key
        != #[trigger] b[j].stable_key by {
        assert(b[i] != b[j]);
        assert(b.contains(b[i]) && b.contains(b[j]));
        assert(a.to_multiset().count(b[i]) > 0 && a.to_multiset().count(b[j]) > 0);
        let p = choose|p: int| 0 <= p < a.len() && a[p] == b[i];
        let q = choose|q: int| 0 <= q < a.len() && a[q] == b[j];
        assert(p != q);
        assert(a[p].stable_key != a[q].stable_key);
    }
}

} // verus!
