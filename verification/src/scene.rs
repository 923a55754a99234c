//! Scanline decomposition of polygon rings (outer boundaries and holes) into
//! keyed raster triangles.
use vstd::prelude::*;
use crate::primitives::ObjectId;
use crate::raster::{RasterVertex, Triangle};
use crate::render::{trunc_div, RenderError};

verus! {

/// Draw pass of ground polygons.
pub const PASS_GROUND: u8 = 1;
/// Draw pass of building walls.
pub const PASS_WALL: u8 = 2;
/// Draw pass of flat roofs.
pub const PASS_ROOF: u8 = 3;

/// Whether some ring vertex lies on subpixel row `y`.
pub open spec fn vertex_row(rings: Seq<Vec<RasterVertex>>, y: i64) -> bool {
    exists|r: int, j: int| 0 <= r < rings.len() && 0 <= j < rings[r]@.len() && (#[trigger] rings[r]@[j]).y_subpx == y
}

/// Strictly increasing.
pub open spec fn increasing(s: Seq<i64>) -> bool {
    forall|i: int, j: int| 0 <= i < j < s.len() ==> s[i] < s[j]
}

/// The distinct vertex rows in increasing order.
pub open spec fn y_levels(rings: Seq<Vec<RasterVertex>>) -> Seq<i64> {
    choose|lv: Seq<i64>| increasing(lv) && forall|y: i64| #[trigger] lv.contains(y) <==> vertex_row(rings, y)
}

/// Two sequences sorted strictly by the same order, with the same elements, are equal.
pub proof fn lemma_sorted_unique<A>(s: Seq<A>, t: Seq<A>, lt: spec_fn(A, A) -> bool)
    requires
        forall|i: int, j: int| 0 <= i < j < s.len() ==> lt(#[trigger] s[i], #[trigger] s[j]),
        forall|i: int, j: int| 0 <= i < j < t.len() ==> lt(#[trigger] t[i], #[trigger] t[j]),
        forall|a: A| #[trigger] s.contains(a) <==> t.contains(a),
        forall|a: A, b: A| #[trigger] lt(a, b) ==> !lt(b, a),
    ensures
        s == t,
    decreases s.len(),
{
    if s.len() == 0 {
        if t.len() > 0 {
            assert(t.contains(t[0]));
            assert(s.contains(t[0]));
            assert(false);
        }
        assert(s =~= t);
    } else if t.len() == 0 {
        assert(s.contains(s[0]));
        assert(t.contains(s[0]));
        assert(false);
    } else {
        assert(s.contains(s[0]));
        assert(t.contains(s[0]));
        assert(t.contains(t[0]));
        assert(s.contains(t[0]));
        let j = choose|j: int| 0 <= j < t.len() && t[j] == s[0];
        let i = choose|i: int| 0 <= i < s.len() && s[i] == t[0];
        if j > 0 {
            assert(lt(t[0], t[j]));
            if i > 0 {
                assert(lt(s[0], s[i]));
            } else {
                assert(lt(s[0], s[0]));
            }
        }
        assert(s[0] == t[0]);
        let s1 = s.drop_first();
        let t1 = t.drop_first();
        assert forall|a: A| #[trigger] s1.contains(a) <==> t1.contains(a) by {
            if s1.contains(a) {
                let k = choose|k: int| 0 <= k < s1.len() && s1[k] == a;
                assert(s[k + 1] == a);
                assert(lt(s[0], s[k + 1]));
                assert(s.contains(a));
                assert(t.contains(a));
                let m = choose|m: int| 0 <= m < t.len() && t[m] == a;
                if m == 0 {
                    assert(lt(a, a));
                }
                assert(t1[m - 1] == a);
            }
            if t1.contains(a) {
                let k = choose|k: int| 0 <= k < t1.len() && t1[k] == a;
                assert(t[k + 1] == a);
                assert(lt(t[0], t[k + 1]));
                assert(t.contains(a));
                assert(s.contains(a));
                let m = choose|m: int| 0 <= m < s.len() && s[m] == a;
                if m == 0 {
                    assert(lt(a, a));
                }
                assert(s1[m - 1] == a);
            }
        }
        assert forall|i: int, j: int| 0 <= i < j < s1.len() implies lt(#[trigger] s1[i], #[trigger] s1[j]) by {
            assert(lt(s[i + 1], s[j + 1]));
        }
        assert forall|i: int, j: int| 0 <= i < j < t1.len() implies lt(#[trigger] t1[i], #[trigger] t1[j]) by {
            assert(lt(t[i + 1], t[j + 1]));
        }
        lemma_sorted_unique(s1, t1, lt);
        assert(s =~= t) by {
            assert forall|k: int| 0 <= k < s.len() implies s[k] == t[k] by {
                if k > 0 {
                    assert(s[k] == s1[k - 1]);
                    assert(t[k] == t1[k - 1]);
                }
            }
        }
    }
}

/// The distinct vertex rows of the rings, in increasing order.
pub fn collect_levels(rings: &[Vec<RasterVertex>]) -> (r: Vec<i64>)
    ensures
        r@ == y_levels(rings@),
        increasing(r@),
{
    let mut levels: Vec<i64> = Vec::new();
    let mut r: usize = 0;
    while r < rings.len()
        invariant
            r <= rings@.len(),
            increasing(levels@),
            forall|y: i64|
                #[trigger] levels@.contains(y) <==> exists|a: int, j: int|
                    0 <= a < r && 0 <= j < rings@[a]@.len() && (#[trigger] rings@[a]@[j]).y_subpx == y,
        decreases rings@.len() - r,
    {
        let ring = &rings[r];
        let mut j: usize = 0;
        while j < ring.len()
            invariant
                r < rings@.len(),
                ring == rings@[r as int],
                j <= ring@.len(),
                increasing(levels@),
                forall|y: i64|
                    #[trigger] levels@.contains(y) <==> (exists|a: int, k: int|
                        0 <= a < r && 0 <= k < rings@[a]@.len() && (#[trigger] rings@[a]@[k]).y_subpx == y) || (exists|k: int|
                        0 <= k < j && (#[trigger] ring@[k]).y_subpx == y),
            decreases ring@.len() - j,
        {
            let y = ring[j].y_subpx;
            let mut p: usize = 0;
            while p < levels.len() && levels[p] < y
                invariant
                    p <= levels@.len(),
                    forall|q: int| 0 <= q < p ==> levels@[q] < y,
                decreases levels@.len() - p,
            {
                p += 1;
            }
            let ghost before = levels@;
            if p < levels.len() && levels[p] == y {
                proof {
                    assert forall|v: i64| #[trigger] levels@.contains(v) <==> (exists|a: int, k: int|
                        0 <= a < r && 0 <= k < rings@[a]@.len() && (#[trigger] rings@[a]@[k]).y_subpx == v) || (exists|k: int|
                        0 <= k < j + 1 && (#[trigger] ring@[k]).y_subpx == v) by {
                        if v == y {
                            assert(levels@.contains(y)) by {
                                assert(levels@[p as int] == y);
                            }
                            assert(ring@[j as int].y_subpx == y);
                        }
                    }
                }
            } else {
                levels.insert(p, y);
                proof {
                    assert forall|a: int, b: int| 0 <= a < b < levels@.len() implies levels@[a] < levels@[b] by {
                        if a < p && b == p {
                        } else if a == p && b > p {
                            assert(before[p as int] > y) by {
                                assert(before[p as int] >= y);
                            }
                            if b > p + 1 {
                                assert(before[p as int] < before[b - 1]);
                            }
                        } else if a < p && b > p {
                            assert(before[a] < before[b - 1]);
                        } else if b < p {
                            assert(before[a] < before[b]);
                        } else {
                            assert(before[a - 1] < before[b - 1]);
                        }
                    }
                    assert forall|v: i64| #[trigger] levels@.contains(v) <==> (exists|a: int, k: int|
                        0 <= a < r && 0 <= k < rings@[a]@.len() && (#[trigger] rings@[a]@[k]).y_subpx == v) || (exists|k: int|
                        0 <= k < j + 1 && (#[trigger] ring@[k]).y_subpx == v) by {
                        if levels@.contains(v) {
                            let q = choose|q: int| 0 <= q < levels@.len() && levels@[q] == v;
                            if q < p {
                                assert(before[q] == v);
                                assert(before.contains(v));
                            } else if q > p {
                                assert(before[q - 1] == v);
                                assert(before.contains(v));
                            } else {
                                assert(ring@[j as int].y_subpx == v);
                            }
                        }
                        if before.contains(v) {
                            let q = choose|q: int| 0 <= q < before.len() && before[q] == v;
                            if q < p {
                                assert(levels@[q] == v);
                            } else {
                                assert(levels@[q + 1] == v);
                            }
                        }
                        if v == y {
                            assert(levels@[p as int] == y);
                        }
                    }
                }
            }
            j += 1;
        }
        proof {
            assert forall|v: i64| #[trigger] levels@.contains(v) <==> exists|a: int, k: int|
                0 <= a < r + 1 && 0 <= k < rings@[a]@.len() && (#[trigger] rings@[a]@[k]).y_subpx == v by {
                if exists|k: int| 0 <= k < ring@.len() && (#[trigger] ring@[k]).y_subpx == v {
                    let k = choose|k: int| 0 <= k < ring@.len() && (#[trigger] ring@[k]).y_subpx == v;
                    assert(rings@[r as int]@[k].y_subpx == v);
                }
                if exists|a: int, k: int| 0 <= a < r + 1 && 0 <= k < rings@[a]@.len() && (#[trigger] rings@[a]@[k]).y_subpx == v {
                    let (a, k) = choose|a: int, k: int|
                        0 <= a < r + 1 && 0 <= k < rings@[a]@.len() && (#[trigger] rings@[a]@[k]).y_subpx == v;
                    if a == r {
                        assert(ring@[k].y_subpx == v);
                    }
                }
            }
        }
        r += 1;
    }
    proof {
        let lv = levels@;
        assert(increasing(lv) && forall|y: i64| #[trigger] lv.contains(y) <==> vertex_row(rings@, y));
        let c = y_levels(rings@);
        assert(increasing(c) && forall|y: i64| #[trigger] c.contains(y) <==> vertex_row(rings@, y));
        lemma_sorted_unique(lv, c, |a: i64, b: i64| a < b);
    }
    levels
}

/// Consecutive vertex pairs of one ring.
pub open spec fn ring_pairs(ring: Seq<RasterVertex>) -> Seq<(RasterVertex, RasterVertex)> {
    if ring.len() < 2 {
        Seq::empty()
    } else {
        Seq::new((ring.len() - 1) as nat, |i: int| (ring[i], ring[i + 1]))
    }
}

/// Every ring's consecutive vertex pairs, ring after ring.
pub open spec fn ring_edges(rings: Seq<Vec<RasterVertex>>) -> Seq<(RasterVertex, RasterVertex)>
    decreases rings.len(),
{
    if rings.len() == 0 {
        Seq::empty()
    } else {
        ring_edges(rings.drop_last()) + ring_pairs(rings.last()@)
    }
}

/// Every ring's consecutive vertex pairs, ring after ring.
pub fn collect_edges(rings: &[Vec<RasterVertex>]) -> (r: Vec<(RasterVertex, RasterVertex)>)
    ensures
        r@ == ring_edges(rings@),
{
    let mut out: Vec<(RasterVertex, RasterVertex)> = Vec::new();
    let mut r: usize = 0;
    while r < rings.len()
        invariant
            r <= rings@.len(),
            out@ == ring_edges(rings@.subrange(0, r as int)),
        decreases rings@.len() - r,
    {
        let ring = &rings[r];
        let ghost head = out@;
        let mut j: usize = 1;
        while j < ring.len()
            invariant
                ring == rings@[r as int],
                1 <= j,
                j <= ring@.len() || ring@.len() == 0,
                ring@.len() == 0 ==> j == 1,
                out@ == head + ring_pairs(ring@).subrange(0, j - 1),
            decreases ring@.len() - j,
        {
            out.push((ring[j - 1], ring[j]));
            proof {
                assert(out@ =~= head + ring_pairs(ring@).subrange(0, j as int));
            }
            j += 1;
        }
        proof {
            let sub = rings@.subrange(0, r + 1);
            assert(sub.drop_last() =~= rings@.subrange(0, r as int));
            if ring@.len() >= 2 {
                assert(ring_pairs(ring@).subrange(0, j - 1) =~= ring_pairs(ring@));
            } else {
                assert(ring_pairs(ring@).subrange(0, j - 1) =~= ring_pairs(ring@));
            }
            assert(out@ =~= ring_edges(sub));
        }
        r += 1;
    }
    proof {
        assert(rings@.subrange(0, rings@.len() as int) =~= rings@);
    }
    out
}

/// `start + (end - start) * numerator / denominator`, with the product held in 128 bits and
/// the quotient truncated toward zero, when the product and the result fit.
pub open spec fn interpolate_spec(start: int, end: int, numerator: int, denominator: int, lo: int, hi: int) -> Option<int> {
    let product = (end - start) * numerator;
    if product < i128::MIN || product > i128::MAX {
        None
    } else {
        let v = start + trunc_div(product, denominator);
        if v < lo || v > hi { None } else { Some(v) }
    }
}

/// The point of edge `a -> b` on subpixel row `y`, its position and depth interpolated.
pub open spec fn interpolate_at_y_spec(a: RasterVertex, b: RasterVertex, y: i64) -> Result<RasterVertex, RenderError> {
    let dy = b.y_subpx - a.y_subpx;
    if dy < i64::MIN || dy > i64::MAX {
        Err(RenderError::ArithmeticOverflow)
    } else if dy == 0 {
        Err(RenderError::Triangulation)
    } else {
        match (
            interpolate_spec(a.x_subpx as int, b.x_subpx as int, y - a.y_subpx, dy, i64::MIN as int, i64::MAX as int),
            interpolate_spec(a.depth as int, b.depth as int, y - a.y_subpx, dy, i32::MIN as int, i32::MAX as int),
        ) {
            (Some(x), Some(d)) => Ok(RasterVertex { x_subpx: x as i64, y_subpx: y, depth: d as i32 }),
            _ => Err(RenderError::ArithmeticOverflow),
        }
    }
}

/// Whether an edge's position and depth differences fit their integer types.
pub open spec fn edge_fits(e: (RasterVertex, RasterVertex)) -> bool {
    e.0.y_subpx != e.1.y_subpx ==> {
        &&& i64::MIN <= e.1.x_subpx - e.0.x_subpx <= i64::MAX
        &&& i32::MIN <= e.1.depth - e.0.depth <= i32::MAX
    }
}

fn interpolate_i64(start: i64, end: i64, numerator: i64, denominator: i64) -> (r: Option<i64>)
    requires
        denominator != 0,
        i64::MIN <= end - start <= i64::MAX,
    ensures
        r == (match interpolate_spec(start as int, end as int, numerator as int, denominator as int, i64::MIN as int, i64::MAX as int) {
            Some(v) => Some(v as i64),
            None => None::<i64>,
        }),
{
    let delta = (end - start) as i128;
    proof {
        assert(-0x8000_0000_0000_0000 * 0x8000_0000_0000_0000 <= delta * numerator <= 0x8000_0000_0000_0000 * 0x8000_0000_0000_0000) by (nonlinear_arith)
            requires -0x8000_0000_0000_0000 <= delta <= 0x7fff_ffff_ffff_ffff, -0x8000_0000_0000_0000 <= numerator <= 0x7fff_ffff_ffff_ffff;
    }
    let product = delta * numerator as i128;
    let quotient = div_toward_zero(product, denominator as i128);
    let value = start as i128 + quotient;
    if value < i64::MIN as i128 || value > i64::MAX as i128 {
        return None;
    }
    Some(value as i64)
}

fn interpolate_i32(start: i32, end: i32, numerator: i64, denominator: i64) -> (r: Option<i32>)
    requires
        denominator != 0,
        i32::MIN <= end - start <= i32::MAX,
    ensures
        r == (match interpolate_spec(start as int, end as int, numerator as int, denominator as int, i32::MIN as int, i32::MAX as int) {
            Some(v) => Some(v as i32),
            None => None::<i32>,
        }),
{
    let delta = (end - start) as i128;
    proof {
        assert(-0x8000_0000_0000_0000 * 0x8000_0000 <= delta * numerator <= 0x8000_0000_0000_0000 * 0x8000_0000) by (nonlinear_arith)
            requires -0x8000_0000 <= delta <= 0x7fff_ffff, -0x8000_0000_0000_0000 <= numerator <= 0x7fff_ffff_ffff_ffff;
    }
    let product = delta * numerator as i128;
    let quotient = div_toward_zero(product, denominator as i128);
    let value = start as i128 + quotient;
    if value < i32::MIN as i128 || value > i32::MAX as i128 {
        return None;
    }
    Some(value as i32)
}

fn div_toward_zero(a: i128, b: i128) -> (r: i128)
    requires
        b != 0,
        i64::MIN <= b <= i64::MAX,
        -0x4000_0000_0000_0000_0000_0000_0000_0000 <= a <= 0x4000_0000_0000_0000_0000_0000_0000_0000,
    ensures
        r == trunc_div(a as int, b as int),
        -0x4000_0000_0000_0000_0000_0000_0000_0000 <= r <= 0x4000_0000_0000_0000_0000_0000_0000_0000,
{
    let magnitude = if a >= 0 { a } else { -a };
    let divisor = if b >= 0 { b } else { -b };
    let q = magnitude / divisor;
    proof {
        assert(q <= magnitude) by (nonlinear_arith)
            requires q == magnitude / divisor, divisor >= 1, magnitude >= 0;
    }
    let r = if (a >= 0) == (b > 0) { q } else { -q };
    proof {
        if b < 0 {
            lemma_div_negative_divisor(magnitude as int, b as int);
        }
    }
    r
}

proof fn lemma_div_negative_divisor(x: int, b: int)
    requires
        x >= 0,
        b < 0,
    ensures
        x / b == -(x / (-b)),
{
    assert(x / b == -(x / (-b))) by (nonlinear_arith)
        requires x >= 0, b < 0;
}

fn interpolate_at_y(a: RasterVertex, b: RasterVertex, y: i64) -> (r: Result<RasterVertex, RenderError>)
    requires
        edge_fits((a, b)),
        (a.y_subpx <= y <= b.y_subpx) || (b.y_subpx <= y <= a.y_subpx),
    ensures
        r == interpolate_at_y_spec(a, b, y),
{
    let dy = b.y_subpx as i128 - a.y_subpx as i128;
    if dy < i64::MIN as i128 || dy > i64::MAX as i128 {
        return Err(RenderError::ArithmeticOverflow);
    }
    if dy == 0 {
        return Err(RenderError::Triangulation);
    }
    let numerator = y - a.y_subpx;
    let x = interpolate_i64(a.x_subpx, b.x_subpx, numerator, dy as i64);
    let depth = interpolate_i32(a.depth, b.depth, numerator, dy as i64);
    match (x, depth) {
        (Some(x), Some(d)) => Ok(RasterVertex::new(x, y, d)),
        _ => Err(RenderError::ArithmeticOverflow),
    }
}

/// Where an edge crosses a strip: its points on the strip's low and high rows, and the edge's index.
#[derive(Clone, Copy, Debug, Eq, PartialEq, Structural)]
pub struct Crossing {
    /// The edge's point on the strip's low row.
    pub low: RasterVertex,
    /// The edge's point on the strip's high row.
    pub high: RasterVertex,
    /// The edge's position among all ring edges.
    pub index: usize,
}

/// Whether a non-horizontal edge spans the strip between rows `low` and `high`.
pub open spec fn spans(e: (RasterVertex, RasterVertex), low: i64, high: i64) -> bool {
    let lo = if e.0.y_subpx <= e.1.y_subpx { e.0.y_subpx } else { e.1.y_subpx };
    let hi = if e.0.y_subpx >= e.1.y_subpx { e.0.y_subpx } else { e.1.y_subpx };
    lo <= low && hi >= high && lo != hi
}

/// The crossings of the strip by the edges, in edge order, or the first interpolation failure.
pub open spec fn strip_crossings(edges: Seq<(RasterVertex, RasterVertex)>, low: i64, high: i64) -> Result<Seq<Crossing>, RenderError>
    decreases edges.len(),
{
    if edges.len() == 0 {
        Ok(Seq::empty())
    } else {
        match strip_crossings(edges.drop_last(), low, high) {
            Err(e) => Err(e),
            Ok(prefix) => {
                let e = edges.last();
                if !spans(e, low, high) {
                    Ok(prefix)
                } else {
                    match interpolate_at_y_spec(e.0, e.1, low) {
                        Err(err) => Err(err),
                        Ok(a) => match interpolate_at_y_spec(e.0, e.1, high) {
                            Err(err) => Err(err),
                            Ok(b) => Ok(prefix.push(Crossing { low: a, high: b, index: (edges.len() - 1) as usize })),
                        },
                    }
                }
            },
        }
    }
}

/// Crossing order: by the sum of the low and high positions, then by edge index.
pub open spec fn crossing_lt(a: Crossing, b: Crossing) -> bool {
    let ka = a.low.x_subpx + a.high.x_subpx;
    let kb = b.low.x_subpx + b.high.x_subpx;
    ka < kb || (ka == kb && a.index < b.index)
}

/// Strictly ordered crossings.
pub open spec fn crossings_sorted(s: Seq<Crossing>) -> bool {
    forall|i: int, j: int| 0 <= i < j < s.len() ==> crossing_lt(#[trigger] s[i], #[trigger] s[j])
}

/// The crossings in crossing order.
pub open spec fn sorted_crossings(cs: Seq<Crossing>) -> Seq<Crossing> {
    choose|s: Seq<Crossing>| crossings_sorted(s) && forall|c: Crossing| #[trigger] s.contains(c) <==> cs.contains(c)
}

fn strip_crossings_of(edges: &Vec<(RasterVertex, RasterVertex)>, low: i64, high: i64) -> (r: Result<Vec<Crossing>, RenderError>)
    requires
        low < high,
        forall|k: int| 0 <= k < edges@.len() ==> edge_fits(#[trigger] edges@[k]),
    ensures
        match strip_crossings(edges@, low, high) {
            Ok(cs) => r matches Ok(v) && v@ == cs,
            Err(e) => r == Err::<Vec<Crossing>, RenderError>(e),
        },
        r matches Ok(v) ==> forall|i: int, j: int| 0 <= i < j < v@.len() ==> (#[trigger] v@[i]).index < (#[trigger] v@[j]).index,
{
    let mut out: Vec<Crossing> = Vec::new();
    let mut k: usize = 0;
    while k < edges.len()
        invariant
            k <= edges@.len(),
            low < high,
            forall|q: int| 0 <= q < edges@.len() ==> edge_fits(#[trigger] edges@[q]),
            strip_crossings(edges@.subrange(0, k as int), low, high) == Ok::<Seq<Crossing>, RenderError>(out@),
            forall|i: int| 0 <= i < out@.len() ==> (#[trigger] out@[i]).index < k,
            forall|i: int, j: int| 0 <= i < j < out@.len() ==> (#[trigger] out@[i]).index < (#[trigger] out@[j]).index,
        decreases edges@.len() - k,
    {
        let (a, b) = edges[k];
        proof {
            assert(edges@.subrange(0, k + 1).drop_last() =~= edges@.subrange(0, k as int));
            assert(edges@.subrange(0, k + 1).last() == edges@[k as int]);
            assert(edge_fits(edges@[k as int]));
        }
        let lo = if a.y_subpx <= b.y_subpx { a.y_subpx } else { b.y_subpx };
        let hi = if a.y_subpx >= b.y_subpx { a.y_subpx } else { b.y_subpx };
        if lo <= low && hi >= high && lo != hi {
            let p = match interpolate_at_y(a, b, low) {
                Ok(v) => v,
                Err(e) => {
                    proof {
                        lemma_strip_error_persists(edges@, low, high, k as int + 1);
                    }
                    return Err(e);
                },
            };
            let q = match interpolate_at_y(a, b, high) {
                Ok(v) => v,
                Err(e) => {
                    proof {
                        lemma_strip_error_persists(edges@, low, high, k as int + 1);
                    }
                    return Err(e);
                },
            };
            out.push(Crossing { low: p, high: q, index: k });
        }
        k += 1;
    }
    proof {
        assert(edges@.subrange(0, edges@.len() as int) =~= edges@);
    }
    Ok(out)
}

proof fn lemma_strip_error_persists(edges: Seq<(RasterVertex, RasterVertex)>, low: i64, high: i64, k: int)
    requires
        0 <= k <= edges.len(),
        strip_crossings(edges.subrange(0, k), low, high) is Err,
    ensures
        strip_crossings(edges, low, high) == strip_crossings(edges.subrange(0, k), low, high),
    decreases edges.len() - k,
{
    if k < edges.len() {
        assert(edges.subrange(0, k + 1).drop_last() =~= edges.subrange(0, k));
        lemma_strip_error_persists(edges, low, high, k + 1);
    } else {
        assert(edges.subrange(0, k) =~= edges);
    }
}

fn crossing_before(a: &Crossing, b: &Crossing) -> (r: bool)
    ensures
        r == crossing_lt(*a, *b),
{
    let ka = a.low.x_subpx as i128 + a.high.x_subpx as i128;
    let kb = b.low.x_subpx as i128 + b.high.x_subpx as i128;
    ka < kb || (ka == kb && a.index < b.index)
}

/// Sorts crossings with distinct edge indices into crossing order.
fn sort_crossings(cs: Vec<Crossing>) -> (r: Vec<Crossing>)
    requires
        forall|i: int, j: int| 0 <= i < j < cs@.len() ==> (#[trigger] cs@[i]).index < (#[trigger] cs@[j]).index,
    ensures
        r@ == sorted_crossings(cs@),
        r@.len() == cs@.len(),
{
    let mut out: Vec<Crossing> = Vec::new();
    let mut i: usize = 0;
    while i < cs.len()
        invariant
            i <= cs@.len(),
            forall|a: int, b: int| 0 <= a < b < cs@.len() ==> (#[trigger] cs@[a]).index < (#[trigger] cs@[b]).index,
            crossings_sorted(out@),
            out@.len() == i,
            forall|c: Crossing| #[trigger] out@.contains(c) <==> cs@.subrange(0, i as int).contains(c),
        decreases cs@.len() - i,
    {
        let next = cs[i];
        let mut p: usize = 0;
        while p < out.len() && crossing_before(&out[p], &next)
            invariant
                p <= out@.len(),
                forall|k: int| 0 <= k < p ==> crossing_lt(#[trigger] out@[k], next),
            decreases out@.len() - p,
        {
            p += 1;
        }
        let ghost before = out@;
        proof {
            assert forall|k: int| 0 <= k < before.len() implies (#[trigger] before[k]).index < next.index by {
                assert(cs@.subrange(0, i as int).contains(before[k])) by {
                    assert(before.contains(before[k]));
                }
                let m = choose|m: int| 0 <= m < i && cs@.subrange(0, i as int)[m] == before[k];
                assert(cs@[m].index < cs@[i as int].index);
            }
        }
        out.insert(p, next);
        proof {
            assert forall|a: int, b: int| 0 <= a < b < out@.len() implies crossing_lt(#[trigger] out@[a], #[trigger] out@[b]) by {
                if b == p {
                    assert(crossing_lt(before[a], next));
                } else if a == p {
                    assert(!crossing_lt(before[p as int], next));
                    assert(before[p as int].index < next.index);
                    assert(crossing_lt(next, before[p as int]));
                    if b > p + 1 {
                        assert(crossing_lt(before[p as int], before[b - 1]));
                    }
                } else if a < p && b > p {
                    assert(crossing_lt(before[a], before[b - 1]));
                } else if b < p {
                    assert(crossing_lt(before[a], before[b]));
                } else {
                    assert(crossing_lt(before[a - 1], before[b - 1]));
                }
            }
            assert(cs@.subrange(0, i + 1) =~= cs@.subrange(0, i as int).push(next));
            assert forall|c: Crossing| #[trigger] out@.contains(c) <==> cs@.subrange(0, i + 1).contains(c) by {
                if out@.contains(c) {
                    let q = choose|q: int| 0 <= q < out@.len() && out@[q] == c;
                    if q < p {
                        assert(before[q] == c);
                        assert(before.contains(c));
                        assert(cs@.subrange(0, i as int).contains(c));
                        let m = choose|m: int| 0 <= m < i && cs@.subrange(0, i as int)[m] == c;
                        assert(cs@.subrange(0, i + 1)[m] == c);
                    } else if q > p {
                        assert(before[q - 1] == c);
                        assert(before.contains(c));
                        assert(cs@.subrange(0, i as int).contains(c));
                        let m = choose|m: int| 0 <= m < i && cs@.subrange(0, i as int)[m] == c;
                        assert(cs@.subrange(0, i + 1)[m] == c);
                    } else {
                        assert(cs@.subrange(0, i + 1)[i as int] == c);
                    }
                }
                let ext = cs@.subrange(0, i + 1);
                if ext.contains(c) {
                    let m = choose|m: int| 0 <= m < ext.len() && ext[m] == c;
                    if m < i {
                        assert(cs@.subrange(0, i as int)[m] == c);
                        assert(cs@.subrange(0, i as int).contains(c));
                        assert(before.contains(c));
                        let q = choose|q: int| 0 <= q < before.len() && before[q] == c;
                        if q < p {
                            assert(out@[q] == c);
                        } else {
                            assert(out@[q + 1] == c);
                        }
                    } else {
                        assert(out@[p as int] == c);
                    }
                }
            }
        }
        i += 1;
    }
    proof {
        assert(cs@.subrange(0, cs@.len() as int) =~= cs@);
        let t = sorted_crossings(cs@);
        assert(crossings_sorted(out@) && forall|c: Crossing| #[trigger] out@.contains(c) <==> cs@.contains(c));
        assert(crossings_sorted(t) && forall|c: Crossing| #[trigger] t.contains(c) <==> cs@.contains(c));
        lemma_sorted_unique(out@, t, |a: Crossing, b: Crossing| crossing_lt(a, b));
    }
    out
}

/// Product modulo 2^64.
pub open spec fn wrap_mul(a: u64, b: u64) -> u64 {
    ((a as nat * b as nat) % 0x1_0000_0000_0000_0000nat) as u64
}

/// The nonzero stable key of the `ordinal`-th primitive of an object's pass: a 64-bit mix of
/// the object identity, the pass and the ordinal.
#[verifier::opaque]
pub open spec fn primitive_key_spec(object_id: u64, pass: u8, ordinal: u32) -> u64 {
    let v0 = object_id ^ wrap_mul(pass as u64, 0x9e37_79b9_7f4a_7c15);
    let v1 = v0 ^ wrap_mul(ordinal as u64, 0xbf58_476d_1ce4_e5b9);
    let v2 = v1 ^ (v1 >> 30u64);
    let v3 = wrap_mul(v2, 0xbf58_476d_1ce4_e5b9);
    let v4 = v3 ^ (v3 >> 27u64);
    let v5 = wrap_mul(v4, 0x94d0_49bb_1331_11eb);
    let v6 = v5 ^ (v5 >> 31u64);
    if v6 == 0 { 1 } else { v6 }
}

/// The nonzero stable key of the `ordinal`-th primitive of an object's pass.
pub fn primitive_key(object_id: ObjectId, pass: u8, ordinal: u32) -> (r: u64)
    ensures
        r == primitive_key_spec(object_id.value(), pass, ordinal),
        r != 0,
{
    proof {
        reveal(primitive_key_spec);
    }
    let mut value = object_id.get() ^ (pass as u64).wrapping_mul(0x9e37_79b9_7f4a_7c15);
    value ^= (ordinal as u64).wrapping_mul(0xbf58_476d_1ce4_e5b9);
    value ^= value >> 30u64;
    value = value.wrapping_mul(0xbf58_476d_1ce4_e5b9);
    value ^= value >> 27u64;
    value = value.wrapping_mul(0x94d0_49bb_1331_11eb);
    value ^= value >> 31u64;
    if value == 0 { 1 } else { value }
}

/// Twice the signed area of a triangle.
pub open spec fn area2(a: RasterVertex, b: RasterVertex, c: RasterVertex) -> int {
    (b.x_subpx - a.x_subpx) * (c.y_subpx - a.y_subpx) - (b.y_subpx - a.y_subpx) * (c.x_subpx - a.x_subpx)
}

fn signed_product(d1: i128, d2: i128) -> (r: (bool, u128))
    requires
        -0x1_0000_0000_0000_0000 < d1 < 0x1_0000_0000_0000_0000,
        -0x1_0000_0000_0000_0000 < d2 < 0x1_0000_0000_0000_0000,
    ensures
        r.0 ==> d1 * d2 == -(r.1 as int),
        !r.0 ==> d1 * d2 == r.1 as int,
        r.1 == 0 ==> !r.0,
{
    let m1: u128 = if d1 < 0 { (-d1) as u128 } else { d1 as u128 };
    let m2: u128 = if d2 < 0 { (-d2) as u128 } else { d2 as u128 };
    proof {
        assert(m1 * m2 <= 0xffff_ffff_ffff_ffffu128 * 0xffff_ffff_ffff_ffffu128) by (nonlinear_arith)
            requires m1 <= 0xffff_ffff_ffff_ffff, m2 <= 0xffff_ffff_ffff_ffff;
    }
    let m = m1 * m2;
    let negative = m != 0 && ((d1 < 0) != (d2 < 0));
    proof {
        if d1 < 0 && d2 < 0 {
            assert(d1 * d2 == m1 * m2) by (nonlinear_arith) requires m1 == -d1, m2 == -d2;
        } else if d1 < 0 {
            assert(d1 * d2 == -(m1 * m2)) by (nonlinear_arith) requires m1 == -d1, m2 == d2;
        } else if d2 < 0 {
            assert(d1 * d2 == -(m1 * m2)) by (nonlinear_arith) requires m1 == d1, m2 == -d2;
        } else {
            assert(d1 * d2 == m1 * m2) by (nonlinear_arith) requires m1 == d1, m2 == d2;
        }
    }
    (negative, m)
}

fn area_is_zero(a: RasterVertex, b: RasterVertex, c: RasterVertex) -> (r: bool)
    ensures
        r == (area2(a, b, c) == 0),
{
    let (n1, m1) = signed_product(b.x_subpx as i128 - a.x_subpx as i128, c.y_subpx as i128 - a.y_subpx as i128);
    let (n2, m2) = signed_product(b.y_subpx as i128 - a.y_subpx as i128, c.x_subpx as i128 - a.x_subpx as i128);
    n1 == n2 && m1 == m2
}

/// Ordinal after one more primitive, wrapping at 2^32.
pub open spec fn next_ordinal(o: u32) -> u32 {
    if o == u32::MAX { 0 } else { (o + 1) as u32 }
}

/// Output and ordinal after offering one triangle: a zero-area triangle is dropped; any other
/// is appended with the key of the current ordinal, which then advances.
pub open spec fn emit_spec(
    state: (Seq<Triangle>, u32),
    a: RasterVertex,
    b: RasterVertex,
    c: RasterVertex,
    palette_index: u8,
    object_id: u64,
    pass: u8,
) -> (Seq<Triangle>, u32) {
    if area2(a, b, c) == 0 {
        state
    } else {
        (
            state.0.push(Triangle { vertices: [a, b, c], palette_index, stable_key: primitive_key_spec(object_id, pass, state.1) }),
            next_ordinal(state.1),
        )
    }
}

fn push_triangle(
    output: &mut Vec<Triangle>,
    a: RasterVertex,
    b: RasterVertex,
    c: RasterVertex,
    palette_index: u8,
    object_id: ObjectId,
    pass: u8,
    ordinal: &mut u32,
)
    ensures
        (final(output)@, *final(ordinal)) == emit_spec((old(output)@, *old(ordinal)), a, b, c, palette_index, object_id.value(), pass),
{
    if area_is_zero(a, b, c) {
        return;
    }
    let key = primitive_key(object_id, pass, *ordinal);
    output.push(Triangle { vertices: [a, b, c], palette_index, stable_key: key });
    *ordinal = ordinal.wrapping_add(1);
}

/// Output and ordinal after the first `k` crossing pairs: each pair of a left and a right
/// crossing offers the two triangles of the trapezoid between them.
pub open spec fn emit_pairs(
    state: (Seq<Triangle>, u32),
    cs: Seq<Crossing>,
    k: nat,
    palette_index: u8,
    object_id: u64,
    pass: u8,
) -> (Seq<Triangle>, u32)
    decreases k,
{
    if k == 0 {
        state
    } else {
        let s = emit_pairs(state, cs, (k - 1) as nat, palette_index, object_id, pass);
        let left = cs[2 * (k - 1)];
        let right = cs[2 * (k - 1) + 1];
        let s1 = emit_spec(s, left.low, right.low, right.high, palette_index, object_id, pass);
        emit_spec(s1, left.low, right.high, left.high, palette_index, object_id, pass)
    }
}

/// Output, ordinal and failure after one strip between rows `low` and `high`.
#[verifier::opaque]
pub open spec fn strip_step(
    state: (Seq<Triangle>, u32),
    edges: Seq<(RasterVertex, RasterVertex)>,
    low: i64,
    high: i64,
    palette_index: u8,
    object_id: u64,
    pass: u8,
) -> ((Seq<Triangle>, u32), Option<RenderError>) {
    if low == high {
        (state, None)
    } else {
        match strip_crossings(edges, low, high) {
            Err(e) => (state, Some(e)),
            Ok(cs) => if cs.len() % 2 != 0 {
                (state, Some(RenderError::Triangulation))
            } else {
                (emit_pairs(state, sorted_crossings(cs), cs.len() / 2, palette_index, object_id, pass), None)
            },
        }
    }
}

/// Output, ordinal and first failure after the first `m` strips between consecutive levels.
pub open spec fn fill_strips(
    edges: Seq<(RasterVertex, RasterVertex)>,
    levels: Seq<i64>,
    m: nat,
    state: (Seq<Triangle>, u32),
    palette_index: u8,
    object_id: u64,
    pass: u8,
) -> ((Seq<Triangle>, u32), Option<RenderError>)
    decreases m,
{
    if m == 0 {
        (state, None)
    } else {
        let (s, err) = fill_strips(edges, levels, (m - 1) as nat, state, palette_index, object_id, pass);
        if err is Some {
            (s, err)
        } else {
            strip_step(s, edges, levels[m - 1], levels[m as int], palette_index, object_id, pass)
        }
    }
}

/// Number of strips between consecutive levels.
pub open spec fn strip_count(levels: Seq<i64>) -> nat {
    if levels.len() < 2 { 0 } else { (levels.len() - 1) as nat }
}

/// The outcome of decomposing rings into triangles appended to `output`.
pub open spec fn polygon_fill(
    rings: Seq<Vec<RasterVertex>>,
    output: Seq<Triangle>,
    ordinal: u32,
    palette_index: u8,
    object_id: u64,
    pass: u8,
) -> ((Seq<Triangle>, u32), Option<RenderError>) {
    let levels = y_levels(rings);
    fill_strips(ring_edges(rings), levels, strip_count(levels), (output, ordinal), palette_index, object_id, pass)
}

/// Decomposes polygon rings (even-odd: outer boundaries and holes) into triangles, strip by
/// strip between consecutive distinct vertex rows. In each strip the crossing edges are paired
/// left to right and each pair's trapezoid becomes two triangles; zero-area triangles are
/// dropped and every kept one takes the key of the next ordinal.
pub fn append_polygon_fill(
    output: &mut Vec<Triangle>,
    rings: &[Vec<RasterVertex>],
    palette_index: u8,
    object_id: ObjectId,
    pass: u8,
    ordinal: &mut u32,
) -> (r: Result<(), RenderError>)
    requires
        forall|k: int| 0 <= k < ring_edges(rings@).len() ==> edge_fits(#[trigger] ring_edges(rings@)[k]),
    ensures
        ({
            let (state, err) = polygon_fill(rings@, old(output)@, *old(ordinal), palette_index, object_id.value(), pass);
            &&& final(output)@ == state.0
            &&& *final(ordinal) == state.1
            &&& (r is Ok <==> err is None)
            &&& (r matches Err(e) ==> err == Some(e))
        }),
{
    let levels = collect_levels(rings);
    let edges = collect_edges(rings);
    let ghost start = (output@, *ordinal);
    assert(start == (old(output)@, *old(ordinal)));
    if levels.len() < 2 {
        return Ok(());
    }
    let mut m: usize = 1;
    while m < levels.len()
        invariant
            levels@ == y_levels(rings@),
            edges@ == ring_edges(rings@),
            levels@.len() >= 2,
            1 <= m <= levels@.len(),
            forall|k: int| 0 <= k < edges@.len() ==> edge_fits(#[trigger] edges@[k]),
            fill_strips(edges@, levels@, (m - 1) as nat, start, palette_index, object_id.value(), pass) == ((output@, *ordinal), None::<RenderError>),
            increasing(levels@),
            start == (old(output)@, *old(ordinal)),
        decreases levels@.len() - m,
    {
        let low = levels[m - 1];
        let high = levels[m];
        proof {
            assert(low < high);
        }
        let step = fill_strip(output, &edges, low, high, palette_index, object_id, pass, ordinal);
        if let Err(e) = step {
            proof {
                assert(fill_strips(edges@, levels@, m as nat, start, palette_index, object_id.value(), pass) == ((output@, *ordinal), Some(e)));
                lemma_fill_error_persists(edges@, levels@, m as nat, strip_count(levels@), start, palette_index, object_id.value(), pass);
                assert(polygon_fill(rings@, start.0, start.1, palette_index, object_id.value(), pass) == ((output@, *ordinal), Some(e)));
            }
            return Err(e);
        }
        m += 1;
    }
    Ok(())
}

fn fill_strip(
    output: &mut Vec<Triangle>,
    edges: &Vec<(RasterVertex, RasterVertex)>,
    low: i64,
    high: i64,
    palette_index: u8,
    object_id: ObjectId,
    pass: u8,
    ordinal: &mut u32,
) -> (r: Result<(), RenderError>)
    requires
        low < high,
        forall|k: int| 0 <= k < edges@.len() ==> edge_fits(#[trigger] edges@[k]),
    ensures
        ({
            let (state, err) = strip_step((old(output)@, *old(ordinal)), edges@, low, high, palette_index, object_id.value(), pass);
            &&& final(output)@ == state.0
            &&& *final(ordinal) == state.1
            &&& (r is Ok <==> err is None)
            &&& (r matches Err(e) ==> err == Some(e))
        }),
{
    proof {
        reveal(strip_step);
    }
    let crossings = match strip_crossings_of(edges, low, high) {
        Ok(c) => c,
        Err(e) => {
            return Err(e);
        },
    };
    if crossings.len() % 2 != 0 {
        return Err(RenderError::Triangulation);
    }
    let ghost raw = crossings@;
    let sorted = sort_crossings(crossings);
    let ghost entry = (output@, *ordinal);
    let mut k: usize = 0;
    while k < sorted.len() / 2
        invariant
            sorted@ == sorted_crossings(raw),
            sorted@.len() == raw.len(),
            raw.len() % 2 == 0,
            k <= sorted@.len() / 2,
            (output@, *ordinal) == emit_pairs(entry, sorted@, k as nat, palette_index, object_id.value(), pass),
        decreases sorted@.len() / 2 - k,
    {
        let left = sorted[2 * k];
        let right = sorted[2 * k + 1];
        push_triangle(output, left.low, right.low, right.high, palette_index, object_id, pass, ordinal);
        push_triangle(output, left.low, right.high, left.high, palette_index, object_id, pass, ordinal);
        k += 1;
    }
    Ok(())
}

proof fn lemma_fill_error_persists(
    edges: Seq<(RasterVertex, RasterVertex)>,
    levels: Seq<i64>,
    m: nat,
    n: nat,
    state: (Seq<Triangle>, u32),
    palette_index: u8,
    object_id: u64,
    pass: u8,
)
    requires
        m <= n,
        fill_strips(edges, levels, m, state, palette_index, object_id, pass).1 is Some,
    ensures
        fill_strips(edges, levels, n, state, palette_index, object_id, pass) == fill_strips(edges, levels, m, state, palette_index, object_id, pass),
    decreases n - m,
{
    if m < n {
        lemma_fill_error_persists(edges, levels, m, (n - 1) as nat, state, palette_index, object_id, pass);
    }
}

} // verus!
