//! Registered overlap comparison of two independently captured neighbors and a larger
//! monolithic oracle: the bounded layout, per-layer difference statistics, the bounded
//! registration search, and the scoped gates and failure classes.
use vstd::prelude::*;
use crate::reference::ReferenceError;
use crate::text::str_eq;

verus! {

/// Portable overlap request schema.
pub const OVERLAP_REQUEST_SCHEMA: &'static str = "isometric-reference-overlap-comparison/v1";
/// Portable overlap report schema.
pub const OVERLAP_REPORT_SCHEMA: &'static str = "isometric-reference-overlap-report/v1";
/// Bytes before the first depth value of a raw depth layer.
pub const DEPTH_HEADER_BYTES: u64 = 16;
/// Largest accepted overlap dimension.
pub const MAX_OVERLAP_DIMENSION: u32 = 4_096;
/// Largest accepted raw layer.
pub const MAX_RAW_BYTES: u64 = 536_870_912;

/// The six raw layers of an overlap candidate.
#[derive(Clone, Copy, Debug, Eq, PartialEq, Structural)]
pub enum RawLayerKind {
    /// RGBA color.
    Color,
    /// RGBA untextured geometry.
    Whitebox,
    /// Little-endian 32-bit depth after a 16-byte header.
    LinearDepth,
    /// RGBA view-space normals.
    ViewNormal,
    /// Gray fixed shadow.
    FixedShadow,
    /// Gray coverage.
    Coverage,
}

/// Tolerance of one layer: the largest accepted absolute difference and the accepted
/// share of pixels above it.
#[derive(Clone, Copy, Debug, Eq, PartialEq, Structural)]
pub struct LayerGate {
    /// Largest absolute difference that is within tolerance.
    pub maximum_absolute_difference: u64,
    /// Accepted above-tolerance pixels per million.
    pub maximum_above_tolerance_ppm: u64,
}

/// The layer's tolerance.
pub open spec fn gate_spec(kind: RawLayerKind) -> LayerGate {
    match kind {
        RawLayerKind::Coverage => LayerGate { maximum_absolute_difference: 0, maximum_above_tolerance_ppm: 0 },
        RawLayerKind::LinearDepth => LayerGate { maximum_absolute_difference: 250, maximum_above_tolerance_ppm: 100 },
        RawLayerKind::ViewNormal => LayerGate { maximum_absolute_difference: 2, maximum_above_tolerance_ppm: 100 },
        RawLayerKind::Whitebox => LayerGate { maximum_absolute_difference: 3, maximum_above_tolerance_ppm: 250 },
        RawLayerKind::FixedShadow => LayerGate { maximum_absolute_difference: 16, maximum_above_tolerance_ppm: 1_000 },
        RawLayerKind::Color => LayerGate { maximum_absolute_difference: 24, maximum_above_tolerance_ppm: 5_000 },
    }
}

impl RawLayerKind {
    /// Every layer, in report order.
    pub fn all() -> (r: Vec<RawLayerKind>)
        ensures
            r@ == seq![
                RawLayerKind::Color,
                RawLayerKind::Whitebox,
                RawLayerKind::LinearDepth,
                RawLayerKind::ViewNormal,
                RawLayerKind::FixedShadow,
                RawLayerKind::Coverage,
            ],
    {
        let mut v = Vec::new();
        v.push(RawLayerKind::Color);
        v.push(RawLayerKind::Whitebox);
        v.push(RawLayerKind::LinearDepth);
        v.push(RawLayerKind::ViewNormal);
        v.push(RawLayerKind::FixedShadow);
        v.push(RawLayerKind::Coverage);
        proof {
            assert(v@ =~= seq![
                RawLayerKind::Color,
                RawLayerKind::Whitebox,
                RawLayerKind::LinearDepth,
                RawLayerKind::ViewNormal,
                RawLayerKind::FixedShadow,
                RawLayerKind::Coverage,
            ]);
        }
        v
    }

    /// The raw file name of the layer.
    pub fn filename(self) -> (r: &'static str)
        ensures
            r@ == layer_filename(self),
    {
        match self {
            RawLayerKind::Color => "color.rgba8",
            RawLayerKind::Whitebox => "whitebox.rgba8",
            RawLayerKind::LinearDepth => "depth.u32le",
            RawLayerKind::ViewNormal => "normal.rgba8",
            RawLayerKind::FixedShadow => "fixed-shadow.gray8",
            RawLayerKind::Coverage => "coverage.gray8",
        }
    }

    /// The report name of the layer.
    pub fn name(self) -> (r: &'static str)
        ensures
            r@ == layer_name(self),
    {
        match self {
            RawLayerKind::Color => "color",
            RawLayerKind::Whitebox => "whitebox",
            RawLayerKind::LinearDepth => "linear-depth",
            RawLayerKind::ViewNormal => "view-normal",
            RawLayerKind::FixedShadow => "fixed-shadow",
            RawLayerKind::Coverage => "coverage",
        }
    }

    /// Bytes per pixel of the layer.
    pub fn bytes_per_pixel(self) -> (r: u64)
        ensures
            r == bytes_per_pixel_spec(self),
    {
        match self {
            RawLayerKind::FixedShadow | RawLayerKind::Coverage => 1,
            _ => 4,
        }
    }

    /// Bytes before the first pixel of the layer.
    pub fn header_bytes(self) -> (r: u64)
        ensures
            r == (if self is LinearDepth { DEPTH_HEADER_BYTES } else { 0 }),
    {
        match self {
            RawLayerKind::LinearDepth => DEPTH_HEADER_BYTES,
            _ => 0,
        }
    }

    /// The layer's tolerance.
    pub fn gate(self) -> (r: LayerGate)
        ensures
            r == gate_spec(self),
    {
        match self {
            RawLayerKind::Coverage => LayerGate { maximum_absolute_difference: 0, maximum_above_tolerance_ppm: 0 },
            RawLayerKind::LinearDepth => LayerGate { maximum_absolute_difference: 250, maximum_above_tolerance_ppm: 100 },
            RawLayerKind::ViewNormal => LayerGate { maximum_absolute_difference: 2, maximum_above_tolerance_ppm: 100 },
            RawLayerKind::Whitebox => LayerGate { maximum_absolute_difference: 3, maximum_above_tolerance_ppm: 250 },
            RawLayerKind::FixedShadow => LayerGate { maximum_absolute_difference: 16, maximum_above_tolerance_ppm: 1_000 },
            RawLayerKind::Color => LayerGate { maximum_absolute_difference: 24, maximum_above_tolerance_ppm: 5_000 },
        }
    }
}

/// The raw file name of a layer.
pub open spec fn layer_filename(kind: RawLayerKind) -> Seq<char> {
    match kind {
        RawLayerKind::Color => "color.rgba8"@,
        RawLayerKind::Whitebox => "whitebox.rgba8"@,
        RawLayerKind::LinearDepth => "depth.u32le"@,
        RawLayerKind::ViewNormal => "normal.rgba8"@,
        RawLayerKind::FixedShadow => "fixed-shadow.gray8"@,
        RawLayerKind::Coverage => "coverage.gray8"@,
    }
}

/// The report name of a layer.
pub open spec fn layer_name(kind: RawLayerKind) -> Seq<char> {
    match kind {
        RawLayerKind::Color => "color"@,
        RawLayerKind::Whitebox => "whitebox"@,
        RawLayerKind::LinearDepth => "linear-depth"@,
        RawLayerKind::ViewNormal => "view-normal"@,
        RawLayerKind::FixedShadow => "fixed-shadow"@,
        RawLayerKind::Coverage => "coverage"@,
    }
}

/// Bytes per pixel of a layer.
pub open spec fn bytes_per_pixel_spec(kind: RawLayerKind) -> u64 {
    if kind is FixedShadow || kind is Coverage { 1 } else { 4 }
}

/// One raw candidate directory and its complete registered dimensions.
#[derive(Clone, Debug, Eq, PartialEq)]
pub struct RawCandidate {
    /// Directory containing the six fixed raw layer file names.
    pub directory: String,
    /// Total width including guards.
    pub width_px: u32,
    /// Total height including guards.
    pub height_px: u32,
}

/// Geometry and locations for one overlap comparison.
#[derive(Clone, Debug, Eq, PartialEq)]
pub struct OverlapComparisonRequest {
    /// Request schema.
    pub schema: String,
    /// Left independently captured candidate.
    pub left: RawCandidate,
    /// Right independently captured candidate.
    pub right: RawCandidate,
    /// Larger monolithic oracle candidate.
    pub monolithic: RawCandidate,
    /// Saved width of each independent core.
    pub independent_core_width_px: u32,
    /// Saved height shared by independent and monolithic cores.
    pub core_height_px: u32,
    /// Symmetric guard on every image.
    pub guard_px: u32,
    /// New output directory for derived comparison evidence.
    pub output_directory: String,
}

/// Whether a dimension is positive and bounded.
pub open spec fn dimension_ok(v: int) -> bool {
    1 <= v <= MAX_OVERLAP_DIMENSION
}

/// The bounded layout: two independent candidates of one core plus guards, and a monolithic
/// candidate of two cores plus guards, all sharing one height.
pub open spec fn overlap_layout_ok(r: OverlapComparisonRequest) -> bool {
    let independent = r.independent_core_width_px + 2 * r.guard_px;
    let height = r.core_height_px + 2 * r.guard_px;
    let monolithic = 2 * r.independent_core_width_px + 2 * r.guard_px;
    &&& r.schema@ == OVERLAP_REQUEST_SCHEMA@
    &&& dimension_ok(r.independent_core_width_px as int)
    &&& dimension_ok(r.core_height_px as int)
    &&& dimension_ok(r.guard_px as int)
    &&& dimension_ok(independent)
    &&& dimension_ok(height)
    &&& dimension_ok(monolithic)
    &&& r.left.width_px == independent && r.right.width_px == independent
    &&& r.left.height_px == height && r.right.height_px == height
    &&& r.monolithic.width_px == monolithic && r.monolithic.height_px == height
}

/// Checks the bounded layout of a request whose output directory exists or not.
pub fn validate_overlap_request(request: &OverlapComparisonRequest, output_exists: bool) -> (r: Result<(), ReferenceError>)
    ensures
        r is Ok <==> overlap_layout_ok(*request) && !output_exists,
        r matches Err(ReferenceError::Invalid(m)) ==> (m@ == "registered overlap request violates its bounded layout"@ || m@
            == "independent overlap width overflowed"@ || m@ == "overlap height overflowed"@ || m@
            == "monolithic overlap width overflowed"@),
{
    let g2 = 2 * request.guard_px as u64;
    let independent = request.independent_core_width_px as u64 + g2;
    let height = request.core_height_px as u64 + g2;
    let monolithic = 2 * request.independent_core_width_px as u64 + g2;
    if g2 > u32::MAX as u64 || independent > u32::MAX as u64 {
        return Err(ReferenceError::Invalid("independent overlap width overflowed".to_string()));
    }
    if height > u32::MAX as u64 {
        return Err(ReferenceError::Invalid("overlap height overflowed".to_string()));
    }
    if monolithic > u32::MAX as u64 {
        return Err(ReferenceError::Invalid("monolithic overlap width overflowed".to_string()));
    }
    let max = MAX_OVERLAP_DIMENSION as u64;
    let bad = |v: u64| -> (b: bool)
        ensures
            b == !(1 <= v <= max),
    { v == 0 || v > max };
    if !str_eq(request.schema.as_str(), OVERLAP_REQUEST_SCHEMA) || bad(request.independent_core_width_px as u64) || bad(
        request.core_height_px as u64,
    ) || bad(request.guard_px as u64) || bad(independent) || bad(height) || bad(monolithic) || request.left.width_px as u64
        != independent || request.right.width_px as u64 != independent || request.left.height_px as u64 != height
        || request.right.height_px as u64 != height || request.monolithic.width_px as u64 != monolithic
        || request.monolithic.height_px as u64 != height || output_exists {
        return Err(ReferenceError::Invalid("registered overlap request violates its bounded layout".to_string()));
    }
    Ok(())
}

/// The little-endian value of four bytes, or zero when there are not exactly four.
pub open spec fn depth_value(b: Seq<u8>) -> int {
    if b.len() == 4 { b[0] + 256 * b[1] + 65536 * b[2] + 16777216 * b[3] } else { 0 }
}

/// The largest channel difference over the first `n` channels.
pub open spec fn max_channel_difference(l: Seq<u8>, r: Seq<u8>, n: int) -> int
    decreases n,
{
    if n <= 0 {
        0
    } else {
        let d = if l[n - 1] >= r[n - 1] { l[n - 1] - r[n - 1] } else { r[n - 1] - l[n - 1] };
        let rest = max_channel_difference(l, r, n - 1);
        if d > rest { d } else { rest }
    }
}

/// The difference of two pixels: the absolute depth difference, or the largest channel difference.
pub open spec fn pixel_difference_spec(kind: RawLayerKind, l: Seq<u8>, r: Seq<u8>) -> int {
    if kind is LinearDepth {
        let a = depth_value(l);
        let b = depth_value(r);
        if a >= b { a - b } else { b - a }
    } else {
        max_channel_difference(l, r, if l.len() <= r.len() { l.len() as int } else { r.len() as int })
    }
}

fn read_depth(b: &[u8]) -> (r: u32)
    ensures
        r == depth_value(b@),
{
    if b.len() != 4 {
        return 0;
    }
    (b[0] as u32) + 256 * (b[1] as u32) + 65536 * (b[2] as u32) + 16777216 * (b[3] as u32)
}

/// The difference of two pixels: the absolute depth difference, or the largest channel difference.
pub fn pixel_difference(kind: RawLayerKind, left: &[u8], right: &[u8]) -> (r: u64)
    ensures
        r == pixel_difference_spec(kind, left@, right@),
{
    if matches!(kind, RawLayerKind::LinearDepth) {
        let a = read_depth(left);
        let b = read_depth(right);
        return if a >= b { (a - b) as u64 } else { (b - a) as u64 };
    }
    let n = if left.len() <= right.len() { left.len() } else { right.len() };
    let mut best: u64 = 0;
    let mut i: usize = 0;
    while i < n
        invariant
            i <= n,
            n <= left@.len(),
            n <= right@.len(),
            best == max_channel_difference(left@, right@, i as int),
            best <= 255,
        decreases n - i,
    {
        let d = if left[i] >= right[i] { (left[i] - right[i]) as u64 } else { (right[i] - left[i]) as u64 };
        if d > best {
            best = d;
        }
        i += 1;
    }
    best
}


/// The bytes of pixel `i` when each pixel has `b` bytes.
pub open spec fn chunk(s: Seq<u8>, b: int, i: int) -> Seq<u8> {
    s.subrange(i * b, i * b + b)
}

/// Number of whole pixel pairs two rows hold.
pub open spec fn pair_count(observed: Seq<u8>, expected: Seq<u8>, b: int) -> int {
    let a = observed.len() as int / b;
    let c = expected.len() as int / b;
    if a <= c { a } else { c }
}

/// Per-pixel differences of two rows, pixel by pixel, over their whole pixels.
pub open spec fn row_differences(kind: RawLayerKind, observed: Seq<u8>, expected: Seq<u8>) -> Seq<int> {
    let b = bytes_per_pixel_spec(kind) as int;
    Seq::new(
        pair_count(observed, expected, b) as nat,
        |i: int| pixel_difference_spec(kind, chunk(observed, b, i), chunk(expected, b, i)),
    )
}

/// Number of nonzero differences.
pub open spec fn count_nonzero(d: Seq<int>) -> nat
    decreases d.len(),
{
    if d.len() == 0 { 0 } else { count_nonzero(d.drop_last()) + if d.last() != 0 { 1nat } else { 0nat } }
}

/// Number of differences above a tolerance.
pub open spec fn count_above(d: Seq<int>, tolerance: int) -> nat
    decreases d.len(),
{
    if d.len() == 0 { 0 } else { count_above(d.drop_last(), tolerance) + if d.last() > tolerance { 1nat } else { 0nat } }
}

/// Largest difference, or zero.
pub open spec fn seq_max(d: Seq<int>) -> int
    decreases d.len(),
{
    if d.len() == 0 {
        0
    } else {
        let rest = seq_max(d.drop_last());
        if d.last() > rest { d.last() } else { rest }
    }
}

/// Sum of differences.
pub open spec fn seq_sum(d: Seq<int>) -> int
    decreases d.len(),
{
    if d.len() == 0 { 0 } else { seq_sum(d.drop_last()) + d.last() }
}

/// Difference statistics for one layer and registered relation.
#[derive(Clone, Copy, Debug, Eq, PartialEq, Structural)]
pub struct DifferenceMetrics {
    /// Pixels whose value differs exactly.
    pub exact_mismatch_pixels: u64,
    /// Largest scalar or maximum-channel absolute difference.
    pub maximum_absolute_difference: u64,
    /// Mean scalar or maximum-channel difference times one million.
    pub mean_absolute_difference_microunits: u64,
    /// Pixels above the layer's documented tolerance.
    pub pixels_above_tolerance: u64,
    /// Above-tolerance pixels per million.
    pub pixels_above_tolerance_ppm: u64,
    /// Pixels compared.
    pub pixels_compared: u64,
    /// Whether the documented gate passed.
    pub passed: bool,
}

/// Running statistics over the pixels of one relation, fed row by row.
#[derive(Clone, Copy, Debug, Eq, PartialEq, Structural)]
pub struct DifferenceTally {
    /// Nonzero differences seen.
    pub exact_mismatch_pixels: u64,
    /// Largest difference seen.
    pub maximum_absolute_difference: u64,
    /// Differences above the tolerance seen.
    pub pixels_above_tolerance: u64,
    /// Sum of the differences seen.
    pub total_difference: u128,
    /// Pixel pairs seen.
    pub pixels_seen: u64,
    /// The tolerance the tally counts against.
    pub tolerance: u64,
}

/// `a * b` limited to `limit`.
pub open spec fn saturating_product(a: int, b: int, limit: int) -> int {
    if a * b > limit { limit } else { a * b }
}

/// Per-million share of `count` in `total`, saturating, and `u64::MAX` for an empty total.
pub open spec fn per_million(count: int, total: int) -> int {
    if total == 0 { u64::MAX as int } else { saturating_product(count, 1_000_000, u64::MAX as int) / total }
}

/// The finished metrics of a tally over `pixels_compared` pixels and a gate.
pub open spec fn metrics_spec(t: DifferenceTally, pixels_compared: int, gate: LayerGate) -> DifferenceMetrics {
    let ppm = per_million(t.pixels_above_tolerance as int, pixels_compared);
    let mean = if pixels_compared == 0 {
        u64::MAX as int
    } else {
        let m = saturating_product(t.total_difference as int, 1_000_000, u128::MAX as int) / pixels_compared;
        if m > u64::MAX { u64::MAX as int } else { m }
    };
    DifferenceMetrics {
        exact_mismatch_pixels: t.exact_mismatch_pixels,
        maximum_absolute_difference: t.maximum_absolute_difference,
        mean_absolute_difference_microunits: mean as u64,
        pixels_above_tolerance: t.pixels_above_tolerance,
        pixels_above_tolerance_ppm: ppm as u64,
        pixels_compared: pixels_compared as u64,
        passed: t.maximum_absolute_difference <= gate.maximum_absolute_difference || ppm
            <= gate.maximum_above_tolerance_ppm,
    }
}

proof fn lemma_chunk_index(i: int, n: int, b: int, len: int)
    requires
        0 <= i < n,
        1 <= b,
        n <= len / b,
    ensures
        0 <= i * b,
        i * b + b <= len,
{
    assert(i * b + b <= n * b) by (nonlinear_arith)
        requires
            0 <= i < n,
            1 <= b,
    ;
    assert(n * b <= (len / b) * b) by (nonlinear_arith)
        requires
            n <= len / b,
            1 <= b,
    ;
    assert((len / b) * b <= len) by (nonlinear_arith)
        requires
            1 <= b,
    ;
    assert(0 <= i * b) by (nonlinear_arith)
        requires
            0 <= i,
            1 <= b,
    ;
}

fn difference_at(kind: RawLayerKind, observed: &[u8], expected: &[u8], i: usize) -> (r: u64)
    requires
        (i + 1) * bytes_per_pixel_spec(kind) <= observed@.len(),
        (i + 1) * bytes_per_pixel_spec(kind) <= expected@.len(),
    ensures
        r == pixel_difference_spec(
            kind,
            chunk(observed@, bytes_per_pixel_spec(kind) as int, i as int),
            chunk(expected@, bytes_per_pixel_spec(kind) as int, i as int),
        ),
        r <= u32::MAX,
{
    let b = kind.bytes_per_pixel() as usize;
    let observed_len = observed.len();
    proof {
        assert((i + 1) * b == i * b + b) by (nonlinear_arith);
        assert(0 <= i * b) by (nonlinear_arith);
        assert(b == bytes_per_pixel_spec(kind));
        assert(i * b <= (i + 1) * b) by (nonlinear_arith)
            requires
                b >= 0,
        ;
        assert(i * b <= observed_len);
    }
    let start = i * b;
    let ghost o = chunk(observed@, b as int, i as int);
    let ghost e = chunk(expected@, b as int, i as int);
    if matches!(kind, RawLayerKind::LinearDepth) {
        let a = (observed[start] as u32) + 256 * (observed[start + 1] as u32) + 65536 * (observed[start + 2] as u32)
            + 16777216 * (observed[start + 3] as u32);
        let c = (expected[start] as u32) + 256 * (expected[start + 1] as u32) + 65536 * (expected[start + 2] as u32)
            + 16777216 * (expected[start + 3] as u32);
        assert(a == depth_value(o));
        assert(c == depth_value(e));
        return if a >= c { (a - c) as u64 } else { (c - a) as u64 };
    }
    let mut best: u64 = 0;
    let mut j: usize = 0;
    while j < b
        invariant
            j <= b,
            b == bytes_per_pixel_spec(kind),
            start == i * b,
            start + b <= observed@.len(),
            start + b <= expected@.len(),
            o == observed@.subrange(start as int, start + b),
            e == expected@.subrange(start as int, start + b),
            best == max_channel_difference(o, e, j as int),
            best <= 255,
        decreases b - j,
    {
        let x = observed[start + j];
        let y = expected[start + j];
        assert(o[j as int] == x && e[j as int] == y);
        let d = if x >= y { (x - y) as u64 } else { (y - x) as u64 };
        if d > best {
            best = d;
        }
        j += 1;
    }
    best
}

/// `value * 1_000_000`, saturating at `u64::MAX`.
pub fn scale_to_millionths(value: u64) -> (r: u64)
    ensures
        r == saturating_product(value as int, 1_000_000, u64::MAX as int),
{
    if value > u64::MAX / 1_000_000 {
        u64::MAX
    } else {
        value * 1_000_000
    }
}

impl DifferenceTally {
    /// Whether the counts are consistent with the pixels seen.
    pub open spec fn wf(self) -> bool {
        &&& self.exact_mismatch_pixels <= self.pixels_seen
        &&& self.pixels_above_tolerance <= self.pixels_seen
        &&& self.total_difference <= self.pixels_seen * 0x1_0000_0000
    }

    /// An empty tally against a tolerance.
    pub fn new(tolerance: u64) -> (r: DifferenceTally)
        ensures
            r.wf(),
            r == (DifferenceTally {
                exact_mismatch_pixels: 0,
                maximum_absolute_difference: 0,
                pixels_above_tolerance: 0,
                total_difference: 0,
                pixels_seen: 0,
                tolerance,
            }),
    {
        DifferenceTally {
            exact_mismatch_pixels: 0,
            maximum_absolute_difference: 0,
            pixels_above_tolerance: 0,
            total_difference: 0,
            pixels_seen: 0,
            tolerance,
        }
    }

    /// Feeds the whole pixel pairs of one observed and one expected row.
    pub fn add_rows(&mut self, kind: RawLayerKind, observed: &[u8], expected: &[u8])
        requires
            old(self).wf(),
            old(self).pixels_seen + pair_count(observed@, expected@, bytes_per_pixel_spec(kind) as int) <= u64::MAX,
        ensures
            final(self).wf(),
            final(self).tolerance == old(self).tolerance,
            final(self).pixels_seen == old(self).pixels_seen + row_differences(kind, observed@, expected@).len(),
            final(self).exact_mismatch_pixels == old(self).exact_mismatch_pixels + count_nonzero(
                row_differences(kind, observed@, expected@),
            ),
            final(self).pixels_above_tolerance == old(self).pixels_above_tolerance + count_above(
                row_differences(kind, observed@, expected@),
                old(self).tolerance as int,
            ),
            final(self).total_difference == old(self).total_difference + seq_sum(
                row_differences(kind, observed@, expected@),
            ),
            final(self).maximum_absolute_difference == (if seq_max(row_differences(kind, observed@, expected@))
                > old(self).maximum_absolute_difference {
                seq_max(row_differences(kind, observed@, expected@))
            } else {
                old(self).maximum_absolute_difference as int
            }),
    {
        let b = kind.bytes_per_pixel() as usize;
        let a = observed.len() / b;
        let c = expected.len() / b;
        let n = if a <= c { a } else { c };
        let ghost d = row_differences(kind, observed@, expected@);
        let ghost start = *self;
        assert(d.len() == n);
        let mut i: usize = 0;
        while i < n
            invariant
                i <= n,
                n == d.len(),
                b == bytes_per_pixel_spec(kind),
                n <= observed@.len() as int / (b as int),
                n <= expected@.len() as int / (b as int),
                d == row_differences(kind, observed@, expected@),
                start.wf(),
                start.pixels_seen + n <= u64::MAX,
                self.wf(),
                self.tolerance == start.tolerance,
                self.pixels_seen == start.pixels_seen + i,
                self.exact_mismatch_pixels == start.exact_mismatch_pixels + count_nonzero(d.take(i as int)),
                self.pixels_above_tolerance == start.pixels_above_tolerance + count_above(
                    d.take(i as int),
                    start.tolerance as int,
                ),
                self.total_difference == start.total_difference + seq_sum(d.take(i as int)),
                self.maximum_absolute_difference == (if seq_max(d.take(i as int)) > start.maximum_absolute_difference {
                    seq_max(d.take(i as int))
                } else {
                    start.maximum_absolute_difference as int
                }),
            decreases n - i,
        {
            proof {
                lemma_chunk_index(i as int, n as int, b as int, observed@.len() as int);
                lemma_chunk_index(i as int, n as int, b as int, expected@.len() as int);
                assert((i + 1) * b == i * b + b) by (nonlinear_arith);
                assert(d.take(i + 1).drop_last() =~= d.take(i as int));
            }
            let diff = difference_at(kind, observed, expected, i);
            assert(diff == d[i as int]);
            assert(diff < 0x1_0000_0000);
            if diff != 0 {
                self.exact_mismatch_pixels = self.exact_mismatch_pixels + 1;
            }
            if diff > self.tolerance {
                self.pixels_above_tolerance = self.pixels_above_tolerance + 1;
            }
            if diff > self.maximum_absolute_difference {
                self.maximum_absolute_difference = diff;
            }
            proof {
                assert(self.total_difference + diff <= (self.pixels_seen + 1) * 0x1_0000_0000) by (nonlinear_arith)
                    requires
                        self.total_difference <= self.pixels_seen * 0x1_0000_0000,
                        diff < 0x1_0000_0000,
                ;
            }
            self.total_difference = self.total_difference + diff as u128;
            self.pixels_seen = self.pixels_seen + 1;
            i += 1;
        }
        assert(d.take(n as int) =~= d);
    }

    /// The finished metrics of the tally over `width` by `height` registered pixels.
    pub fn finish(&self, width: u32, height: u32, gate: LayerGate) -> (r: DifferenceMetrics)
        ensures
            r == metrics_spec(*self, width * height, gate),
    {
        proof {
            assert(width * height <= u32::MAX * u32::MAX) by (nonlinear_arith)
                requires
                    width <= u32::MAX,
                    height <= u32::MAX,
            ;
        }
        let pixels_compared = width as u64 * height as u64;
        let ppm = if pixels_compared == 0 {
            u64::MAX
        } else {
            scale_to_millionths(self.pixels_above_tolerance) / pixels_compared
        };
        let mean = if pixels_compared == 0 {
            u64::MAX
        } else {
            let scaled = if self.total_difference > u128::MAX / 1_000_000 {
                u128::MAX
            } else {
                self.total_difference * 1_000_000
            };
            let m = scaled / (pixels_compared as u128);
            if m > u64::MAX as u128 { u64::MAX } else { m as u64 }
        };
        DifferenceMetrics {
            exact_mismatch_pixels: self.exact_mismatch_pixels,
            maximum_absolute_difference: self.maximum_absolute_difference,
            mean_absolute_difference_microunits: mean,
            pixels_above_tolerance: self.pixels_above_tolerance,
            pixels_above_tolerance_ppm: ppm,
            pixels_compared,
            passed: self.maximum_absolute_difference <= gate.maximum_absolute_difference || ppm
                <= gate.maximum_above_tolerance_ppm,
        }
    }
}


/// The six registered relations compared for every layer.
#[derive(Clone, Copy, Debug, Eq, PartialEq, Structural)]
pub enum Relation {
    /// Left and right independent guard overlap.
    LeftRightOverlap,
    /// Independent agreement in the saved seam's narrow corridor.
    LeftRightSeamCorridor,
    /// Left independent guard and the corresponding monolithic crop.
    LeftMonolithicOverlap,
    /// Right independent guard and the corresponding monolithic crop.
    RightMonolithicOverlap,
    /// Assembled saved cores and the monolithic saved core.
    JoinedMonolithicCore,
    /// Assembled saved seam corridor and the same monolithic crop.
    JoinedBoundaryMonolithic,
}

/// Which candidate a crop reads.
#[derive(Clone, Copy, Debug, Eq, PartialEq, Structural)]
pub enum CandidateRole {
    /// The left independent capture.
    Left,
    /// The right independent capture.
    Right,
    /// The monolithic oracle.
    Monolithic,
}

/// One horizontal run of pixels of one candidate.
#[derive(Clone, Copy, Debug, Eq, PartialEq, Structural)]
pub struct RowCrop {
    /// The candidate read.
    pub candidate: CandidateRole,
    /// Row in the candidate.
    pub y: u32,
    /// First column in the candidate.
    pub x: u32,
    /// Number of pixels.
    pub width: u32,
}

/// Half width of the seam corridor.
pub open spec fn corridor_half_width_spec(r: OverlapComparisonRequest) -> int {
    if r.guard_px <= 32 { r.guard_px as int } else { 32 }
}

/// Half width of the seam corridor: the guard, at most 32 pixels.
pub fn corridor_half_width(request: &OverlapComparisonRequest) -> (r: u32)
    ensures
        r == corridor_half_width_spec(*request),
{
    if request.guard_px <= 32 { request.guard_px } else { 32 }
}

/// Width and height compared by a relation.
pub open spec fn relation_dimensions_spec(r: OverlapComparisonRequest, relation: Relation) -> (int, int) {
    match relation {
        Relation::LeftRightOverlap | Relation::LeftMonolithicOverlap | Relation::RightMonolithicOverlap => (
            2 * r.guard_px,
            r.left.height_px as int,
        ),
        Relation::LeftRightSeamCorridor | Relation::JoinedBoundaryMonolithic => (
            2 * corridor_half_width_spec(r),
            r.core_height_px as int,
        ),
        Relation::JoinedMonolithicCore => (2 * r.independent_core_width_px, r.core_height_px as int),
    }
}

/// Width and height compared by a relation.
pub fn relation_dimensions(request: &OverlapComparisonRequest, relation: Relation) -> (r: (u32, u32))
    requires
        overlap_layout_ok(*request),
    ensures
        (r.0 as int, r.1 as int) == relation_dimensions_spec(*request, relation),
{
    let overlap_width = request.guard_px * 2;
    match relation {
        Relation::LeftRightOverlap | Relation::LeftMonolithicOverlap | Relation::RightMonolithicOverlap => (
            overlap_width,
            request.left.height_px,
        ),
        Relation::LeftRightSeamCorridor | Relation::JoinedBoundaryMonolithic => (
            corridor_half_width(request) * 2,
            request.core_height_px,
        ),
        Relation::JoinedMonolithicCore => (request.independent_core_width_px * 2, request.core_height_px),
    }
}

/// A crop of a candidate.
pub open spec fn crop(candidate: CandidateRole, y: int, x: int, width: int) -> RowCrop {
    RowCrop { candidate, y: y as u32, x: x as u32, width: width as u32 }
}

/// The observed crops, concatenated in order, and the expected crop of one relation row.
pub open spec fn relation_row_spec(r: OverlapComparisonRequest, relation: Relation, row: int) -> (Seq<RowCrop>, RowCrop) {
    let core = r.independent_core_width_px as int;
    let guard = r.guard_px as int;
    let overlap = 2 * guard;
    let half = corridor_half_width_spec(r);
    let source_y = row + guard;
    match relation {
        Relation::LeftRightOverlap => (
            seq![crop(CandidateRole::Left, row, core, overlap)],
            crop(CandidateRole::Right, row, 0, overlap),
        ),
        Relation::LeftMonolithicOverlap => (
            seq![crop(CandidateRole::Left, row, core, overlap)],
            crop(CandidateRole::Monolithic, row, core, overlap),
        ),
        Relation::RightMonolithicOverlap => (
            seq![crop(CandidateRole::Right, row, 0, overlap)],
            crop(CandidateRole::Monolithic, row, core, overlap),
        ),
        Relation::LeftRightSeamCorridor => (
            seq![crop(CandidateRole::Left, source_y, core + guard - half, 2 * half)],
            crop(CandidateRole::Right, source_y, guard - half, 2 * half),
        ),
        Relation::JoinedBoundaryMonolithic => (
            seq![
                crop(CandidateRole::Left, source_y, guard + core - half, half),
                crop(CandidateRole::Right, source_y, guard, half),
            ],
            crop(CandidateRole::Monolithic, source_y, guard + core - half, 2 * half),
        ),
        Relation::JoinedMonolithicCore => (
            seq![
                crop(CandidateRole::Left, source_y, guard, core),
                crop(CandidateRole::Right, source_y, guard, core),
            ],
            crop(CandidateRole::Monolithic, source_y, guard, 2 * core),
        ),
    }
}

/// The candidate a role names.
pub open spec fn candidate_of(r: OverlapComparisonRequest, role: CandidateRole) -> RawCandidate {
    match role {
        CandidateRole::Left => r.left,
        CandidateRole::Right => r.right,
        CandidateRole::Monolithic => r.monolithic,
    }
}

/// Whether a crop lies inside its candidate's registered image.
pub open spec fn crop_inside(r: OverlapComparisonRequest, c: RowCrop) -> bool {
    let candidate = candidate_of(r, c.candidate);
    c.y < candidate.height_px && c.x + c.width <= candidate.width_px
}

/// Total width of a run of crops.
pub open spec fn crops_width(s: Seq<RowCrop>) -> int
    decreases s.len(),
{
    if s.len() == 0 { 0 } else { crops_width(s.drop_last()) + s.last().width }
}

/// The crops that make up one row of a relation: the observed crops, read and concatenated in
/// order, and the expected crop. Every crop lies inside its registered image and both sides
/// have the relation's width.
pub fn relation_row(request: &OverlapComparisonRequest, relation: Relation, row: u32) -> (r: (Vec<RowCrop>, RowCrop))
    requires
        overlap_layout_ok(*request),
        row < relation_dimensions_spec(*request, relation).1,
    ensures
        (r.0@, r.1) == relation_row_spec(*request, relation, row as int),
        forall|i: int| 0 <= i < r.0@.len() ==> crop_inside(*request, #[trigger] r.0@[i]),
        crop_inside(*request, r.1),
        crops_width(r.0@) == relation_dimensions_spec(*request, relation).0,
        r.1.width == relation_dimensions_spec(*request, relation).0,
{
    let core = request.independent_core_width_px;
    let guard = request.guard_px;
    let overlap = guard * 2;
    let half = corridor_half_width(request);
    let ghost spec = relation_row_spec(*request, relation, row as int);
    let mut observed: Vec<RowCrop> = Vec::new();
    let expected = match relation {
        Relation::LeftRightOverlap => {
            observed.push(RowCrop { candidate: CandidateRole::Left, y: row, x: core, width: overlap });
            RowCrop { candidate: CandidateRole::Right, y: row, x: 0, width: overlap }
        },
        Relation::LeftMonolithicOverlap => {
            observed.push(RowCrop { candidate: CandidateRole::Left, y: row, x: core, width: overlap });
            RowCrop { candidate: CandidateRole::Monolithic, y: row, x: core, width: overlap }
        },
        Relation::RightMonolithicOverlap => {
            observed.push(RowCrop { candidate: CandidateRole::Right, y: row, x: 0, width: overlap });
            RowCrop { candidate: CandidateRole::Monolithic, y: row, x: core, width: overlap }
        },
        Relation::LeftRightSeamCorridor => {
            let source_y = row + guard;
            observed.push(RowCrop { candidate: CandidateRole::Left, y: source_y, x: core + guard - half, width: half * 2 });
            RowCrop { candidate: CandidateRole::Right, y: source_y, x: guard - half, width: half * 2 }
        },
        Relation::JoinedBoundaryMonolithic => {
            let source_y = row + guard;
            observed.push(RowCrop { candidate: CandidateRole::Left, y: source_y, x: guard + core - half, width: half });
            observed.push(RowCrop { candidate: CandidateRole::Right, y: source_y, x: guard, width: half });
            RowCrop { candidate: CandidateRole::Monolithic, y: source_y, x: guard + core - half, width: half * 2 }
        },
        Relation::JoinedMonolithicCore => {
            let source_y = row + guard;
            observed.push(RowCrop { candidate: CandidateRole::Left, y: source_y, x: guard, width: core });
            observed.push(RowCrop { candidate: CandidateRole::Right, y: source_y, x: guard, width: core });
            RowCrop { candidate: CandidateRole::Monolithic, y: source_y, x: guard, width: core * 2 }
        },
    };
    proof {
        reveal_with_fuel(crops_width, 3);
        assert(observed@ =~= spec.0);
        let s = observed@;
        if s.len() == 2 {
            assert(s.drop_last().drop_last() =~= Seq::<RowCrop>::empty());
        } else {
            assert(s.drop_last() =~= Seq::<RowCrop>::empty());
        }
    }
    (observed, expected)
}

/// Byte offset and byte length of a crop in a raw layer of a candidate `candidate_width` wide.
pub open spec fn crop_bytes_spec(kind: RawLayerKind, candidate_width: int, c: RowCrop) -> (int, int) {
    let b = bytes_per_pixel_spec(kind) as int;
    let header = if kind is LinearDepth { DEPTH_HEADER_BYTES as int } else { 0 };
    (header + (c.y * candidate_width + c.x) * b, c.width * b)
}

/// Byte offset and byte length of a crop in a raw layer of a `width` by `height` candidate:
/// fails when the crop leaves the registered image or its offset does not fit 64 bits.
pub fn row_byte_range(kind: RawLayerKind, width: u32, height: u32, c: RowCrop) -> (r: Result<(u64, u64), ReferenceError>)
    ensures
        r is Ok <==> c.y < height && c.x + c.width <= width && crop_bytes_spec(kind, width as int, c).0 <= u64::MAX,
        r matches Ok(v) ==> (v.0 as int, v.1 as int) == crop_bytes_spec(kind, width as int, c),
        r matches Err(ReferenceError::Invalid(m)) ==> (if c.y < height && c.x + c.width <= width {
            m@ == "raw overlap offset overflowed"@
        } else {
            m@ == "raw overlap crop exceeds its registered image"@
        }),
{
    if c.y >= height || c.x as u64 + c.width as u64 > width as u64 {
        return Err(ReferenceError::Invalid("raw overlap crop exceeds its registered image".to_string()));
    }
    let b = kind.bytes_per_pixel();
    proof {
        assert(c.y * width <= u32::MAX * u32::MAX) by (nonlinear_arith)
            requires
                c.y <= u32::MAX,
                width <= u32::MAX,
        ;
        assert((c.y * width + c.x) * b <= (u32::MAX * u32::MAX + u32::MAX) * 4) by (nonlinear_arith)
            requires
                0 <= c.y * width <= u32::MAX * u32::MAX,
                c.x <= u32::MAX,
                b <= 4,
        ;
        assert(c.width * b <= u32::MAX * 4) by (nonlinear_arith)
            requires
                c.width <= u32::MAX,
                b <= 4,
        ;
    }
    let pixels = c.y as u128 * width as u128 + c.x as u128;
    let offset = kind.header_bytes() as u128 + pixels * b as u128;
    if offset > u64::MAX as u128 {
        return Err(ReferenceError::Invalid("raw overlap offset overflowed".to_string()));
    }
    Ok((offset as u64, c.width as u64 * b))
}

/// Inclusive translation radius of the registration search.
pub const REGISTRATION_RADIUS: u32 = 2;

/// The interior compared at one translation of the right capture.
#[derive(Clone, Copy, Debug, Eq, PartialEq, Structural)]
pub struct RegistrationWindow {
    /// Pixels compared per row.
    pub width: u32,
    /// Rows compared.
    pub height: u32,
    /// First row of the left capture.
    pub left_y: u32,
    /// First column of the left capture.
    pub left_x: u32,
    /// First row of the right capture.
    pub right_y: u32,
    /// First column of the right capture.
    pub right_x: u32,
}

/// Bounded interior compared between the left guard and the right capture translated by
/// `(dx, dy)`, searched within `radius`.
pub fn registration_window(request: &OverlapComparisonRequest, dx: i32, dy: i32, radius: u32) -> (r: Result<
    RegistrationWindow,
    ReferenceError,
>)
    requires
        2 * request.guard_px <= u32::MAX,
        2 * radius <= u32::MAX,
        request.independent_core_width_px + radius <= u32::MAX,
    ensures
        r is Ok <==> (2 * radius <= 2 * request.guard_px && 2 * radius <= request.left.height_px && radius + dx >= 0
            && radius + dy >= 0),
        r matches Err(ReferenceError::Invalid(m)) ==> (if 2 * radius > 2 * request.guard_px {
            m@ == "registration search width underflowed"@
        } else if 2 * radius > request.left.height_px {
            m@ == "registration search height underflowed"@
        } else {
            m@ == "registration search translation exceeds its bounded interior"@
        }),
        r matches Ok(w) ==> w == (RegistrationWindow {
            width: (2 * request.guard_px - 2 * radius) as u32,
            height: (request.left.height_px - 2 * radius) as u32,
            left_y: radius,
            left_x: (request.independent_core_width_px + radius) as u32,
            right_y: (radius + dy) as u32,
            right_x: (radius + dx) as u32,
        }),
{
    let overlap_width = request.guard_px * 2;
    if radius * 2 > overlap_width {
        return Err(ReferenceError::Invalid("registration search width underflowed".to_string()));
    }
    let width = overlap_width - radius * 2;
    if radius * 2 > request.left.height_px {
        return Err(ReferenceError::Invalid("registration search height underflowed".to_string()));
    }
    let height = request.left.height_px - radius * 2;
    let right_x = radius as i64 + dx as i64;
    let right_y = radius as i64 + dy as i64;
    if right_x < 0 || right_y < 0 {
        return Err(ReferenceError::Invalid("registration search translation exceeds its bounded interior".to_string()));
    }
    assert(right_x <= u32::MAX && right_y <= u32::MAX);
    Ok(RegistrationWindow {
        width,
        height,
        left_y: radius,
        left_x: request.independent_core_width_px + radius,
        right_y: right_y as u32,
        right_x: right_x as u32,
    })
}


/// Above-tolerance count of one translation of the right capture.
#[derive(Clone, Copy, Debug, Eq, PartialEq, Structural)]
pub struct RegistrationScore {
    /// Horizontal translation.
    pub dx: i32,
    /// Vertical translation.
    pub dy: i32,
    /// Above-tolerance structural observations.
    pub above: u64,
    /// Observations compared.
    pub observations: u64,
}

/// Best bounded translation between the two independently captured overlaps.
#[derive(Clone, Copy, Debug, Eq, PartialEq, Structural)]
pub struct RegistrationSearch {
    /// Above-tolerance structural pixels per million at zero translation.
    pub baseline_above_tolerance_ppm: u64,
    /// Horizontal translation applied to the right capture, in source pixels.
    pub best_dx_px: i32,
    /// Vertical translation applied to the right capture, in source pixels.
    pub best_dy_px: i32,
    /// Above-tolerance structural pixels per million at the best translation.
    pub best_above_tolerance_ppm: u64,
    /// Number of pixel-layer observations compared for each translation.
    pub observations_compared: u64,
    /// Inclusive translation radius searched in both dimensions.
    pub radius_px: u32,
}

/// The `k`-th searched translation: rows of `dy` from -2 to 2, columns of `dx` from -2 to 2,
/// without the zero translation.
pub open spec fn registration_offset(k: int) -> (int, int) {
    let j = if k < 12 { k } else { k + 1 };
    (j % 5 - 2, j / 5 - 2)
}

/// Every nonzero translation within the search radius, in search order.
pub fn registration_offsets() -> (r: Vec<(i32, i32)>)
    ensures
        r@.len() == 24,
        forall|k: int| 0 <= k < 24 ==> (r@[k].0 as int, r@[k].1 as int) == #[trigger] registration_offset(k),
{
    let mut r: Vec<(i32, i32)> = Vec::new();
    let mut dy: i32 = -2;
    while dy <= 2
        invariant
            -2 <= dy <= 3,
            r@.len() == if dy <= 0 { 5 * (dy + 2) } else { 5 * (dy + 2) - 1 },
            forall|k: int| 0 <= k < r@.len() ==> (r@[k].0 as int, r@[k].1 as int) == #[trigger] registration_offset(k),
        decreases 3 - dy,
    {
        let mut dx: i32 = -2;
        while dx <= 2
            invariant
                -2 <= dx <= 3,
                -2 <= dy <= 2,
                r@.len() == if dy < 0 || (dy == 0 && dx <= 0) { 5 * (dy + 2) + dx + 2 } else { 5 * (dy + 2) + dx + 1 },
                forall|k: int| 0 <= k < r@.len() ==> (r@[k].0 as int, r@[k].1 as int) == #[trigger] registration_offset(k),
            decreases 3 - dx,
        {
            if dx != 0 || dy != 0 {
                let ghost k = r@.len() as int;
                r.push((dx, dy));
                proof {
                    let j = if k < 12 { k } else { k + 1 };
                    assert(j == 5 * (dy + 2) + dx + 2);
                    assert(j % 5 == dx + 2 && j / 5 == dy + 2);
                    assert(registration_offset(k) == (dx as int, dy as int));
                }
            }
            dx += 1;
        }
        dy += 1;
    }
    r
}

/// Absolute value.
pub open spec fn abs_int(v: int) -> int {
    if v < 0 { -v } else { v }
}

/// Whether `(above, dx, dy)` is a strictly better registration than `best`: fewer
/// above-tolerance observations, then the smaller translation by total distance, vertical
/// distance, horizontal distance, signed vertical and signed horizontal offset.
pub open spec fn beats(a: (int, int, int), b: (int, int, int)) -> bool {
    let da = abs_int(a.1) + abs_int(a.2);
    let db = abs_int(b.1) + abs_int(b.2);
    ||| a.0 < b.0
    ||| a.0 == b.0 && da < db
    ||| a.0 == b.0 && da == db && abs_int(a.2) < abs_int(b.2)
    ||| a.0 == b.0 && da == db && abs_int(a.2) == abs_int(b.2) && abs_int(a.1) < abs_int(b.1)
    ||| a.0 == b.0 && da == db && abs_int(a.2) == abs_int(b.2) && abs_int(a.1) == abs_int(b.1) && a.2 < b.2
    ||| a.0 == b.0 && da == db && abs_int(a.2) == abs_int(b.2) && abs_int(a.1) == abs_int(b.1) && a.2 == b.2 && a.1
        < b.1
}

/// A score as `(above, dx, dy)`.
pub open spec fn score_triple(c: RegistrationScore) -> (int, int, int) {
    (c.above as int, c.dx as int, c.dy as int)
}

/// The registration kept after scanning the candidates in order from `base`.
pub open spec fn best_of(base: (int, int, int), s: Seq<RegistrationScore>) -> (int, int, int)
    decreases s.len(),
{
    if s.len() == 0 {
        base
    } else {
        let prev = best_of(base, s.drop_last());
        if beats(score_triple(s.last()), prev) { score_triple(s.last()) } else { prev }
    }
}

/// The search result for a baseline, a common observation count and the kept registration.
pub open spec fn registration_search_spec(baseline_above: int, observations: int, best: (int, int, int)) -> RegistrationSearch {
    RegistrationSearch {
        baseline_above_tolerance_ppm: per_million(baseline_above, observations) as u64,
        best_dx_px: best.1 as i32,
        best_dy_px: best.2 as i32,
        best_above_tolerance_ppm: per_million(best.0, observations) as u64,
        observations_compared: observations as u64,
        radius_px: REGISTRATION_RADIUS,
    }
}

fn abs_i32(v: i32) -> (r: u32)
    ensures
        r == abs_int(v as int),
{
    if v < 0 { (-(v as i64)) as u32 } else { v as u32 }
}

fn beats_exec(above: u64, dx: i32, dy: i32, best: (u64, i32, i32)) -> (r: bool)
    ensures
        r == beats((above as int, dx as int, dy as int), (best.0 as int, best.1 as int, best.2 as int)),
{
    let da = abs_i32(dx) as u64 + abs_i32(dy) as u64;
    let db = abs_i32(best.1) as u64 + abs_i32(best.2) as u64;
    if above != best.0 {
        return above < best.0;
    }
    if da != db {
        return da < db;
    }
    if abs_i32(dy) != abs_i32(best.2) {
        return abs_i32(dy) < abs_i32(best.2);
    }
    if abs_i32(dx) != abs_i32(best.1) {
        return abs_i32(dx) < abs_i32(best.1);
    }
    if dy != best.2 {
        return dy < best.2;
    }
    dx < best.1
}

/// Picks the registration from the zero-translation baseline and the scores of the other
/// translations in search order: the first strictly better score replaces the kept one. Fails
/// when a translation compared a different number of observations than the baseline.
pub fn select_registration(baseline_above: u64, observations: u64, candidates: &Vec<RegistrationScore>) -> (r: Result<
    RegistrationSearch,
    ReferenceError,
>)
    ensures
        r is Ok <==> forall|i: int| 0 <= i < candidates@.len() ==> #[trigger] candidates@[i].observations == observations,
        r matches Err(ReferenceError::Invalid(m)) ==> m@ == "registration search compared inconsistent observations"@,
        r matches Ok(search) ==> search == registration_search_spec(
            baseline_above as int,
            observations as int,
            best_of((baseline_above as int, 0, 0), candidates@),
        ),
{
    let mut best: (u64, i32, i32) = (baseline_above, 0, 0);
    let mut i: usize = 0;
    while i < candidates.len()
        invariant
            i <= candidates@.len(),
            forall|j: int| 0 <= j < i ==> #[trigger] candidates@[j].observations == observations,
            (best.0 as int, best.1 as int, best.2 as int) == best_of(
                (baseline_above as int, 0, 0),
                candidates@.take(i as int),
            ),
        decreases candidates@.len() - i,
    {
        let c = candidates[i];
        if c.observations != observations {
            return Err(ReferenceError::Invalid("registration search compared inconsistent observations".to_string()));
        }
        proof {
            assert(candidates@.take(i + 1).drop_last() =~= candidates@.take(i as int));
        }
        if beats_exec(c.above, c.dx, c.dy, best) {
            best = (c.above, c.dx, c.dy);
        }
        i += 1;
    }
    assert(candidates@.take(i as int) =~= candidates@);
    let baseline_ppm = if observations == 0 { u64::MAX } else { scale_to_millionths(baseline_above) / observations };
    let best_ppm = if observations == 0 { u64::MAX } else { scale_to_millionths(best.0) / observations };
    Ok(RegistrationSearch {
        baseline_above_tolerance_ppm: baseline_ppm,
        best_dx_px: best.1,
        best_dy_px: best.2,
        best_above_tolerance_ppm: best_ppm,
        observations_compared: observations,
        radius_px: REGISTRATION_RADIUS,
    })
}

proof fn lemma_beats_transitive(a: (int, int, int), b: (int, int, int), c: (int, int, int))
    requires
        beats(a, b),
        beats(b, c),
    ensures
        beats(a, c),
{
}

/// The kept registration is never beaten: no scanned translation, and not the baseline, has
/// fewer above-tolerance observations or the same count at a smaller translation, and the
/// kept registration is the baseline or one of the scanned translations.
pub proof fn lemma_registration_is_minimal(base: (int, int, int), s: Seq<RegistrationScore>)
    ensures
        forall|i: int| 0 <= i < s.len() ==> !beats(#[trigger] score_triple(s[i]), best_of(base, s)),
        !beats(base, best_of(base, s)),
        best_of(base, s) == base || exists|i: int| 0 <= i < s.len() && best_of(base, s) == #[trigger] score_triple(s[i]),
    decreases s.len(),
{
    if s.len() > 0 {
        let p = s.drop_last();
        lemma_registration_is_minimal(base, p);
        let prev = best_of(base, p);
        let best = best_of(base, s);
        let last = score_triple(s.last());
        assert forall|i: int| 0 <= i < s.len() implies !beats(#[trigger] score_triple(s[i]), best) by {
            if i < s.len() - 1 {
                assert(score_triple(s[i]) == score_triple(p[i]));
                if beats(score_triple(s[i]), best) && best == last {
                    lemma_beats_transitive(score_triple(s[i]), last, prev);
                }
            }
        }
        if beats(base, best) && best == last {
            lemma_beats_transitive(base, last, prev);
        }
        if best != base && best != last {
            let i = choose|i: int| 0 <= i < p.len() && prev == #[trigger] score_triple(p[i]);
            assert(score_triple(s[i]) == score_triple(p[i]));
        }
        if best == last {
            assert(score_triple(s[s.len() - 1]) == last);
        }
    }
}


/// All registered comparisons for one layer.
#[derive(Clone, Copy, Debug, Eq, PartialEq, Structural)]
pub struct LayerComparison {
    /// Accepted tolerance contract.
    pub gate: LayerGate,
    /// Left and right independent guard overlap.
    pub left_vs_right_overlap: DifferenceMetrics,
    /// Independent source agreement in the saved seam's narrow corridor.
    pub left_vs_right_seam_corridor: DifferenceMetrics,
    /// Left independent guard and corresponding monolithic oracle crop.
    pub left_vs_monolithic_overlap: DifferenceMetrics,
    /// Right independent guard and corresponding monolithic oracle crop.
    pub right_vs_monolithic_overlap: DifferenceMetrics,
    /// Assembled saved cores and the monolithic saved core.
    pub joined_vs_monolithic_core: DifferenceMetrics,
    /// Assembled saved seam corridor and the same monolithic crop.
    pub joined_boundary_vs_monolithic: DifferenceMetrics,
}

/// Source-only overlap gates.
#[derive(Clone, Copy, Debug, Eq, PartialEq, Structural)]
pub struct SourceOverlapGates {
    /// Color, coverage, depth, and normals agree in the independent seam corridor.
    pub independent_seam: bool,
    /// The joined source seam agrees with the monolithic oracle.
    pub monolithic_seam: bool,
}

/// Scoped gates that keep source registration separate from project lighting.
#[derive(Clone, Copy, Debug, Eq, PartialEq, Structural)]
pub struct OverlapGates {
    /// All source and lighting relations pass their documented thresholds.
    pub all_relations: bool,
    /// Whitebox and fixed shadow agree in the independent seam corridor and oracle.
    pub lighting_seam: bool,
    /// Source-only registration gates.
    pub source: SourceOverlapGates,
}

/// The comparison of the first layer with the given name.
pub open spec fn layer_named(layers: Seq<(String, LayerComparison)>, name: Seq<char>) -> Option<LayerComparison>
    decreases layers.len(),
{
    if layers.len() == 0 {
        None
    } else if layers[0].0@ == name {
        Some(layers[0].1)
    } else {
        layer_named(layers.drop_first(), name)
    }
}

/// The comparison of the first layer with the given name.
pub fn find_layer(layers: &Vec<(String, LayerComparison)>, name: &str) -> (r: Option<LayerComparison>)
    ensures
        r == layer_named(layers@, name@),
{
    let mut i: usize = 0;
    assert(layers@.skip(0) =~= layers@);
    while i < layers.len()
        invariant
            i <= layers@.len(),
            layer_named(layers@, name@) == layer_named(layers@.skip(i as int), name@),
        decreases layers@.len() - i,
    {
        proof {
            assert(layers@.skip(i as int).drop_first() =~= layers@.skip(i + 1));
        }
        if str_eq(layers[i].0.as_str(), name) {
            return Some(layers[i].1);
        }
        i += 1;
    }
    None
}

/// Whether the named layer exists and passes its seam corridor.
pub open spec fn seam_passed(layers: Seq<(String, LayerComparison)>, name: Seq<char>) -> bool {
    layer_named(layers, name) matches Some(l) && l.left_vs_right_seam_corridor.passed
}

/// Whether the named layer exists and its joined boundary agrees with the oracle.
pub open spec fn boundary_passed(layers: Seq<(String, LayerComparison)>, name: Seq<char>) -> bool {
    layer_named(layers, name) matches Some(l) && l.joined_boundary_vs_monolithic.passed
}

/// Whether every relation of a layer passed.
pub open spec fn all_passed(l: LayerComparison) -> bool {
    &&& l.left_vs_right_overlap.passed
    &&& l.left_vs_right_seam_corridor.passed
    &&& l.left_vs_monolithic_overlap.passed
    &&& l.right_vs_monolithic_overlap.passed
    &&& l.joined_vs_monolithic_core.passed
    &&& l.joined_boundary_vs_monolithic.passed
}

/// The scoped gates of a set of named layer comparisons.
pub open spec fn overlap_gates_spec(layers: Seq<(String, LayerComparison)>) -> OverlapGates {
    OverlapGates {
        all_relations: forall|i: int| 0 <= i < layers.len() ==> all_passed(#[trigger] layers[i].1),
        lighting_seam: seam_passed(layers, "whitebox"@) && boundary_passed(layers, "whitebox"@) && seam_passed(
            layers,
            "fixed-shadow"@,
        ) && boundary_passed(layers, "fixed-shadow"@),
        source: SourceOverlapGates {
            independent_seam: seam_passed(layers, "color"@) && seam_passed(layers, "coverage"@) && seam_passed(
                layers,
                "linear-depth"@,
            ) && seam_passed(layers, "view-normal"@),
            monolithic_seam: boundary_passed(layers, "color"@) && boundary_passed(layers, "coverage"@)
                && boundary_passed(layers, "linear-depth"@) && boundary_passed(layers, "view-normal"@),
        },
    }
}

fn seam_passed_exec(layers: &Vec<(String, LayerComparison)>, name: &str) -> (r: bool)
    ensures
        r == seam_passed(layers@, name@),
{
    match find_layer(layers, name) {
        Some(l) => l.left_vs_right_seam_corridor.passed,
        None => false,
    }
}

fn boundary_passed_exec(layers: &Vec<(String, LayerComparison)>, name: &str) -> (r: bool)
    ensures
        r == boundary_passed(layers@, name@),
{
    match find_layer(layers, name) {
        Some(l) => l.joined_boundary_vs_monolithic.passed,
        None => false,
    }
}

/// The scoped gates: source seams over color, coverage, depth and normals, the lighting seam
/// over whitebox and fixed shadow, and every relation of every layer.
pub fn overlap_gates(layers: &Vec<(String, LayerComparison)>) -> (r: OverlapGates)
    ensures
        r == overlap_gates_spec(layers@),
{
    let independent_seam = seam_passed_exec(layers, "color") && seam_passed_exec(layers, "coverage")
        && seam_passed_exec(layers, "linear-depth") && seam_passed_exec(layers, "view-normal");
    let monolithic_seam = boundary_passed_exec(layers, "color") && boundary_passed_exec(layers, "coverage")
        && boundary_passed_exec(layers, "linear-depth") && boundary_passed_exec(layers, "view-normal");
    let lighting_seam = seam_passed_exec(layers, "whitebox") && boundary_passed_exec(layers, "whitebox")
        && seam_passed_exec(layers, "fixed-shadow") && boundary_passed_exec(layers, "fixed-shadow");
    let mut all_relations = true;
    let mut i: usize = 0;
    while i < layers.len()
        invariant
            i <= layers@.len(),
            all_relations == forall|j: int| 0 <= j < i ==> all_passed(#[trigger] layers@[j].1),
        decreases layers@.len() - i,
    {
        let l = layers[i].1;
        let ok = l.left_vs_right_overlap.passed && l.left_vs_right_seam_corridor.passed
            && l.left_vs_monolithic_overlap.passed && l.right_vs_monolithic_overlap.passed
            && l.joined_vs_monolithic_core.passed && l.joined_boundary_vs_monolithic.passed;
        all_relations = all_relations && ok;
        i += 1;
    }
    OverlapGates {
        all_relations,
        lighting_seam,
        source: SourceOverlapGates { independent_seam, monolithic_seam },
    }
}

/// Whether the named layer exists and one of its non-corridor relations failed.
pub open spec fn relation_failed(layers: Seq<(String, LayerComparison)>, name: Seq<char>) -> bool {
    layer_named(layers, name) matches Some(l) && (!l.left_vs_right_overlap.passed || !l.left_vs_monolithic_overlap.passed
        || !l.right_vs_monolithic_overlap.passed || !l.joined_vs_monolithic_core.passed)
}

/// Whether the named layer exists and failed its seam corridor.
pub open spec fn seam_failed(layers: Seq<(String, LayerComparison)>, name: Seq<char>) -> bool {
    layer_named(layers, name) matches Some(l) && !l.left_vs_right_seam_corridor.passed
}

/// Whether a seam failure is explained by a translated capture: the search moved and at least
/// halved the above-tolerance share.
pub open spec fn translated_capture(registration: RegistrationSearch) -> bool {
    &&& registration.best_dx_px != 0 || registration.best_dy_px != 0
    &&& saturating_product(registration.best_above_tolerance_ppm as int, 2, u64::MAX as int)
        < registration.baseline_above_tolerance_ppm
}

/// Stable failure classes, in report order.
pub open spec fn classifications_spec(
    layers: Seq<(String, LayerComparison)>,
    registration: RegistrationSearch,
    gates: OverlapGates,
) -> Seq<Seq<char>> {
    let coverage = if seam_failed(layers, "coverage"@) {
        seq!["missing-source"@]
    } else if relation_failed(layers, "coverage"@) {
        seq!["monolithic-oracle-coverage"@]
    } else {
        Seq::empty()
    };
    let structure = if seam_failed(layers, "linear-depth"@) || seam_failed(layers, "view-normal"@) {
        if translated_capture(registration) { seq!["subpixel-camera"@] } else { seq!["level-of-detail"@] }
    } else if !gates.source.monolithic_seam {
        seq!["monolithic-oracle-level-of-detail"@]
    } else {
        Seq::empty()
    };
    let shadow = if relation_failed(layers, "fixed-shadow"@) || relation_failed(layers, "whitebox"@) {
        seq!["shadow-phase"@]
    } else {
        Seq::empty()
    };
    let color = if seam_failed(layers, "color"@) {
        seq!["live-session-texture"@]
    } else if relation_failed(layers, "color"@) {
        seq!["monolithic-oracle-texture"@]
    } else {
        Seq::empty()
    };
    coverage + structure + shadow + color
}

fn relation_failed_exec(layers: &Vec<(String, LayerComparison)>, name: &str) -> (r: bool)
    ensures
        r == relation_failed(layers@, name@),
{
    match find_layer(layers, name) {
        Some(l) => !l.left_vs_right_overlap.passed || !l.left_vs_monolithic_overlap.passed
            || !l.right_vs_monolithic_overlap.passed || !l.joined_vs_monolithic_core.passed,
        None => false,
    }
}

fn seam_failed_exec(layers: &Vec<(String, LayerComparison)>, name: &str) -> (r: bool)
    ensures
        r == seam_failed(layers@, name@),
{
    match find_layer(layers, name) {
        Some(l) => !l.left_vs_right_seam_corridor.passed,
        None => false,
    }
}

fn push_class(values: &mut Vec<String>, class: &str)
    ensures
        final(values)@.len() == old(values)@.len() + 1,
        forall|i: int| 0 <= i < old(values)@.len() ==> final(values)@[i] == old(values)@[i],
        final(values)@[old(values)@.len() as int]@ == class@,
{
    values.push(class.to_string());
}

/// The views of a list of strings.
pub open spec fn string_views(v: Seq<String>) -> Seq<Seq<char>> {
    v.map_values(|s: String| s@)
}

/// Stable failure classes inferred from measured layer behavior.
pub fn classifications(
    layers: &Vec<(String, LayerComparison)>,
    registration: &RegistrationSearch,
    gates: &OverlapGates,
) -> (r: Vec<String>)
    ensures
        string_views(r@) == classifications_spec(layers@, *registration, *gates),
{
    let mut values: Vec<String> = Vec::new();
    let ghost mut expected: Seq<Seq<char>> = Seq::empty();
    if seam_failed_exec(layers, "coverage") {
        push_class(&mut values, "missing-source");
        proof { expected = expected.push("missing-source"@); }
    } else if relation_failed_exec(layers, "coverage") {
        push_class(&mut values, "monolithic-oracle-coverage");
        proof { expected = expected.push("monolithic-oracle-coverage"@); }
    }
    assert(string_views(values@) =~= expected);
    if seam_failed_exec(layers, "linear-depth") || seam_failed_exec(layers, "view-normal") {
        let translated = registration.best_dx_px != 0 || registration.best_dy_px != 0;
        let doubled = if registration.best_above_tolerance_ppm > u64::MAX / 2 {
            u64::MAX
        } else {
            registration.best_above_tolerance_ppm * 2
        };
        if translated && doubled < registration.baseline_above_tolerance_ppm {
            push_class(&mut values, "subpixel-camera");
            proof { expected = expected.push("subpixel-camera"@); }
        } else {
            push_class(&mut values, "level-of-detail");
            proof { expected = expected.push("level-of-detail"@); }
        }
    } else if !gates.source.monolithic_seam {
        push_class(&mut values, "monolithic-oracle-level-of-detail");
        proof { expected = expected.push("monolithic-oracle-level-of-detail"@); }
    }
    assert(string_views(values@) =~= expected);
    if relation_failed_exec(layers, "fixed-shadow") || relation_failed_exec(layers, "whitebox") {
        push_class(&mut values, "shadow-phase");
        proof { expected = expected.push("shadow-phase"@); }
    }
    assert(string_views(values@) =~= expected);
    if seam_failed_exec(layers, "color") {
        push_class(&mut values, "live-session-texture");
        proof { expected = expected.push("live-session-texture"@); }
    } else if relation_failed_exec(layers, "color") {
        push_class(&mut values, "monolithic-oracle-texture");
        proof { expected = expected.push("monolithic-oracle-texture"@); }
    }
    assert(string_views(values@) =~= expected);
    assert(expected =~= classifications_spec(layers@, *registration, *gates));
    values
}


/// First and last monolithic core columns inspected for depth discontinuities: 32 pixels on
/// each side of the saved seam, within the core.
pub open spec fn boundary_columns_spec(r: OverlapComparisonRequest) -> (int, int) {
    let seam = r.independent_core_width_px as int;
    let start = if seam >= 32 { seam - 32 } else { 0 };
    let last = 2 * seam - 1;
    let end = if seam + 32 <= last { seam + 32 } else { last };
    (start, end)
}

/// The monolithic depth crop inspected for seam discontinuities in one core row.
pub fn boundary_row(request: &OverlapComparisonRequest, row: u32) -> (r: RowCrop)
    requires
        overlap_layout_ok(*request),
        row < request.core_height_px,
    ensures
        r == crop(
            CandidateRole::Monolithic,
            row + request.guard_px,
            request.guard_px + boundary_columns_spec(*request).0,
            boundary_columns_spec(*request).1 - boundary_columns_spec(*request).0 + 1,
        ),
        crop_inside(*request, r),
        r.width >= 1,
{
    let core_width = request.independent_core_width_px * 2;
    let seam = request.independent_core_width_px;
    let start = if seam >= 32 { seam - 32 } else { 0 };
    let last = core_width - 1;
    let end = if seam + 32 <= last { seam + 32 } else { last };
    RowCrop { candidate: CandidateRole::Monolithic, y: row + request.guard_px, x: request.guard_px + start, width: end - start + 1 }
}

/// Whether two neighboring depths form a structural edge: both present and at least 500 apart.
pub open spec fn depth_edge(a: int, b: int) -> bool {
    a != 0 && b != 0 && (if a >= b { a - b } else { b - a }) >= 500
}

/// Structural edges among the first `k` neighboring depth pairs of a row.
pub open spec fn depth_edges_upto(bytes: Seq<u8>, k: int) -> nat
    decreases k,
{
    if k <= 0 {
        0
    } else {
        depth_edges_upto(bytes, k - 1) + if depth_edge(depth_value(chunk(bytes, 4, k - 1)), depth_value(chunk(bytes, 4, k))) {
            1nat
        } else {
            0nat
        }
    }
}

/// Structural edges between neighboring depths of a row of little-endian depths.
pub open spec fn depth_edges(bytes: Seq<u8>) -> nat {
    let n = bytes.len() as int / 4;
    if n <= 1 { 0 } else { depth_edges_upto(bytes, n - 1) }
}

/// Structural edges between neighboring depths of a row of little-endian depths.
pub fn count_depth_edges(bytes: &[u8]) -> (r: u64)
    ensures
        r == depth_edges(bytes@),
{
    let n = bytes.len() / 4;
    if n <= 1 {
        return 0;
    }
    let len = bytes.len();
    let mut count: u64 = 0;
    let mut k: usize = 0;
    while k + 1 < n
        invariant
            len == bytes@.len(),
            n == bytes@.len() as int / 4,
            n >= 2,
            k + 1 <= n,
            count == depth_edges_upto(bytes@, k as int),
            count <= k,
        decreases n - k,
    {
        proof {
            lemma_chunk_index(k as int, n as int, 4, bytes@.len() as int);
            lemma_chunk_index(k + 1, n as int, 4, bytes@.len() as int);
            assert(4 * k + 8 <= len);
        }
        let left = (bytes[4 * k] as u32) + 256 * (bytes[4 * k + 1] as u32) + 65536 * (bytes[4 * k + 2] as u32)
            + 16777216 * (bytes[4 * k + 3] as u32);
        let right = (bytes[4 * k + 4] as u32) + 256 * (bytes[4 * k + 5] as u32) + 65536 * (bytes[4 * k + 6] as u32)
            + 16777216 * (bytes[4 * k + 7] as u32);
        assert(left == depth_value(chunk(bytes@, 4, k as int)));
        assert(right == depth_value(chunk(bytes@, 4, k + 1)));
        let diff = if left >= right { left - right } else { right - left };
        if left != 0 && right != 0 && diff >= 500 {
            count = count + 1;
        }
        k += 1;
    }
    count
}

/// Heatmap channel of a layer: structure, lighting, or color.
pub open spec fn heat_channel(kind: RawLayerKind) -> int {
    match kind {
        RawLayerKind::Color => 2,
        RawLayerKind::FixedShadow | RawLayerKind::Whitebox => 1,
        _ => 0,
    }
}

/// Heatmap intensity of a difference: depth scaled so that 250 saturates, others times 16.
pub open spec fn heat_intensity(kind: RawLayerKind, d: int) -> int {
    let v = if kind is LinearDepth {
        saturating_product(d, 255, u64::MAX as int) / 250
    } else {
        saturating_product(d, 16, u64::MAX as int)
    };
    if v > 255 { 255 } else { v }
}

/// Heatmap intensity of a difference: depth scaled so that 250 saturates, others times 16.
pub fn heatmap_intensity(kind: RawLayerKind, difference: u64) -> (r: u8)
    ensures
        r == heat_intensity(kind, difference as int),
{
    let v = if matches!(kind, RawLayerKind::LinearDepth) {
        (if difference > u64::MAX / 255 { u64::MAX } else { difference * 255 }) / 250
    } else {
        if difference > u64::MAX / 16 { u64::MAX } else { difference * 16 }
    };
    if v > 255 { 255 } else { v as u8 }
}

/// One layer's observed and expected row.
pub open spec fn heat_layer_ok(e: (RawLayerKind, Vec<u8>, Vec<u8>), width: int) -> bool {
    &&& width * bytes_per_pixel_spec(e.0) <= e.1@.len()
    &&& width * bytes_per_pixel_spec(e.0) <= e.2@.len()
}

/// The largest intensity of column `c` over the first `k` layers that feed `channel`.
pub open spec fn layer_heat(rows: Seq<(RawLayerKind, Vec<u8>, Vec<u8>)>, c: int, channel: int, k: int) -> int
    decreases k,
{
    if k <= 0 {
        0
    } else {
        let prev = layer_heat(rows, c, channel, k - 1);
        let e = rows[k - 1];
        let b = bytes_per_pixel_spec(e.0) as int;
        if heat_channel(e.0) == channel {
            let v = heat_intensity(e.0, pixel_difference_spec(e.0, chunk(e.1@, b, c), chunk(e.2@, b, c)));
            if v > prev { v } else { prev }
        } else {
            prev
        }
    }
}

/// The RGBA heatmap pixel of column `c`: structure, lighting and color intensities, opaque.
pub open spec fn heat_pixel(rows: Seq<(RawLayerKind, Vec<u8>, Vec<u8>)>, c: int) -> Seq<u8> {
    seq![
        layer_heat(rows, c, 0, rows.len() as int) as u8,
        layer_heat(rows, c, 1, rows.len() as int) as u8,
        layer_heat(rows, c, 2, rows.len() as int) as u8,
        255u8,
    ]
}

/// The first `w` heatmap pixels of a row.
pub open spec fn heat_row(rows: Seq<(RawLayerKind, Vec<u8>, Vec<u8>)>, w: int) -> Seq<u8>
    decreases w,
{
    if w <= 0 { Seq::empty() } else { heat_row(rows, w - 1) + heat_pixel(rows, w - 1) }
}

fn column_heat(rows: &Vec<(RawLayerKind, Vec<u8>, Vec<u8>)>, width: u32, c: u32, channel: u8) -> (r: u8)
    requires
        c < width,
        forall|i: int| 0 <= i < rows@.len() ==> heat_layer_ok(#[trigger] rows@[i], width as int),
    ensures
        r == layer_heat(rows@, c as int, channel as int, rows@.len() as int),
{
    let mut best: u8 = 0;
    let mut k: usize = 0;
    while k < rows.len()
        invariant
            k <= rows@.len(),
            c < width,
            forall|i: int| 0 <= i < rows@.len() ==> heat_layer_ok(#[trigger] rows@[i], width as int),
            best == layer_heat(rows@, c as int, channel as int, k as int),
        decreases rows@.len() - k,
    {
        let kind = rows[k].0;
        let fed = match kind {
            RawLayerKind::Color => 2u8,
            RawLayerKind::FixedShadow | RawLayerKind::Whitebox => 1u8,
            _ => 0u8,
        };
        if fed == channel {
            proof {
                let b = bytes_per_pixel_spec(kind) as int;
                assert(heat_layer_ok(rows@[k as int], width as int));
                assert((c + 1) * b <= width * b) by (nonlinear_arith)
                    requires
                        c < width,
                        b >= 1,
                ;
            }
            let d = difference_at(kind, rows[k].1.as_slice(), rows[k].2.as_slice(), c as usize);
            let v = heatmap_intensity(kind, d);
            if v > best {
                best = v;
            }
        }
        k += 1;
    }
    best
}

/// One RGBA heatmap row of `width` pixels from each layer's observed and expected row:
/// red carries depth, normal and coverage differences, green whitebox and fixed-shadow
/// differences, blue color differences, each the largest intensity of its layers.
pub fn heatmap_row(rows: &Vec<(RawLayerKind, Vec<u8>, Vec<u8>)>, width: u32) -> (r: Vec<u8>)
    requires
        forall|i: int| 0 <= i < rows@.len() ==> heat_layer_ok(#[trigger] rows@[i], width as int),
    ensures
        r@ == heat_row(rows@, width as int),
{
    let mut out: Vec<u8> = Vec::new();
    let mut c: u32 = 0;
    while c < width
        invariant
            c <= width,
            forall|i: int| 0 <= i < rows@.len() ==> heat_layer_ok(#[trigger] rows@[i], width as int),
            out@ == heat_row(rows@, c as int),
        decreases width - c,
    {
        let structural = column_heat(rows, width, c, 0);
        let shadow = column_heat(rows, width, c, 1);
        let color = column_heat(rows, width, c, 2);
        proof {
            assert(layer_heat(rows@, c as int, 0, rows@.len() as int) == structural);
        }
        out.push(structural);
        out.push(shadow);
        out.push(color);
        out.push(255);
        proof {
            assert(out@ =~= heat_row(rows@, c as int) + heat_pixel(rows@, c as int));
        }
        c += 1;
    }
    out
}


/// One hash-identified derived image served by the review dashboard.
#[derive(Clone, Debug, Eq, PartialEq)]
pub struct EvidenceImage {
    /// Exact private output byte length.
    pub byte_length: u64,
    /// Pixel height.
    pub height_px: u32,
    /// Output file name relative to the comparison directory.
    pub path: String,
    /// Exact lowercase SHA-256.
    pub sha256: String,
    /// Pixel width.
    pub width_px: u32,
}

/// Complete bounded overlap evidence.
#[derive(Clone, Debug)]
pub struct OverlapComparisonReport {
    /// Depth discontinuities within 32 pixels of the saved boundary.
    pub boundary_structural_edge_pixels: u64,
    /// Stable failure classes inferred from measured layer behavior.
    pub failure_classifications: Vec<String>,
    /// Hash-identified dashboard evidence, by name.
    pub images: Vec<(String, EvidenceImage)>,
    /// Scoped qualification results.
    pub gates: OverlapGates,
    /// Per-layer registered comparisons, by layer name.
    pub layers: Vec<(String, LayerComparison)>,
    /// True only when every documented layer gate passes.
    pub passed: bool,
    /// Bounded diagnostic that tells a shifted camera apart from level-of-detail drift.
    pub registration_search: RegistrationSearch,
    /// Report schema.
    pub schema: String,
}

/// Assembles the report from the measured layers, registration, evidence and boundary edges:
/// the gates and classes are derived from the layers, and the report passes exactly when every
/// relation of every layer passes.
pub fn overlap_report(
    layers: Vec<(String, LayerComparison)>,
    registration_search: RegistrationSearch,
    images: Vec<(String, EvidenceImage)>,
    boundary_structural_edge_pixels: u64,
) -> (r: OverlapComparisonReport)
    ensures
        r.layers@ == layers@,
        r.images@ == images@,
        r.registration_search == registration_search,
        r.boundary_structural_edge_pixels == boundary_structural_edge_pixels,
        r.gates == overlap_gates_spec(layers@),
        string_views(r.failure_classifications@) == classifications_spec(
            layers@,
            registration_search,
            overlap_gates_spec(layers@),
        ),
        r.passed == (forall|i: int| 0 <= i < layers@.len() ==> all_passed(#[trigger] layers@[i].1)),
        r.schema@ == OVERLAP_REPORT_SCHEMA@,
{
    let gates = overlap_gates(&layers);
    let failure_classifications = classifications(&layers, &registration_search, &gates);
    OverlapComparisonReport {
        boundary_structural_edge_pixels,
        failure_classifications,
        images,
        gates,
        layers,
        passed: gates.all_relations,
        registration_search,
        schema: OVERLAP_REPORT_SCHEMA.to_string(),
    }
}

/// One derived image of the evidence: its report name, file name and pixel size.
#[derive(Clone, Debug, Eq, PartialEq)]
pub struct EvidencePlan {
    /// Report name.
    pub name: String,
    /// File name in the comparison directory.
    pub filename: String,
    /// Pixel width.
    pub width_px: u32,
    /// Pixel height.
    pub height_px: u32,
}

/// Name, file, width and height of each derived image.
pub open spec fn evidence_plan_spec(
    r: OverlapComparisonRequest,
    overlap_heatmap: (u32, u32),
    core_heatmap: (u32, u32),
) -> Seq<(Seq<char>, Seq<char>, int, int)> {
    let core = 2 * r.independent_core_width_px;
    let overlap = 2 * r.guard_px;
    seq![
        ("joined-core"@, "joined-core.png"@, core, r.core_height_px as int),
        ("monolithic-core"@, "monolithic-core.png"@, core, r.core_height_px as int),
        ("overlap-left"@, "overlap-left.png"@, overlap, r.left.height_px as int),
        ("overlap-right"@, "overlap-right.png"@, overlap, r.right.height_px as int),
        ("overlap-monolithic"@, "overlap-monolithic.png"@, overlap, r.monolithic.height_px as int),
        ("overlap-heatmap"@, "overlap-heatmap.png"@, overlap_heatmap.0 as int, overlap_heatmap.1 as int),
        ("core-oracle-heatmap"@, "core-oracle-heatmap.png"@, core_heatmap.0 as int, core_heatmap.1 as int),
    ]
}

/// The view of a plan entry.
pub open spec fn plan_view(e: EvidencePlan) -> (Seq<char>, Seq<char>, int, int) {
    (e.name@, e.filename@, e.width_px as int, e.height_px as int)
}

fn plan_entry(name: &str, filename: &str, width_px: u32, height_px: u32) -> (r: EvidencePlan)
    ensures
        plan_view(r) == (name@, filename@, width_px as int, height_px as int),
{
    EvidencePlan { name: name.to_string(), filename: filename.to_string(), width_px, height_px }
}

/// The seven derived images of a comparison, in the order they are written.
pub fn evidence_plan(request: &OverlapComparisonRequest, overlap_heatmap: (u32, u32), core_heatmap: (u32, u32)) -> (r: Vec<
    EvidencePlan,
>)
    requires
        overlap_layout_ok(*request),
    ensures
        r@.map_values(|e: EvidencePlan| plan_view(e)) == evidence_plan_spec(*request, overlap_heatmap, core_heatmap),
{
    let core = request.independent_core_width_px * 2;
    let overlap = request.guard_px * 2;
    let mut r: Vec<EvidencePlan> = Vec::new();
    r.push(plan_entry("joined-core", "joined-core.png", core, request.core_height_px));
    r.push(plan_entry("monolithic-core", "monolithic-core.png", core, request.core_height_px));
    r.push(plan_entry("overlap-left", "overlap-left.png", overlap, request.left.height_px));
    r.push(plan_entry("overlap-right", "overlap-right.png", overlap, request.right.height_px));
    r.push(plan_entry("overlap-monolithic", "overlap-monolithic.png", overlap, request.monolithic.height_px));
    r.push(plan_entry("overlap-heatmap", "overlap-heatmap.png", overlap_heatmap.0, overlap_heatmap.1));
    r.push(plan_entry("core-oracle-heatmap", "core-oracle-heatmap.png", core_heatmap.0, core_heatmap.1));
    assert(r@.map_values(|e: EvidencePlan| plan_view(e)) =~= evidence_plan_spec(*request, overlap_heatmap, core_heatmap));
    r
}


/// Exact byte length of a raw layer of a candidate, or `None` when it does not fit 64 bits.
pub open spec fn raw_layer_bytes(kind: RawLayerKind, width: int, height: int) -> int {
    (if kind is LinearDepth { DEPTH_HEADER_BYTES as int } else { 0 }) + width * height * bytes_per_pixel_spec(kind)
}

/// Checks a raw layer file against its candidate's registered grid: it must be a regular file
/// of exactly the grid's byte length, and no larger than the raw layer bound.
pub fn check_raw_layer(kind: RawLayerKind, width: u32, height: u32, is_file: bool, file_length: u64) -> (r: Result<
    (),
    ReferenceError,
>)
    ensures
        r is Ok <==> is_file && file_length == raw_layer_bytes(kind, width as int, height as int) && raw_layer_bytes(
            kind,
            width as int,
            height as int,
        ) <= MAX_RAW_BYTES,
        r matches Err(ReferenceError::Invalid(m)) ==> m@ == "raw overlap layer "@ + layer_filename(kind)
            + " contradicts its dimensions"@,
{
    proof {
        assert(width * height <= u32::MAX * u32::MAX) by (nonlinear_arith)
            requires
                width <= u32::MAX,
                height <= u32::MAX,
        ;
        assert(width * height * bytes_per_pixel_spec(kind) <= u32::MAX * u32::MAX * 4) by (nonlinear_arith)
            requires
                0 <= width * height <= u32::MAX * u32::MAX,
                bytes_per_pixel_spec(kind) <= 4,
        ;
    }
    let expected = kind.header_bytes() as u128 + width as u128 * height as u128 * kind.bytes_per_pixel() as u128;
    if !is_file || file_length as u128 != expected || expected > MAX_RAW_BYTES as u128 {
        let mut m = String::from_str("raw overlap layer ");
        m.push_str(kind.filename());
        m.push_str(" contradicts its dimensions");
        return Err(ReferenceError::Invalid(m));
    }
    Ok(())
}

/// Leading bytes of a raw depth layer.
pub const DEPTH_MAGIC: [u8; 8] = [0x49, 0x53, 0x4f, 0x44, 0x33, 0x32, 0x56, 0x31];

/// Whether a raw depth header names the magic and the candidate's grid.
pub open spec fn depth_header_ok(header: Seq<u8>, width: int, height: int) -> bool {
    &&& header.len() == 16
    &&& header.subrange(0, 8) == DEPTH_MAGIC@
    &&& depth_value(header.subrange(8, 12)) == width
    &&& depth_value(header.subrange(12, 16)) == height
}

/// Checks the sixteen-byte header of a raw depth layer against the candidate's grid.
pub fn check_depth_header(header: &[u8], width: u32, height: u32) -> (r: Result<(), ReferenceError>)
    requires
        header@.len() == 16,
    ensures
        r is Ok <==> depth_header_ok(header@, width as int, height as int),
        r matches Err(ReferenceError::Invalid(m)) ==> m@ == "raw depth header contradicts the overlap grid"@,
{
    let magic = DEPTH_MAGIC;
    let mut same = true;
    let mut i: usize = 0;
    while i < 8
        invariant
            i <= 8,
            header@.len() == 16,
            magic@ == DEPTH_MAGIC@,
            magic@.len() == 8,
            same == (forall|j: int| 0 <= j < i ==> header@[j] == magic@[j]),
        decreases 8 - i,
    {
        same = same && header[i] == magic[i];
        i += 1;
    }
    proof {
        if same {
            assert(header@.subrange(0, 8) =~= magic@);
        } else {
            let j = choose|j: int| 0 <= j < 8 && header@[j] != magic@[j];
            assert(header@.subrange(0, 8)[j] != DEPTH_MAGIC@[j]);
        }
    }
    let w = (header[8] as u32) + 256 * (header[9] as u32) + 65536 * (header[10] as u32) + 16777216 * (header[11] as u32);
    let h = (header[12] as u32) + 256 * (header[13] as u32) + 65536 * (header[14] as u32) + 16777216 * (header[15] as u32);
    assert(w == depth_value(header@.subrange(8, 12)));
    assert(h == depth_value(header@.subrange(12, 16)));
    if !same || w != width || h != height {
        return Err(ReferenceError::Invalid("raw depth header contradicts the overlap grid".to_string()));
    }
    Ok(())
}

/// What each overlap gate means: the independent-seam gate holds exactly when each of the four
/// source layers (color, coverage, linear depth and view normal) is present and passed its seam
/// corridor between the two independent captures; the monolithic-seam gate when each of them is
/// present and its joined boundary matched the monolithic capture; the lighting gate when the
/// whitebox and fixed-shadow layers are present and passed both; and the all-relations gate when
/// every relation of every layer passed.
pub proof fn lemma_overlap_gate_meanings(layers: Seq<(String, LayerComparison)>)
    ensures
        overlap_gates_spec(layers).source.independent_seam <==> ((layer_named(layers, "color"@) matches Some(l) && l.left_vs_right_seam_corridor.passed) && (layer_named(layers, "coverage"@) matches Some(l) && l.left_vs_right_seam_corridor.passed)
            && (layer_named(layers, "linear-depth"@) matches Some(l) && l.left_vs_right_seam_corridor.passed) && (layer_named(layers, "view-normal"@) matches Some(l) && l.left_vs_right_seam_corridor.passed)),
        overlap_gates_spec(layers).source.monolithic_seam <==> ((layer_named(layers, "color"@) matches Some(l) && l.joined_boundary_vs_monolithic.passed) && (layer_named(layers, "coverage"@) matches Some(l) && l.joined_boundary_vs_monolithic.passed)
            && (layer_named(layers, "linear-depth"@) matches Some(l) && l.joined_boundary_vs_monolithic.passed) && (layer_named(layers, "view-normal"@) matches Some(l) && l.joined_boundary_vs_monolithic.passed)),
        overlap_gates_spec(layers).lighting_seam <==> ((layer_named(layers, "whitebox"@) matches Some(l) && l.left_vs_right_seam_corridor.passed) && (layer_named(layers, "whitebox"@) matches Some(l) && l.joined_boundary_vs_monolithic.passed)
            && (layer_named(layers, "fixed-shadow"@) matches Some(l) && l.left_vs_right_seam_corridor.passed) && (layer_named(layers, "fixed-shadow"@) matches Some(l) && l.joined_boundary_vs_monolithic.passed)),
        overlap_gates_spec(layers).all_relations <==> forall|i: int|
            0 <= i < layers.len() ==> {
                let l = #[trigger] layers[i].1;
                &&& l.left_vs_right_overlap.passed
                &&& l.left_vs_right_seam_corridor.passed
                &&& l.left_vs_monolithic_overlap.passed
                &&& l.right_vs_monolithic_overlap.passed
                &&& l.joined_vs_monolithic_core.passed
                &&& l.joined_boundary_vs_monolithic.passed
            },
{
}

/// A named comparison is the first one carrying that name, and there is none exactly when no
/// comparison carries it.
pub proof fn lemma_layer_named_is_first(layers: Seq<(String, LayerComparison)>, name: Seq<char>)
    ensures
        layer_named(layers, name) is None <==> forall|i: int| 0 <= i < layers.len() ==> (#[trigger] layers[i]).0@ != name,
        layer_named(layers, name) matches Some(l) ==> exists|i: int|
            0 <= i < layers.len() && (#[trigger] layers[i]).0@ == name && layers[i].1 == l && forall|j: int|
                0 <= j < i ==> (#[trigger] layers[j]).0@ != name,
    decreases layers.len(),
{
    if layers.len() > 0 {
        let rest = layers.drop_first();
        lemma_layer_named_is_first(rest, name);
        assert forall|i: int| 0 < i < layers.len() implies layers[i] == rest[i - 1] by {}
        if layers[0].0@ != name {
            if let Some(l) = layer_named(rest, name) {
                let i = choose|i: int|
                    0 <= i < rest.len() && (#[trigger] rest[i]).0@ == name && rest[i].1 == l && forall|j: int|
                        0 <= j < i ==> (#[trigger] rest[j]).0@ != name;
                assert(layers[i + 1] == rest[i]);
                assert forall|j: int| 0 <= j < i + 1 implies (#[trigger] layers[j]).0@ != name by {
                    if j > 0 {
                        assert(layers[j] == rest[j - 1]);
                    }
                }
            } else {
                assert forall|i: int| 0 <= i < layers.len() implies (#[trigger] layers[i]).0@ != name by {
                    if i > 0 {
                        assert(layers[i] == rest[i - 1]);
                    }
                }
            }
        } else {
            assert(layers[0].0@ == name);
        }
    }
}

/// The tolerance of each layer kind: coverage must match exactly; depth may differ by 250 mm on
/// at most 100 ppm of pixels; normals by 2 on 100 ppm; whitebox by 3 on 250 ppm; fixed shadow
/// by 16 on 1000 ppm; color by 24 on 5000 ppm.
pub proof fn lemma_layer_gate_tolerances(kind: RawLayerKind)
    ensures
        kind is Coverage ==> gate_spec(kind).maximum_absolute_difference == 0 && gate_spec(kind).maximum_above_tolerance_ppm == 0,
        kind is LinearDepth ==> gate_spec(kind).maximum_absolute_difference == 250 && gate_spec(kind).maximum_above_tolerance_ppm
            == 100,
        kind is ViewNormal ==> gate_spec(kind).maximum_absolute_difference == 2 && gate_spec(kind).maximum_above_tolerance_ppm
            == 100,
        kind is Whitebox ==> gate_spec(kind).maximum_absolute_difference == 3 && gate_spec(kind).maximum_above_tolerance_ppm
            == 250,
        kind is FixedShadow ==> gate_spec(kind).maximum_absolute_difference == 16 && gate_spec(kind).maximum_above_tolerance_ppm
            == 1_000,
        kind is Color ==> gate_spec(kind).maximum_absolute_difference == 24 && gate_spec(kind).maximum_above_tolerance_ppm
            == 5_000,
{
}

/// The failure classes of an overlap comparison, in report order: a coverage seam failure is a
/// missing source, and another coverage failure an oracle coverage defect; a depth or normal seam
/// failure is a sub-pixel camera offset when the registration search moved and at least halved
/// the above-tolerance share, and a level-of-detail difference otherwise, while a failed
/// monolithic seam alone is an oracle level-of-detail defect; any shadow or whitebox relation
/// failure is a shadow phase; a color seam failure is live session texture, and another color
/// failure an oracle texture defect.
pub proof fn lemma_failure_classes(
    layers: Seq<(String, LayerComparison)>,
    registration: RegistrationSearch,
    gates: OverlapGates,
)
    ensures
        classifications_spec(layers, registration, gates) == (if (layer_named(layers, "coverage"@) matches Some(l) && !l.left_vs_right_seam_corridor.passed) {
            seq!["missing-source"@]
        } else if (layer_named(layers, "coverage"@) matches Some(l) && (!l.left_vs_right_overlap.passed || !l.left_vs_monolithic_overlap.passed || !l.right_vs_monolithic_overlap.passed || !l.joined_vs_monolithic_core.passed)) {
            seq!["monolithic-oracle-coverage"@]
        } else {
            Seq::<Seq<char>>::empty()
        }) + (if (layer_named(layers, "linear-depth"@) matches Some(l) && !l.left_vs_right_seam_corridor.passed) || (layer_named(layers, "view-normal"@) matches Some(l) && !l.left_vs_right_seam_corridor.passed) {
            if (registration.best_dx_px != 0 || registration.best_dy_px != 0) && 2 * registration.best_above_tolerance_ppm
                < registration.baseline_above_tolerance_ppm {
                seq!["subpixel-camera"@]
            } else {
                seq!["level-of-detail"@]
            }
        } else if !gates.source.monolithic_seam {
            seq!["monolithic-oracle-level-of-detail"@]
        } else {
            Seq::<Seq<char>>::empty()
        }) + (if (layer_named(layers, "fixed-shadow"@) matches Some(l) && (!l.left_vs_right_overlap.passed || !l.left_vs_monolithic_overlap.passed || !l.right_vs_monolithic_overlap.passed || !l.joined_vs_monolithic_core.passed)) || (layer_named(layers, "whitebox"@) matches Some(l) && (!l.left_vs_right_overlap.passed || !l.left_vs_monolithic_overlap.passed || !l.right_vs_monolithic_overlap.passed || !l.joined_vs_monolithic_core.passed)) {
            seq!["shadow-phase"@]
        } else {
            Seq::<Seq<char>>::empty()
        }) + (if (layer_named(layers, "color"@) matches Some(l) && !l.left_vs_right_seam_corridor.passed) {
            seq!["live-session-texture"@]
        } else if (layer_named(layers, "color"@) matches Some(l) && (!l.left_vs_right_overlap.passed || !l.left_vs_monolithic_overlap.passed || !l.right_vs_monolithic_overlap.passed || !l.joined_vs_monolithic_core.passed)) {
            seq!["monolithic-oracle-texture"@]
        } else {
            Seq::<Seq<char>>::empty()
        }),
{
}

} // verus!
