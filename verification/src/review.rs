//! The reference repair study's review: objective candidate measurements, the
//! qualification gates, and the checks of a review report.
use vstd::prelude::*;
use crate::geometry::{grid_index, lemma_grid_bound, lemma_index, lemma_position};
use crate::digest::{is_sha256, sha256_hex, sha256_spec, is_sha256_bytes};
use crate::reference::{encode_raw_png, filtered_rows, png_file, LayerKind, LayerRecord, PngColorType, ReferenceManifest};
use crate::overlap::{check_depth_header, depth_header_ok, depth_value};
use crate::text::{hex_spec, str_eq};
use vstd::utf8::encode_utf8;
use vstd::string::StringSliceAdditionalSpecFns;
use png::{BitDepth, ColorType, Decoder};
use crate::stylize_image::{
    image_ok, interior, luma, luma_edges, luminance, mask_at, mask_interior, output_edges, Rgb, RgbImage, StylizeError,
    apply_structural_outlines, canopy_mask, edge_aware_smooth, mask_image, mean4, quantize, reduce_depth_2x,
    reduce_rgb_2x, reduced_pixel, relight, replace_canopy, structural_edges, smooth_iter, is_nearest, nearest_color,
    box_blur_spec, canopy_raw, dilate3, erode3, luma_of, reduced_depth, relit_px, replaced_px, small_components_removed,
    structural_mask,
};

verus! {

/// Portable review-report schema.
pub const REVIEW_SCHEMA: &'static str = "isometric-reference-repair-review/v1";
/// Canonical report file name.
pub const REVIEW_FILENAME: &'static str = "repair-review.json";
/// Versioned deterministic algorithm identity.
pub const ALGORITHM_ID: &'static str = "reference-repair-rust/v1";
/// Largest accepted review report.
pub const MAX_REPORT_BYTES: usize = 1_048_576;

/// One immutable output image record.
#[derive(Clone, Debug, Eq, PartialEq)]
pub struct ReviewImageRecord {
    /// Stable image identity.
    pub id: String,
    /// Human-facing description.
    pub label: String,
    /// Allowlisted report-relative PNG path.
    pub path: String,
    /// Output width.
    pub width_px: u32,
    /// Output height.
    pub height_px: u32,
    /// Exact encoded byte length.
    pub byte_length: u64,
    /// SHA-256 over exact encoded bytes.
    pub sha256: String,
}

/// Objective measurements for one study candidate.
#[derive(Clone, Debug, Eq, PartialEq)]
pub struct CandidateMetrics {
    /// Stable candidate identity.
    pub candidate_id: String,
    /// Number of distinct output RGB colors.
    pub colors_used: u16,
    /// Structural guidance pixels that retain a visible output edge.
    pub structural_edge_recall_basis_points: u16,
    /// Output edge pixels not adjacent to a structural guidance edge.
    pub non_structural_edge_ppm: u32,
    /// Mean output luminance in integer micro-units.
    pub mean_luminance_microunits: u32,
    /// Pixel positions changed from the logical source.
    pub changed_from_source_ppm: u32,
    /// Edge density strictly inside accepted canopy regions.
    pub canopy_interior_edge_ppm: u32,
}

/// Machine-checkable interpretation of the bounded experiment.
#[derive(Clone, Copy, Debug, Eq, PartialEq)]
pub struct ReviewGates {
    /// All canonical transformations are integer and deterministic after capture.
    pub deterministic_post_capture: bool,
    /// Every candidate stays within the 128-color contract.
    pub palette_bound: bool,
    /// Geometry guidance preserves at least the experimental edge floor.
    pub structural_edge_recall: bool,
    /// Canopy replacement reduces internal source fragmentation.
    pub canopy_fragmentation_improved: bool,
    /// Passenger cars are excluded from the transient repair policy.
    pub passenger_cars_preserved_by_policy: bool,
    /// Whether the experiment is sufficient to expand capture or publication.
    pub qualified_for_expansion: bool,
}

/// Complete deterministic review artifact.
#[derive(Clone, Debug, Eq, PartialEq)]
pub struct RepairReviewReport {
    /// Report schema.
    pub schema: String,
    /// Deterministic implementation identity.
    pub algorithm: String,
    /// Validated source bundle identity.
    pub source_bundle_id: String,
    /// Canonical source manifest digest.
    pub source_manifest_sha256: String,
    /// Source millimeters per pixel.
    pub source_millimeters_per_pixel: u32,
    /// Output millimeters per logical pixel.
    pub logical_millimeters_per_pixel: u32,
    /// Fixed camera azimuth.
    pub camera_azimuth_millidegrees: u32,
    /// Fixed camera elevation.
    pub camera_elevation_millidegrees: u32,
    /// Deterministic output images.
    pub images: Vec<ReviewImageRecord>,
    /// Objective measurements by candidate.
    pub candidates: Vec<CandidateMetrics>,
    /// High-confidence logical canopy pixels replaced by Candidate C.
    pub canopy_pixels: u64,
    /// Structural guidance pixels used for comparison.
    pub structural_edge_pixels: u64,
    /// Conservative peak bytes of simultaneously live canonical buffers.
    pub estimated_peak_working_bytes: u64,
    /// Explicit review blockers that software must not conceal.
    pub blocking_findings: Vec<String>,
    /// Qualification results.
    pub gates: ReviewGates,
}

/// Successful experiment evidence.
#[derive(Clone, Debug, Eq, PartialEq)]
pub struct RepairRunReport {
    /// Canonical review report digest.
    pub report_sha256: String,
    /// Number of deterministic output images.
    pub image_count: usize,
    /// Conservative working-memory estimate.
    pub estimated_peak_working_bytes: u64,
    /// Whether the result is qualified to expand.
    pub qualified_for_expansion: bool,
}

/// Number of positions below `n` where `f` holds.
pub open spec fn count_true(n: nat, f: spec_fn(int) -> bool) -> nat
    decreases n,
{
    if n == 0 {
        0
    } else {
        count_true((n - 1) as nat, f) + if f(n - 1) { 1nat } else { 0nat }
    }
}

proof fn lemma_count_bound(n: nat, f: spec_fn(int) -> bool)
    ensures
        count_true(n, f) <= n,
    decreases n,
{
    if n > 0 {
        lemma_count_bound((n - 1) as nat, f);
    }
}

proof fn lemma_count_subset(n: nat, f: spec_fn(int) -> bool, g: spec_fn(int) -> bool)
    requires
        forall|i: int| 0 <= i < n && #[trigger] f(i) ==> g(i),
    ensures
        count_true(n, f) <= count_true(n, g),
    decreases n,
{
    if n > 0 {
        lemma_count_subset((n - 1) as nat, f, g);
    }
}

/// `numerator * scale / denominator`, clamped to `u32`, and zero for an empty denominator.
pub open spec fn ratio_spec(numerator: nat, denominator: nat, scale: nat) -> u32 {
    if denominator == 0 {
        0
    } else {
        let q = numerator * scale / denominator;
        if q > u32::MAX { u32::MAX } else { q as u32 }
    }
}

/// `numerator * scale / denominator`, clamped to `u32`, and zero for an empty denominator.
pub fn ratio(numerator: usize, denominator: usize, scale: u64) -> (r: u32)
    requires
        numerator * scale <= u64::MAX,
    ensures
        r == ratio_spec(numerator as nat, denominator as nat, scale as nat),
{
    if denominator == 0 {
        return 0;
    }
    let q = (numerator as u64 * scale) / denominator as u64;
    if q > u32::MAX as u64 { u32::MAX } else { q as u32 }
}

/// Whether any pixel of the 3x3 window around pixel `i` is set.
pub open spec fn near(m: Seq<bool>, w: int, h: int, i: int) -> bool {
    let x = i % w;
    let y = i / w;
    mask_at(m, w, h, x - 1, y - 1) || mask_at(m, w, h, x, y - 1) || mask_at(m, w, h, x + 1, y - 1)
        || mask_at(m, w, h, x - 1, y) || mask_at(m, w, h, x, y) || mask_at(m, w, h, x + 1, y)
        || mask_at(m, w, h, x - 1, y + 1) || mask_at(m, w, h, x, y + 1) || mask_at(m, w, h, x + 1, y + 1)
}

/// Whether `(x, y)` lies on the grid and is a structural pixel outside canopy interiors.
pub open spec fn accepted_at(s: Seq<bool>, c: Seq<bool>, w: int, h: int, x: int, y: int) -> bool {
    0 <= x < w && 0 <= y < h && s[y * w + x] && !interior(c, y * w + x, w, h)
}

/// Whether any pixel of the 3x3 window around pixel `i` is an accepted structural pixel.
pub open spec fn accepted_near(s: Seq<bool>, c: Seq<bool>, w: int, h: int, i: int) -> bool {
    let x = i % w;
    let y = i / w;
    accepted_at(s, c, w, h, x - 1, y - 1) || accepted_at(s, c, w, h, x, y - 1) || accepted_at(s, c, w, h, x + 1, y - 1)
        || accepted_at(s, c, w, h, x - 1, y) || accepted_at(s, c, w, h, x, y) || accepted_at(s, c, w, h, x + 1, y)
        || accepted_at(s, c, w, h, x - 1, y + 1) || accepted_at(s, c, w, h, x, y + 1) || accepted_at(s, c, w, h, x + 1, y
        + 1)
}

fn window_set(m: &Vec<bool>, index: usize, width: usize, height: usize) -> (r: bool)
    requires
        1 <= width <= 4096,
        1 <= height <= 4096,
        m@.len() == width * height,
        index < m@.len(),
    ensures
        r == near(m@, width as int, height as int, index as int),
{
    let x = index % width;
    let y = index / width;
    proof {
        lemma_position(width as int, height as int, index as int);
        lemma_grid_bound(width as int, height as int);
    }
    let mut dy: usize = 0;
    let mut found = false;
    while dy < 3
        invariant
            dy <= 3,
            1 <= width <= 4096,
            1 <= height <= 4096,
            m@.len() == width * height,
            x == (index as int) % (width as int),
            y == (index as int) / (width as int),
            0 <= x < width,
            0 <= y < height,
            found <==> exists|a: int, b: int| 0 <= a < dy && 0 <= b < 3 && #[trigger] mask_at(m@, width as int, height as int, x + b - 1, y + a - 1),
        decreases 3 - dy,
    {
        let mut dx: usize = 0;
        while dx < 3
            invariant
                dy < 3,
                dx <= 3,
                1 <= width <= 4096,
                1 <= height <= 4096,
                m@.len() == width * height,
                0 <= x < width,
                0 <= y < height,
                found <==> (exists|a: int, b: int| 0 <= a < dy && 0 <= b < 3 && #[trigger] mask_at(m@, width as int, height as int, x + b - 1, y + a - 1))
                    || (exists|b: int| 0 <= b < dx && #[trigger] mask_at(m@, width as int, height as int, x + b - 1, y + dy - 1)),
            decreases 3 - dx,
        {
            if x + dx >= 1 && y + dy >= 1 && x + dx - 1 < width && y + dy - 1 < height {
                let nx = x + dx - 1;
                let ny = y + dy - 1;
                proof {
                    lemma_index(width as int, height as int, nx as int, ny as int);
                    lemma_grid_bound(width as int, height as int);
                    assert(ny * width + nx < width * height);
                }
                if m[ny * width + nx] {
                    found = true;
                }
            }
            proof {
                if mask_at(m@, width as int, height as int, x + dx - 1, y + dy - 1) {
                    assert(found);
                }
            }
            dx += 1;
        }
        proof {
            if found {
                if exists|b: int| 0 <= b < 3 && #[trigger] mask_at(m@, width as int, height as int, x + b - 1, y + dy - 1) {
                    let b = choose|b: int| 0 <= b < 3 && #[trigger] mask_at(m@, width as int, height as int, x + b - 1, y + dy - 1);
                    assert(mask_at(m@, width as int, height as int, x + b - 1, y + (dy as int) - 1));
                }
            }
        }
        dy += 1;
    }
    proof {
        let w = width as int;
        let h = height as int;
        let xi = x as int;
        let yi = y as int;
        if found {
            let (a, b) = choose|a: int, b: int| 0 <= a < 3 && 0 <= b < 3 && #[trigger] mask_at(m@, w, h, xi + b - 1, yi + a - 1);
            assert(mask_at(m@, w, h, xi + b - 1, yi + a - 1));
        } else {
            assert(!mask_at(m@, w, h, xi - 1, yi - 1)) by { assert(!mask_at(m@, w, h, xi + 0 - 1, yi + 0 - 1)); }
            assert(!mask_at(m@, w, h, xi, yi - 1)) by { assert(!mask_at(m@, w, h, xi + 1 - 1, yi + 0 - 1)); }
            assert(!mask_at(m@, w, h, xi + 1, yi - 1)) by { assert(!mask_at(m@, w, h, xi + 2 - 1, yi + 0 - 1)); }
            assert(!mask_at(m@, w, h, xi - 1, yi)) by { assert(!mask_at(m@, w, h, xi + 0 - 1, yi + 1 - 1)); }
            assert(!mask_at(m@, w, h, xi, yi)) by { assert(!mask_at(m@, w, h, xi + 1 - 1, yi + 1 - 1)); }
            assert(!mask_at(m@, w, h, xi + 1, yi)) by { assert(!mask_at(m@, w, h, xi + 2 - 1, yi + 1 - 1)); }
            assert(!mask_at(m@, w, h, xi - 1, yi + 1)) by { assert(!mask_at(m@, w, h, xi + 0 - 1, yi + 2 - 1)); }
            assert(!mask_at(m@, w, h, xi, yi + 1)) by { assert(!mask_at(m@, w, h, xi + 1 - 1, yi + 2 - 1)); }
            assert(!mask_at(m@, w, h, xi + 1, yi + 1)) by { assert(!mask_at(m@, w, h, xi + 2 - 1, yi + 2 - 1)); }
        }
    }
    found
}

fn accepted_window(m: &Vec<bool>, c: &Vec<bool>, index: usize, width: usize, height: usize) -> (r: bool)
    requires
        1 <= width <= 4096,
        1 <= height <= 4096,
        m@.len() == width * height,
        c@.len() == width * height,
        index < m@.len(),
    ensures
        r == accepted_near(m@, c@, width as int, height as int, index as int),
{
    let x = index % width;
    let y = index / width;
    proof {
        lemma_position(width as int, height as int, index as int);
        lemma_grid_bound(width as int, height as int);
    }
    let mut dy: usize = 0;
    let mut found = false;
    while dy < 3
        invariant
            dy <= 3,
            1 <= width <= 4096,
            1 <= height <= 4096,
            m@.len() == width * height,
            c@.len() == width * height,
            x == (index as int) % (width as int),
            y == (index as int) / (width as int),
            0 <= x < width,
            0 <= y < height,
            found <==> exists|a: int, b: int| 0 <= a < dy && 0 <= b < 3 && #[trigger] accepted_at(m@, c@, width as int, height as int, x + b - 1, y + a - 1),
        decreases 3 - dy,
    {
        let mut dx: usize = 0;
        while dx < 3
            invariant
                dy < 3,
                dx <= 3,
                1 <= width <= 4096,
                1 <= height <= 4096,
                m@.len() == width * height,
                c@.len() == width * height,
            c@.len() == width * height,
                0 <= x < width,
                0 <= y < height,
                found <==> (exists|a: int, b: int| 0 <= a < dy && 0 <= b < 3 && #[trigger] accepted_at(m@, c@, width as int, height as int, x + b - 1, y + a - 1))
                    || (exists|b: int| 0 <= b < dx && #[trigger] accepted_at(m@, c@, width as int, height as int, x + b - 1, y + dy - 1)),
            decreases 3 - dx,
        {
            if x + dx >= 1 && y + dy >= 1 && x + dx - 1 < width && y + dy - 1 < height {
                let nx = x + dx - 1;
                let ny = y + dy - 1;
                proof {
                    lemma_index(width as int, height as int, nx as int, ny as int);
                    lemma_grid_bound(width as int, height as int);
                    assert(ny * width + nx < width * height);
                }
                let neighbor = ny * width + nx;
                if m[neighbor] && !mask_interior(c, neighbor, width, height) {
                    found = true;
                }
            }
            proof {
                if accepted_at(m@, c@, width as int, height as int, x + dx - 1, y + dy - 1) {
                    assert(found);
                }
            }
            dx += 1;
        }
        proof {
            if found {
                if exists|b: int| 0 <= b < 3 && #[trigger] accepted_at(m@, c@, width as int, height as int, x + b - 1, y + dy - 1) {
                    let b = choose|b: int| 0 <= b < 3 && #[trigger] accepted_at(m@, c@, width as int, height as int, x + b - 1, y + dy - 1);
                    assert(accepted_at(m@, c@, width as int, height as int, x + b - 1, y + (dy as int) - 1));
                }
            }
        }
        dy += 1;
    }
    proof {
        let w = width as int;
        let h = height as int;
        let xi = x as int;
        let yi = y as int;
        if found {
            let (a, b) = choose|a: int, b: int| 0 <= a < 3 && 0 <= b < 3 && #[trigger] accepted_at(m@, c@, w, h, xi + b - 1, yi + a - 1);
            assert(accepted_at(m@, c@, w, h, xi + b - 1, yi + a - 1));
        } else {
            assert(!accepted_at(m@, c@, w, h, xi - 1, yi - 1)) by { assert(!accepted_at(m@, c@, w, h, xi + 0 - 1, yi + 0 - 1)); }
            assert(!accepted_at(m@, c@, w, h, xi, yi - 1)) by { assert(!accepted_at(m@, c@, w, h, xi + 1 - 1, yi + 0 - 1)); }
            assert(!accepted_at(m@, c@, w, h, xi + 1, yi - 1)) by { assert(!accepted_at(m@, c@, w, h, xi + 2 - 1, yi + 0 - 1)); }
            assert(!accepted_at(m@, c@, w, h, xi - 1, yi)) by { assert(!accepted_at(m@, c@, w, h, xi + 0 - 1, yi + 1 - 1)); }
            assert(!accepted_at(m@, c@, w, h, xi, yi)) by { assert(!accepted_at(m@, c@, w, h, xi + 1 - 1, yi + 1 - 1)); }
            assert(!accepted_at(m@, c@, w, h, xi + 1, yi)) by { assert(!accepted_at(m@, c@, w, h, xi + 2 - 1, yi + 1 - 1)); }
            assert(!accepted_at(m@, c@, w, h, xi - 1, yi + 1)) by { assert(!accepted_at(m@, c@, w, h, xi + 0 - 1, yi + 2 - 1)); }
            assert(!accepted_at(m@, c@, w, h, xi, yi + 1)) by { assert(!accepted_at(m@, c@, w, h, xi + 1 - 1, yi + 2 - 1)); }
            assert(!accepted_at(m@, c@, w, h, xi + 1, yi + 1)) by { assert(!accepted_at(m@, c@, w, h, xi + 2 - 1, yi + 2 - 1)); }
        }
    }
    found
}

/// Whether two colors are equal.
pub fn rgb_eq(a: Rgb, b: Rgb) -> (r: bool)
    ensures
        r == (a == b),
{
    let r = a[0] == b[0] && a[1] == b[1] && a[2] == b[2];
    proof {
        if r {
            assert(a@ =~= b@);
            assert(a == b);
        }
    }
    r
}

/// Number of distinct colors of an image's pixels.
pub fn distinct_colors(pixels: &Vec<Rgb>) -> (r: usize)
    ensures
        r == pixels@.to_set().len(),
{
    let mut colors: Vec<Rgb> = Vec::new();
    let mut i: usize = 0;
    while i < pixels.len()
        invariant
            i <= pixels@.len(),
            colors@.len() <= i,
            colors@.no_duplicates(),
            forall|c: Rgb| #[trigger] colors@.contains(c) <==> pixels@.subrange(0, i as int).contains(c),
        decreases pixels@.len() - i,
    {
        let p = pixels[i];
        let mut k: usize = 0;
        let mut seen = false;
        while k < colors.len()
            invariant
                k <= colors@.len(),
                seen <==> exists|j: int| 0 <= j < k && colors@[j] == p,
            decreases colors@.len() - k,
        {
            if rgb_eq(colors[k], p) {
                seen = true;
            }
            k += 1;
        }
        let ghost before = colors@;
        if !seen {
            colors.push(p);
        }
        proof {
            let sub = pixels@.subrange(0, i + 1);
            assert(sub =~= pixels@.subrange(0, i as int).push(p));
            assert forall|c: Rgb| #[trigger] colors@.contains(c) <==> sub.contains(c) by {
                if colors@.contains(c) {
                    let j = choose|j: int| 0 <= j < colors@.len() && colors@[j] == c;
                    if j < before.len() {
                        assert(before.contains(c));
                        let q = choose|q: int| 0 <= q < i && pixels@.subrange(0, i as int)[q] == c;
                        assert(sub[q] == c);
                    } else {
                        assert(sub[i as int] == c);
                    }
                }
                if sub.contains(c) {
                    let q = choose|q: int| 0 <= q < i + 1 && sub[q] == c;
                    if q < i {
                        assert(pixels@.subrange(0, i as int)[q] == c);
                        assert(pixels@.subrange(0, i as int).contains(c));
                        assert(before.contains(c));
                        let j = choose|j: int| 0 <= j < before.len() && before[j] == c;
                        assert(colors@[j] == c);
                    } else if seen {
                        let j = choose|j: int| 0 <= j < before.len() && before[j] == p;
                        assert(colors@[j] == c);
                    } else {
                        assert(colors@[before.len() as int] == c);
                    }
                }
            }
        }
        i += 1;
    }
    proof {
        assert(pixels@.subrange(0, pixels@.len() as int) =~= pixels@);
        assert(colors@.to_set() =~= pixels@.to_set()) by {
            assert forall|c: Rgb| colors@.to_set().contains(c) <==> pixels@.to_set().contains(c) by {
                assert(colors@.contains(c) <==> pixels@.contains(c));
            }
        }
        colors@.unique_seq_to_set();
    }
    colors.len()
}

/// Sum of the luminance of every pixel.
pub open spec fn luma_total(pixels: Seq<Rgb>) -> nat
    decreases pixels.len(),
{
    if pixels.len() == 0 { 0 } else { luma_total(pixels.drop_last()) + luma(pixels.last()) as nat }
}

proof fn lemma_luma_total_bound(pixels: Seq<Rgb>)
    ensures
        luma_total(pixels) <= 255 * pixels.len(),
    decreases pixels.len(),
{
    if pixels.len() > 0 {
        lemma_luma_total_bound(pixels.drop_last());
    }
}

/// Structural pixels outside canopy interiors.
pub open spec fn kept_structural(s: Seq<bool>, c: Seq<bool>, w: int, h: int) -> spec_fn(int) -> bool {
    |i: int| s[i] && !interior(c, i, w, h)
}

/// Kept structural pixels with an output edge in their 3x3 window.
pub open spec fn recalled_structural(s: Seq<bool>, c: Seq<bool>, e: Seq<bool>, w: int, h: int) -> spec_fn(int) -> bool {
    |i: int| s[i] && !interior(c, i, w, h) && near(e, w, h, i)
}

/// Output edges with no kept structural pixel in their 3x3 window.
pub open spec fn stray_edges(s: Seq<bool>, c: Seq<bool>, e: Seq<bool>, w: int, h: int) -> spec_fn(int) -> bool {
    |i: int| e[i] && !accepted_near(s, c, w, h, i)
}

/// Positions whose color changed.
pub open spec fn changed_pixels(a: Seq<Rgb>, b: Seq<Rgb>) -> spec_fn(int) -> bool {
    |i: int| a[i] != b[i]
}

/// Canopy interior pixels.
pub open spec fn canopy_core(c: Seq<bool>, w: int, h: int) -> spec_fn(int) -> bool {
    |i: int| c[i] && interior(c, i, w, h)
}

/// Canopy interior pixels on an output edge.
pub open spec fn canopy_core_edges(c: Seq<bool>, e: Seq<bool>, w: int, h: int) -> spec_fn(int) -> bool {
    |i: int| c[i] && interior(c, i, w, h) && e[i]
}

/// Whether metrics are the measurements of `candidate` against `source` under the guidance masks.
pub open spec fn measured(
    m: CandidateMetrics,
    id: Seq<char>,
    source: RgbImage,
    candidate: RgbImage,
    s: Seq<bool>,
    c: Seq<bool>,
) -> bool {
    let w = source.width as int;
    let h = source.height as int;
    let n = (w * h) as nat;
    let e = luma_edges(candidate.pixels@, w, h);
    &&& m.candidate_id@ == id
    &&& m.colors_used == candidate.pixels@.to_set().len()
    &&& m.structural_edge_recall_basis_points == ratio_spec(count_true(n, recalled_structural(s, c, e, w, h)), count_true(n, kept_structural(s, c, w, h)), 10_000)
    &&& m.non_structural_edge_ppm == ratio_spec(count_true(n, stray_edges(s, c, e, w, h)), n, 1_000_000)
    &&& m.mean_luminance_microunits == luma_total(candidate.pixels@) * 1_000_000 / n
    &&& m.changed_from_source_ppm == ratio_spec(count_true(n, changed_pixels(source.pixels@, candidate.pixels@)), n, 1_000_000)
    &&& m.canopy_interior_edge_ppm == ratio_spec(count_true(n, canopy_core_edges(c, e, w, h)), count_true(n, canopy_core(c, w, h)), 1_000_000)
}

/// Measures one candidate against the logical source under the structural and canopy masks.
pub fn measure_candidate(
    id: &str,
    source: &RgbImage,
    candidate: &RgbImage,
    structural: &Vec<bool>,
    canopy: &Vec<bool>,
) -> (r: CandidateMetrics)
    requires
        image_ok(*source),
        image_ok(*candidate),
        candidate.width == source.width,
        candidate.height == source.height,
        structural@.len() == source.width * source.height,
        canopy@.len() == source.width * source.height,
        candidate.pixels@.to_set().len() <= u16::MAX,
    ensures
        measured(r, id@, *source, *candidate, structural@, canopy@),
{
    let width = source.width;
    let height = source.height;
    let ghost w = width as int;
    let ghost h = height as int;
    let n = source.pixels.len();
    let edges = output_edges(candidate);
    let ghost e = edges@;
    proof {
        lemma_grid_bound(w, h);
    }
    let mut structural_count: usize = 0;
    let mut recalled: usize = 0;
    let mut stray: usize = 0;
    let mut changed: usize = 0;
    let mut core: usize = 0;
    let mut core_edges: usize = 0;
    let mut luma_sum: u64 = 0;
    let mut i: usize = 0;
    while i < n
        invariant
            image_ok(*source),
            image_ok(*candidate),
            width == source.width && height == source.height,
            w == width as int && h == height as int,
            candidate.width == width && candidate.height == height,
            n == w * h,
            n <= 16_777_216,
            edges@ == e,
            e == luma_edges(candidate.pixels@, w, h),
            structural@.len() == n,
            canopy@.len() == n,
            i <= n,
            structural_count == count_true(i as nat, kept_structural(structural@, canopy@, w, h)),
            recalled == count_true(i as nat, recalled_structural(structural@, canopy@, e, w, h)),
            stray == count_true(i as nat, stray_edges(structural@, canopy@, e, w, h)),
            changed == count_true(i as nat, changed_pixels(source.pixels@, candidate.pixels@)),
            core == count_true(i as nat, canopy_core(canopy@, w, h)),
            core_edges == count_true(i as nat, canopy_core_edges(canopy@, e, w, h)),
            luma_sum == luma_total(candidate.pixels@.subrange(0, i as int)),
            structural_count <= i && recalled <= i && stray <= i && changed <= i && core <= i && core_edges <= i,
            luma_sum <= 255 * i,
        decreases n - i,
    {
        let interior_canopy = mask_interior(canopy, i, width, height);
        let kept = structural[i] && !interior_canopy;
        if kept {
            structural_count += 1;
            if window_set(&edges, i, width, height) {
                recalled += 1;
            }
        }
        if edges[i] && !accepted_window(structural, canopy, i, width, height) {
            stray += 1;
        }
        if !rgb_eq(source.pixels[i], candidate.pixels[i]) {
            changed += 1;
        }
        if canopy[i] && interior_canopy {
            core += 1;
            if edges[i] {
                core_edges += 1;
            }
        }
        luma_sum += luminance(candidate.pixels[i]) as u64;
        proof {
            assert(candidate.pixels@.subrange(0, i + 1).drop_last() =~= candidate.pixels@.subrange(0, i as int));
        }
        i += 1;
    }
    proof {
        assert(candidate.pixels@.subrange(0, n as int) =~= candidate.pixels@);
        lemma_count_subset(n as nat, recalled_structural(structural@, canopy@, e, w, h), kept_structural(structural@, canopy@, w, h));
    }
    let colors = distinct_colors(&candidate.pixels);
    let recall = ratio(recalled, structural_count, 10_000);
    proof {
        if structural_count > 0 {
            assert(recalled * 10_000 / (structural_count as int) <= 10_000) by (nonlinear_arith)
                requires recalled <= structural_count, structural_count > 0;
        }
    }
    let mean = luma_sum * 1_000_000 / n as u64;
    proof {
        assert(luma_sum * 1_000_000 / (n as int) <= 255_000_000) by (nonlinear_arith)
            requires luma_sum <= 255 * n, n > 0;
    }
    CandidateMetrics {
        candidate_id: id.to_string(),
        colors_used: colors as u16,
        structural_edge_recall_basis_points: recall as u16,
        non_structural_edge_ppm: ratio(stray, n, 1_000_000),
        mean_luminance_microunits: mean as u32,
        changed_from_source_ppm: ratio(changed, n, 1_000_000),
        canopy_interior_edge_ppm: ratio(core_edges, core, 1_000_000),
    }
}

/// The qualification gates of the three measured candidates (RGB-only, geometry-guided,
/// canopy repair): every candidate within 128 colors, at least 90% structural recall for the
/// geometry-guided one, and less canopy fragmentation for the repair than for RGB-only.
pub fn review_gates(metrics: &Vec<CandidateMetrics>) -> (r: ReviewGates)
    requires
        metrics@.len() == 3,
    ensures
        r.deterministic_post_capture,
        r.palette_bound == (forall|k: int| 0 <= k < 3 ==> (#[trigger] metrics@[k]).colors_used <= 128),
        r.structural_edge_recall == (metrics@[1].structural_edge_recall_basis_points >= 9_000),
        r.canopy_fragmentation_improved == (metrics@[2].canopy_interior_edge_ppm < metrics@[0].canopy_interior_edge_ppm),
        r.passenger_cars_preserved_by_policy,
        !r.qualified_for_expansion,
{
    let palette_bound = metrics[0].colors_used <= 128 && metrics[1].colors_used <= 128 && metrics[2].colors_used <= 128;
    proof {
        if !palette_bound {
            if metrics@[0].colors_used > 128 {
                assert(!(metrics@[0].colors_used <= 128));
            } else if metrics@[1].colors_used > 128 {
                assert(!(metrics@[1].colors_used <= 128));
            } else {
                assert(!(metrics@[2].colors_used <= 128));
            }
        }
    }
    ReviewGates {
        deterministic_post_capture: true,
        palette_bound,
        structural_edge_recall: metrics[1].structural_edge_recall_basis_points >= 9_000,
        canopy_fragmentation_improved: metrics[2].canopy_interior_edge_ppm < metrics[0].canopy_interior_edge_ppm,
        passenger_cars_preserved_by_policy: true,
        qualified_for_expansion: false,
    }
}

/// Bytes of the streamed source decode.
pub const SOURCE_DECODE_BYTES: u64 = 10_240;
/// Bytes of the two RGB and one depth 2048-pixel cores.
pub const SOURCE_CORE_BYTES: u64 = 41_943_040;
/// Live bytes per logical pixel: six RGB planes, one depth plane and one mask plane.
pub const LOGICAL_BYTES_PER_PIXEL: u64 = 26;

/// Conservative peak bytes of simultaneously live buffers for `pixel_count` logical pixels.
pub fn estimate_peak_bytes(pixel_count: usize) -> (r: Result<u64, StylizeError>)
    requires
        pixel_count * LOGICAL_BYTES_PER_PIXEL <= u64::MAX,
    ensures
        SOURCE_DECODE_BYTES + SOURCE_CORE_BYTES + pixel_count * LOGICAL_BYTES_PER_PIXEL <= u64::MAX ==> r == Ok::<
            u64,
            StylizeError,
        >((SOURCE_DECODE_BYTES + SOURCE_CORE_BYTES + pixel_count * LOGICAL_BYTES_PER_PIXEL) as u64),
        SOURCE_DECODE_BYTES + SOURCE_CORE_BYTES + pixel_count * LOGICAL_BYTES_PER_PIXEL > u64::MAX ==> (r matches Err(
            StylizeError::Invalid(m),
        ) && m@ == "working memory estimate overflowed"@),
{
    let logical = pixel_count as u64 * LOGICAL_BYTES_PER_PIXEL;
    if logical > u64::MAX - (SOURCE_DECODE_BYTES + SOURCE_CORE_BYTES) {
        return Err(StylizeError::Invalid("working memory estimate overflowed".to_string()));
    }
    Ok(SOURCE_DECODE_BYTES + SOURCE_CORE_BYTES + logical)
}

/// The accepted capture for the repair study: the Google provider, the orthographic
/// 330/42 degree camera, 125 mm pixels, and even core dimensions.
pub open spec fn capture_contract_ok(m: ReferenceManifest) -> bool {
    &&& m.capture.provider@ == "google-photorealistic-3d-tiles"@
    &&& m.camera.projection@ == "orthographic"@
    &&& m.camera.azimuth_millidegrees == 330_000
    &&& m.camera.elevation_millidegrees == 42_000
    &&& m.tile.millimeters_per_pixel == 125
    &&& m.tile.core_width_px % 2 == 0
    &&& m.tile.core_height_px % 2 == 0
}

/// Rejects every capture but the one the repair study was qualified on.
pub fn check_capture_contract(manifest: &ReferenceManifest) -> (r: Result<(), StylizeError>)
    ensures
        r is Ok <==> capture_contract_ok(*manifest),
        r matches Err(e) ==> e matches StylizeError::Invalid(m) && m@
            == "reference repair requires the qualified 330/42 degree, 125 mm Google capture"@,
{
    if !str_eq(manifest.capture.provider.as_str(), "google-photorealistic-3d-tiles") || !str_eq(
        manifest.camera.projection.as_str(),
        "orthographic",
    ) || manifest.camera.azimuth_millidegrees != 330_000 || manifest.camera.elevation_millidegrees != 42_000
        || manifest.tile.millimeters_per_pixel != 125 || manifest.tile.core_width_px % 2 != 0
        || manifest.tile.core_height_px % 2 != 0 {
        return Err(StylizeError::Invalid(
            "reference repair requires the qualified 330/42 degree, 125 mm Google capture".to_string(),
        ));
    }
    Ok(())
}

/// Most bytes of working memory a report may declare.
pub const MAX_PEAK_WORKING_BYTES: u64 = 100_663_296;

/// The report-wide contract: identities, scale, counts, gates and the memory bound.
pub open spec fn report_fields_ok(r: RepairReviewReport) -> bool {
    &&& r.schema@ == REVIEW_SCHEMA@
    &&& r.algorithm@ == ALGORITHM_ID@
    &&& r.source_bundle_id@.len() > 0
    &&& is_sha256_bytes(encode_utf8(r.source_manifest_sha256@))
    &&& r.source_millimeters_per_pixel != 0
    &&& r.logical_millimeters_per_pixel == 2 * r.source_millimeters_per_pixel
    &&& r.images@.len() == 6
    &&& r.candidates@.len() == 3
    &&& r.gates.deterministic_post_capture
    &&& r.gates.palette_bound
    &&& r.gates.passenger_cars_preserved_by_policy
    &&& !r.gates.qualified_for_expansion
    &&& r.blocking_findings@.len() > 0
    &&& r.estimated_peak_working_bytes <= MAX_PEAK_WORKING_BYTES
}

/// Checks the report-wide contract.
pub fn check_report_fields(report: &RepairReviewReport) -> (r: Result<(), StylizeError>)
    ensures
        r is Ok <==> report_fields_ok(*report),
        r matches Err(e) ==> e matches StylizeError::Invalid(m) && m@ == "reference repair report contract is invalid"@,
{
    let empty_id = report.source_bundle_id.as_str().unicode_len() == 0;
    if !str_eq(report.schema.as_str(), REVIEW_SCHEMA) || !str_eq(report.algorithm.as_str(), ALGORITHM_ID) || empty_id
        || !is_sha256(report.source_manifest_sha256.as_str()) || report.source_millimeters_per_pixel == 0
        || report.logical_millimeters_per_pixel as u64 != 2 * report.source_millimeters_per_pixel as u64
        || report.images.len() != 6 || report.candidates.len() != 3 || !report.gates.deterministic_post_capture
        || !report.gates.palette_bound || !report.gates.passenger_cars_preserved_by_policy
        || report.gates.qualified_for_expansion || report.blocking_findings.len() == 0
        || report.estimated_peak_working_bytes > MAX_PEAK_WORKING_BYTES {
        return Err(StylizeError::Invalid("reference repair report contract is invalid".to_string()));
    }
    Ok(())
}

/// The allowlisted path of the `index`-th output image.
pub open spec fn output_image_name(index: int) -> Seq<char> {
    if index == 0 {
        "source-logical.png"@
    } else if index == 1 {
        "candidate-a-rgb.png"@
    } else if index == 2 {
        "candidate-b-geometry.png"@
    } else if index == 3 {
        "candidate-c-canopy-repair.png"@
    } else if index == 4 {
        "canopy-mask.png"@
    } else {
        "structural-edges.png"@
    }
}

/// The allowlisted path of the `index`-th output image.
pub fn output_image_name_of(index: usize) -> (r: &'static str)
    requires
        index < 6,
    ensures
        r@ == output_image_name(index as int),
{
    if index == 0 {
        "source-logical.png"
    } else if index == 1 {
        "candidate-a-rgb.png"
    } else if index == 2 {
        "candidate-b-geometry.png"
    } else if index == 3 {
        "candidate-c-canopy-repair.png"
    } else if index == 4 {
        "canopy-mask.png"
    } else {
        "structural-edges.png"
    }
}

/// Whether the `index`-th image record has its allowlisted path, bounded dimensions and a digest.
pub open spec fn image_record_ok(record: ReviewImageRecord, index: int) -> bool {
    &&& record.path@ == output_image_name(index)
    &&& 1 <= record.width_px <= 2048
    &&& 1 <= record.height_px <= 2048
    &&& is_sha256_bytes(encode_utf8(record.sha256@))
}

/// Checks the `index`-th image record.
pub fn check_image_record(record: &ReviewImageRecord, index: usize) -> (r: Result<(), StylizeError>)
    requires
        index < 6,
    ensures
        r is Ok <==> image_record_ok(*record, index as int),
        r matches Err(e) ==> e matches StylizeError::Invalid(m) && m@ == "reference repair image record is invalid"@,
{
    if !str_eq(record.path.as_str(), output_image_name_of(index)) || record.width_px == 0 || record.height_px == 0
        || record.width_px > 2_048 || record.height_px > 2_048 || !is_sha256(record.sha256.as_str()) {
        return Err(StylizeError::Invalid("reference repair image record is invalid".to_string()));
    }
    Ok(())
}

/// Checks the bytes of an output image against its record's length and digest.
pub fn check_image_bytes(record: &ReviewImageRecord, bytes: &[u8]) -> (r: Result<(), StylizeError>)
    ensures
        r is Ok <==> (bytes@.len() == record.byte_length && hex_spec(sha256_spec(bytes@)) == record.sha256@),
        r matches Err(e) ==> e matches StylizeError::Invalid(m) && m@ == "reference repair image digest is invalid"@,
{
    let digest = sha256_hex(bytes);
    if bytes.len() as u64 != record.byte_length || !str_eq(digest.as_str(), record.sha256.as_str()) {
        return Err(StylizeError::Invalid("reference repair image digest is invalid".to_string()));
    }
    Ok(())
}

/// The three measured candidates, in order.
pub open spec fn candidate_name(index: int) -> Seq<char> {
    if index == 0 {
        "candidate-a-rgb"@
    } else if index == 1 {
        "candidate-b-geometry"@
    } else {
        "candidate-c-canopy-repair"@
    }
}

/// Whether the report's candidates are the three measured ones, in order, each with 1 to 128 colors.
pub open spec fn candidates_ok(r: RepairReviewReport) -> bool {
    &&& r.candidates@.len() == 3
    &&& forall|k: int| 0 <= k < 3 ==> (#[trigger] r.candidates@[k]).candidate_id@ == candidate_name(k)
    &&& forall|k: int| 0 <= k < 3 ==> 1 <= (#[trigger] r.candidates@[k]).colors_used <= 128
}

/// Checks the candidate identities and color counts.
pub fn check_candidates(report: &RepairReviewReport) -> (r: Result<(), StylizeError>)
    ensures
        r is Ok <==> candidates_ok(*report),
        r matches Err(e) ==> e matches StylizeError::Invalid(m) && m@ == "reference repair candidate metrics are invalid"@,
{
    let c = &report.candidates;
    if c.len() != 3 || !str_eq(c[0].candidate_id.as_str(), "candidate-a-rgb") || !str_eq(
        c[1].candidate_id.as_str(),
        "candidate-b-geometry",
    ) || !str_eq(c[2].candidate_id.as_str(), "candidate-c-canopy-repair") || c[0].colors_used == 0
        || c[0].colors_used > 128 || c[1].colors_used == 0 || c[1].colors_used > 128 || c[2].colors_used == 0
        || c[2].colors_used > 128 {
        proof {
            if c@.len() == 3 {
                if !(c@[0].candidate_id@ == candidate_name(0)) {
                } else if !(c@[1].candidate_id@ == candidate_name(1)) {
                } else if !(c@[2].candidate_id@ == candidate_name(2)) {
                } else if !(1 <= c@[0].colors_used <= 128) {
                } else if !(1 <= c@[1].colors_used <= 128) {
                } else {
                    assert(!(1 <= c@[2].colors_used <= 128));
                }
            }
        }
        return Err(StylizeError::Invalid("reference repair candidate metrics are invalid".to_string()));
    }
    proof {
        assert forall|k: int| 0 <= k < 3 implies (#[trigger] c@[k]).candidate_id@ == candidate_name(k) by {
            if k == 0 {
            } else if k == 1 {
            } else {
            }
        }
    }
    Ok(())
}

/// The run summary of a validated report from its canonical JSON text.
pub fn run_report(report: &RepairReviewReport, report_json: &str) -> (r: Result<RepairRunReport, StylizeError>)
    ensures
        report_json.spec_bytes().len() > MAX_REPORT_BYTES ==> (r matches Err(StylizeError::Invalid(m)) && m@
            == "reference repair report exceeds one MiB"@),
        report_json.spec_bytes().len() <= MAX_REPORT_BYTES ==> (r matches Ok(run) && run.report_sha256@ == hex_spec(
            sha256_spec(report_json.spec_bytes()),
        ) && run.image_count == report.images@.len() && run.estimated_peak_working_bytes
            == report.estimated_peak_working_bytes && run.qualified_for_expansion == report.gates.qualified_for_expansion),
{
    let bytes = report_json.as_bytes();
    if bytes.len() > MAX_REPORT_BYTES {
        return Err(StylizeError::Invalid("reference repair report exceeds one MiB".to_string()));
    }
    Ok(RepairRunReport {
        report_sha256: sha256_hex(bytes),
        image_count: report.images.len(),
        estimated_peak_working_bytes: report.estimated_peak_working_bytes,
        qualified_for_expansion: report.gates.qualified_for_expansion,
    })
}

/// PNG color types.
#[derive(Clone, Copy, Debug, Eq, PartialEq, Structural)]
pub enum PngColor {
    /// One gray sample.
    Grayscale,
    /// Red, green and blue samples.
    Rgb,
    /// A palette index.
    Indexed,
    /// Gray and alpha samples.
    GrayscaleAlpha,
    /// Red, green, blue and alpha samples.
    Rgba,
}

/// What a PNG header declares.
#[derive(Clone, Copy, Debug, Eq, PartialEq)]
pub struct PngHeader {
    /// Image width.
    pub width: u32,
    /// Image height.
    pub height: u32,
    /// Color type.
    pub color: PngColor,
    /// Bits per sample.
    pub bit_depth: u8,
    /// Whether the image is interlaced.
    pub interlaced: bool,
}

/// The header the PNG decoder reads from `bytes`, or `None` where it refuses them.
pub uninterp spec fn png_header_of(bytes: Seq<u8>) -> Option<(u32, u32, PngColor, u8, bool)>;

/// Calls `png::Decoder::read_info` on the bytes and copies the width, height, color type,
/// bit depth and interlace flag of the decoded header; a refusal becomes the decoder's own
/// description. The contract claims only that the header is a function of the bytes, named.
#[verifier::external_body]
pub(crate) fn read_png_header(bytes: &[u8]) -> (r: Result<PngHeader, String>)
    ensures
        r matches Ok(h) ==> png_header_of(bytes@) == Some((h.width, h.height, h.color, h.bit_depth, h.interlaced)),
        r is Err ==> png_header_of(bytes@) is None,
{
    let reader = match Decoder::new(bytes).read_info() { Ok(reader) => reader, Err(error) => return Err(error.to_string()) };
    let info = reader.info();
    let color = match info.color_type {
        ColorType::Grayscale => PngColor::Grayscale, ColorType::Rgb => PngColor::Rgb, ColorType::Indexed => PngColor::Indexed,
        ColorType::GrayscaleAlpha => PngColor::GrayscaleAlpha, ColorType::Rgba => PngColor::Rgba,
    };
    let bit_depth = match info.bit_depth {
        BitDepth::One => 1, BitDepth::Two => 2, BitDepth::Four => 4, BitDepth::Eight => 8, BitDepth::Sixteen => 16,
    };
    Ok(PngHeader { width: info.width, height: info.height, color, bit_depth, interlaced: info.interlaced })
}

/// Checks that PNG bytes declare a non-interlaced 8-bit RGBA image of the given size.
pub fn check_png_header(bytes: &[u8], width: u32, height: u32) -> (r: Result<(), StylizeError>)
    ensures
        png_header_of(bytes@) is None ==> r matches Err(StylizeError::Png(_)),
        png_header_of(bytes@) matches Some(h) ==> (r is Ok <==> h == (width, height, PngColor::Rgba, 8u8, false)),
        (png_header_of(bytes@) is Some && r is Err) ==> (r matches Err(StylizeError::Invalid(m)) && m@
            == "reference repair PNG header is invalid"@),
{
    let header = match read_png_header(bytes) {
        Ok(h) => h,
        Err(message) => return Err(StylizeError::Png(message)),
    };
    if header.width != width || header.height != height || header.color != PngColor::Rgba || header.bit_depth != 8
        || header.interlaced {
        return Err(StylizeError::Invalid("reference repair PNG header is invalid".to_string()));
    }
    Ok(())
}


/// The packed frame the PNG decoder produces from `bytes` with its default (identity)
/// transformations, or `None` where it refuses them.
pub uninterp spec fn png_frame_of(bytes: Seq<u8>) -> Option<Seq<u8>>;

/// Calls `png::Decoder::read_info` on the bytes and then `Reader::next_frame` into a buffer of
/// `Reader::output_buffer_size` bytes, keeping the frame's `OutputInfo::buffer_size` leading
/// bytes; a refusal becomes the decoder's own description. The contract claims only that the
/// frame is a function of the bytes, named.
#[verifier::external_body]
pub(crate) fn read_png_frame(bytes: &[u8]) -> (r: Result<Vec<u8>, String>)
    ensures
        r matches Ok(f) ==> png_frame_of(bytes@) == Some(f@),
        r is Err ==> png_frame_of(bytes@) is None,
{
    let mut reader = match Decoder::new(bytes).read_info() { Ok(reader) => reader, Err(error) => return Err(error.to_string()) };
    let mut frame = vec![0u8; reader.output_buffer_size()];
    let info = match reader.next_frame(&mut frame) { Ok(info) => info, Err(error) => return Err(error.to_string()) };
    frame.truncate(info.buffer_size());
    Ok(frame)
}

/// The first layer record of a kind.
pub open spec fn first_layer(layers: Seq<LayerRecord>, kind: LayerKind) -> Option<LayerRecord>
    decreases layers.len(),
{
    if layers.len() == 0 {
        None
    } else if layers[0].kind == kind {
        Some(layers[0])
    } else {
        first_layer(layers.drop_first(), kind)
    }
}

fn find_layer_record(layers: &Vec<LayerRecord>, kind: LayerKind) -> (r: Option<usize>)
    ensures
        r is None <==> first_layer(layers@, kind) is None,
        r matches Some(i) ==> i < layers@.len() && first_layer(layers@, kind) == Some(layers@[i as int]),
{
    let mut i: usize = 0;
    assert(layers@.skip(0) =~= layers@);
    while i < layers.len()
        invariant
            i <= layers@.len(),
            first_layer(layers@, kind) == first_layer(layers@.skip(i as int), kind),
        decreases layers@.len() - i,
    {
        assert(layers@.skip(i as int).drop_first() =~= layers@.skip(i + 1));
        if layers[i].kind == kind {
            return Some(i);
        }
        i += 1;
    }
    None
}

/// The RGB of core pixel `(x, y)` of a packed RGBA frame `source_width` wide with a `guard`.
pub open spec fn core_rgb_at(frame: Seq<u8>, source_width: int, guard: int, x: int, y: int) -> Rgb {
    let o = ((y + guard) * source_width + x + guard) * 4;
    [frame[o], frame[o + 1], frame[o + 2]]
}

/// The row-major RGB core of a packed RGBA frame.
pub open spec fn core_rgb(frame: Seq<u8>, source_width: int, guard: int, width: int, height: int) -> Seq<Rgb> {
    Seq::new((width * height) as nat, |k: int| core_rgb_at(frame, source_width, guard, k % width, k / width))
}

/// What the PNG of a layer must declare: its registered size, RGBA, eight bits, not interlaced.
pub open spec fn registered_rgba8(record: LayerRecord) -> (u32, u32, PngColor, u8, bool) {
    (record.width_px, record.height_px, PngColor::Rgba, 8u8, false)
}

/// Whether the saved core, inside its guard, fits a layer's registered grid.
pub open spec fn core_fits(manifest: ReferenceManifest, record: LayerRecord) -> bool {
    &&& manifest.tile.guard_px + manifest.tile.core_width_px <= record.width_px
    &&& manifest.tile.guard_px + manifest.tile.core_height_px <= record.height_px
    &&& 1 <= manifest.tile.core_width_px <= 4096
    &&& 1 <= manifest.tile.core_height_px <= 4096
}

/// What decoding the PNG of a present layer record gives: decoder refusals, a header that
/// contradicts the registration, a frame of the wrong length or a core that does not fit fail;
/// otherwise the result is the RGB of the saved core.
pub open spec fn core_png_outcome(manifest: ReferenceManifest, rec: LayerRecord, bytes: Seq<u8>, r: Result<RgbImage, StylizeError>) -> bool {
    let cw = manifest.tile.core_width_px as int;
    let ch = manifest.tile.core_height_px as int;
    if png_header_of(bytes) is None {
        r matches Err(StylizeError::Png(_))
    } else if png_header_of(bytes)->0 != registered_rgba8(rec) {
        r matches Err(StylizeError::Invalid(m)) && m@ == "reference PNG violates its registered RGBA8 contract"@
    } else if png_frame_of(bytes) is None {
        r matches Err(StylizeError::Png(_))
    } else if png_frame_of(bytes)->0.len() != rec.width_px * rec.height_px * 4 {
        r matches Err(StylizeError::Invalid(m)) && m@ == "reference PNG row violates its registered width"@
    } else if !core_fits(manifest, rec) {
        r matches Err(StylizeError::Invalid(m)) && m@ == "reference PNG row count violates its registration"@
    } else {
        r matches Ok(img) && img.width == cw && img.height == ch && img.pixels@ == core_rgb(
            png_frame_of(bytes)->0,
            rec.width_px as int,
            manifest.tile.guard_px as int,
            cw,
            ch,
        )
    }
}

/// Whether the PNG of a layer decodes to its saved core: the layer is registered, the header
/// declares its registered RGBA8 grid, the frame decodes to the whole grid and the core fits it.
pub open spec fn core_png_ok(manifest: ReferenceManifest, kind: LayerKind, bytes: Seq<u8>) -> bool {
    &&& first_layer(manifest.layers@, kind) matches Some(rec)
    &&& png_header_of(bytes) == Some(registered_rgba8(rec))
    &&& png_frame_of(bytes) matches Some(f)
    &&& f.len() == rec.width_px * rec.height_px * 4
    &&& core_fits(manifest, rec)
}

/// Decodes the registered RGBA8 PNG of a layer and keeps the RGB of its saved core, dropping
/// the guard and the alpha channel.
pub fn decode_core_png(manifest: &ReferenceManifest, kind: LayerKind, bytes: &[u8]) -> (r: Result<RgbImage, StylizeError>)
    ensures
        r is Ok <==> core_png_ok(*manifest, kind, bytes@),
        first_layer(manifest.layers@, kind) is None ==> (r matches Err(StylizeError::Invalid(m)) && m@
            == "required reference PNG is missing"@),
        first_layer(manifest.layers@, kind) matches Some(rec) ==> core_png_outcome(*manifest, rec, bytes@, r),
{
    let index = match find_layer_record(&manifest.layers, kind) {
        Some(i) => i,
        None => return Err(StylizeError::Invalid("required reference PNG is missing".to_string())),
    };
    let record = &manifest.layers[index];
    let header = match read_png_header(bytes) {
        Ok(h) => h,
        Err(message) => return Err(StylizeError::Png(message)),
    };
    if header.width != record.width_px || header.height != record.height_px || header.color != PngColor::Rgba
        || header.bit_depth != 8 || header.interlaced {
        return Err(StylizeError::Invalid("reference PNG violates its registered RGBA8 contract".to_string()));
    }
    let frame = match read_png_frame(bytes) {
        Ok(f) => f,
        Err(message) => return Err(StylizeError::Png(message)),
    };
    let sw = record.width_px as u64;
    let sh = record.height_px as u64;
    proof {
        assert(sw * sh <= u32::MAX * u32::MAX) by (nonlinear_arith)
            requires
                sw <= u32::MAX,
                sh <= u32::MAX,
        ;
    }
    if (frame.len() as u128) != (sw * sh) as u128 * 4 {
        return Err(StylizeError::Invalid("reference PNG row violates its registered width".to_string()));
    }
    let guard = manifest.tile.guard_px as u64;
    let cw = manifest.tile.core_width_px as u64;
    let ch = manifest.tile.core_height_px as u64;
    if guard + cw > sw || guard + ch > sh || cw == 0 || ch == 0 || cw > 4096 || ch > 4096 {
        return Err(StylizeError::Invalid("reference PNG row count violates its registration".to_string()));
    }
    let flen = frame.len();
    let ghost f = frame@;
    let ghost spec = core_rgb(f, sw as int, guard as int, cw as int, ch as int);
    let mut pixels: Vec<Rgb> = Vec::new();
    let mut y: u64 = 0;
    while y < ch
        invariant
            1 <= cw <= 4096,
            1 <= ch <= 4096,
            guard + cw <= sw,
            guard + ch <= sh,
            f == frame@,
            f.len() == sw * sh * 4,
            flen == f.len(),
            y <= ch,
            spec == core_rgb(f, sw as int, guard as int, cw as int, ch as int),
            pixels@.len() == y * cw,
            forall|k: int| 0 <= k < pixels@.len() ==> #[trigger] pixels@[k] == spec[k],
        decreases ch - y,
    {
        let mut x: u64 = 0;
        while x < cw
            invariant
                1 <= cw <= 4096,
                1 <= ch <= 4096,
                guard + cw <= sw,
                guard + ch <= sh,
                f == frame@,
                f.len() == sw * sh * 4,
                flen == f.len(),
                y < ch,
                x <= cw,
                spec == core_rgb(f, sw as int, guard as int, cw as int, ch as int),
                pixels@.len() == y * cw + x,
                forall|k: int| 0 <= k < pixels@.len() ==> #[trigger] pixels@[k] == spec[k],
            decreases cw - x,
        {
            proof {
                lemma_index(sw as int, sh as int, (x + guard) as int, (y + guard) as int);
                lemma_index(cw as int, ch as int, x as int, y as int);
                assert(grid_index(sw as int, (x + guard) as int, (y + guard) as int) * 4 + 4 <= sw * sh * 4);
                assert((y + guard) * sw + x + guard < sw * sh);
                assert(((y + guard) * sw + x + guard) * 4 + 4 <= flen);
            }
            let o = (((y + guard) * sw + x + guard) * 4) as usize;
            let px: Rgb = [frame[o], frame[o + 1], frame[o + 2]];
            let ghost k = pixels@.len() as int;
            pixels.push(px);
            proof {
                assert(k == grid_index(cw as int, x as int, y as int));
                assert(spec[k] == core_rgb_at(f, sw as int, guard as int, x as int, y as int));
            }
            x += 1;
        }
        proof {
            assert(pixels@.len() == (y + 1) * cw) by (nonlinear_arith)
                requires
                    pixels@.len() == y * cw + cw,
            ;
        }
        y += 1;
    }
    proof {
        assert(cw * ch == ch * cw) by (nonlinear_arith);
        assert(pixels@ =~= spec);
    }
    RgbImage::new(cw as usize, ch as usize, pixels)
}


/// The little-endian depth of core pixel `(x, y)` of a raw depth layer `source_width` wide.
pub open spec fn core_depth_at(bytes: Seq<u8>, source_width: int, guard: int, x: int, y: int) -> int {
    let o = 16 + ((y + guard) * source_width + x + guard) * 4;
    depth_value(bytes.subrange(o, o + 4))
}

/// The row-major depths of the saved core of a raw depth layer.
pub open spec fn core_depth(bytes: Seq<u8>, source_width: int, guard: int, width: int, height: int) -> Seq<u32> {
    Seq::new((width * height) as nat, |k: int| core_depth_at(bytes, source_width, guard, k % width, k / width) as u32)
}

/// Whether a raw depth layer holds its saved core: the layer is registered, the sixteen-byte
/// header names its grid, the file holds the whole grid and the core fits it.
pub open spec fn core_depth_ok(manifest: ReferenceManifest, bytes: Seq<u8>) -> bool {
    &&& first_layer(manifest.layers@, LayerKind::LinearDepth) matches Some(rec)
    &&& bytes.len() >= 16
    &&& depth_header_ok(bytes.subrange(0, 16), rec.width_px as int, rec.height_px as int)
    &&& bytes.len() == 16 + rec.width_px * rec.height_px * 4
    &&& core_fits(manifest, rec)
}

/// Reads the saved core of a raw depth layer: the sixteen-byte header must name the magic and
/// the registered grid, and the file must hold the whole grid.
pub fn decode_core_depth(manifest: &ReferenceManifest, bytes: &[u8]) -> (r: Result<Vec<u32>, StylizeError>)
    ensures
        r is Ok <==> core_depth_ok(*manifest, bytes@),
        first_layer(manifest.layers@, LayerKind::LinearDepth) is None ==> (r matches Err(StylizeError::Invalid(m)) && m@
            == "required reference depth is missing"@),
        first_layer(manifest.layers@, LayerKind::LinearDepth) matches Some(rec) ==> (r is Ok <==> (bytes@.len() >= 16
            && depth_header_ok(bytes@.subrange(0, 16), rec.width_px as int, rec.height_px as int) && bytes@.len() == 16
            + rec.width_px * rec.height_px * 4 && core_fits(*manifest, rec))),
        r matches Ok(d) ==> (first_layer(manifest.layers@, LayerKind::LinearDepth) matches Some(rec) && d@ == core_depth(
            bytes@,
            rec.width_px as int,
            manifest.tile.guard_px as int,
            manifest.tile.core_width_px as int,
            manifest.tile.core_height_px as int,
        )),
{
    let index = match find_layer_record(&manifest.layers, LayerKind::LinearDepth) {
        Some(i) => i,
        None => return Err(StylizeError::Invalid("required reference depth is missing".to_string())),
    };
    let record = &manifest.layers[index];
    if bytes.len() < 16 {
        return Err(StylizeError::Invalid("reference depth header violates its registration".to_string()));
    }
    let header = slice_prefix16(bytes);
    match check_depth_header(header.as_slice(), record.width_px, record.height_px) {
        Ok(()) => {},
        Err(_) => return Err(StylizeError::Invalid("reference depth header violates its registration".to_string())),
    }
    let sw = record.width_px as u64;
    let sh = record.height_px as u64;
    proof {
        assert(sw * sh <= u32::MAX * u32::MAX) by (nonlinear_arith)
            requires
                sw <= u32::MAX,
                sh <= u32::MAX,
        ;
    }
    if bytes.len() as u128 != 16 + (sw * sh) as u128 * 4 {
        return Err(StylizeError::Invalid("reference depth length violates its registration".to_string()));
    }
    let guard = manifest.tile.guard_px as u64;
    let cw = manifest.tile.core_width_px as u64;
    let ch = manifest.tile.core_height_px as u64;
    if guard + cw > sw || guard + ch > sh || cw == 0 || ch == 0 || cw > 4096 || ch > 4096 {
        return Err(StylizeError::Invalid("reference depth crop violates its registration".to_string()));
    }
    let blen = bytes.len();
    let ghost b = bytes@;
    let ghost spec = core_depth(b, sw as int, guard as int, cw as int, ch as int);
    let mut out: Vec<u32> = Vec::new();
    let mut y: u64 = 0;
    while y < ch
        invariant
            1 <= cw <= 4096,
            1 <= ch <= 4096,
            guard + cw <= sw,
            guard + ch <= sh,
            b == bytes@,
            b.len() == 16 + sw * sh * 4,
            blen == b.len(),
            y <= ch,
            spec == core_depth(b, sw as int, guard as int, cw as int, ch as int),
            out@.len() == y * cw,
            forall|k: int| 0 <= k < out@.len() ==> #[trigger] out@[k] == spec[k],
        decreases ch - y,
    {
        let mut x: u64 = 0;
        while x < cw
            invariant
                1 <= cw <= 4096,
                1 <= ch <= 4096,
                guard + cw <= sw,
                guard + ch <= sh,
                b == bytes@,
                b.len() == 16 + sw * sh * 4,
                blen == b.len(),
                y < ch,
                x <= cw,
                spec == core_depth(b, sw as int, guard as int, cw as int, ch as int),
                out@.len() == y * cw + x,
                forall|k: int| 0 <= k < out@.len() ==> #[trigger] out@[k] == spec[k],
            decreases cw - x,
        {
            proof {
                lemma_index(sw as int, sh as int, (x + guard) as int, (y + guard) as int);
                lemma_index(cw as int, ch as int, x as int, y as int);
                assert((y + guard) * sw + x + guard < sw * sh);
                assert(16 + ((y + guard) * sw + x + guard) * 4 + 4 <= blen);
            }
            let o = (16 + ((y + guard) * sw + x + guard) * 4) as usize;
            let v = (bytes[o] as u32) + 256 * (bytes[o + 1] as u32) + 65536 * (bytes[o + 2] as u32) + 16777216 * (
            bytes[o + 3] as u32);
            let ghost k = out@.len() as int;
            proof {
                assert(k == grid_index(cw as int, x as int, y as int));
                assert(v == depth_value(b.subrange(o as int, o + 4)));
                assert(spec[k] == core_depth_at(b, sw as int, guard as int, x as int, y as int) as u32);
            }
            out.push(v);
            x += 1;
        }
        proof {
            assert(out@.len() == (y + 1) * cw) by (nonlinear_arith)
                requires
                    out@.len() == y * cw + cw,
            ;
        }
        y += 1;
    }
    proof {
        assert(cw * ch == ch * cw) by (nonlinear_arith);
        assert(out@ =~= spec);
    }
    Ok(out)
}

fn slice_prefix16(bytes: &[u8]) -> (r: Vec<u8>)
    requires
        bytes@.len() >= 16,
    ensures
        r@ == bytes@.subrange(0, 16),
{
    let mut r: Vec<u8> = Vec::new();
    let mut i: usize = 0;
    while i < 16
        invariant
            i <= 16,
            bytes@.len() >= 16,
            r@ == bytes@.subrange(0, i as int),
        decreases 16 - i,
    {
        r.push(bytes[i]);
        i += 1;
        assert(r@ =~= bytes@.subrange(0, i as int));
    }
    r
}


/// The palettes and outline color of the three repair candidates.
#[derive(Clone, Debug, Eq, PartialEq)]
pub struct RepairPalettes {
    /// Palette of the RGB-only abstraction.
    pub base: Vec<Rgb>,
    /// Palette of the geometry-guided abstraction.
    pub geometry: Vec<Rgb>,
    /// Palette of repaired canopy.
    pub canopy: Vec<Rgb>,
    /// Color of structural outlines.
    pub outline: Rgb,
}

/// Everything the repair study derives from one registered bundle, before any file is written.
#[derive(Clone, Debug)]
pub struct RepairStudy {
    /// The six review images in output order: identifier, label and pixels.
    pub images: Vec<(String, String, RgbImage)>,
    /// High-confidence canopy repair mask at logical scale.
    pub canopy: Vec<bool>,
    /// Depth and normal structural edges at logical scale.
    pub structural: Vec<bool>,
    /// Measurements of the three candidates.
    pub candidates: Vec<CandidateMetrics>,
    /// Qualification gates of the measurements.
    pub gates: ReviewGates,
    /// Pixels in the canopy mask.
    pub canopy_pixels: u64,
    /// Pixels in the structural mask.
    pub structural_edge_pixels: u64,
    /// Conservative peak working bytes.
    pub estimated_peak_working_bytes: u64,
}

/// Number of set entries of a mask.
pub open spec fn mask_count(m: Seq<bool>) -> nat {
    count_true(m.len(), |i: int| m[i])
}

fn count_mask(m: &Vec<bool>) -> (r: u64)
    ensures
        r == mask_count(m@),
{
    let mut c: u64 = 0;
    let mut i: usize = 0;
    while i < m.len()
        invariant
            i <= m@.len(),
            c == count_true(i as nat, |k: int| m@[k]),
            c <= i,
        decreases m@.len() - i,
    {
        if m[i] {
            c = c + 1;
        }
        i += 1;
    }
    c
}

/// The identifiers and labels of the six review images, in output order.
pub open spec fn study_image_names() -> Seq<(Seq<char>, Seq<char>)> {
    seq![
        ("source-logical"@, "Google source at logical scale"@),
        ("candidate-a-rgb"@, "Candidate A: RGB-only abstraction"@),
        ("candidate-b-geometry"@, "Candidate B: geometry-guided abstraction"@),
        ("candidate-c-canopy-repair"@, "Candidate C: filtered architecture plus canopy repair"@),
        ("canopy-mask"@, "High-confidence canopy repair mask"@),
        ("structural-edges"@, "Depth and normal structural edges"@),
    ]
}

/// The 2x2 mean of a row-major RGB sequence `w` wide at logical pixel `(x, y)`.
pub open spec fn reduced_seq_pixel(p: Seq<Rgb>, w: int, x: int, y: int) -> Rgb {
    let p0 = p[(2 * y) * w + 2 * x];
    let p1 = p[(2 * y) * w + 2 * x + 1];
    let p2 = p[(2 * y + 1) * w + 2 * x];
    let p3 = p[(2 * y + 1) * w + 2 * x + 1];
    [mean4(p0[0], p1[0], p2[0], p3[0]), mean4(p0[1], p1[1], p2[1], p3[1]), mean4(p0[2], p1[2], p2[2], p3[2])]
}

/// The logical source is the 2x2 reduction of the decoded color core.
pub open spec fn study_source_ok(manifest: ReferenceManifest, color_png: Seq<u8>, source: RgbImage) -> bool {
    let cw = manifest.tile.core_width_px as int;
    let ch = manifest.tile.core_height_px as int;
    &&& first_layer(manifest.layers@, LayerKind::Color) is Some
    &&& png_frame_of(color_png) is Some
    &&& source.width * 2 == cw && source.height * 2 == ch
    &&& source.pixels@.len() == source.width * source.height
    &&& forall|i: int|
        0 <= i < source.pixels@.len() ==> #[trigger] source.pixels@[i] == reduced_seq_pixel(
            core_rgb(
                png_frame_of(color_png)->0,
                first_layer(manifest.layers@, LayerKind::Color)->0.width_px as int,
                manifest.tile.guard_px as int,
                cw,
                ch,
            ),
            cw,
            i % (source.width as int),
            i / (source.width as int),
        )
}

fn named(id: &str, label: &str, image: RgbImage) -> (r: (String, String, RgbImage))
    ensures
        r.0@ == id@ && r.1@ == label@ && r.2 == image,
{
    (id.to_string(), label.to_string(), image)
}

proof fn lemma_smooth_len(cur: Seq<Rgb>, w: int, h: int, nm: Option<Seq<Rgb>>, d: Option<Seq<u32>>, n: nat)
    ensures
        smooth_iter(cur, w, h, nm, d, n).len() == cur.len(),
    decreases n,
{
    if n > 0 {
        lemma_smooth_len(cur, w, h, nm, d, (n - 1) as nat);
    }
}

/// The palette sizes the three candidates are drawn with: base and geometry palettes of 1 to
/// 128 colors and a canopy palette of 2 to 128 shades.
pub open spec fn palettes_ok(p: RepairPalettes) -> bool {
    &&& 1 <= p.base@.len() <= 128
    &&& 1 <= p.geometry@.len() <= 128
    &&& 2 <= p.canopy@.len() <= 128
}

/// Refuses palettes the candidates cannot be drawn with.
pub fn check_palettes(palettes: &RepairPalettes) -> (r: Result<(), StylizeError>)
    ensures
        r is Ok <==> palettes_ok(*palettes),
        r matches Err(e) ==> e matches StylizeError::Invalid(m) && m@
            == "repair palettes need 1 to 128 colors and 2 to 128 canopy shades"@,
{
    if palettes.base.len() < 1 || palettes.base.len() > 128 || palettes.geometry.len() < 1 || palettes.geometry.len()
        > 128 || palettes.canopy.len() < 2 || palettes.canopy.len() > 128 {
        return Err(StylizeError::Invalid("repair palettes need 1 to 128 colors and 2 to 128 canopy shades".to_string()));
    }
    Ok(())
}

/// Every color a candidate can be drawn with: the three palettes and the outline.
pub open spec fn repair_colors(p: RepairPalettes) -> Seq<Rgb> {
    p.base@ + p.geometry@ + p.canopy@ + seq![p.outline]
}

proof fn lemma_in_colors(p: RepairPalettes, c: Rgb)
    requires
        p.base@.contains(c) || p.geometry@.contains(c) || p.canopy@.contains(c) || c == p.outline,
    ensures
        repair_colors(p).contains(c),
{
    let t = repair_colors(p);
    let nb = p.base@.len() as int;
    let ng = p.geometry@.len() as int;
    let nc = p.canopy@.len() as int;
    if p.base@.contains(c) {
        let k = choose|k: int| 0 <= k < nb && p.base@[k] == c;
        assert(t[k] == c);
    } else if p.geometry@.contains(c) {
        let k = choose|k: int| 0 <= k < ng && p.geometry@[k] == c;
        assert(t[nb + k] == c);
    } else if p.canopy@.contains(c) {
        let k = choose|k: int| 0 <= k < nc && p.canopy@[k] == c;
        assert(t[nb + ng + k] == c);
    } else {
        assert(t[nb + ng + nc] == c);
    }
}

proof fn lemma_colors_within(s: Seq<Rgb>, t: Seq<Rgb>)
    requires
        forall|i: int| 0 <= i < s.len() ==> t.contains(#[trigger] s[i]),
    ensures
        s.to_set().len() <= t.len(),
{
    broadcast use vstd::seq_lib::seq_to_set_is_finite;
    assert forall|c: Rgb| s.to_set().contains(c) implies t.to_set().contains(c) by {
        let i = choose|i: int| 0 <= i < s.len() && s[i] == c;
        assert(t.contains(s[i]));
    }
    vstd::set_lib::lemma_len_subset(s.to_set(), t.to_set());
    t.lemma_cardinality_of_set();
}

/// Whether the raw layers of a bundle decode to their saved cores and reduce to logical scale:
/// both PNGs and the depth layer hold their registered cores, and the core has even sides.
pub open spec fn layers_ok(manifest: ReferenceManifest, color_png: Seq<u8>, normal_png: Seq<u8>, depth: Seq<u8>) -> bool {
    &&& core_png_ok(manifest, LayerKind::Color, color_png)
    &&& core_png_ok(manifest, LayerKind::ViewNormal, normal_png)
    &&& core_depth_ok(manifest, depth)
    &&& manifest.tile.core_width_px % 2 == 0
    &&& manifest.tile.core_height_px % 2 == 0
}

/// The relit pixels of `image` under `normals`: each pixel shaded by its normal against the
/// radius-18 mean luminance.
pub open spec fn relit_pixels(image: Seq<Rgb>, normals: Seq<Rgb>, w: int, h: int) -> Seq<Rgb> {
    let illumination = box_blur_spec(luma_of(image), w, h, 18);
    Seq::new(image.len(), |i: int| relit_px(image[i], normals[i], illumination[i]))
}

/// Whether pixel `i` is drawn as a structural outline: a structural edge outside the interior
/// of the canopy.
pub open spec fn outlined(structural: Seq<bool>, canopy: Seq<bool>, i: int, w: int, h: int) -> bool {
    structural[i] && !interior(canopy, i, w, h)
}

/// A `w` by `h` black image with the set entries of a mask in white.
pub open spec fn mask_visual(image: RgbImage, m: Seq<bool>, w: int, h: int) -> bool {
    &&& image.width == w && image.height == h && image.pixels@.len() == m.len()
    &&& forall|i: int|
        0 <= i < m.len() ==> #[trigger] image.pixels@[i] == if m[i] {
            [255u8, 255u8, 255u8]
        } else {
            [0u8, 0u8, 0u8]
        }
}

/// How the study derives its candidates `a`, `b`, `c` and its masks from `w` by `h` logical
/// source pixels, normals and depths:
/// - candidate A is the twice-smoothed source quantized to the base palette;
/// - the canopy mask is the closed canopy evidence of the geometry-smoothed, relit source,
///   without components under 64 pixels; the structural mask is the depth and normal edges;
/// - candidate B is the relit source quantized to the geometry palette, with structural outlines;
/// - candidate C is candidate A with its canopy replaced by canopy shades, with structural
///   outlines.
pub open spec fn candidates_composed(
    a: Seq<Rgb>,
    b: Seq<Rgb>,
    c: Seq<Rgb>,
    canopy: Seq<bool>,
    structural: Seq<bool>,
    source: Seq<Rgb>,
    normals: Seq<Rgb>,
    depth: Seq<u32>,
    w: int,
    h: int,
    p: RepairPalettes,
) -> bool {
    let rgb_smooth = smooth_iter(source, w, h, None, None, 2);
    let relit = relit_pixels(smooth_iter(source, w, h, Some(normals), Some(depth), 2), normals, w, h);
    let crown = box_blur_spec(luma_of(relit), w, h, 4);
    &&& structural == structural_mask(normals, depth, w, h)
    &&& small_components_removed(erode3(dilate3(canopy_raw(relit, normals, w, h), w, h), w, h), w, h, 64, canopy)
    &&& a.len() == w * h && b.len() == w * h && c.len() == w * h
    &&& forall|i: int| 0 <= i < w * h ==> nearest_color(p.base@, rgb_smooth[i], #[trigger] a[i])
    &&& forall|i: int|
        0 <= i < w * h ==> if outlined(structural, canopy, i, w, h) {
            #[trigger] b[i] == p.outline
        } else {
            nearest_color(p.geometry@, relit[i], b[i])
        }
    &&& forall|i: int|
        0 <= i < w * h ==> #[trigger] c[i] == if outlined(structural, canopy, i, w, h) {
            p.outline
        } else {
            replaced_px(a, p.canopy@, normals, crown, canopy, w, h, i)
        }
}

/// The products of the study on `w` by `h` logical source pixels, normals and depths: the
/// candidates and masks as `candidates_composed` derives them, the two mask images, and the
/// peak memory estimate for `w * h` logical pixels.
pub open spec fn study_composed(
    s: RepairStudy,
    source: Seq<Rgb>,
    normals: Seq<Rgb>,
    depth: Seq<u32>,
    w: int,
    h: int,
    p: RepairPalettes,
) -> bool {
    &&& candidates_composed(
        s.images@[1].2.pixels@,
        s.images@[2].2.pixels@,
        s.images@[3].2.pixels@,
        s.canopy@,
        s.structural@,
        source,
        normals,
        depth,
        w,
        h,
        p,
    )
    &&& mask_visual(s.images@[4].2, s.canopy@, w, h)
    &&& mask_visual(s.images@[5].2, s.structural@, w, h)
    &&& s.estimated_peak_working_bytes == SOURCE_DECODE_BYTES + SOURCE_CORE_BYTES + w * h * LOGICAL_BYTES_PER_PIXEL
}

/// The logical-scale normals of a bundle: the 2x2 reduction of its decoded normal core.
pub open spec fn logical_normals(manifest: ReferenceManifest, normal_png: Seq<u8>) -> Seq<Rgb> {
    let cw = manifest.tile.core_width_px as int;
    let ch = manifest.tile.core_height_px as int;
    let core = core_rgb(
        png_frame_of(normal_png)->0,
        first_layer(manifest.layers@, LayerKind::ViewNormal)->0.width_px as int,
        manifest.tile.guard_px as int,
        cw,
        ch,
    );
    Seq::new(((cw / 2) * (ch / 2)) as nat, |i: int| reduced_seq_pixel(core, cw, i % (cw / 2), i / (cw / 2)))
}

/// The logical-scale depths of a bundle: the 2x2 median reduction of its depth core.
pub open spec fn logical_depths(manifest: ReferenceManifest, depth: Seq<u8>) -> Seq<u32> {
    let cw = manifest.tile.core_width_px as int;
    let ch = manifest.tile.core_height_px as int;
    let core = core_depth(
        depth,
        first_layer(manifest.layers@, LayerKind::LinearDepth)->0.width_px as int,
        manifest.tile.guard_px as int,
        cw,
        ch,
    );
    Seq::new(((cw / 2) * (ch / 2)) as nat, |i: int| reduced_depth(core, cw, i % (cw / 2), i / (cw / 2)))
}

/// Decodes the color, normal and depth cores of a bundle and reduces each to logical scale.
fn logical_layers(manifest: &ReferenceManifest, color_png: &[u8], normal_png: &[u8], depth: &[u8]) -> (r: Result<
    (RgbImage, RgbImage, Vec<u32>),
    StylizeError,
>)
    ensures
        r is Ok <==> layers_ok(*manifest, color_png@, normal_png@, depth@),
        r matches Ok(v) ==> image_ok(v.0) && image_ok(v.1) && v.1.width == v.0.width && v.1.height == v.0.height
            && v.2@.len() == v.0.pixels@.len() && study_source_ok(*manifest, color_png@, v.0)
            && v.1.pixels@ == logical_normals(*manifest, normal_png@) && v.2@ == logical_depths(*manifest, depth@),
{
    let color = match decode_core_png(manifest, LayerKind::Color, color_png) {
        Ok(v) => v,
        Err(e) => return Err(e),
    };
    let logical = match reduce_rgb_2x(&color) {
        Ok(v) => v,
        Err(e) => return Err(e),
    };
    let normal = match decode_core_png(manifest, LayerKind::ViewNormal, normal_png) {
        Ok(v) => v,
        Err(e) => return Err(e),
    };
    let normals = match reduce_rgb_2x(&normal) {
        Ok(v) => v,
        Err(e) => return Err(e),
    };
    let source_depth = match decode_core_depth(manifest, depth) {
        Ok(v) => v,
        Err(e) => return Err(e),
    };
    let logical_depth = match reduce_depth_2x(color.width, color.height, source_depth.as_slice()) {
        Ok(v) => v,
        Err(e) => return Err(e),
    };
    if normals.width != logical.width || normals.height != logical.height || logical_depth.len() != logical.pixels.len() {
        return Err(StylizeError::Invalid("repair study layers disagree on the logical grid".to_string()));
    }
    proof {
        assert forall|i: int| 0 <= i < logical.pixels@.len() implies #[trigger] logical.pixels@[i] == reduced_seq_pixel(
            color.pixels@,
            color.width as int,
            i % (logical.width as int),
            i / (logical.width as int),
        ) by {
            assert(logical.pixels@[i] == reduced_pixel(color, i % logical.width as int, i / logical.width as int));
        }
        let cw = manifest.tile.core_width_px as int;
        let ch = manifest.tile.core_height_px as int;
        assert(normal.width == cw && normal.height == ch && color.width == cw && color.height == ch);
        assert(normals.width == cw / 2 && normals.height == ch / 2);
        assert(normals.pixels@ =~= logical_normals(*manifest, normal_png@)) by {
            assert forall|i: int| 0 <= i < normals.pixels@.len() implies #[trigger] normals.pixels@[i] == logical_normals(
                *manifest,
                normal_png@,
            )[i] by {
                assert(normals.pixels@[i] == reduced_pixel(normal, i % normals.width as int, i / normals.width as int));
            }
        }
        assert(logical_depth@ =~= logical_depths(*manifest, depth@));
    }
    Ok((logical, normals, logical_depth))
}

/// The three candidates and the two masks of the repair study on logical-scale layers.
#[verifier::rlimit(100)]
#[verifier::spinoff_prover]
fn study_images(logical: &RgbImage, normals: &RgbImage, logical_depth: &Vec<u32>, palettes: &RepairPalettes) -> (r: Result<
    (RgbImage, RgbImage, RgbImage, Vec<bool>, Vec<bool>),
    StylizeError,
>)
    requires
        image_ok(*logical),
        image_ok(*normals),
        normals.width == logical.width && normals.height == logical.height,
        logical_depth@.len() == logical.pixels@.len(),
        palettes_ok(*palettes),
    ensures
        r matches Ok(v) && {
            &&& image_ok(v.0) && image_ok(v.1) && image_ok(v.2)
            &&& v.0.width == logical.width && v.0.height == logical.height
            &&& v.1.width == logical.width && v.1.height == logical.height
            &&& v.2.width == logical.width && v.2.height == logical.height
            &&& v.3@.len() == logical.pixels@.len() && v.4@.len() == logical.pixels@.len()
            &&& forall|i: int| 0 <= i < v.0.pixels@.len() ==> repair_colors(*palettes).contains(#[trigger] v.0.pixels@[i])
            &&& forall|i: int| 0 <= i < v.1.pixels@.len() ==> repair_colors(*palettes).contains(#[trigger] v.1.pixels@[i])
            &&& forall|i: int| 0 <= i < v.2.pixels@.len() ==> repair_colors(*palettes).contains(#[trigger] v.2.pixels@[i])
            &&& candidates_composed(
                v.0.pixels@,
                v.1.pixels@,
                v.2.pixels@,
                v.3@,
                v.4@,
                logical.pixels@,
                normals.pixels@,
                logical_depth@,
                logical.width as int,
                logical.height as int,
                *palettes,
            )
        },
{
    let rgb_smooth = match edge_aware_smooth(&logical, None, None, 2) {
        Ok(v) => v,
        Err(e) => return Err(e),
    };
    proof {
        lemma_smooth_len(logical.pixels@, logical.width as int, logical.height as int, None, None, 2);
    }
    let candidate_a = match quantize(&rgb_smooth, &palettes.base) {
        Ok(v) => v,
        Err(e) => return Err(e),
    };
    let geometry_smooth = match edge_aware_smooth(&logical, Some(&normals), Some(logical_depth.as_slice()), 2) {
        Ok(v) => v,
        Err(e) => return Err(e),
    };
    proof {
        lemma_smooth_len(
            logical.pixels@,
            logical.width as int,
            logical.height as int,
            Some(normals.pixels@),
            Some(logical_depth@),
            2,
        );
    }
    let relit = match relight(&geometry_smooth, &normals) {
        Ok(v) => v,
        Err(e) => return Err(e),
    };
    let canopy = match canopy_mask(&relit, &normals) {
        Ok(v) => v,
        Err(e) => return Err(e),
    };
    let structural = match structural_edges(&normals, logical_depth.as_slice()) {
        Ok(v) => v,
        Err(e) => return Err(e),
    };
    let geometry = match quantize(&relit, &palettes.geometry) {
        Ok(v) => v,
        Err(e) => return Err(e),
    };
    let candidate_b = match apply_structural_outlines(&geometry, &structural, &canopy, palettes.outline) {
        Ok(v) => v,
        Err(e) => return Err(e),
    };
    let repaired = match replace_canopy(&candidate_a, &relit, &normals, &canopy, &palettes.canopy) {
        Ok(v) => v,
        Err(e) => return Err(e),
    };
    let candidate_c = match apply_structural_outlines(&repaired, &structural, &canopy, palettes.outline) {
        Ok(v) => v,
        Err(e) => return Err(e),
    };
    if structural.len() != logical.pixels.len() || canopy.len() != logical.pixels.len() || candidate_a.width
        != logical.width || candidate_a.height != logical.height || candidate_b.width != logical.width
        || candidate_b.height != logical.height || candidate_c.width != logical.width || candidate_c.height
        != logical.height || candidate_a.pixels.len() != logical.pixels.len() || candidate_b.pixels.len()
        != logical.pixels.len() || candidate_c.pixels.len() != logical.pixels.len() {
        return Err(StylizeError::Invalid("repair study stages disagree on the logical grid".to_string()));
    }
    proof {
        assert forall|i: int| 0 <= i < candidate_a.pixels@.len() implies repair_colors(*palettes).contains(
            #[trigger] candidate_a.pixels@[i],
        ) by {
            assert(nearest_color(palettes.base@, rgb_smooth.pixels@[i], candidate_a.pixels@[i]));
            let k = choose|k: int| is_nearest(palettes.base@, rgb_smooth.pixels@[i], k) && candidate_a.pixels@[i]
                == palettes.base@[k];
            assert(palettes.base@[k] == candidate_a.pixels@[i]);
            lemma_in_colors(*palettes, candidate_a.pixels@[i]);
        }
        assert forall|i: int| 0 <= i < candidate_b.pixels@.len() implies repair_colors(*palettes).contains(
            #[trigger] candidate_b.pixels@[i],
        ) by {
            if candidate_b.pixels@[i] != palettes.outline {
                assert(candidate_b.pixels@[i] == geometry.pixels@[i]);
                assert(nearest_color(palettes.geometry@, relit.pixels@[i], geometry.pixels@[i]));
                let k = choose|k: int| is_nearest(palettes.geometry@, relit.pixels@[i], k) && geometry.pixels@[i]
                    == palettes.geometry@[k];
                assert(palettes.geometry@[k] == candidate_b.pixels@[i]);
            }
            lemma_in_colors(*palettes, candidate_b.pixels@[i]);
        }
        assert forall|i: int| 0 <= i < candidate_c.pixels@.len() implies repair_colors(*palettes).contains(
            #[trigger] candidate_c.pixels@[i],
        ) by {
            if candidate_c.pixels@[i] != palettes.outline {
                assert(candidate_c.pixels@[i] == repaired.pixels@[i]);
                if !canopy@[i] {
                    assert(repaired.pixels@[i] == candidate_a.pixels@[i]);
                    assert(repair_colors(*palettes).contains(candidate_a.pixels@[i]));
                } else {
                    let c = repaired.pixels@[i];
                    let n = palettes.canopy@.len() as int;
                    assert(exists|k: int| 0 <= k < n && palettes.canopy@[k] == c);
                    lemma_in_colors(*palettes, c);
                }
            } else {
                lemma_in_colors(*palettes, candidate_c.pixels@[i]);
            }
        }
    }
    proof {
        let w = logical.width as int;
        let h = logical.height as int;
        let geometry_spec = smooth_iter(logical.pixels@, w, h, Some(normals.pixels@), Some(logical_depth@), 2);
        assert(geometry_smooth.pixels@ == geometry_spec);
        assert(relit.pixels@ =~= relit_pixels(geometry_spec, normals.pixels@, w, h));
        assert(rgb_smooth.pixels@ == smooth_iter(logical.pixels@, w, h, None, None, 2));
        assert(structural@ == structural_mask(normals.pixels@, logical_depth@, w, h));
    }
    Ok((candidate_a, candidate_b, candidate_c, canopy, structural))
}

/// The candidates, masks and measurements of the repair study on logical-scale layers.
#[verifier::rlimit(100)]
#[verifier::spinoff_prover]
fn study_candidates(logical: RgbImage, normals: &RgbImage, logical_depth: &Vec<u32>, palettes: &RepairPalettes) -> (r: Result<
    RepairStudy,
    StylizeError,
>)
    requires
        image_ok(logical),
        image_ok(*normals),
        normals.width == logical.width && normals.height == logical.height,
        logical_depth@.len() == logical.pixels@.len(),
        palettes_ok(*palettes),
    ensures
        r matches Ok(s) && study_ok(s, logical) && study_composed(
            s,
            logical.pixels@,
            normals.pixels@,
            logical_depth@,
            logical.width as int,
            logical.height as int,
            *palettes,
        ),
{
    let (candidate_a, candidate_b, candidate_c, canopy, structural) = match study_images(&logical, normals, logical_depth, palettes) {
        Ok(v) => v,
        Err(e) => return Err(e),
    };
    let canopy_visual = match mask_image(&canopy, logical.width, logical.height) {
        Ok(v) => v,
        Err(e) => return Err(e),
    };
    let structural_visual = match mask_image(&structural, logical.width, logical.height) {
        Ok(v) => v,
        Err(e) => return Err(e),
    };
    proof {
        lemma_colors_within(candidate_a.pixels@, repair_colors(*palettes));
        lemma_colors_within(candidate_b.pixels@, repair_colors(*palettes));
        lemma_colors_within(candidate_c.pixels@, repair_colors(*palettes));
    }
    let mut candidates: Vec<CandidateMetrics> = Vec::new();
    candidates.push(measure_candidate("candidate-a-rgb", &logical, &candidate_a, &structural, &canopy));
    candidates.push(measure_candidate("candidate-b-geometry", &logical, &candidate_b, &structural, &canopy));
    candidates.push(measure_candidate("candidate-c-canopy-repair", &logical, &candidate_c, &structural, &canopy));
    let gates = review_gates(&candidates);
    proof {
        assert(logical.pixels@.len() <= 4096 * 4096) by (nonlinear_arith)
            requires
                logical.pixels@.len() == logical.width * logical.height,
                logical.width <= 4096,
                logical.height <= 4096,
        ;
    }
    let estimated_peak_working_bytes = match estimate_peak_bytes(logical.pixels.len()) {
        Ok(v) => v,
        Err(e) => return Err(e),
    };
    let canopy_pixels = count_mask(&canopy);
    let structural_edge_pixels = count_mask(&structural);
    let ghost source_spec = logical;
    let mut images: Vec<(String, String, RgbImage)> = Vec::new();
    images.push(named("source-logical", "Google source at logical scale", logical));
    images.push(named("candidate-a-rgb", "Candidate A: RGB-only abstraction", candidate_a));
    images.push(named("candidate-b-geometry", "Candidate B: geometry-guided abstraction", candidate_b));
    images.push(named("candidate-c-canopy-repair", "Candidate C: filtered architecture plus canopy repair", candidate_c));
    images.push(named("canopy-mask", "High-confidence canopy repair mask", canopy_visual));
    images.push(named("structural-edges", "Depth and normal structural edges", structural_visual));
    proof {
        assert forall|k: int| 0 <= k < 6 implies image_ok((#[trigger] images@[k]).2) by {
            if k == 4 {
                assert(images@[k].2 == canopy_visual);
            } else if k == 5 {
                assert(images@[k].2 == structural_visual);
            }
        }
    }
    Ok(RepairStudy {
        images,
        canopy,
        structural,
        candidates,
        gates,
        canopy_pixels,
        structural_edge_pixels,
        estimated_peak_working_bytes,
    })
}

/// What the study states of its products: the six named images with the logical source first,
/// each candidate measured against the source under the two masks, the gates of those
/// measurements, and the mask counts.
pub open spec fn study_ok(s: RepairStudy, source: RgbImage) -> bool {
    &&& s.images@.len() == 6
    &&& forall|k: int| 0 <= k < 6 ==> (#[trigger] s.images@[k]).0@ == study_image_names()[k].0 && s.images@[k].1@
        == study_image_names()[k].1
    &&& s.images@[0].2 == source
    &&& forall|k: int| 0 <= k < 6 ==> image_ok((#[trigger] s.images@[k]).2)
    &&& s.candidates@.len() == 3
    &&& measured(s.candidates@[0], "candidate-a-rgb"@, s.images@[0].2, s.images@[1].2, s.structural@, s.canopy@)
    &&& measured(s.candidates@[1], "candidate-b-geometry"@, s.images@[0].2, s.images@[2].2, s.structural@, s.canopy@)
    &&& measured(s.candidates@[2], "candidate-c-canopy-repair"@, s.images@[0].2, s.images@[3].2, s.structural@, s.canopy@)
    &&& s.gates.palette_bound == (forall|k: int| 0 <= k < 3 ==> (#[trigger] s.candidates@[k]).colors_used <= 128)
    &&& s.gates.structural_edge_recall == (s.candidates@[1].structural_edge_recall_basis_points >= 9_000)
    &&& s.gates.canopy_fragmentation_improved == (s.candidates@[2].canopy_interior_edge_ppm
        < s.candidates@[0].canopy_interior_edge_ppm)
    &&& s.gates.deterministic_post_capture && s.gates.passenger_cars_preserved_by_policy
    &&& !s.gates.qualified_for_expansion
    &&& s.canopy_pixels == mask_count(s.canopy@)
    &&& s.structural_edge_pixels == mask_count(s.structural@)
}

/// Runs the reference repair study on the raw layers of one registered bundle: checks the
/// qualified capture and the palettes, decodes the color and normal cores and the depth core,
/// reduces them to logical scale, derives the three candidates with the given palettes, the
/// canopy and structural masks (as `study_composed` states), and measures each candidate. It
/// succeeds exactly when the
/// capture is the qualified one, the palettes can draw the candidates and the three layers hold
/// their registered cores.
pub fn repair_study(
    manifest: &ReferenceManifest,
    color_png: &[u8],
    normal_png: &[u8],
    depth: &[u8],
    palettes: &RepairPalettes,
) -> (r: Result<RepairStudy, StylizeError>)
    ensures
        r is Ok <==> (capture_contract_ok(*manifest) && palettes_ok(*palettes) && layers_ok(
            *manifest,
            color_png@,
            normal_png@,
            depth@,
        )),
        !capture_contract_ok(*manifest) ==> (r matches Err(StylizeError::Invalid(m)) && m@
            == "reference repair requires the qualified 330/42 degree, 125 mm Google capture"@),
        r matches Ok(s) ==> study_ok(s, s.images@[0].2) && study_source_ok(*manifest, color_png@, s.images@[0].2)
            && study_composed(
            s,
            s.images@[0].2.pixels@,
            logical_normals(*manifest, normal_png@),
            logical_depths(*manifest, depth@),
            manifest.tile.core_width_px as int / 2,
            manifest.tile.core_height_px as int / 2,
            *palettes,
        ),
{
    match check_capture_contract(manifest) {
        Ok(()) => {},
        Err(e) => return Err(e),
    }
    match check_palettes(palettes) {
        Ok(()) => {},
        Err(e) => return Err(e),
    }
    let (logical, normals, logical_depth) = match logical_layers(manifest, color_png, normal_png, depth) {
        Ok(v) => v,
        Err(e) => return Err(e),
    };
    let ghost source = logical;
    match study_candidates(logical, &normals, &logical_depth, palettes) {
        Ok(s) => {
            assert(s.images@[0].2 == source);
            Ok(s)
        },
        Err(e) => Err(e),
    }
}


/// The opaque RGBA bytes of RGB pixels.
pub open spec fn rgba_bytes(pixels: Seq<Rgb>) -> Seq<u8> {
    Seq::new(pixels.len() * 4, |b: int| if b % 4 == 3 { 255u8 } else { pixels[b / 4][b % 4] })
}

fn opaque_rgba(pixels: &Vec<Rgb>) -> (r: Vec<u8>)
    requires
        pixels@.len() <= 16_777_216,
    ensures
        r@ == rgba_bytes(pixels@),
{
    let mut out: Vec<u8> = Vec::new();
    let mut i: usize = 0;
    while i < pixels.len()
        invariant
            i <= pixels@.len() <= 16_777_216,
            out@ == rgba_bytes(pixels@.take(i as int)),
        decreases pixels@.len() - i,
    {
        let p = pixels[i];
        out.push(p[0]);
        out.push(p[1]);
        out.push(p[2]);
        out.push(255);
        proof {
            assert(out@ =~= rgba_bytes(pixels@.take(i + 1)));
        }
        i += 1;
    }
    assert(pixels@.take(i as int) =~= pixels@);
    out
}

/// The deterministic RGBA PNG of a review image.
pub open spec fn review_png(image: RgbImage) -> Seq<u8> {
    let w = image.width as int;
    png_file(
        image.width as u32,
        image.height as u32,
        PngColorType::Rgba,
        filtered_rows(rgba_bytes(image.pixels@), w * 4, 0, 0, w * 4, image.height as int),
    )
}

/// The record of review image `k` written as `png`: its identity, allowlisted path, size,
/// encoded length and digest.
pub open spec fn review_record_of(record: ReviewImageRecord, png: Seq<u8>, image: (String, String, RgbImage), k: int) -> bool {
    &&& record.id@ == image.0@ && record.label@ == image.1@
    &&& record.path@ == output_image_name(k)
    &&& record.width_px == image.2.width && record.height_px == image.2.height
    &&& png == review_png(image.2)
    &&& record.byte_length == png.len()
    &&& record.sha256@ == hex_spec(sha256_spec(png))
}

/// The review blockers every report carries.
pub open spec fn blocking_findings() -> Seq<Seq<char>> {
    seq![
        "construction-region-lacks-an-accepted-instance-mask"@,
        "candidate-c-repairs-only-high-confidence-canopy"@,
        "visual-style-approval-is-human-owned"@,
    ]
}

/// The report assembled from a study of a bundle whose manifest digest is `sha`, with the
/// encoded PNGs of its six images.
pub open spec fn report_of_study(
    r: RepairReviewReport,
    pngs: Seq<Vec<u8>>,
    manifest: ReferenceManifest,
    sha: Seq<char>,
    study: RepairStudy,
) -> bool {
    &&& r.schema@ == REVIEW_SCHEMA@ && r.algorithm@ == ALGORITHM_ID@
    &&& r.source_bundle_id@ == manifest.bundle_id@ && r.source_manifest_sha256@ == sha
    &&& r.source_millimeters_per_pixel == manifest.tile.millimeters_per_pixel
    &&& r.logical_millimeters_per_pixel == 2 * manifest.tile.millimeters_per_pixel
    &&& r.camera_azimuth_millidegrees == manifest.camera.azimuth_millidegrees
    &&& r.camera_elevation_millidegrees == manifest.camera.elevation_millidegrees
    &&& r.images@.len() == 6 && pngs.len() == 6
    &&& forall|k: int| 0 <= k < 6 ==> review_record_of(#[trigger] r.images@[k], pngs[k]@, study.images@[k], k)
    &&& r.candidates@ == study.candidates@
    &&& r.canopy_pixels == study.canopy_pixels && r.structural_edge_pixels == study.structural_edge_pixels
    &&& r.estimated_peak_working_bytes == study.estimated_peak_working_bytes
    &&& r.gates == study.gates
    &&& r.blocking_findings@.len() == 3
    &&& forall|k: int| 0 <= k < 3 ==> (#[trigger] r.blocking_findings@[k])@ == blocking_findings()[k]
}

fn copy_metrics(m: &CandidateMetrics) -> (r: CandidateMetrics)
    ensures
        r == *m,
{
    CandidateMetrics {
        candidate_id: m.candidate_id.clone(),
        colors_used: m.colors_used,
        structural_edge_recall_basis_points: m.structural_edge_recall_basis_points,
        non_structural_edge_ppm: m.non_structural_edge_ppm,
        mean_luminance_microunits: m.mean_luminance_microunits,
        changed_from_source_ppm: m.changed_from_source_ppm,
        canopy_interior_edge_ppm: m.canopy_interior_edge_ppm,
    }
}

fn review_image(image: &(String, String, RgbImage), k: usize) -> (r: (ReviewImageRecord, Vec<u8>))
    requires
        k < 6,
        image_ok(image.2),
    ensures
        review_record_of(r.0, r.1@, *image, k as int),
{
    let img = &image.2;
    proof {
        assert(img.pixels@.len() <= 16_777_216) by (nonlinear_arith)
            requires
                img.pixels@.len() == img.width * img.height,
                img.width <= 4096,
                img.height <= 4096,
        ;
    }
    let raw = opaque_rgba(&img.pixels);
    let width = img.width as u32;
    let height = img.height as u32;
    proof {
        assert(raw@.len() == width * 4 * height) by (nonlinear_arith)
            requires
                raw@.len() == img.pixels@.len() * 4,
                img.pixels@.len() == img.width * img.height,
                width == img.width,
                height == img.height,
        ;
    }
    let png = match encode_raw_png(raw.as_slice(), width, height, PngColorType::Rgba) {
        Ok(bytes) => bytes,
        Err(_) => {
            assert(false);
            Vec::new()
        },
    };
    let record = ReviewImageRecord {
        id: image.0.clone(),
        label: image.1.clone(),
        path: output_image_name_of(k).to_string(),
        width_px: width,
        height_px: height,
        byte_length: png.len() as u64,
        sha256: sha256_hex(png.as_slice()),
    };
    (record, png)
}

/// Assembles the review report of a repair study: the six images as deterministic opaque RGBA
/// PNGs with their allowlisted records, the study's measurements, mask counts, memory estimate
/// and gates, and the three blocking findings. Returns the report and the PNG bytes in record
/// order.
pub fn repair_report(manifest: &ReferenceManifest, source_manifest_sha256: &str, study: &RepairStudy) -> (r: (
    RepairReviewReport,
    Vec<Vec<u8>>,
))
    requires
        capture_contract_ok(*manifest),
        study_ok(*study, study.images@[0].2),
    ensures
        report_of_study(r.0, r.1@, *manifest, source_manifest_sha256@, *study),
{
    let mut images: Vec<ReviewImageRecord> = Vec::new();
    let mut pngs: Vec<Vec<u8>> = Vec::new();
    let mut k: usize = 0;
    while k < 6
        invariant
            study_ok(*study, study.images@[0].2),
            k <= 6,
            images@.len() == k && pngs@.len() == k,
            forall|j: int| 0 <= j < k ==> review_record_of(#[trigger] images@[j], pngs@[j]@, study.images@[j], j),
        decreases 6 - k,
    {
        assert(image_ok(study.images@[k as int].2));
        let (record, png) = review_image(&study.images[k], k);
        images.push(record);
        pngs.push(png);
        k += 1;
    }
    let mut candidates: Vec<CandidateMetrics> = Vec::new();
    let mut c: usize = 0;
    while c < study.candidates.len()
        invariant
            c <= study.candidates@.len(),
            candidates@ == study.candidates@.take(c as int),
        decreases study.candidates@.len() - c,
    {
        candidates.push(copy_metrics(&study.candidates[c]));
        proof {
            assert(candidates@ =~= study.candidates@.take(c + 1));
        }
        c += 1;
    }
    assert(study.candidates@.take(c as int) =~= study.candidates@);
    let mut findings: Vec<String> = Vec::new();
    findings.push("construction-region-lacks-an-accepted-instance-mask".to_string());
    findings.push("candidate-c-repairs-only-high-confidence-canopy".to_string());
    findings.push("visual-style-approval-is-human-owned".to_string());
    let report = RepairReviewReport {
        schema: REVIEW_SCHEMA.to_string(),
        algorithm: ALGORITHM_ID.to_string(),
        source_bundle_id: manifest.bundle_id.clone(),
        source_manifest_sha256: source_manifest_sha256.to_string(),
        source_millimeters_per_pixel: manifest.tile.millimeters_per_pixel,
        logical_millimeters_per_pixel: manifest.tile.millimeters_per_pixel * 2,
        camera_azimuth_millidegrees: manifest.camera.azimuth_millidegrees,
        camera_elevation_millidegrees: manifest.camera.elevation_millidegrees,
        images,
        candidates,
        canopy_pixels: study.canopy_pixels,
        structural_edge_pixels: study.structural_edge_pixels,
        estimated_peak_working_bytes: study.estimated_peak_working_bytes,
        blocking_findings: findings,
        gates: study.gates,
    };
    (report, pngs)
}

/// Whether image `k` of a report is a valid record whose bytes match its length, digest and
/// PNG header.
pub open spec fn report_image_ok(report: RepairReviewReport, images: Seq<Vec<u8>>, k: int) -> bool {
    let record = report.images@[k];
    let bytes = images[k]@;
    &&& image_record_ok(record, k)
    &&& bytes.len() == record.byte_length && hex_spec(sha256_spec(bytes)) == record.sha256@
    &&& png_header_of(bytes) == Some((record.width_px, record.height_px, PngColor::Rgba, 8u8, false))
}

/// Validates a written repair report against the bytes of its images, in record order, and
/// summarizes it from its canonical JSON text.
pub fn validate_report(report: &RepairReviewReport, images: &Vec<Vec<u8>>, report_json: &str) -> (r: Result<
    RepairRunReport,
    StylizeError,
>)
    ensures
        r is Ok ==> report_fields_ok(*report) && images@.len() == report.images@.len() && (forall|k: int|
            0 <= k < images@.len() ==> report_image_ok(*report, images@, k)) && candidates_ok(*report)
            && report_json.spec_bytes().len() <= MAX_REPORT_BYTES,
        (report_fields_ok(*report) && images@.len() == report.images@.len() && (forall|k: int|
            0 <= k < images@.len() ==> report_image_ok(*report, images@, k)) && candidates_ok(*report)
            && report_json.spec_bytes().len() <= MAX_REPORT_BYTES) ==> (r matches Ok(run) && run.report_sha256@
            == hex_spec(sha256_spec(report_json.spec_bytes())) && run.image_count == report.images@.len()
            && run.estimated_peak_working_bytes == report.estimated_peak_working_bytes && run.qualified_for_expansion
            == report.gates.qualified_for_expansion),
        !report_fields_ok(*report) ==> (r matches Err(StylizeError::Invalid(m)) && m@
            == "reference repair report contract is invalid"@),
{
    match check_report_fields(report) {
        Ok(()) => {},
        Err(e) => return Err(e),
    }
    if images.len() != report.images.len() {
        return Err(StylizeError::Invalid("reference repair image record is invalid".to_string()));
    }
    let mut k: usize = 0;
    while k < images.len()
        invariant
            k <= images@.len(),
            images@.len() == report.images@.len(),
            report_fields_ok(*report),
            report.images@.len() == 6,
            forall|j: int| 0 <= j < k ==> report_image_ok(*report, images@, j),
        decreases images@.len() - k,
    {
        let record = &report.images[k];
        match check_image_record(record, k) {
            Ok(()) => {},
            Err(e) => {
                assert(!report_image_ok(*report, images@, k as int));
                return Err(e);
            },
        }
        match check_image_bytes(record, images[k].as_slice()) {
            Ok(()) => {},
            Err(e) => {
                assert(!report_image_ok(*report, images@, k as int));
                return Err(e);
            },
        }
        match check_png_header(images[k].as_slice(), record.width_px, record.height_px) {
            Ok(()) => {},
            Err(e) => {
                assert(!report_image_ok(*report, images@, k as int));
                return Err(e);
            },
        }
        k += 1;
    }
    match check_candidates(report) {
        Ok(()) => {},
        Err(e) => return Err(e),
    }
    run_report(report, report_json)
}

} // verus!
