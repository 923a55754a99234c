//! Bounded deterministic computer-vision kernels for registered supertiles.
use vstd::prelude::*;
use vstd::arithmetic::div_mod::{lemma_fundamental_div_mod, lemma_fundamental_div_mod_converse};
use crate::heap::{Entry, FloodQueue, entry_le};

verus! {

/// Largest accepted raster edge.
pub const MAX_DIMENSION: u32 = 4_096;
/// Largest accepted morphology radius.
pub const MAX_RADIUS: u8 = 32;
/// Binary "off" value.
pub const EDGE_OFF: u8 = 0;
/// Binary "on" value.
pub const EDGE_ON: u8 = 255;
/// Stable sentinel for pixels that no source reaches.
pub const UNREACHED_DISTANCE: u32 = 1_073_741_823;

/// Whether a grid has accepted dimensions.
pub open spec fn valid_dims(width: int, height: int) -> bool {
    1 <= width <= MAX_DIMENSION && 1 <= height <= MAX_DIMENSION
}

/// Row-major index of a grid position.
pub open spec fn grid_index(width: int, x: int, y: int) -> int {
    y * width + x
}

/// Whether a position lies inside a grid.
pub open spec fn in_grid(width: int, height: int, x: int, y: int) -> bool {
    0 <= x < width && 0 <= y < height
}

/// The value at a grid position of a row-major pixel sequence.
pub open spec fn pixel_at<T>(pixels: Seq<T>, width: int, x: int, y: int) -> T {
    pixels[grid_index(width, x, y)]
}

/// Whether every value is 0 or 255.
pub open spec fn is_binary(pixels: Seq<u8>) -> bool {
    forall|i: int| 0 <= i < pixels.len() ==> #[trigger] pixels[i] == EDGE_OFF || pixels[i] == EDGE_ON
}

/// Row-major positions: index `i` lies at column `i % width` and row `i / width`.
pub proof fn lemma_position(width: int, height: int, i: int)
    requires
        width >= 1,
        height >= 1,
        0 <= i < width * height,
    ensures
        0 <= i % width < width,
        0 <= i / width < height,
        i == grid_index(width, i % width, i / width),
{
    lemma_fundamental_div_mod(i, width);
    assert(i / width < height) by (nonlinear_arith)
        requires
            width >= 1,
            0 <= i < width * height,
            i == width * (i / width) + i % width,
            0 <= i % width < width,
    ;
    assert(0 <= i / width) by (nonlinear_arith)
        requires
            width >= 1,
            0 <= i,
    ;
    assert(i == (i / width) * width + i % width) by (nonlinear_arith)
        requires
            i == width * (i / width) + i % width,
    ;
}

/// A grid position has a unique in-range row-major index.
pub proof fn lemma_index(width: int, height: int, x: int, y: int)
    requires
        width >= 1,
        in_grid(width, height, x, y),
    ensures
        0 <= grid_index(width, x, y) < width * height,
        grid_index(width, x, y) % width == x,
        grid_index(width, x, y) / width == y,
{
    assert(0 <= y * width + x < width * height) by (nonlinear_arith)
        requires
            width >= 1,
            0 <= x < width,
            0 <= y < height,
    ;
    lemma_fundamental_div_mod_converse(y * width + x, width, y, x);
}

/// Accepted grids hold at most 2^24 pixels.
pub proof fn lemma_grid_bound(width: int, height: int)
    requires
        valid_dims(width, height),
    ensures
        1 <= width * height <= 16_777_216,
{
    assert(1 <= width * height <= 4096 * 4096) by (nonlinear_arith)
        requires
            1 <= width <= 4096,
            1 <= height <= 4096,
    ;
}

/// One row-major bounded raster.
#[derive(Debug, Eq, PartialEq)]
pub struct Raster<T> {
    width: u32,
    height: u32,
    pixels: Vec<T>,
}

/// Fail-closed geometry-kernel error.
#[derive(Clone, Debug, Eq, PartialEq)]
pub enum KernelError {
    /// Input, threshold, or arithmetic violates a bounded kernel contract.
    Invalid(String),
}

impl KernelError {
    /// Human-readable description.
    pub fn message(&self) -> (r: &str)
        ensures
            r@ == (match *self {
                KernelError::Invalid(m) => m@,
            }),
    {
        match self {
            KernelError::Invalid(message) => message.as_str(),
        }
    }
}

fn invalid(message: &str) -> (e: KernelError)
    ensures
        e matches KernelError::Invalid(m) && m@ == message@,
{
    KernelError::Invalid(message.to_string())
}

impl<T> Raster<T> {
    /// Every raster keeps accepted dimensions and an exact pixel count.
    #[verifier::type_invariant]
    spec fn grid_invariant(self) -> bool {
        &&& valid_dims(self.width as int, self.height as int)
        &&& self.pixels@.len() == self.width as int * self.height as int
    }

    /// Raster width.
    pub closed spec fn w(&self) -> int {
        self.width as int
    }

    /// Raster height.
    pub closed spec fn h(&self) -> int {
        self.height as int
    }

    /// Row-major pixels.
    pub closed spec fn px(&self) -> Seq<T> {
        self.pixels@
    }

    /// The accepted-grid facts every raster carries.
    pub fn facts(&self)
        ensures
            valid_dims(self.w(), self.h()),
            self.px().len() == self.w() * self.h(),
    {
        proof {
            use_type_invariant(self);
        }
    }

    /// Construct a raster after checking dimensions and exact pixel count.
    pub fn new(width: u32, height: u32, pixels: Vec<T>) -> (r: Result<Self, KernelError>)
        ensures
            r is Ok <==> (valid_dims(width as int, height as int) && pixels@.len() == width as int
                * height as int),
            r matches Ok(raster) ==> raster.w() == width && raster.h() == height && raster.px()
                == pixels@,
    {
        let expected = checked_pixel_count(width, height);
        match expected {
            Err(e) => Err(e),
            Ok(expected) => {
                if pixels.len() != expected {
                    return Err(invalid("raster pixel count does not match its grid"));
                }
                Ok(Raster { width, height, pixels })
            },
        }
    }

    /// Raster width.
    pub fn width(&self) -> (r: u32)
        ensures
            r == self.w(),
            1 <= r <= MAX_DIMENSION,
    {
        proof {
            use_type_invariant(self);
        }
        self.width
    }

    /// Raster height.
    pub fn height(&self) -> (r: u32)
        ensures
            r == self.h(),
            1 <= r <= MAX_DIMENSION,
    {
        proof {
            use_type_invariant(self);
        }
        self.height
    }

    /// Immutable row-major pixels.
    pub fn pixels(&self) -> (r: &[T])
        ensures
            r@ == self.px(),
            r@.len() == self.w() * self.h(),
    {
        proof {
            use_type_invariant(self);
        }
        self.pixels.as_slice()
    }

    /// Consume the raster and return its row-major storage.
    pub fn into_pixels(self) -> (r: Vec<T>)
        ensures
            r@ == self.px(),
    {
        self.pixels
    }

    fn index(&self, x: u32, y: u32) -> (r: usize)
        requires
            in_grid(self.w(), self.h(), x as int, y as int),
        ensures
            r == grid_index(self.w(), x as int, y as int),
            r < self.px().len(),
    {
        proof {
            use_type_invariant(self);
            lemma_index(self.w(), self.h(), x as int, y as int);
            lemma_grid_bound(self.w(), self.h());
        }
        y as usize * self.width as usize + x as usize
    }

    /// Check that two rasters share one grid.
    pub fn same_grid<U>(&self, other: &Raster<U>) -> (r: Result<(), KernelError>)
        ensures
            r is Ok <==> (self.w() == other.w() && self.h() == other.h()),
    {
        if self.width != other.width || self.height != other.height {
            return Err(invalid("registered kernel rasters do not share one grid"));
        }
        Ok(())
    }
}

impl<T: Clone> Clone for Raster<T> {
    fn clone(&self) -> (r: Self)
        ensures
            r.w() == self.w(),
            r.h() == self.h(),
            r.px().len() == self.px().len(),
            forall|i: int| 0 <= i < self.px().len() ==> cloned::<T>(self.px()[i], #[trigger] r.px()[i]),
    {
        proof {
            use_type_invariant(self);
        }
        Raster { width: self.width, height: self.height, pixels: self.pixels.clone() }
    }
}

impl<T: Clone> Raster<T> {
    /// Allocate a uniformly filled bounded raster.
    pub fn filled(width: u32, height: u32, value: T) -> (r: Result<Self, KernelError>)
        ensures
            r is Ok <==> valid_dims(width as int, height as int),
            r matches Ok(raster) ==> raster.w() == width && raster.h() == height && raster.px().len()
                == width * height && forall|i: int|
                0 <= i < raster.px().len() ==> vstd::pervasive::cloned::<T>(value, #[trigger] raster.px()[i]),
    {
        match checked_pixel_count(width, height) {
            Err(e) => Err(e),
            Ok(count) => {
                let mut pixels: Vec<T> = Vec::new();
                let mut i: usize = 0;
                while i < count
                    invariant
                        i <= count,
                        pixels@.len() == i,
                        forall|j: int| 0 <= j < i ==> vstd::pervasive::cloned::<T>(value, #[trigger] pixels@[j]),
                    decreases count - i,
                {
                    pixels.push(value.clone());
                    i += 1;
                }
                Raster::new(width, height, pixels)
            },
        }
    }
}

/// Four quantized gradient-normal directions used by nonmaximum suppression.
#[derive(Clone, Copy, Debug, Eq, PartialEq)]
pub enum GradientDirection {
    /// Gradient normal follows the positive or negative x axis.
    Horizontal,
    /// Gradient normal follows the rising diagonal.
    DiagonalUp,
    /// Gradient normal follows the positive or negative y axis.
    Vertical,
    /// Gradient normal follows the falling diagonal.
    DiagonalDown,
}

/// Integer depth-gradient magnitude and quantized direction.
#[derive(Debug, Eq, PartialEq)]
pub struct GradientField {
    magnitude: Raster<u32>,
    direction: Raster<GradientDirection>,
}

impl GradientField {
    /// Magnitude raster.
    pub closed spec fn mag(&self) -> Raster<u32> {
        self.magnitude
    }

    /// Direction raster.
    pub closed spec fn dir(&self) -> Raster<GradientDirection> {
        self.direction
    }

    /// Assemble a field from its two rasters; kernels check registration.
    pub fn from_parts(magnitude: Raster<u32>, direction: Raster<GradientDirection>) -> (r: Self)
        ensures
            r.mag() == magnitude,
            r.dir() == direction,
    {
        GradientField { magnitude, direction }
    }

    /// Gradient magnitudes using the L1 norm.
    pub fn magnitude(&self) -> (r: &Raster<u32>)
        ensures
            *r == self.mag(),
    {
        &self.magnitude
    }

    /// Quantized gradient-normal directions.
    pub fn direction(&self) -> (r: &Raster<GradientDirection>)
        ensures
            *r == self.dir(),
    {
        &self.direction
    }
}

/// Absolute value.
pub open spec fn abs(v: int) -> int {
    if v < 0 { -v } else { v }
}

/// Sign of an integer.
pub open spec fn sign(v: int) -> int {
    if v > 0 { 1 } else if v < 0 { -1 } else { 0 }
}

/// Doubling that saturates at `u64::MAX`.
pub open spec fn saturating_double(v: int) -> int {
    if 2 * v > u64::MAX { u64::MAX as int } else { 2 * v }
}

/// Direction quantization of a gradient vector.
pub open spec fn quantize_spec(dx: int, dy: int) -> GradientDirection {
    if saturating_double(abs(dy)) < abs(dx) {
        GradientDirection::Horizontal
    } else if saturating_double(abs(dx)) < abs(dy) {
        GradientDirection::Vertical
    } else if sign(dx) == sign(dy) {
        GradientDirection::DiagonalDown
    } else {
        GradientDirection::DiagonalUp
    }
}

/// Depth sample at a position.
pub open spec fn depth_at(depth: Seq<u32>, w: int, x: int, y: int) -> int {
    pixel_at(depth, w, x, y) as int
}

/// Horizontal Scharr response.
pub open spec fn scharr_dx(d: Seq<u32>, w: int, x: int, y: int) -> int {
    3 * (depth_at(d, w, x + 1, y - 1) - depth_at(d, w, x - 1, y - 1)) + 10 * (depth_at(d, w, x + 1, y)
        - depth_at(d, w, x - 1, y)) + 3 * (depth_at(d, w, x + 1, y + 1) - depth_at(d, w, x - 1, y + 1))
}

/// Vertical Scharr response.
pub open spec fn scharr_dy(d: Seq<u32>, w: int, x: int, y: int) -> int {
    3 * (depth_at(d, w, x - 1, y + 1) - depth_at(d, w, x - 1, y - 1)) + 10 * (depth_at(d, w, x, y + 1)
        - depth_at(d, w, x, y - 1)) + 3 * (depth_at(d, w, x + 1, y + 1) - depth_at(d, w, x + 1, y - 1))
}

/// Whether a coverage value marks a valid source pixel.
pub open spec fn covered(c: Seq<u8>, w: int, x: int, y: int) -> bool {
    pixel_at(c, w, x, y) == EDGE_ON
}

/// Whether the complete 3 by 3 neighborhood is covered.
pub open spec fn covered_3x3(c: Seq<u8>, w: int, x: int, y: int) -> bool {
    &&& covered(c, w, x - 1, y - 1)
    &&& covered(c, w, x, y - 1)
    &&& covered(c, w, x + 1, y - 1)
    &&& covered(c, w, x - 1, y)
    &&& covered(c, w, x, y)
    &&& covered(c, w, x + 1, y)
    &&& covered(c, w, x - 1, y + 1)
    &&& covered(c, w, x, y + 1)
    &&& covered(c, w, x + 1, y + 1)
}

/// Whether a pixel has a complete interior 3 by 3 neighborhood.
pub open spec fn scharr_interior(w: int, h: int, x: int, y: int) -> bool {
    1 <= x && x + 1 < w && 1 <= y && y + 1 < h
}

/// Whether a Scharr response is computed at a pixel.
pub open spec fn scharr_active(c: Seq<u8>, w: int, h: int, x: int, y: int) -> bool {
    scharr_interior(w, h, x, y) && covered_3x3(c, w, x, y)
}

/// L1 Scharr magnitude at a pixel, zero where the neighborhood is incomplete.
pub open spec fn scharr_magnitude_spec(d: Seq<u32>, c: Seq<u8>, w: int, h: int, x: int, y: int) -> int {
    if scharr_active(c, w, h, x, y) {
        abs(scharr_dx(d, w, x, y)) + abs(scharr_dy(d, w, x, y))
    } else {
        0
    }
}

/// Quantized Scharr direction at a pixel, horizontal where no response is computed.
pub open spec fn scharr_direction_spec(
    d: Seq<u32>,
    c: Seq<u8>,
    w: int,
    h: int,
    x: int,
    y: int,
) -> GradientDirection {
    if scharr_active(c, w, h, x, y) {
        quantize_spec(scharr_dx(d, w, x, y), scharr_dy(d, w, x, y))
    } else {
        GradientDirection::Horizontal
    }
}

/// Whether every covered depth sample is positive and within the ceiling.
pub open spec fn depth_within_ceiling(d: Seq<u32>, c: Seq<u8>, max_depth_mm: int) -> bool {
    forall|i: int|
        0 <= i < d.len() && #[trigger] c[i] == EDGE_ON ==> 0 < d[i] <= max_depth_mm
}

/// Whether a Scharr depth ceiling keeps every L1 response inside 32 bits.
pub open spec fn valid_depth_ceiling(max_depth_mm: int) -> bool {
    max_depth_mm != 0 && max_depth_mm * 32 <= u32::MAX
}

fn abs_i64(v: i64) -> (r: u64)
    ensures
        r == abs(v as int),
{
    if v >= 0 {
        v as u64
    } else {
        (0 - (v as i128)) as u64
    }
}

fn quantize_direction(dx: i64, dy: i64) -> (r: GradientDirection)
    ensures
        r == quantize_spec(dx as int, dy as int),
{
    let absolute_x = abs_i64(dx);
    let absolute_y = abs_i64(dy);
    let double_y = if absolute_y > u64::MAX / 2 { u64::MAX } else { absolute_y * 2 };
    let double_x = if absolute_x > u64::MAX / 2 { u64::MAX } else { absolute_x * 2 };
    let sign_x: i8 = if dx > 0 { 1 } else if dx < 0 { -1 } else { 0 };
    let sign_y: i8 = if dy > 0 { 1 } else if dy < 0 { -1 } else { 0 };
    if double_y < absolute_x {
        GradientDirection::Horizontal
    } else if double_x < absolute_y {
        GradientDirection::Vertical
    } else if sign_x == sign_y {
        GradientDirection::DiagonalDown
    } else {
        GradientDirection::DiagonalUp
    }
}

fn validate_coverage(coverage: &Raster<u8>) -> (r: Result<(), KernelError>)
    ensures
        r is Ok <==> is_binary(coverage.px()),
{
    let pixels = coverage.pixels();
    let mut i: usize = 0;
    while i < pixels.len()
        invariant
            pixels@ == coverage.px(),
            i <= pixels@.len(),
            forall|j: int| 0 <= j < i ==> #[trigger] pixels@[j] == EDGE_OFF || pixels@[j] == EDGE_ON,
        decreases pixels@.len() - i,
    {
        if pixels[i] != EDGE_OFF && pixels[i] != EDGE_ON {
            return Err(invalid("coverage raster must contain only 0 or 255"));
        }
        i += 1;
    }
    Ok(())
}

fn validate_binary(input: &Raster<u8>) -> (r: Result<(), KernelError>)
    ensures
        r is Ok <==> is_binary(input.px()),
{
    let pixels = input.pixels();
    let mut i: usize = 0;
    while i < pixels.len()
        invariant
            pixels@ == input.px(),
            i <= pixels@.len(),
            forall|j: int| 0 <= j < i ==> #[trigger] pixels@[j] == EDGE_OFF || pixels@[j] == EDGE_ON,
        decreases pixels@.len() - i,
    {
        if pixels[i] != EDGE_OFF && pixels[i] != EDGE_ON {
            return Err(invalid("binary kernel input must contain only 0 or 255"));
        }
        i += 1;
    }
    Ok(())
}

fn neighborhood_is_covered(coverage: &Raster<u8>, x: u32, y: u32) -> (r: bool)
    requires
        scharr_interior(coverage.w(), coverage.h(), x as int, y as int),
    ensures
        r == covered_3x3(coverage.px(), coverage.w(), x as int, y as int),
{
    let p = coverage.pixels();
    p[coverage.index(x - 1, y - 1)] == EDGE_ON && p[coverage.index(x, y - 1)] == EDGE_ON
        && p[coverage.index(x + 1, y - 1)] == EDGE_ON && p[coverage.index(x - 1, y)] == EDGE_ON
        && p[coverage.index(x, y)] == EDGE_ON && p[coverage.index(x + 1, y)] == EDGE_ON
        && p[coverage.index(x - 1, y + 1)] == EDGE_ON && p[coverage.index(x, y + 1)] == EDGE_ON
        && p[coverage.index(x + 1, y + 1)] == EDGE_ON
}

fn depth_sample(depth: &Raster<u32>, x: u32, y: u32) -> (r: i64)
    requires
        in_grid(depth.w(), depth.h(), x as int, y as int),
    ensures
        r == depth_at(depth.px(), depth.w(), x as int, y as int),
{
    depth.pixels()[depth.index(x, y)] as i64
}

fn check_depth_ceiling(depth: &Raster<u32>, coverage: &Raster<u8>, max_depth_mm: u32) -> (r: bool)
    requires
        depth.px().len() == coverage.px().len(),
    ensures
        r == depth_within_ceiling(depth.px(), coverage.px(), max_depth_mm as int),
{
    let d = depth.pixels();
    let c = coverage.pixels();
    let mut i: usize = 0;
    while i < d.len()
        invariant
            d@ == depth.px(),
            c@ == coverage.px(),
            d@.len() == c@.len(),
            i <= d@.len(),
            forall|j: int| 0 <= j < i && #[trigger] c@[j] == EDGE_ON ==> 0 < d@[j] <= max_depth_mm,
        decreases d@.len() - i,
    {
        if c[i] == EDGE_ON && (d[i] == 0 || d[i] > max_depth_mm) {
            return false;
        }
        i += 1;
    }
    true
}

/// Calculate integer Scharr depth gradients on a registered covered grid.
///
/// A pixel is zero when its complete 3 by 3 neighborhood is not covered. The
/// caller supplies the maximum legal depth so that the response fits 32 bits.
pub fn scharr_depth(depth: &Raster<u32>, coverage: &Raster<u8>, max_depth_mm: u32) -> (r: Result<
    GradientField,
    KernelError,
>)
    ensures
        r is Ok <==> {
            &&& depth.w() == coverage.w() && depth.h() == coverage.h()
            &&& is_binary(coverage.px())
            &&& valid_depth_ceiling(max_depth_mm as int)
            &&& depth_within_ceiling(depth.px(), coverage.px(), max_depth_mm as int)
        },
        r matches Ok(field) ==> {
            &&& field.mag().w() == depth.w() && field.mag().h() == depth.h()
            &&& field.dir().w() == depth.w() && field.dir().h() == depth.h()
            &&& forall|i: int|
                0 <= i < depth.w() * depth.h() ==> #[trigger] field.mag().px()[i]
                    == scharr_magnitude_spec(
                    depth.px(),
                    coverage.px(),
                    depth.w(),
                    depth.h(),
                    i % depth.w(),
                    i / depth.w(),
                )
            &&& forall|i: int|
                0 <= i < depth.w() * depth.h() ==> #[trigger] field.dir().px()[i]
                    == scharr_direction_spec(
                    depth.px(),
                    coverage.px(),
                    depth.w(),
                    depth.h(),
                    i % depth.w(),
                    i / depth.w(),
                )
        },
{
    depth.facts();
    coverage.facts();
    match depth.same_grid(coverage) {
        Err(e) => return Err(e),
        Ok(()) => {},
    }
    match validate_coverage(coverage) {
        Err(e) => return Err(e),
        Ok(()) => {},
    }
    if max_depth_mm == 0 || max_depth_mm as u64 * 32 > u32::MAX as u64 {
        return Err(invalid("Scharr depth ceiling is zero or cannot fit its L1 response"));
    }
    if !check_depth_ceiling(depth, coverage, max_depth_mm) {
        return Err(invalid("covered depth sample is zero or exceeds its declared ceiling"));
    }
    let width = depth.width();
    let height = depth.height();
    let count = depth.pixels().len();
    let ghost d = depth.px();
    let ghost c = coverage.px();
    let ghost w = width as int;
    let ghost h = height as int;
    let mut magnitude: Vec<u32> = Vec::new();
    let mut direction: Vec<GradientDirection> = Vec::new();
    let mut i: usize = 0;
    while i < count
        invariant
            count == w * h,
            w == depth.w(),
            h == depth.h(),
            w == coverage.w(),
            h == coverage.h(),
            d == depth.px(),
            c == coverage.px(),
            d.len() == count,
            c.len() == count,
            valid_dims(w, h),
            width == w,
            height == h,
            valid_depth_ceiling(max_depth_mm as int),
            depth_within_ceiling(d, c, max_depth_mm as int),
            i <= count,
            magnitude@.len() == i,
            direction@.len() == i,
            forall|j: int|
                0 <= j < i ==> #[trigger] magnitude@[j] == scharr_magnitude_spec(d, c, w, h, j % w, j / w),
            forall|j: int|
                0 <= j < i ==> #[trigger] direction@[j] == scharr_direction_spec(d, c, w, h, j % w, j / w),
        decreases count - i,
    {
        proof {
            lemma_position(w, h, i as int);
        }
        let x = (i % width as usize) as u32;
        let y = (i / width as usize) as u32;
        if x >= 1 && x + 1 < width && y >= 1 && y + 1 < height && neighborhood_is_covered(
            coverage,
            x,
            y,
        ) {
            let top_left = depth_sample(depth, x - 1, y - 1);
            let top = depth_sample(depth, x, y - 1);
            let top_right = depth_sample(depth, x + 1, y - 1);
            let left = depth_sample(depth, x - 1, y);
            let right = depth_sample(depth, x + 1, y);
            let bottom_left = depth_sample(depth, x - 1, y + 1);
            let bottom = depth_sample(depth, x, y + 1);
            let bottom_right = depth_sample(depth, x + 1, y + 1);
            proof {
                let xi = x as int;
                let yi = y as int;
                assert forall|px: int, py: int|
                    xi - 1 <= px <= xi + 1 && yi - 1 <= py <= yi + 1 implies 0 < #[trigger] depth_at(
                    d,
                    w,
                    px,
                    py,
                ) <= max_depth_mm by {
                    lemma_index(w, h, px, py);
                    assert(c[grid_index(w, px, py)] == EDGE_ON);
                }
                assert(0 < depth_at(d, w, xi - 1, yi - 1) <= max_depth_mm);
                assert(0 < depth_at(d, w, xi, yi - 1) <= max_depth_mm);
                assert(0 < depth_at(d, w, xi + 1, yi - 1) <= max_depth_mm);
                assert(0 < depth_at(d, w, xi - 1, yi) <= max_depth_mm);
                assert(0 < depth_at(d, w, xi + 1, yi) <= max_depth_mm);
                assert(0 < depth_at(d, w, xi - 1, yi + 1) <= max_depth_mm);
                assert(0 < depth_at(d, w, xi, yi + 1) <= max_depth_mm);
                assert(0 < depth_at(d, w, xi + 1, yi + 1) <= max_depth_mm);
            }
            let dx = 3 * (top_right - top_left) + 10 * (right - left) + 3 * (bottom_right
                - bottom_left);
            let dy = 3 * (bottom_left - top_left) + 10 * (bottom - top) + 3 * (bottom_right
                - top_right);
            let response = abs_i64(dx) + abs_i64(dy);
            magnitude.push(response as u32);
            direction.push(quantize_direction(dx, dy));
        } else {
            magnitude.push(0);
            direction.push(GradientDirection::Horizontal);
        }
        i += 1;
    }
    let magnitude = Raster::new(width, height, magnitude);
    let direction = Raster::new(width, height, direction);
    match (magnitude, direction) {
        (Ok(magnitude), Ok(direction)) => Ok(GradientField { magnitude, direction }),
        _ => Err(invalid("gradient raster construction failed")),
    }
}

/// Whether `(nx, ny)` is an in-grid neighbor of `(x, y)`; diagonal steps only when allowed.
pub open spec fn is_neighbor(w: int, h: int, x: int, y: int, nx: int, ny: int, diagonals: bool) -> bool {
    &&& in_grid(w, h, nx, ny)
    &&& abs(nx - x) <= 1
    &&& abs(ny - y) <= 1
    &&& !(nx == x && ny == y)
    &&& (diagonals || nx == x || ny == y)
}

/// In-grid neighbors of a pixel in stable offset order.
fn neighbors(width: u32, height: u32, x: u32, y: u32, diagonals: bool) -> (r: Vec<(u32, u32)>)
    requires
        valid_dims(width as int, height as int),
        in_grid(width as int, height as int, x as int, y as int),
    ensures
        r@.len() <= 8,
        forall|k: int|
            0 <= k < r@.len() ==> is_neighbor(
                width as int,
                height as int,
                x as int,
                y as int,
                (#[trigger] r@[k]).0 as int,
                r@[k].1 as int,
                diagonals,
            ),
        forall|nx: u32, ny: u32|
            is_neighbor(width as int, height as int, x as int, y as int, nx as int, ny as int, diagonals)
                ==> #[trigger] r@.contains((nx, ny)),
{
    let mut out: Vec<(u32, u32)> = Vec::new();
    let ghost wi = width as int;
    let ghost hi = height as int;
    let ghost xi = x as int;
    let ghost yi = y as int;
    let ghost mut slots: Seq<int> = seq![0int, 0, 0, 0, 0, 0, 0, 0];
    if diagonals && x > 0 && y > 0 {
        proof { slots = slots.update(0, out@.len() as int); }
        out.push((x - 1, y - 1));
    }
    let ghost s0 = out@;
    if y > 0 {
        proof { slots = slots.update(1, out@.len() as int); }
        out.push((x, y - 1));
    }
    let ghost s1 = out@;
    if diagonals && x + 1 < width && y > 0 {
        proof { slots = slots.update(2, out@.len() as int); }
        out.push((x + 1, y - 1));
    }
    let ghost s2 = out@;
    if x > 0 {
        proof { slots = slots.update(3, out@.len() as int); }
        out.push((x - 1, y));
    }
    let ghost s3 = out@;
    if x + 1 < width {
        proof { slots = slots.update(4, out@.len() as int); }
        out.push((x + 1, y));
    }
    let ghost s4 = out@;
    if diagonals && x > 0 && y + 1 < height {
        proof { slots = slots.update(5, out@.len() as int); }
        out.push((x - 1, y + 1));
    }
    let ghost s5 = out@;
    if y + 1 < height {
        proof { slots = slots.update(6, out@.len() as int); }
        out.push((x, y + 1));
    }
    let ghost s6 = out@;
    if diagonals && x + 1 < width && y + 1 < height {
        proof { slots = slots.update(7, out@.len() as int); }
        out.push((x + 1, y + 1));
    }
    proof {
        assert(s0.len() <= s1.len() <= s2.len() <= s3.len() <= s4.len() <= s5.len() <= s6.len() <= out@.len());
        assert(forall|k: int| 0 <= k < s0.len() ==> s0[k] == s1[k]);
        assert(forall|k: int| 0 <= k < s1.len() ==> s1[k] == s2[k]);
        assert(forall|k: int| 0 <= k < s2.len() ==> s2[k] == s3[k]);
        assert(forall|k: int| 0 <= k < s3.len() ==> s3[k] == s4[k]);
        assert(forall|k: int| 0 <= k < s4.len() ==> s4[k] == s5[k]);
        assert(forall|k: int| 0 <= k < s5.len() ==> s5[k] == s6[k]);
        assert(forall|k: int| 0 <= k < s6.len() ==> s6[k] == out@[k]);
        assert forall|nx: u32, ny: u32|
            is_neighbor(wi, hi, xi, yi, nx as int, ny as int, diagonals) implies #[trigger] out@.contains(
            (nx, ny),
        ) by {
            let dx = nx as int - xi;
            let dy = ny as int - yi;
            let slot: int = if dx == -1 && dy == -1 { 0 } else if dx == 0 && dy == -1 { 1 } else if dx
                == 1 && dy == -1 { 2 } else if dx == -1 && dy == 0 { 3 } else if dx == 1 && dy == 0 {
                4
            } else if dx == -1 && dy == 1 { 5 } else if dx == 0 && dy == 1 { 6 } else { 7 };
            assert(0 <= slots[slot] < out@.len());
            assert(out@[slots[slot]] == (nx, ny));
        }
    }
    out
}

/// Squared RGB distance of two encoded normals.
pub open spec fn normal_distance(a: [u8; 3], b: [u8; 3]) -> int {
    (a[0] - b[0]) * (a[0] - b[0]) + (a[1] - b[1]) * (a[1] - b[1]) + (a[2] - b[2]) * (a[2] - b[2])
}

/// Whether `value` is the largest squared normal distance from covered pixel `(x, y)` to its
/// covered eight-neighbors, or zero when none is covered.
pub open spec fn is_normal_discontinuity(
    normals: Seq<[u8; 3]>,
    c: Seq<u8>,
    w: int,
    h: int,
    x: int,
    y: int,
    value: int,
) -> bool {
    &&& forall|nx: int, ny: int|
        is_neighbor(w, h, x, y, nx, ny, true) && #[trigger] covered(c, w, nx, ny) ==> normal_distance(
            pixel_at(normals, w, x, y),
            pixel_at(normals, w, nx, ny),
        ) <= value
    &&& (value == 0 || exists|nx: int, ny: int|
        is_neighbor(w, h, x, y, nx, ny, true) && #[trigger] covered(c, w, nx, ny) && normal_distance(
            pixel_at(normals, w, x, y),
            pixel_at(normals, w, nx, ny),
        ) == value)
}

fn normal_distance_exec(a: [u8; 3], b: [u8; 3]) -> (r: u32)
    ensures
        r == normal_distance(a, b),
{
    let d0 = if a[0] >= b[0] { (a[0] - b[0]) as u32 } else { (b[0] - a[0]) as u32 };
    let d1 = if a[1] >= b[1] { (a[1] - b[1]) as u32 } else { (b[1] - a[1]) as u32 };
    let d2 = if a[2] >= b[2] { (a[2] - b[2]) as u32 } else { (b[2] - a[2]) as u32 };
    proof {
        assert(d0 * d0 <= 65025 && d1 * d1 <= 65025 && d2 * d2 <= 65025) by (nonlinear_arith)
            requires
                d0 <= 255,
                d1 <= 255,
                d2 <= 255,
        ;
        assert(d0 * d0 == (a[0] - b[0]) * (a[0] - b[0])) by (nonlinear_arith)
            requires
                d0 == abs(a[0] - b[0]),
        ;
        assert(d1 * d1 == (a[1] - b[1]) * (a[1] - b[1])) by (nonlinear_arith)
            requires
                d1 == abs(a[1] - b[1]),
        ;
        assert(d2 * d2 == (a[2] - b[2]) * (a[2] - b[2])) by (nonlinear_arith)
            requires
                d2 == abs(a[2] - b[2]),
        ;
    }
    d0 * d0 + d1 * d1 + d2 * d2
}

/// Measure the greatest local encoded-normal difference at each covered pixel.
///
/// The squared RGB-vector distance is monotonic with angular difference for
/// normalized encoded normals and avoids nondeterministic trigonometry.
pub fn normal_discontinuity(normals: &Raster<[u8; 3]>, coverage: &Raster<u8>) -> (r: Result<
    Raster<u32>,
    KernelError,
>)
    ensures
        r is Ok <==> (normals.w() == coverage.w() && normals.h() == coverage.h() && is_binary(
            coverage.px(),
        )),
        r matches Ok(out) ==> {
            &&& out.w() == normals.w() && out.h() == normals.h()
            &&& forall|i: int|
                0 <= i < out.w() * out.h() ==> {
                    &&& coverage.px()[i] != EDGE_ON ==> #[trigger] out.px()[i] == 0
                    &&& coverage.px()[i] == EDGE_ON ==> is_normal_discontinuity(
                        normals.px(),
                        coverage.px(),
                        out.w(),
                        out.h(),
                        i % out.w(),
                        i / out.w(),
                        out.px()[i] as int,
                    )
                }
        },
{
    normals.facts();
    coverage.facts();
    match normals.same_grid(coverage) {
        Err(e) => return Err(e),
        Ok(()) => {},
    }
    match validate_coverage(coverage) {
        Err(e) => return Err(e),
        Ok(()) => {},
    }
    let width = normals.width();
    let height = normals.height();
    let count = normals.pixels().len();
    let ghost n = normals.px();
    let ghost c = coverage.px();
    let ghost w = width as int;
    let ghost h = height as int;
    let mut output: Vec<u32> = Vec::new();
    let mut i: usize = 0;
    while i < count
        invariant
            count == w * h,
            w == normals.w() && h == normals.h() && w == coverage.w() && h == coverage.h(),
            n == normals.px(),
            c == coverage.px(),
            n.len() == count && c.len() == count,
            valid_dims(w, h),
            width == w && height == h,
            i <= count,
            output@.len() == i,
            forall|j: int|
                0 <= j < i ==> {
                    &&& c[j] != EDGE_ON ==> #[trigger] output@[j] == 0
                    &&& c[j] == EDGE_ON ==> is_normal_discontinuity(
                        n,
                        c,
                        w,
                        h,
                        j % w,
                        j / w,
                        output@[j] as int,
                    )
                },
        decreases count - i,
    {
        proof {
            lemma_position(w, h, i as int);
        }
        let x = (i % width as usize) as u32;
        let y = (i / width as usize) as u32;
        if coverage.pixels()[i] != EDGE_ON {
            output.push(0);
        } else {
            let center = normals.pixels()[i];
            let around = neighbors(width, height, x, y, true);
            let mut maximum: u32 = 0;
            let mut k: usize = 0;
            while k < around.len()
                invariant
                    w == normals.w() && h == normals.h() && w == coverage.w() && h == coverage.h(),
                    n == normals.px(),
                    c == coverage.px(),
                    n.len() == w * h && c.len() == w * h,
                    valid_dims(w, h),
                    in_grid(w, h, x as int, y as int),
                    center == pixel_at(n, w, x as int, y as int),
                    k <= around@.len(),
                    forall|m: int|
                        0 <= m < around@.len() ==> is_neighbor(
                            w,
                            h,
                            x as int,
                            y as int,
                            (#[trigger] around@[m]).0 as int,
                            around@[m].1 as int,
                            true,
                        ),
                    forall|m: int|
                        0 <= m < k && #[trigger] covered(c, w, around@[m].0 as int, around@[m].1 as int)
                            ==> normal_distance(
                            center,
                            pixel_at(n, w, around@[m].0 as int, around@[m].1 as int),
                        ) <= maximum,
                    maximum == 0 || exists|nx: int, ny: int|
                        is_neighbor(w, h, x as int, y as int, nx, ny, true) && #[trigger] covered(
                            c,
                            w,
                            nx,
                            ny,
                        ) && normal_distance(center, pixel_at(n, w, nx, ny)) == maximum,
                decreases around@.len() - k,
            {
                let (nx, ny) = around[k];
                let neighbor = normals.index(nx, ny);
                if coverage.pixels()[neighbor] == EDGE_ON {
                    let distance = normal_distance_exec(center, normals.pixels()[neighbor]);
                    if distance > maximum {
                        maximum = distance;
                        proof {
                            assert(is_neighbor(w, h, x as int, y as int, nx as int, ny as int, true));
                            assert(covered(c, w, nx as int, ny as int));
                            assert(normal_distance(center, pixel_at(n, w, nx as int, ny as int))
                                == maximum);
                        }
                    }
                }
                k += 1;
            }
            proof {
                assert forall|nx: int, ny: int|
                    is_neighbor(w, h, x as int, y as int, nx, ny, true) && #[trigger] covered(
                        c,
                        w,
                        nx,
                        ny,
                    ) implies normal_distance(center, pixel_at(n, w, nx, ny)) <= maximum by {
                    assert(around@.contains((nx as u32, ny as u32)));
                    let m = choose|m: int| 0 <= m < around@.len() && around@[m] == (nx as u32, ny as u32);
                    assert(covered(c, w, around@[m].0 as int, around@[m].1 as int));
                }
            }
            output.push(maximum);
        }
        i += 1;
    }
    Raster::new(width, height, output)
}

/// Number of integers `k` in `[lo, hi]` for which `f(k)` holds.
pub open spec fn count_true(f: spec_fn(int) -> bool, lo: int, hi: int) -> nat
    decreases hi + 1 - lo,
{
    if hi < lo {
        0
    } else {
        count_true(f, lo, hi - 1) + if f(hi) { 1nat } else { 0nat }
    }
}

/// A counted window is bounded by its width, positive exactly when some element
/// holds, and full exactly when every element holds.
pub proof fn lemma_count_window(f: spec_fn(int) -> bool, lo: int, hi: int)
    requires
        lo <= hi + 1,
    ensures
        count_true(f, lo, hi) <= hi - lo + 1,
        count_true(f, lo, hi) > 0 <==> exists|k: int| lo <= k <= hi && #[trigger] f(k),
        count_true(f, lo, hi) == hi - lo + 1 <==> forall|k: int| lo <= k <= hi ==> #[trigger] f(k),
    decreases hi + 1 - lo,
{
    if lo <= hi {
        lemma_count_window(f, lo, hi - 1);
        if f(hi) {
            assert(lo <= hi <= hi && f(hi));
        }
        if count_true(f, lo, hi) == 0 {
            assert forall|k: int| lo <= k <= hi implies !#[trigger] f(k) by {
                if k < hi {
                    assert(!(lo <= k <= hi - 1 && f(k)) || count_true(f, lo, hi - 1) > 0);
                }
            }
        }
        if count_true(f, lo, hi) == hi - lo + 1 {
            assert forall|k: int| lo <= k <= hi implies #[trigger] f(k) by {
                if k < hi {
                    assert(count_true(f, lo, hi - 1) == hi - lo);
                }
            }
        }
    }
}

/// Whether an in-grid pixel is on; positions outside the grid are off.
pub open spec fn on_at(px: Seq<u8>, w: int, h: int, x: int, y: int) -> bool {
    in_grid(w, h, x, y) && pixel_at(px, w, x, y) == EDGE_ON
}

/// Square dilation: some on pixel lies within the radius.
pub open spec fn dilate_at(px: Seq<u8>, w: int, h: int, r: int, x: int, y: int) -> bool {
    exists|qx: int, qy: int| x - r <= qx <= x + r && y - r <= qy <= y + r && #[trigger] on_at(px, w, h, qx, qy)
}

/// Square erosion with a zero exterior: every position within the radius is an on pixel.
pub open spec fn erode_at(px: Seq<u8>, w: int, h: int, r: int, x: int, y: int) -> bool {
    forall|qx: int, qy: int| x - r <= qx <= x + r && y - r <= qy <= y + r ==> #[trigger] on_at(px, w, h, qx, qy)
}

/// Binary output of a square morphology filter at a pixel.
pub open spec fn morphology_at(px: Seq<u8>, w: int, h: int, r: int, dilate: bool, x: int, y: int) -> u8 {
    if (dilate && dilate_at(px, w, h, r, x, y)) || (!dilate && erode_at(px, w, h, r, x, y)) {
        EDGE_ON
    } else {
        EDGE_OFF
    }
}

/// The whole raster produced by a square morphology filter.
pub open spec fn morphology_px(px: Seq<u8>, w: int, h: int, r: int, dilate: bool) -> Seq<u8> {
    Seq::new((w * h) as nat, |i: int| morphology_at(px, w, h, r, dilate, i % w, i / w))
}

/// Opening: erosion followed by dilation with the same square radius.
pub open spec fn opening_px(px: Seq<u8>, w: int, h: int, r: int) -> Seq<u8> {
    morphology_px(morphology_px(px, w, h, r, false), w, h, r, true)
}

proof fn lemma_morphology_on(px: Seq<u8>, w: int, h: int, r: int, dilate: bool, x: int, y: int)
    requires
        valid_dims(w, h),
        in_grid(w, h, x, y),
    ensures
        on_at(morphology_px(px, w, h, r, dilate), w, h, x, y) <==> (if dilate {
            dilate_at(px, w, h, r, x, y)
        } else {
            erode_at(px, w, h, r, x, y)
        }),
{
    lemma_index(w, h, x, y);
    lemma_grid_bound(w, h);
}

proof fn lemma_opening_on_point(px: Seq<u8>, w: int, h: int, r: int, x: int, y: int)
    requires
        valid_dims(w, h),
        px.len() == w * h,
        in_grid(w, h, x, y),
        on_at(opening_px(px, w, h, r), w, h, x, y),
    ensures
        on_at(px, w, h, x, y),
{
    let e = morphology_px(px, w, h, r, false);
    lemma_morphology_on(e, w, h, r, true, x, y);
    let (qx, qy) = choose|qx: int, qy: int| x - r <= qx <= x + r && y - r <= qy <= y + r && #[trigger] on_at(e, w, h, qx, qy);
    lemma_morphology_on(px, w, h, r, false, qx, qy);
    assert(on_at(px, w, h, x, y));
}

/// Opening only removes on pixels: every pixel on after opening was on before.
pub proof fn lemma_opening_anti_extensive(px: Seq<u8>, w: int, h: int, r: int, i: int)
    requires
        valid_dims(w, h),
        px.len() == w * h,
        0 <= i < w * h,
        opening_px(px, w, h, r)[i] == EDGE_ON,
    ensures
        px[i] == EDGE_ON,
{
    lemma_position(w, h, i);
    lemma_grid_bound(w, h);
    lemma_opening_on_point(px, w, h, r, i % w, i / w);
}

/// Opening is idempotent: opening an opened raster changes nothing.
pub proof fn lemma_opening_idempotent(px: Seq<u8>, w: int, h: int, r: int)
    requires
        valid_dims(w, h),
        px.len() == w * h,
        r >= 0,
    ensures
        opening_px(opening_px(px, w, h, r), w, h, r) == opening_px(px, w, h, r),
{
    lemma_grid_bound(w, h);
    let o = opening_px(px, w, h, r);
    let o2 = opening_px(o, w, h, r);
    let e = morphology_px(px, w, h, r, false);
    let e2 = morphology_px(o, w, h, r, false);
    assert forall|i: int| 0 <= i < w * h implies #[trigger] o2[i] == o[i] by {
        lemma_position(w, h, i);
        let x = i % w;
        let y = i / w;
        lemma_morphology_on(e2, w, h, r, true, x, y);
        lemma_morphology_on(e, w, h, r, true, x, y);
        if on_at(o2, w, h, x, y) {
            lemma_opening_on_point(o, w, h, r, x, y);
        }
        if on_at(o, w, h, x, y) {
            let (qx, qy) = choose|qx: int, qy: int| x - r <= qx <= x + r && y - r <= qy <= y + r && #[trigger] on_at(e, w, h, qx, qy);
            lemma_morphology_on(px, w, h, r, false, qx, qy);
            assert forall|zx: int, zy: int| qx - r <= zx <= qx + r && qy - r <= zy <= qy + r implies #[trigger] on_at(o, w, h, zx, zy) by {
                assert(on_at(px, w, h, zx, zy));
                lemma_morphology_on(e, w, h, r, true, zx, zy);
                assert(on_at(e, w, h, qx, qy));
            }
            lemma_morphology_on(o, w, h, r, false, qx, qy);
            assert(on_at(e2, w, h, qx, qy));
        }
    }
    assert(o2 =~= o);
}

/// Closing: dilation followed by erosion with the same square radius.
pub open spec fn closing_px(px: Seq<u8>, w: int, h: int, r: int) -> Seq<u8> {
    morphology_px(morphology_px(px, w, h, r, true), w, h, r, false)
}

proof fn lemma_window_agree(
    a: Seq<u8>,
    wa: int,
    ha: int,
    b: Seq<u8>,
    wb: int,
    hb: int,
    ox: int,
    oy: int,
    r: int,
    x: int,
    y: int,
)
    requires
        forall|zx: int, zy: int|
            x - r <= zx <= x + r && y - r <= zy <= y + r ==> #[trigger] on_at(b, wb, hb, zx, zy) == on_at(
                a,
                wa,
                ha,
                zx - ox,
                zy - oy,
            ),
    ensures
        dilate_at(a, wa, ha, r, x - ox, y - oy) == dilate_at(b, wb, hb, r, x, y),
        erode_at(a, wa, ha, r, x - ox, y - oy) == erode_at(b, wb, hb, r, x, y),
{
    if dilate_at(a, wa, ha, r, x - ox, y - oy) {
        let (qx, qy) = choose|qx: int, qy: int|
            x - ox - r <= qx <= x - ox + r && y - oy - r <= qy <= y - oy + r && #[trigger] on_at(a, wa, ha, qx, qy);
        assert(on_at(b, wb, hb, qx + ox, qy + oy));
    }
    if dilate_at(b, wb, hb, r, x, y) {
        let (qx, qy) = choose|qx: int, qy: int| x - r <= qx <= x + r && y - r <= qy <= y + r && #[trigger] on_at(b, wb, hb, qx, qy);
        assert(on_at(a, wa, ha, qx - ox, qy - oy));
    }
    if erode_at(b, wb, hb, r, x, y) {
        assert forall|qx: int, qy: int|
            x - ox - r <= qx <= x - ox + r && y - oy - r <= qy <= y - oy + r implies #[trigger] on_at(a, wa, ha, qx, qy) by {
            assert(on_at(b, wb, hb, qx + ox, qy + oy));
        }
    }
    if erode_at(a, wa, ha, r, x - ox, y - oy) {
        assert forall|qx: int, qy: int| x - r <= qx <= x + r && y - r <= qy <= y + r implies #[trigger] on_at(b, wb, hb, qx, qy) by {
            assert(on_at(a, wa, ha, qx - ox, qy - oy));
        }
    }
}

proof fn lemma_crop_on(px: Seq<u8>, w: int, h: int, ox: int, oy: int, cw: int, ch: int, x: int, y: int)
    requires
        valid_dims(w, h),
        valid_dims(cw, ch),
        px.len() == w * h,
        0 <= ox && ox + cw <= w && 0 <= oy && oy + ch <= h,
        ox <= x < ox + cw && oy <= y < oy + ch,
    ensures
        on_at(crop_seq(px, w, ox, oy, cw, ch), cw, ch, x - ox, y - oy) == on_at(px, w, h, x, y),
{
    lemma_index(cw, ch, x - ox, y - oy);
    lemma_grid_bound(cw, ch);
}

/// Closing is local: on a crop that keeps twice the radius of guard around a pixel, closing
/// gives that pixel the same value as closing the whole raster.
pub proof fn lemma_closing_crop_equivalence(
    px: Seq<u8>,
    w: int,
    h: int,
    ox: int,
    oy: int,
    cw: int,
    ch: int,
    r: int,
    x: int,
    y: int,
)
    requires
        valid_dims(w, h),
        valid_dims(cw, ch),
        px.len() == w * h,
        r >= 0,
        0 <= ox && ox + cw <= w && 0 <= oy && oy + ch <= h,
        ox + 2 * r <= x < ox + cw - 2 * r,
        oy + 2 * r <= y < oy + ch - 2 * r,
    ensures
        closing_px(crop_seq(px, w, ox, oy, cw, ch), cw, ch, r)[grid_index(cw, x - ox, y - oy)] == closing_px(px, w, h, r)[grid_index(
            w,
            x,
            y,
        )],
{
    let c = crop_seq(px, w, ox, oy, cw, ch);
    let da = morphology_px(c, cw, ch, r, true);
    let db = morphology_px(px, w, h, r, true);
    assert forall|zx: int, zy: int| x - r <= zx <= x + r && y - r <= zy <= y + r implies #[trigger] on_at(db, w, h, zx, zy)
        == on_at(da, cw, ch, zx - ox, zy - oy) by {
        assert forall|ux: int, uy: int| zx - r <= ux <= zx + r && zy - r <= uy <= zy + r implies #[trigger] on_at(
            px,
            w,
            h,
            ux,
            uy,
        ) == on_at(c, cw, ch, ux - ox, uy - oy) by {
            lemma_crop_on(px, w, h, ox, oy, cw, ch, ux, uy);
        }
        lemma_window_agree(c, cw, ch, px, w, h, ox, oy, r, zx, zy);
        lemma_morphology_on(c, cw, ch, r, true, zx - ox, zy - oy);
        lemma_morphology_on(px, w, h, r, true, zx, zy);
    }
    lemma_window_agree(da, cw, ch, db, w, h, ox, oy, r, x, y);
    lemma_morphology_on(da, cw, ch, r, false, x - ox, y - oy);
    lemma_morphology_on(db, w, h, r, false, x, y);
    lemma_index(cw, ch, x - ox, y - oy);
    lemma_index(w, h, x, y);
    lemma_grid_bound(w, h);
    lemma_grid_bound(cw, ch);
}

/// The `cw` by `ch` sub-raster of a `w` wide raster with origin `(ox, oy)`.
pub open spec fn crop_seq<T>(px: Seq<T>, w: int, ox: int, oy: int, cw: int, ch: int) -> Seq<T> {
    Seq::new((cw * ch) as nat, |k: int| px[grid_index(w, ox + k % cw, oy + k / cw)])
}

proof fn lemma_crop_point<T>(px: Seq<T>, w: int, ox: int, oy: int, cw: int, ch: int, x: int, y: int)
    requires
        valid_dims(cw, ch),
        ox <= x < ox + cw && oy <= y < oy + ch,
    ensures
        pixel_at(crop_seq(px, w, ox, oy, cw, ch), cw, x - ox, y - oy) == pixel_at(px, w, x, y),
{
    lemma_index(cw, ch, x - ox, y - oy);
    lemma_grid_bound(cw, ch);
}

/// The Scharr gradient is local: on a crop that keeps a one-pixel guard around a pixel, the
/// gradient magnitude and direction at that pixel equal those of the whole raster.
pub proof fn lemma_scharr_crop_equivalence(
    d: Seq<u32>,
    c: Seq<u8>,
    w: int,
    h: int,
    ox: int,
    oy: int,
    cw: int,
    ch: int,
    x: int,
    y: int,
)
    requires
        valid_dims(w, h),
        valid_dims(cw, ch),
        0 <= ox && ox + cw <= w && 0 <= oy && oy + ch <= h,
        ox + 1 <= x <= ox + cw - 2,
        oy + 1 <= y <= oy + ch - 2,
    ensures
        scharr_magnitude_spec(crop_seq(d, w, ox, oy, cw, ch), crop_seq(c, w, ox, oy, cw, ch), cw, ch, x - ox, y - oy)
            == scharr_magnitude_spec(d, c, w, h, x, y),
        scharr_direction_spec(crop_seq(d, w, ox, oy, cw, ch), crop_seq(c, w, ox, oy, cw, ch), cw, ch, x - ox, y - oy)
            == scharr_direction_spec(d, c, w, h, x, y),
{
    lemma_crop_point(d, w, ox, oy, cw, ch, x + (-1), y + (-1));
    lemma_crop_point(c, w, ox, oy, cw, ch, x + (-1), y + (-1));
    lemma_crop_point(d, w, ox, oy, cw, ch, x + (0), y + (-1));
    lemma_crop_point(c, w, ox, oy, cw, ch, x + (0), y + (-1));
    lemma_crop_point(d, w, ox, oy, cw, ch, x + (1), y + (-1));
    lemma_crop_point(c, w, ox, oy, cw, ch, x + (1), y + (-1));
    lemma_crop_point(d, w, ox, oy, cw, ch, x + (-1), y + (0));
    lemma_crop_point(c, w, ox, oy, cw, ch, x + (-1), y + (0));
    lemma_crop_point(d, w, ox, oy, cw, ch, x + (0), y + (0));
    lemma_crop_point(c, w, ox, oy, cw, ch, x + (0), y + (0));
    lemma_crop_point(d, w, ox, oy, cw, ch, x + (1), y + (0));
    lemma_crop_point(c, w, ox, oy, cw, ch, x + (1), y + (0));
    lemma_crop_point(d, w, ox, oy, cw, ch, x + (-1), y + (1));
    lemma_crop_point(c, w, ox, oy, cw, ch, x + (-1), y + (1));
    lemma_crop_point(d, w, ox, oy, cw, ch, x + (0), y + (1));
    lemma_crop_point(c, w, ox, oy, cw, ch, x + (0), y + (1));
    lemma_crop_point(d, w, ox, oy, cw, ch, x + (1), y + (1));
    lemma_crop_point(c, w, ox, oy, cw, ch, x + (1), y + (1));
    let cd = crop_seq(d, w, ox, oy, cw, ch);
    let cc = crop_seq(c, w, ox, oy, cw, ch);
    assert(pixel_at(cd, cw, x - 1 - ox, y - 1 - oy) == pixel_at(d, w, x - 1, y - 1));
    assert(pixel_at(cd, cw, x - ox, y - 1 - oy) == pixel_at(d, w, x, y - 1));
    assert(pixel_at(cd, cw, x + 1 - ox, y - 1 - oy) == pixel_at(d, w, x + 1, y - 1));
    assert(pixel_at(cd, cw, x - 1 - ox, y - oy) == pixel_at(d, w, x - 1, y));
    assert(pixel_at(cd, cw, x + 1 - ox, y - oy) == pixel_at(d, w, x + 1, y));
    assert(pixel_at(cd, cw, x - 1 - ox, y + 1 - oy) == pixel_at(d, w, x - 1, y + 1));
    assert(pixel_at(cd, cw, x - ox, y + 1 - oy) == pixel_at(d, w, x, y + 1));
    assert(pixel_at(cd, cw, x + 1 - ox, y + 1 - oy) == pixel_at(d, w, x + 1, y + 1));
    assert(pixel_at(cc, cw, x - 1 - ox, y - 1 - oy) == pixel_at(c, w, x - 1, y - 1));
    assert(pixel_at(cc, cw, x - ox, y - 1 - oy) == pixel_at(c, w, x, y - 1));
    assert(pixel_at(cc, cw, x + 1 - ox, y - 1 - oy) == pixel_at(c, w, x + 1, y - 1));
    assert(pixel_at(cc, cw, x - 1 - ox, y - oy) == pixel_at(c, w, x - 1, y));
    assert(pixel_at(cc, cw, x - ox, y - oy) == pixel_at(c, w, x, y));
    assert(pixel_at(cc, cw, x + 1 - ox, y - oy) == pixel_at(c, w, x + 1, y));
    assert(pixel_at(cc, cw, x - 1 - ox, y + 1 - oy) == pixel_at(c, w, x - 1, y + 1));
    assert(pixel_at(cc, cw, x - ox, y + 1 - oy) == pixel_at(c, w, x, y + 1));
    assert(pixel_at(cc, cw, x + 1 - ox, y + 1 - oy) == pixel_at(c, w, x + 1, y + 1));
}

/// Result of the horizontal morphology pass.
pub open spec fn row_filter_at(px: Seq<u8>, w: int, h: int, r: int, dilate: bool, x: int, y: int) -> bool {
    if dilate {
        exists|qx: int| x - r <= qx <= x + r && #[trigger] on_at(px, w, h, qx, y)
    } else {
        forall|qx: int| x - r <= qx <= x + r ==> #[trigger] on_at(px, w, h, qx, y)
    }
}

/// The on pixels of one row, as a predicate over columns.
pub open spec fn row_line(px: Seq<u8>, w: int, h: int, y: int) -> spec_fn(int) -> bool {
    |k: int| on_at(px, w, h, k, y)
}

/// The on pixels of one column, as a predicate over rows.
pub open spec fn column_line(px: Seq<u8>, w: int, h: int, x: int) -> spec_fn(int) -> bool {
    |k: int| on_at(px, w, h, x, k)
}

/// The filter decision taken from a window count.
pub open spec fn window_decision(count: int, r: int, dilate: bool) -> bool {
    (dilate && count > 0) || (!dilate && count == 2 * r + 1)
}

proof fn lemma_row_filter(px: Seq<u8>, w: int, h: int, r: int, dilate: bool, x: int, y: int)
    requires
        r >= 0,
    ensures
        row_filter_at(px, w, h, r, dilate, x, y) <==> window_decision(
            count_true(row_line(px, w, h, y), x - r, x + r) as int,
            r,
            dilate,
        ),
{
    let f = row_line(px, w, h, y);
    lemma_count_window(f, x - r, x + r);
    assert forall|k: int| #[trigger] f(k) == on_at(px, w, h, k, y) by {}
    if dilate {
        if row_filter_at(px, w, h, r, dilate, x, y) {
            let k = choose|k: int| x - r <= k <= x + r && #[trigger] on_at(px, w, h, k, y);
            assert(f(k));
        }
        if count_true(f, x - r, x + r) > 0 {
            let k = choose|k: int| x - r <= k <= x + r && #[trigger] f(k);
            assert(on_at(px, w, h, k, y));
        }
    } else {
        if row_filter_at(px, w, h, r, dilate, x, y) {
            assert forall|k: int| x - r <= k <= x + r implies #[trigger] f(k) by {
                assert(on_at(px, w, h, k, y));
            }
        }
        if count_true(f, x - r, x + r) == 2 * r + 1 {
            assert forall|k: int| x - r <= k <= x + r implies #[trigger] on_at(px, w, h, k, y) by {
                assert(f(k));
            }
        }
    }
}

proof fn lemma_column_filter(px: Seq<u8>, hp: Seq<u8>, w: int, h: int, r: int, dilate: bool, x: int, y: int)
    requires
        r >= 0,
        forall|qx: int, qy: int| #[trigger] on_at(hp, w, h, qx, qy) <==> (in_grid(w, h, qx, qy)
            && row_filter_at(px, w, h, r, dilate, qx, qy)),
        0 <= x < w,
    ensures
        morphology_at(px, w, h, r, dilate, x, y) == (if window_decision(
            count_true(column_line(hp, w, h, x), y - r, y + r) as int,
            r,
            dilate,
        ) {
            EDGE_ON
        } else {
            EDGE_OFF
        }),
{
    let g = column_line(hp, w, h, x);
    lemma_count_window(g, y - r, y + r);
    assert forall|k: int| #[trigger] g(k) == on_at(hp, w, h, x, k) by {}
    if dilate {
        if dilate_at(px, w, h, r, x, y) {
            let (qx, qy) = choose|qx: int, qy: int|
                x - r <= qx <= x + r && y - r <= qy <= y + r && #[trigger] on_at(px, w, h, qx, qy);
            assert(row_filter_at(px, w, h, r, dilate, x, qy));
            assert(in_grid(w, h, x, qy));
            assert(on_at(hp, w, h, x, qy));
            assert(g(qy));
        }
        if count_true(g, y - r, y + r) > 0 {
            let k = choose|k: int| y - r <= k <= y + r && #[trigger] g(k);
            assert(on_at(hp, w, h, x, k));
            assert(row_filter_at(px, w, h, r, dilate, x, k));
            let q = choose|qx: int| x - r <= qx <= x + r && #[trigger] on_at(px, w, h, qx, k);
            assert(dilate_at(px, w, h, r, x, y));
        }
    } else {
        if erode_at(px, w, h, r, x, y) {
            assert forall|k: int| y - r <= k <= y + r implies #[trigger] g(k) by {
                assert(on_at(px, w, h, x, k));
                assert forall|qx: int| x - r <= qx <= x + r implies #[trigger] on_at(px, w, h, qx, k) by {
                    assert(on_at(px, w, h, qx, k));
                }
                assert(row_filter_at(px, w, h, r, dilate, x, k));
                assert(on_at(hp, w, h, x, k));
            }
        }
        if count_true(g, y - r, y + r) == 2 * r + 1 {
            assert forall|qx: int, qy: int| x - r <= qx <= x + r && y - r <= qy <= y + r implies #[trigger] on_at(
                px,
                w,
                h,
                qx,
                qy,
            ) by {
                assert(g(qy));
                assert(on_at(hp, w, h, x, qy));
                assert(row_filter_at(px, w, h, r, dilate, x, qy));
            }
        }
    }
}

fn sample_binary(input: &Raster<u8>, x: i64, y: i64) -> (r: bool)
    ensures
        r == on_at(input.px(), input.w(), input.h(), x as int, y as int),
{
    let width = input.width();
    let height = input.height();
    if x < 0 || y < 0 || x >= width as i64 || y >= height as i64 {
        return false;
    }
    input.pixels()[input.index(x as u32, y as u32)] == EDGE_ON
}

fn binary_filter_value(count: u32, diameter: u32, dilate: bool) -> (r: u8)
    ensures
        r == (if (dilate && count > 0) || (!dilate && count == diameter) { EDGE_ON } else { EDGE_OFF }),
{
    if (dilate && count > 0) || (!dilate && count == diameter) {
        EDGE_ON
    } else {
        EDGE_OFF
    }
}

/// On pixels within `radius` of `(x, y)` along a row (`along_row`) or a column.
fn window_count(input: &Raster<u8>, x: u32, y: u32, radius: i64, along_row: bool) -> (count: u32)
    requires
        0 <= radius <= 32,
    ensures
        along_row ==> count == count_true(row_line(input.px(), input.w(), input.h(), y as int), x - radius, x + radius),
        !along_row ==> count == count_true(column_line(input.px(), input.w(), input.h(), x as int), y - radius, y + radius),
{
    let ghost f = if along_row {
        row_line(input.px(), input.w(), input.h(), y as int)
    } else {
        column_line(input.px(), input.w(), input.h(), x as int)
    };
    let ghost center: int = if along_row { x as int } else { y as int };
    let mut count: u32 = 0;
    let mut offset: i64 = -radius;
    while offset <= radius
        invariant
            0 <= radius <= 32,
            -radius <= offset <= radius + 1,
            f == (if along_row {
                row_line(input.px(), input.w(), input.h(), y as int)
            } else {
                column_line(input.px(), input.w(), input.h(), x as int)
            }),
            center == (if along_row { x as int } else { y as int }),
            count == count_true(f, center - radius, center + offset - 1),
        decreases radius + 1 - offset,
    {
        proof {
            lemma_count_window(f, center - radius, center + offset - 1);
        }
        let hit = if along_row {
            sample_binary(input, x as i64 + offset, y as i64)
        } else {
            sample_binary(input, x as i64, y as i64 + offset)
        };
        if hit {
            count += 1;
        }
        offset += 1;
    }
    count
}

fn binary_filter(input: &Raster<u8>, radius: u8, dilate: bool) -> (r: Result<Raster<u8>, KernelError>)
    ensures
        r is Ok <==> (is_binary(input.px()) && radius <= MAX_RADIUS),
        r matches Ok(out) ==> {
            &&& out.w() == input.w() && out.h() == input.h()
            &&& out.px() == morphology_px(input.px(), input.w(), input.h(), radius as int, dilate)
        },
{
    input.facts();
    match validate_binary(input) {
        Err(e) => return Err(e),
        Ok(()) => {},
    }
    if radius > MAX_RADIUS {
        return Err(invalid("morphology radius exceeds the 32-pixel bound"));
    }
    let width = input.width();
    let height = input.height();
    let ghost px = input.px();
    let ghost w = width as int;
    let ghost h = height as int;
    let ghost ri = radius as int;
    let r = radius as i64;
    let diameter = (2 * radius as u32 + 1) as u32;
    let mut horizontal: Vec<u8> = Vec::new();
    let mut y: u32 = 0;
    while y < height
        invariant
            w == input.w() && h == input.h() && px == input.px(),
            valid_dims(w, h),
            width == w && height == h,
            r == ri && 0 <= ri <= 32,
            diameter == 2 * ri + 1,
            y <= height,
            horizontal@.len() == y * w,
            forall|j: int|
                0 <= j < y * w ==> #[trigger] horizontal@[j] == (if row_filter_at(px, w, h, ri, dilate, j % w, j / w) {
                    EDGE_ON
                } else {
                    EDGE_OFF
                }),
        decreases height - y,
    {
        let mut x: u32 = 0;
        while x < width
            invariant
                w == input.w() && h == input.h() && px == input.px(),
                valid_dims(w, h),
                width == w && height == h,
                r == ri && 0 <= ri <= 32,
                diameter == 2 * ri + 1,
                y < height,
                x <= width,
                horizontal@.len() == y * w + x,
                forall|j: int|
                    0 <= j < y * w + x ==> #[trigger] horizontal@[j] == (if row_filter_at(px, w, h, ri, dilate, j % w, j / w) {
                        EDGE_ON
                    } else {
                        EDGE_OFF
                    }),
            decreases width - x,
        {
            let count = window_count(input, x, y, r, true);
            proof {
                lemma_row_filter(px, w, h, ri, dilate, x as int, y as int);
                lemma_index(w, h, x as int, y as int);
            }
            horizontal.push(binary_filter_value(count, diameter, dilate));
            x += 1;
        }
        proof {
            assert((y + 1) * w == y * w + w) by (nonlinear_arith);
        }
        y += 1;
    }
    proof {
        assert(horizontal@.len() == w * h) by (nonlinear_arith)
            requires
                horizontal@.len() == height * w,
                height == h,
        ;
    }
    let horizontal = match Raster::new(width, height, horizontal) {
        Ok(raster) => raster,
        Err(e) => return Err(e),
    };
    let ghost hp = horizontal.px();
    proof {
        assert forall|qx: int, qy: int| #[trigger] on_at(hp, w, h, qx, qy) <==> (in_grid(w, h, qx, qy)
            && row_filter_at(px, w, h, ri, dilate, qx, qy)) by {
            if in_grid(w, h, qx, qy) {
                lemma_index(w, h, qx, qy);
            }
        }
    }
    let mut output: Vec<u8> = Vec::new();
    let mut y: u32 = 0;
    while y < height
        invariant
            w == input.w() && h == input.h() && px == input.px(),
            w == horizontal.w() && h == horizontal.h() && hp == horizontal.px(),
            forall|qx: int, qy: int| #[trigger] on_at(hp, w, h, qx, qy) <==> (in_grid(w, h, qx, qy)
                && row_filter_at(px, w, h, ri, dilate, qx, qy)),
            valid_dims(w, h),
            width == w && height == h,
            r == ri && 0 <= ri <= 32,
            diameter == 2 * ri + 1,
            y <= height,
            output@.len() == y * w,
            forall|j: int|
                0 <= j < y * w ==> #[trigger] output@[j] == morphology_at(px, w, h, ri, dilate, j % w, j / w),
        decreases height - y,
    {
        let mut x: u32 = 0;
        while x < width
            invariant
                w == input.w() && h == input.h() && px == input.px(),
                w == horizontal.w() && h == horizontal.h() && hp == horizontal.px(),
                forall|qx: int, qy: int| #[trigger] on_at(hp, w, h, qx, qy) <==> (in_grid(w, h, qx, qy)
                    && row_filter_at(px, w, h, ri, dilate, qx, qy)),
                valid_dims(w, h),
                width == w && height == h,
                r == ri && 0 <= ri <= 32,
                diameter == 2 * ri + 1,
                y < height,
                x <= width,
                output@.len() == y * w + x,
                forall|j: int|
                    0 <= j < y * w + x ==> #[trigger] output@[j] == morphology_at(px, w, h, ri, dilate, j % w, j / w),
            decreases width - x,
        {
            let count = window_count(&horizontal, x, y, r, false);
            proof {
                lemma_column_filter(px, hp, w, h, ri, dilate, x as int, y as int);
                lemma_index(w, h, x as int, y as int);
            }
            output.push(binary_filter_value(count, diameter, dilate));
            x += 1;
        }
        proof {
            assert((y + 1) * w == y * w + w) by (nonlinear_arith);
        }
        y += 1;
    }
    proof {
        assert(output@.len() == w * h) by (nonlinear_arith)
            requires
                output@.len() == height * w,
                height == h,
        ;
        assert(output@ =~= morphology_px(px, w, h, ri, dilate));
    }
    Raster::new(width, height, output)
}

/// A morphology filter yields a binary raster.
pub proof fn lemma_morphology_binary(px: Seq<u8>, w: int, h: int, r: int, dilate: bool)
    ensures
        is_binary(morphology_px(px, w, h, r, dilate)),
{
}

/// A duplicate-free sequence of indices below `n` has at most `n` elements.
pub proof fn lemma_distinct_bounded(s: Seq<usize>, n: int)
    requires
        n >= 0,
        s.no_duplicates(),
        forall|k: int| 0 <= k < s.len() ==> (#[trigger] s[k] as int) < n,
    ensures
        s.len() <= n,
{
    let si = s.map_values(|v: usize| v as int);
    assert(si.no_duplicates()) by {
        assert forall|a: int, b: int| 0 <= a < si.len() && 0 <= b < si.len() && a != b implies #[trigger] si[a]
            != #[trigger] si[b] by {
            assert(s[a] != s[b]);
        }
    }
    si.unique_seq_to_set();
    vstd::set_lib::lemma_int_range(0, n);
    assert(si.to_set().subset_of(vstd::set_lib::set_int_range(0, n))) by {
        assert forall|v: int| #[trigger] si.to_set().contains(v) implies vstd::set_lib::set_int_range(0, n).contains(v) by {
            assert(si.contains(v));
            let k = choose|k: int| 0 <= k < si.len() && si[k] == v;
            assert(s[k] as int == v);
        }
    }
    vstd::set_lib::lemma_len_subset(si.to_set(), vstd::set_lib::set_int_range(0, n));
}

/// Magnitude at a position; positions outside the grid read as zero.
pub open spec fn magnitude_at(m: Seq<u32>, w: int, h: int, x: int, y: int) -> int {
    if in_grid(w, h, x, y) {
        pixel_at(m, w, x, y) as int
    } else {
        0
    }
}

/// The two neighbor offsets compared across a gradient normal.
pub open spec fn suppression_offsets(d: GradientDirection) -> (int, int, int, int) {
    match d {
        GradientDirection::Horizontal => (-1, 0, 1, 0),
        GradientDirection::DiagonalUp => (-1, 1, 1, -1),
        GradientDirection::Vertical => (0, -1, 0, 1),
        GradientDirection::DiagonalDown => (-1, -1, 1, 1),
    }
}

/// Whether a magnitude is no smaller than both neighbors across its normal.
pub open spec fn is_local_maximum(m: Seq<u32>, dirs: Seq<GradientDirection>, w: int, h: int, x: int, y: int) -> bool {
    let v = pixel_at(m, w, x, y) as int;
    let o = suppression_offsets(pixel_at(dirs, w, x, y));
    v >= magnitude_at(m, w, h, x + o.0, y + o.1) && v >= magnitude_at(m, w, h, x + o.2, y + o.3)
}

/// A pixel that passes the low threshold and nonmaximum suppression.
pub open spec fn edge_candidate(m: Seq<u32>, dirs: Seq<GradientDirection>, w: int, h: int, low: int, i: int) -> bool {
    &&& 0 <= i < w * h
    &&& m[i] >= low
    &&& is_local_maximum(m, dirs, w, h, i % w, i / w)
}

/// A candidate that also passes the high threshold.
pub open spec fn edge_seed(m: Seq<u32>, dirs: Seq<GradientDirection>, w: int, h: int, low: int, high: int, i: int) -> bool {
    edge_candidate(m, dirs, w, h, low, i) && m[i] >= high
}

/// A chain of eight-connected candidates that starts at a seed.
pub open spec fn edge_path(m: Seq<u32>, dirs: Seq<GradientDirection>, w: int, h: int, low: int, high: int, path: Seq<int>) -> bool {
    &&& path.len() >= 1
    &&& edge_seed(m, dirs, w, h, low, high, path[0])
    &&& forall|k: int| 0 <= k < path.len() ==> #[trigger] edge_candidate(m, dirs, w, h, low, path[k])
    &&& forall|k: int|
        1 <= k < path.len() ==> is_neighbor(w, h, path[k - 1] % w, path[k - 1] / w, #[trigger] path[k] % w, path[k] / w, true)
}

/// Every candidate neighbor of pixel `q` has been accepted.
pub open spec fn neighbors_settled(
    m: Seq<u32>,
    dirs: Seq<GradientDirection>,
    w: int,
    h: int,
    low: int,
    states: Seq<u8>,
    q: int,
) -> bool {
    forall|j: int|
        0 <= j < w * h && is_neighbor(w, h, q % w, q / w, j % w, j / w, true) && #[trigger] edge_candidate(
            m,
            dirs,
            w,
            h,
            low,
            j,
        ) ==> states[j] == 2
}

/// Hysteresis edges: candidates connected to a seed through candidates.
pub open spec fn is_edge(m: Seq<u32>, dirs: Seq<GradientDirection>, w: int, h: int, low: int, high: int, i: int) -> bool {
    exists|path: Seq<int>| #[trigger] edge_path(m, dirs, w, h, low, high, path) && path.last() == i
}

proof fn lemma_path_closed(
    m: Seq<u32>,
    dirs: Seq<GradientDirection>,
    w: int,
    h: int,
    low: int,
    high: int,
    states: Seq<u8>,
    path: Seq<int>,
)
    requires
        w >= 1,
        states.len() == w * h,
        forall|i: int| #[trigger] edge_seed(m, dirs, w, h, low, high, i) ==> states[i] == 2,
        forall|q: int, j: int|
            0 <= q < w * h && #[trigger] states[q] == 2 && is_neighbor(w, h, q % w, q / w, j % w, j / w, true)
                && #[trigger] edge_candidate(m, dirs, w, h, low, j) ==> states[j] == 2,
        edge_path(m, dirs, w, h, low, high, path),
    ensures
        states[path.last()] == 2,
    decreases path.len(),
{
    if path.len() > 1 {
        let prefix = path.drop_last();
        assert forall|k: int| 1 <= k < prefix.len() implies is_neighbor(
            w,
            h,
            prefix[k - 1] % w,
            prefix[k - 1] / w,
            #[trigger] prefix[k] % w,
            prefix[k] / w,
            true,
        ) by {
            assert(path[k] == prefix[k]);
        }
        assert forall|k: int| 0 <= k < prefix.len() implies #[trigger] edge_candidate(m, dirs, w, h, low, prefix[k]) by {
            assert(path[k] == prefix[k]);
        }
        lemma_path_closed(m, dirs, w, h, low, high, states, prefix);
        let last = path.len() - 1;
        assert(edge_candidate(m, dirs, w, h, low, path[last]));
        assert(edge_candidate(m, dirs, w, h, low, path[last - 1]));
        assert(states[path[last - 1]] == 2);
        assert(is_neighbor(w, h, path[last - 1] % w, path[last - 1] / w, path[last] % w, path[last] / w, true));
        assert(prefix.last() == path[last - 1]);
    } else {
        assert(edge_seed(m, dirs, w, h, low, high, path[0]));
        assert(path.last() == path[0]);
    }
}

fn sample_magnitude(magnitude: &Raster<u32>, x: u32, y: u32, offset_x: i64, offset_y: i64) -> (r: u32)
    requires
        -1 <= offset_x <= 1 && -1 <= offset_y <= 1,
    ensures
        r == magnitude_at(magnitude.px(), magnitude.w(), magnitude.h(), x + offset_x, y + offset_y),
{
    let candidate_x = x as i64 + offset_x;
    let candidate_y = y as i64 + offset_y;
    if candidate_x < 0 || candidate_y < 0 || candidate_x >= magnitude.width() as i64 || candidate_y
        >= magnitude.height() as i64 {
        return 0;
    }
    magnitude.pixels()[magnitude.index(candidate_x as u32, candidate_y as u32)]
}

fn is_local_maximum_at(gradients: &GradientField, x: u32, y: u32) -> (r: bool)
    requires
        gradients.mag().w() == gradients.dir().w(),
        gradients.mag().h() == gradients.dir().h(),
        in_grid(gradients.mag().w(), gradients.mag().h(), x as int, y as int),
    ensures
        r == is_local_maximum(gradients.mag().px(), gradients.dir().px(), gradients.mag().w(), gradients.mag().h(), x as int, y as int),
{
    let magnitude = gradients.magnitude();
    let direction = gradients.direction();
    let index = magnitude.index(x, y);
    let value = magnitude.pixels()[index];
    let d = direction.pixels()[direction.index(x, y)];
    let (first_x, first_y, second_x, second_y): (i64, i64, i64, i64) = match d {
        GradientDirection::Horizontal => (-1, 0, 1, 0),
        GradientDirection::DiagonalUp => (-1, 1, 1, -1),
        GradientDirection::Vertical => (0, -1, 0, 1),
        GradientDirection::DiagonalDown => (-1, -1, 1, 1),
    };
    value >= sample_magnitude(magnitude, x, y, first_x, first_y) && value >= sample_magnitude(
        magnitude,
        x,
        y,
        second_x,
        second_y,
    )
}

/// Connect weak nonmaximum-suppressed edges to strong edges with hysteresis.
pub fn hysteresis_edges(gradients: &GradientField, low_threshold: u32, high_threshold: u32) -> (r: Result<
    Raster<u8>,
    KernelError,
>)
    ensures
        r is Ok <==> (gradients.mag().w() == gradients.dir().w() && gradients.mag().h() == gradients.dir().h()
            && low_threshold > 0 && high_threshold >= low_threshold),
        r matches Ok(out) ==> {
            &&& out.w() == gradients.mag().w() && out.h() == gradients.mag().h()
            &&& forall|i: int|
                0 <= i < out.px().len() ==> #[trigger] out.px()[i] == (if is_edge(
                    gradients.mag().px(),
                    gradients.dir().px(),
                    gradients.mag().w(),
                    gradients.mag().h(),
                    low_threshold as int,
                    high_threshold as int,
                    i,
                ) {
                    EDGE_ON
                } else {
                    EDGE_OFF
                })
        },
{
    let magnitude = gradients.magnitude();
    match magnitude.same_grid(gradients.direction()) {
        Err(e) => return Err(e),
        Ok(()) => {},
    }
    if low_threshold == 0 || high_threshold < low_threshold {
        return Err(invalid("hysteresis thresholds are zero or reversed"));
    }
    magnitude.facts();
    let width = magnitude.width();
    let height = magnitude.height();
    let ghost m = gradients.mag().px();
    let ghost dirs = gradients.dir().px();
    let ghost w = width as int;
    let ghost h = height as int;
    let ghost n = w * h;
    let ghost low = low_threshold as int;
    let ghost high = high_threshold as int;
    proof {
        lemma_grid_bound(w, h);
    }
    let count = magnitude.pixels().len();
    let mut states: Vec<u8> = Vec::new();
    let mut queue: Vec<usize> = Vec::new();
    let ghost mut paths: Seq<Seq<int>> = Seq::empty();
    let mut i: usize = 0;
    while i < count
        invariant
            m == gradients.mag().px() && dirs == gradients.dir().px(),
            *magnitude == gradients.mag(),
            w == gradients.mag().w() && h == gradients.mag().h(),
            w == gradients.dir().w() && h == gradients.dir().h(),
            valid_dims(w, h),
            width == w && height == h,
            n == w * h && count == n,
            low == low_threshold && high == high_threshold,
            i <= count,
            states@.len() == i && paths.len() == i,
            forall|k: int|
                0 <= k < i ==> #[trigger] states@[k] == (if edge_seed(m, dirs, w, h, low, high, k) {
                    2u8
                } else if edge_candidate(m, dirs, w, h, low, k) {
                    1u8
                } else {
                    0u8
                }),
            forall|k: int| 0 <= k < i && states@[k] == 2 ==> edge_path(m, dirs, w, h, low, high, #[trigger] paths[k]) && paths[k].last() == k,
            queue@.no_duplicates(),
            forall|k: int| 0 <= k < queue@.len() ==> (#[trigger] queue@[k] as int) < i,
            forall|k: int| 0 <= k < i ==> (#[trigger] states@[k] == 2 <==> queue@.contains(k as usize)),
        decreases count - i,
    {
        proof {
            lemma_position(w, h, i as int);
        }
        let x = (i % width as usize) as u32;
        let y = (i / width as usize) as u32;
        let value = magnitude.pixels()[i];
        let candidate = value >= low_threshold && is_local_maximum_at(gradients, x, y);
        let ghost old_queue = queue@;
        if candidate && value >= high_threshold {
            states.push(2);
            queue.push(i);
            proof {
                paths = paths.push(seq![i as int]);
                assert(edge_path(m, dirs, w, h, low, high, seq![i as int]));
            }
        } else if candidate {
            states.push(1);
            proof {
                paths = paths.push(seq![i as int]);
            }
        } else {
            states.push(0);
            proof {
                paths = paths.push(seq![i as int]);
            }
        }
        proof {
            assert forall|k: int| 0 <= k < i + 1 implies (#[trigger] states@[k] == 2 <==> queue@.contains(k as usize)) by {
                if k < i {
                    if old_queue.contains(k as usize) {
                        let a = choose|a: int| 0 <= a < old_queue.len() && old_queue[a] == k as usize;
                        assert(queue@[a] == k as usize);
                    }
                    if queue@.contains(k as usize) {
                        let a = choose|a: int| 0 <= a < queue@.len() && queue@[a] == k as usize;
                        if a < old_queue.len() {
                            assert(old_queue[a] == k as usize);
                        }
                    }
                } else {
                    if states@[k] == 2 {
                        assert(queue@[queue@.len() - 1] == i);
                    }
                    if queue@.contains(k as usize) {
                        let a = choose|a: int| 0 <= a < queue@.len() && queue@[a] == k as usize;
                    }
                }
            }
        }
        i += 1;
    }
    let mut head: usize = 0;
    while head < queue.len()
        invariant
            m == gradients.mag().px() && dirs == gradients.dir().px(),
            *magnitude == gradients.mag(),
            w == gradients.mag().w() && h == gradients.mag().h(),
            valid_dims(w, h),
            width == w && height == h,
            n == w * h && count == n && 1 <= n <= 16_777_216,
            low == low_threshold && high == high_threshold,
            states@.len() == n && paths.len() == n,
            head <= queue@.len(),
            forall|k: int| 0 <= k < n ==> (#[trigger] states@[k] == 0 <==> !edge_candidate(m, dirs, w, h, low, k)),
            forall|k: int| 0 <= k < n ==> #[trigger] states@[k] <= 2,
            forall|k: int| #[trigger] edge_seed(m, dirs, w, h, low, high, k) ==> states@[k] == 2,
            forall|k: int| 0 <= k < n && states@[k] == 2 ==> edge_path(m, dirs, w, h, low, high, #[trigger] paths[k]) && paths[k].last() == k,
            queue@.no_duplicates(),
            forall|k: int| 0 <= k < queue@.len() ==> (#[trigger] queue@[k] as int) < n,
            forall|k: int| 0 <= k < n ==> (#[trigger] states@[k] == 2 <==> queue@.contains(k as usize)),
            forall|a: int| 0 <= a < head ==> neighbors_settled(m, dirs, w, h, low, states@, #[trigger] queue@[a] as int),
        decreases n - head,
    {
        proof {
            lemma_distinct_bounded(queue@, n);
        }
        let index = queue[head];
        proof {
            assert(states@[index as int] == 2) by {
                assert(queue@.contains(index));
            }
            lemma_position(w, h, index as int);
        }
        let x = (index % width as usize) as u32;
        let y = (index / width as usize) as u32;
        let around = neighbors(width, height, x, y, true);
        let mut k: usize = 0;
        while k < around.len()
            invariant
                m == gradients.mag().px() && dirs == gradients.dir().px(),
                *magnitude == gradients.mag(),
                w == gradients.mag().w() && h == gradients.mag().h(),
                valid_dims(w, h),
                width == w && height == h,
                n == w * h && count == n && 1 <= n <= 16_777_216,
                low == low_threshold && high == high_threshold,
                states@.len() == n && paths.len() == n,
                head < queue@.len(),
                index == queue@[head as int],
                x == index as int % w && y == index as int / w,
                states@[index as int] == 2,
                k <= around@.len(),
                forall|c: int|
                    0 <= c < around@.len() ==> is_neighbor(w, h, x as int, y as int, (#[trigger] around@[c]).0 as int, around@[c].1 as int, true),
                forall|j: int| 0 <= j < n ==> (#[trigger] states@[j] == 0 <==> !edge_candidate(m, dirs, w, h, low, j)),
                forall|j: int| 0 <= j < n ==> #[trigger] states@[j] <= 2,
                forall|j: int| #[trigger] edge_seed(m, dirs, w, h, low, high, j) ==> states@[j] == 2,
                forall|j: int| 0 <= j < n && states@[j] == 2 ==> edge_path(m, dirs, w, h, low, high, #[trigger] paths[j]) && paths[j].last() == j,
                queue@.no_duplicates(),
                forall|c: int| 0 <= c < queue@.len() ==> (#[trigger] queue@[c] as int) < n,
                forall|j: int| 0 <= j < n ==> (#[trigger] states@[j] == 2 <==> queue@.contains(j as usize)),
                forall|a: int| 0 <= a < head ==> neighbors_settled(m, dirs, w, h, low, states@, #[trigger] queue@[a] as int),
                forall|c: int|
                    0 <= c < k ==> #[trigger] states@[grid_index(w, around@[c].0 as int, around@[c].1 as int)] != 1,
            decreases around@.len() - k,
        {
            let (neighbor_x, neighbor_y) = around[k];
            proof {
                assert(is_neighbor(w, h, x as int, y as int, around@[k as int].0 as int, around@[k as int].1 as int, true));
                lemma_index(w, h, neighbor_x as int, neighbor_y as int);
            }
            let neighbor = magnitude.index(neighbor_x, neighbor_y);
            assert(neighbor as int == grid_index(w, around@[k as int].0 as int, around@[k as int].1 as int));
            if states[neighbor] == 1 {
                let ghost old_queue = queue@;
                let ghost old_states = states@;
                proof {
                    assert(edge_candidate(m, dirs, w, h, low, neighbor as int));
                    let p = paths[index as int];
                    assert(edge_path(m, dirs, w, h, low, high, p) && p.last() == index as int);
                    let np = p.push(neighbor as int);
                    assert(is_neighbor(w, h, index as int % w, index as int / w, neighbor as int % w, neighbor as int / w, true));
                    assert forall|c: int| 0 <= c < np.len() implies #[trigger] edge_candidate(m, dirs, w, h, low, np[c]) by {
                        if c < p.len() {
                            assert(np[c] == p[c]);
                        }
                    }
                    assert forall|c: int| 1 <= c < np.len() implies is_neighbor(w, h, np[c - 1] % w, np[c - 1] / w, #[trigger] np[c] % w, np[c] / w, true) by {
                        if c < p.len() {
                            assert(np[c] == p[c]);
                            assert(np[c - 1] == p[c - 1]);
                        } else {
                            assert(np[c - 1] == p.last());
                        }
                    }
                    assert(edge_path(m, dirs, w, h, low, high, np));
                    paths = paths.update(neighbor as int, np);
                    assert(!old_queue.contains(neighbor));
                }
                states.set(neighbor, 2);
                queue.push(neighbor);
                proof {
                    assert forall|j: int| 0 <= j < n implies (#[trigger] states@[j] == 2 <==> queue@.contains(j as usize)) by {
                        if j != neighbor as int {
                            if old_queue.contains(j as usize) {
                                let a = choose|a: int| 0 <= a < old_queue.len() && old_queue[a] == j as usize;
                                assert(queue@[a] == j as usize);
                            }
                            if queue@.contains(j as usize) {
                                let a = choose|a: int| 0 <= a < queue@.len() && queue@[a] == j as usize;
                                if a < old_queue.len() {
                                    assert(old_queue[a] == j as usize);
                                }
                            }
                            assert(old_states[j] == states@[j]);
                        } else {
                            assert(queue@[queue@.len() - 1] == neighbor);
                        }
                    }
                    assert(queue@.no_duplicates()) by {
                        assert forall|a: int, b: int| 0 <= a < queue@.len() && 0 <= b < queue@.len() && a != b implies queue@[a]
                            != queue@[b] by {
                            if a < old_queue.len() && b < old_queue.len() {
                                assert(old_queue[a] != old_queue[b]);
                            } else if a < old_queue.len() {
                                assert(old_queue.contains(old_queue[a]));
                            } else if b < old_queue.len() {
                                assert(old_queue.contains(old_queue[b]));
                            }
                        }
                    }
                    assert forall|j: int| 0 <= j < n && states@[j] == 2 implies edge_path(m, dirs, w, h, low, high, #[trigger] paths[j]) && paths[j].last() == j by {
                        if j != neighbor as int {
                            assert(old_states[j] == 2);
                        }
                    }
                    assert forall|a: int| 0 <= a < head implies neighbors_settled(m, dirs, w, h, low, states@, #[trigger] queue@[a] as int) by {
                        assert(queue@[a] == old_queue[a]);
                        assert(neighbors_settled(m, dirs, w, h, low, old_states, old_queue[a] as int));
                        let q = queue@[a] as int;
                        assert forall|j: int| 0 <= j < w * h && is_neighbor(w, h, q % w, q / w, j % w, j / w, true)
                            && #[trigger] edge_candidate(m, dirs, w, h, low, j) implies states@[j] == 2 by {
                            if j != neighbor as int {
                                assert(old_states[j] == 2);
                            }
                        }
                    }
                    assert forall|c: int| 0 <= c < k + 1 implies #[trigger] states@[grid_index(w, around@[c].0 as int, around@[c].1 as int)] != 1 by {
                        if c == k {
                            assert(grid_index(w, around@[c].0 as int, around@[c].1 as int) == neighbor as int);
                        } else if grid_index(w, around@[c].0 as int, around@[c].1 as int) != neighbor as int {
                            assert(is_neighbor(w, h, x as int, y as int, around@[c].0 as int, around@[c].1 as int, true));
                            lemma_index(w, h, around@[c].0 as int, around@[c].1 as int);
                            if c < k {
                                assert(old_states[grid_index(w, around@[c].0 as int, around@[c].1 as int)] != 1);
                            }
                        }
                    }
                }
            }
            k += 1;
        }
        proof {
            assert forall|j: int|
                0 <= j < w * h && is_neighbor(w, h, x as int, y as int, j % w, j / w, true) && #[trigger] edge_candidate(
                    m,
                    dirs,
                    w,
                    h,
                    low,
                    j,
                ) implies states@[j] == 2 by {
                lemma_position(w, h, j);
                assert(around@.contains(((j % w) as u32, (j / w) as u32)));
                let c = choose|c: int| 0 <= c < around@.len() && around@[c] == ((j % w) as u32, (j / w) as u32);
                assert(states@[grid_index(w, around@[c].0 as int, around@[c].1 as int)] != 1);
                assert(grid_index(w, around@[c].0 as int, around@[c].1 as int) == j);
            }
            assert(neighbors_settled(m, dirs, w, h, low, states@, queue@[head as int] as int));
        }
        head += 1;
    }
    proof {
        assert forall|q: int, j: int|
            0 <= q < w * h && #[trigger] states@[q] == 2 && is_neighbor(w, h, q % w, q / w, j % w, j / w, true)
                && #[trigger] edge_candidate(m, dirs, w, h, low, j) implies states@[j] == 2 by {
            assert(queue@.contains(q as usize));
            let a = choose|a: int| 0 <= a < queue@.len() && queue@[a] == q as usize;
            assert(neighbors_settled(m, dirs, w, h, low, states@, queue@[a] as int));
        }
        assert forall|k: int| #[trigger] edge_seed(m, dirs, w, h, low, high, k) implies states@[k] == 2 by {}
        assert forall|path: Seq<int>| #[trigger] edge_path(m, dirs, w, h, low, high, path) implies states@[path.last()] == 2 by {
            lemma_path_closed(m, dirs, w, h, low, high, states@, path);
        }
    }
    let mut output: Vec<u8> = Vec::new();
    let mut t: usize = 0;
    while t < count
        invariant
            m == gradients.mag().px() && dirs == gradients.dir().px(),
            w == gradients.mag().w() && h == gradients.mag().h(),
            valid_dims(w, h),
            n == w * h && count == n,
            low == low_threshold && high == high_threshold,
            states@.len() == n && paths.len() == n,
            t <= count,
            output@.len() == t,
            forall|j: int| 0 <= j < n && states@[j] == 2 ==> edge_path(m, dirs, w, h, low, high, #[trigger] paths[j]) && paths[j].last() == j,
            forall|path: Seq<int>| #[trigger] edge_path(m, dirs, w, h, low, high, path) ==> states@[path.last()] == 2,
            forall|j: int|
                0 <= j < t ==> #[trigger] output@[j] == (if is_edge(m, dirs, w, h, low, high, j) {
                    EDGE_ON
                } else {
                    EDGE_OFF
                }),
        decreases count - t,
    {
        proof {
            if states@[t as int] == 2 {
                assert(edge_path(m, dirs, w, h, low, high, paths[t as int]));
            }
            if is_edge(m, dirs, w, h, low, high, t as int) {
                let path = choose|path: Seq<int>| #[trigger] edge_path(m, dirs, w, h, low, high, path) && path.last() == t as int;
            }
        }
        output.push(if states[t] == 2 { EDGE_ON } else { EDGE_OFF });
        t += 1;
    }
    Raster::new(width, height, output)
}

/// Stable connected-component evidence.
#[derive(Clone, Debug, Eq, PartialEq, Structural)]
pub struct Component {
    /// Positive label written to the component raster.
    pub label: u32,
    /// Exact component area in pixels.
    pub area: u32,
    /// Inclusive minimum x coordinate.
    pub min_x: u32,
    /// Inclusive minimum y coordinate.
    pub min_y: u32,
    /// Inclusive maximum x coordinate.
    pub max_x: u32,
    /// Inclusive maximum y coordinate.
    pub max_y: u32,
}

/// Neighborhood used by connected components.
#[derive(Clone, Copy, Debug, Eq, PartialEq, Structural)]
pub enum Connectivity {
    /// Orthogonal neighbors only.
    Four,
    /// Orthogonal and diagonal neighbors.
    Eight,
}

/// Whether two row-major indices are neighbors.
pub open spec fn adjacent(w: int, h: int, diagonals: bool, i: int, j: int) -> bool {
    is_neighbor(w, h, i % w, i / w, j % w, j / w, diagonals)
}

/// A chain of neighboring on pixels.
pub open spec fn on_path(px: Seq<u8>, w: int, h: int, diagonals: bool, path: Seq<int>) -> bool {
    &&& path.len() >= 1
    &&& forall|k: int| 0 <= k < path.len() ==> 0 <= #[trigger] path[k] < w * h && px[path[k]] == EDGE_ON
    &&& forall|k: int| 1 <= k < path.len() ==> adjacent(w, h, diagonals, path[k - 1], #[trigger] path[k])
}

/// Number of entries equal to `l`.
pub open spec fn count_label(labels: Seq<u32>, l: int) -> nat
    decreases labels.len(),
{
    if labels.len() == 0 {
        0
    } else {
        count_label(labels.drop_last(), l) + if labels.last() == l { 1nat } else { 0nat }
    }
}

proof fn lemma_count_label_update(labels: Seq<u32>, j: int, v: u32, l: int)
    requires
        0 <= j < labels.len(),
    ensures
        count_label(labels.update(j, v), l) == count_label(labels, l) - (if labels[j] == l { 1int } else { 0int })
            + (if v == l { 1int } else { 0int }),
    decreases labels.len(),
{
    let u = labels.update(j, v);
    if j < labels.len() - 1 {
        assert(u.drop_last() =~= labels.drop_last().update(j, v));
        lemma_count_label_update(labels.drop_last(), j, v, l);
    } else {
        assert(u.drop_last() =~= labels.drop_last());
    }
}

/// Every on neighbor of pixel `j` carries the label of `j`.
pub open spec fn labels_settled(px: Seq<u8>, w: int, h: int, diagonals: bool, labels: Seq<u32>, j: int) -> bool {
    forall|q: int|
        0 <= q < w * h && #[trigger] adjacent(w, h, diagonals, j, q) && px[q] == EDGE_ON ==> labels[q] == labels[j]
}

/// A component record that describes exactly the pixels labeled `l`.
pub open spec fn component_matches(c: Component, labels: Seq<u32>, w: int, l: int) -> bool {
    &&& c.label == l
    &&& c.area == count_label(labels, l)
    &&& forall|j: int|
        0 <= j < labels.len() && #[trigger] labels[j] == l ==> c.min_x <= j % w <= c.max_x && c.min_y <= j / w
            <= c.max_y
    &&& exists|j: int| 0 <= j < labels.len() && #[trigger] labels[j] == l && j % w == c.min_x
    &&& exists|j: int| 0 <= j < labels.len() && #[trigger] labels[j] == l && j % w == c.max_x
    &&& exists|j: int| 0 <= j < labels.len() && #[trigger] labels[j] == l && j / w == c.min_y
    &&& exists|j: int| 0 <= j < labels.len() && #[trigger] labels[j] == l && j / w == c.max_y
}

proof fn lemma_adjacent_symmetric(w: int, h: int, diagonals: bool, i: int, j: int)
    requires
        w >= 1,
        0 <= i < w * h,
        0 <= j < w * h,
        adjacent(w, h, diagonals, i, j),
    ensures
        adjacent(w, h, diagonals, j, i),
{
    lemma_position(w, h, i);
    lemma_position(w, h, j);
}

proof fn lemma_components_stable(comps: Seq<Component>, labels: Seq<u32>, w: int, j: int, label: u32)
    requires
        0 <= j < labels.len(),
        labels[j] == 0,
        label as int == comps.len() + 1,
        forall|m: int| 0 <= m < comps.len() ==> component_matches(#[trigger] comps[m], labels, w, m + 1),
    ensures
        forall|m: int| 0 <= m < comps.len() ==> component_matches(#[trigger] comps[m], labels.update(j, label), w, m + 1),
{
    let u = labels.update(j, label);
    assert forall|m: int| 0 <= m < comps.len() implies component_matches(#[trigger] comps[m], u, w, m + 1) by {
        let cm = comps[m];
        assert(component_matches(cm, labels, w, m + 1));
        lemma_count_label_update(labels, j, label, m + 1);
        assert forall|q: int| 0 <= q < u.len() && #[trigger] u[q] == m + 1 implies cm.min_x <= q % w <= cm.max_x
            && cm.min_y <= q / w <= cm.max_y by {
            assert(labels[q] == m + 1);
        }
        let j1 = choose|q: int| 0 <= q < labels.len() && #[trigger] labels[q] == m + 1 && q % w == cm.min_x;
        assert(u[j1] == m + 1);
        let j2 = choose|q: int| 0 <= q < labels.len() && #[trigger] labels[q] == m + 1 && q % w == cm.max_x;
        assert(u[j2] == m + 1);
        let j3 = choose|q: int| 0 <= q < labels.len() && #[trigger] labels[q] == m + 1 && q / w == cm.min_y;
        assert(u[j3] == m + 1);
        let j4 = choose|q: int| 0 <= q < labels.len() && #[trigger] labels[q] == m + 1 && q / w == cm.max_y;
        assert(u[j4] == m + 1);
    }
}

proof fn lemma_bbox_step(qs: Seq<usize>, start: int, head: int, w: int, old: Component, new: Component)
    requires
        0 <= start <= head < qs.len(),
        w >= 1,
        head > start ==> forall|a: int|
            start <= a < head ==> old.min_x <= (#[trigger] qs[a] as int) % w <= old.max_x && old.min_y <= (qs[a] as int) / w
                <= old.max_y,
        head > start ==> exists|a: int| start <= a < head && (#[trigger] qs[a] as int) % w == old.min_x,
        head > start ==> exists|a: int| start <= a < head && (#[trigger] qs[a] as int) % w == old.max_x,
        head > start ==> exists|a: int| start <= a < head && (#[trigger] qs[a] as int) / w == old.min_y,
        head > start ==> exists|a: int| start <= a < head && (#[trigger] qs[a] as int) / w == old.max_y,
        head == start ==> new.min_x == (qs[head] as int) % w && new.max_x == (qs[head] as int) % w
            && new.min_y == (qs[head] as int) / w && new.max_y == (qs[head] as int) / w,
        head > start ==> new.min_x == (if (qs[head] as int) % w < old.min_x { (qs[head] as int) % w } else { old.min_x as int }),
        head > start ==> new.max_x == (if (qs[head] as int) % w > old.max_x { (qs[head] as int) % w } else { old.max_x as int }),
        head > start ==> new.min_y == (if (qs[head] as int) / w < old.min_y { (qs[head] as int) / w } else { old.min_y as int }),
        head > start ==> new.max_y == (if (qs[head] as int) / w > old.max_y { (qs[head] as int) / w } else { old.max_y as int }),
    ensures
        forall|a: int|
            start <= a < head + 1 ==> new.min_x <= (#[trigger] qs[a] as int) % w <= new.max_x && new.min_y <= (qs[a] as int) / w
                <= new.max_y,
        exists|a: int| start <= a < head + 1 && (#[trigger] qs[a] as int) % w == new.min_x,
        exists|a: int| start <= a < head + 1 && (#[trigger] qs[a] as int) % w == new.max_x,
        exists|a: int| start <= a < head + 1 && (#[trigger] qs[a] as int) / w == new.min_y,
        exists|a: int| start <= a < head + 1 && (#[trigger] qs[a] as int) / w == new.max_y,
{
    if head == start {
        assert((qs[head] as int) % w == new.min_x);
        assert((qs[head] as int) / w == new.min_y);
    } else {
        assert((qs[head] as int) % w == (qs[head] as int) % w);
        if new.min_x != old.min_x {
            assert((qs[head] as int) % w == new.min_x);
        } else {
            let a = choose|a: int| start <= a < head && (#[trigger] qs[a] as int) % w == old.min_x;
            assert(start <= a < head + 1);
        }
        if new.max_x != old.max_x {
            assert((qs[head] as int) % w == new.max_x);
        } else {
            let a = choose|a: int| start <= a < head && (#[trigger] qs[a] as int) % w == old.max_x;
            assert(start <= a < head + 1);
        }
        if new.min_y != old.min_y {
            assert((qs[head] as int) / w == new.min_y);
        } else {
            let a = choose|a: int| start <= a < head && (#[trigger] qs[a] as int) / w == old.min_y;
            assert(start <= a < head + 1);
        }
        if new.max_y != old.max_y {
            assert((qs[head] as int) / w == new.max_y);
        } else {
            let a = choose|a: int| start <= a < head && (#[trigger] qs[a] as int) / w == old.max_y;
            assert(start <= a < head + 1);
        }
    }
}

proof fn lemma_settle(
    px: Seq<u8>,
    w: int,
    h: int,
    diag: bool,
    labels: Seq<u32>,
    l: int,
    index: int,
    around: Seq<(u32, u32)>,
)
    requires
        valid_dims(w, h),
        labels.len() == w * h,
        0 <= index < w * h,
        labels[index] == l,
        px[index] == EDGE_ON,
        forall|nx: u32, ny: u32|
            is_neighbor(w, h, index % w, index / w, nx as int, ny as int, diag) ==> #[trigger] around.contains((nx, ny)),
        forall|c: int|
            0 <= c < around.len() ==> px[grid_index(w, (#[trigger] around[c]).0 as int, around[c].1 as int)] == EDGE_ON
                ==> labels[grid_index(w, around[c].0 as int, around[c].1 as int)] != 0,
        forall|j: int| 0 <= j < w * h && #[trigger] labels[j] != 0 && labels[j] != l ==> labels_settled(px, w, h, diag, labels, j),
    ensures
        labels_settled(px, w, h, diag, labels, index),
{
    assert forall|q: int| 0 <= q < w * h && #[trigger] adjacent(w, h, diag, index, q) && px[q] == EDGE_ON implies labels[q]
        == labels[index] by {
        lemma_position(w, h, q);
        lemma_position(w, h, index);
        assert(around.contains(((q % w) as u32, (q / w) as u32)));
        let c = choose|c: int| 0 <= c < around.len() && around[c] == ((q % w) as u32, (q / w) as u32);
        assert(grid_index(w, around[c].0 as int, around[c].1 as int) == q);
        assert(labels[q] != 0);
        if labels[q] != l {
            assert(labels_settled(px, w, h, diag, labels, q));
            lemma_adjacent_symmetric(w, h, diag, index, q);
            assert(adjacent(w, h, diag, q, index));
            assert(labels[index] == labels[q]);
        }
    }
}

/// Label binary connected components in stable row-major discovery order.
/// Labeling state while component `l` is being flooded from the scan position `i`.
#[verifier::opaque]
pub open spec fn flood_state(
    px: Seq<u8>,
    w: int,
    h: int,
    diag: bool,
    labels: Seq<u32>,
    paths: Seq<Seq<int>>,
    seeds: Seq<int>,
    comps: Seq<Component>,
    queue: Seq<usize>,
    i: int,
    l: int,
    start: int,
    head: int,
) -> bool {
    let n = w * h;
    &&& labels.len() == n && paths.len() == n && px.len() == n
    &&& l == comps.len() + 1 && seeds.len() == l && seeds[l - 1] == i
    &&& forall|j: int| 0 <= j < n ==> #[trigger] labels[j] <= l && (labels[j] != 0 ==> px[j] == EDGE_ON)
    &&& forall|j: int| 0 <= j < i && px[j] == EDGE_ON ==> #[trigger] labels[j] != 0 && labels[j] != l
    &&& forall|j: int| 0 <= j < n && #[trigger] labels[j] != 0 && labels[j] != l ==> labels_settled(px, w, h, diag, labels, j)
    &&& forall|a: int| start <= a < head ==> labels_settled(px, w, h, diag, labels, #[trigger] queue[a] as int)
    &&& forall|m: int| 0 <= m < seeds.len() ==> 0 <= #[trigger] seeds[m] <= i && labels[seeds[m]] == m + 1
    &&& forall|m: int, j: int| 0 <= m < seeds.len() && 0 <= j < n && #[trigger] labels[j] == m + 1 ==> #[trigger] seeds[m] <= j
    &&& forall|j: int|
        0 <= j < n && #[trigger] labels[j] != 0 ==> on_path(px, w, h, diag, paths[j]) && paths[j][0] == seeds[labels[j] - 1]
            && paths[j].last() == j
    &&& forall|m: int| 0 <= m < comps.len() ==> component_matches(#[trigger] comps[m], labels, w, m + 1)
    &&& queue.no_duplicates()
    &&& forall|c: int| 0 <= c < queue.len() ==> (#[trigger] queue[c] as int) < n
    &&& forall|j: int| 0 <= j < n ==> (#[trigger] labels[j] != 0 <==> queue.contains(j as usize))
    &&& forall|c: int| 0 <= c < queue.len() ==> (labels[#[trigger] queue[c] as int] == l <==> start <= c)
    &&& count_label(labels, l) == queue.len() - start
    &&& 0 <= start <= head <= queue.len() && start < queue.len()
    &&& queue[start] == i
}

/// Label the unlabeled on neighbors of the popped pixel `queue[head]` and enqueue them.
#[verifier::rlimit(100)]
#[verifier::spinoff_prover]
fn label_neighbors(
    input: &Raster<u8>,
    diagonals: bool,
    labels: &mut Vec<u32>,
    queue: &mut Vec<usize>,
    paths_in: Ghost<Seq<Seq<int>>>,
    seeds: Ghost<Seq<int>>,
    components: &Vec<Component>,
    i: usize,
    start_index: usize,
    head: usize,
    label: u32,
) -> (paths_out: Ghost<Seq<Seq<int>>>)
    requires
        valid_dims(input.w(), input.h()),
        flood_state(
            input.px(),
            input.w(),
            input.h(),
            diagonals,
            old(labels)@,
            paths_in@,
            seeds@,
            components@,
            old(queue)@,
            i as int,
            label as int,
            start_index as int,
            head as int,
        ),
        head < old(queue)@.len(),
    ensures
        flood_state(
            input.px(),
            input.w(),
            input.h(),
            diagonals,
            final(labels)@,
            paths_out@,
            seeds@,
            components@,
            final(queue)@,
            i as int,
            label as int,
            start_index as int,
            head + 1,
        ),
        old(queue)@.len() <= final(queue)@.len(),
        forall|c: int| 0 <= c < old(queue)@.len() ==> #[trigger] final(queue)@[c] == old(queue)@[c],
{
    input.facts();
    let width = input.width();
    let height = input.height();
    let pixels = input.pixels();
    let ghost px = input.px();
    let ghost w = width as int;
    let ghost h = height as int;
    let ghost n = w * h;
    let ghost diag = diagonals;
    let ghost l = label as int;
    let ghost k0 = components@.len() as int;
    let ghost start = start_index as int;
    let ghost seeds = seeds@;
    let ghost mut paths = paths_in@;
    proof {
        lemma_grid_bound(w, h);
        reveal(flood_state);
    }
    let index = queue[head];
    proof {
        lemma_position(w, h, index as int);
        assert(queue@.contains(index));
    }
    let pixel_x = (index % width as usize) as u32;
    let pixel_y = (index / width as usize) as u32;
    let around = neighbors(width, height, pixel_x, pixel_y, diagonals);
    let ghost qh = queue@;
    let mut k: usize = 0;
    while k < around.len()
        invariant
            px == input.px() && w == input.w() && h == input.h() && pixels@ == px,
            valid_dims(w, h),
            width == w && height == h,
            n == w * h && 1 <= n <= 16_777_216,
            diag == diagonals,
            l == label && l == k0 + 1 && k0 == components@.len(),
            labels@.len() == n && paths.len() == n && px.len() == n,
            seeds.len() == k0 + 1 && seeds[k0] == i,
            index as int == qh[head as int] && head < qh.len(),
            0 <= index < n,
            pixel_x == index as int % w && pixel_y == index as int / w,
            labels@[index as int] == l,
            k <= around@.len(),
            forall|c: int|
                0 <= c < around@.len() ==> is_neighbor(w, h, pixel_x as int, pixel_y as int, (#[trigger] around@[c]).0 as int, around@[c].1 as int, diagonals),
            forall|nx: u32, ny: u32|
                is_neighbor(w, h, pixel_x as int, pixel_y as int, nx as int, ny as int, diagonals) ==> #[trigger] around@.contains((nx, ny)),
            forall|j: int| 0 <= j < n ==> #[trigger] labels@[j] <= l && (labels@[j] != 0 ==> px[j] == EDGE_ON),
            forall|j: int| 0 <= j < i && px[j] == EDGE_ON ==> #[trigger] labels@[j] != 0 && labels@[j] != l,
            forall|j: int|
                0 <= j < n && #[trigger] labels@[j] != 0 && labels@[j] != l ==> labels_settled(px, w, h, diag, labels@, j),
            forall|a: int| start <= a < head ==> labels_settled(px, w, h, diag, labels@, #[trigger] queue@[a] as int),
            forall|m: int| 0 <= m < seeds.len() ==> 0 <= #[trigger] seeds[m] <= i && labels@[seeds[m]] == m + 1,
            forall|m: int, j: int| 0 <= m < seeds.len() && 0 <= j < n && #[trigger] labels@[j] == m + 1 ==> #[trigger] seeds[m] <= j,
            forall|j: int|
                0 <= j < n && #[trigger] labels@[j] != 0 ==> on_path(px, w, h, diag, paths[j]) && paths[j][0] == seeds[labels@[j] - 1]
                    && paths[j].last() == j,
            forall|m: int| 0 <= m < k0 ==> component_matches(#[trigger] components@[m], labels@, w, m + 1),
            queue@.no_duplicates(),
            forall|c: int| 0 <= c < queue@.len() ==> (#[trigger] queue@[c] as int) < n,
            forall|j: int| 0 <= j < n ==> (#[trigger] labels@[j] != 0 <==> queue@.contains(j as usize)),
            qh.len() <= queue@.len() && forall|c: int| 0 <= c < qh.len() ==> #[trigger] queue@[c] == qh[c],
            0 <= start < qh.len() && start <= head && qh[start] == i,
            forall|c: int| 0 <= c < queue@.len() ==> (labels@[#[trigger] queue@[c] as int] == l <==> start <= c),
            count_label(labels@, l) == queue@.len() - start,
            forall|c: int|
                0 <= c < k ==> px[grid_index(w, (#[trigger] around@[c]).0 as int, around@[c].1 as int)] == EDGE_ON
                    ==> labels@[grid_index(w, around@[c].0 as int, around@[c].1 as int)] != 0,
        decreases around@.len() - k,
    {
            let (neighbor_x, neighbor_y) = around[k];
            proof {
                assert(is_neighbor(w, h, pixel_x as int, pixel_y as int, around@[k as int].0 as int, around@[k as int].1 as int, diagonals));
                lemma_index(w, h, neighbor_x as int, neighbor_y as int);
            }
            let neighbor = input.index(neighbor_x, neighbor_y);
            assert(neighbor as int == grid_index(w, around@[k as int].0 as int, around@[k as int].1 as int));
            if pixels[neighbor] == EDGE_ON && labels[neighbor] == 0 {
                let ghost old_labels = labels@;
                let ghost old_queue = queue@;
                proof {
                    lemma_distinct_bounded(queue@, n);
                    lemma_count_label_update(old_labels, neighbor as int, label, l);
                    lemma_components_stable(components@, old_labels, w, neighbor as int, label);
                    let p = paths[index as int];
                    let np = p.push(neighbor as int);
                    assert(adjacent(w, h, diag, index as int, neighbor as int));
                    assert forall|c: int| 0 <= c < np.len() implies 0 <= #[trigger] np[c] < w * h && px[np[c]] == EDGE_ON by {
                        if c < p.len() {
                            assert(np[c] == p[c]);
                        }
                    }
                    assert forall|c: int| 1 <= c < np.len() implies adjacent(w, h, diag, np[c - 1], #[trigger] np[c]) by {
                        if c < p.len() {
                            assert(np[c] == p[c]);
                            assert(np[c - 1] == p[c - 1]);
                        } else {
                            assert(np[c - 1] == p.last());
                        }
                    }
                    paths = paths.update(neighbor as int, np);
                    assert(neighbor as int >= i) by {
                        if (neighbor as int) < i {
                            assert(old_labels[neighbor as int] != 0);
                        }
                    }
                }
                labels.set(neighbor, label);
                queue.push(neighbor);
                proof {
                    assert forall|j: int| 0 <= j < n implies (#[trigger] labels@[j] != 0 <==> queue@.contains(j as usize)) by {
                        if j != neighbor as int {
                            if old_queue.contains(j as usize) {
                                let a = choose|a: int| 0 <= a < old_queue.len() && old_queue[a] == j as usize;
                                assert(queue@[a] == j as usize);
                            }
                            if queue@.contains(j as usize) {
                                let a = choose|a: int| 0 <= a < queue@.len() && queue@[a] == j as usize;
                                if a < old_queue.len() {
                                    assert(old_queue[a] == j as usize);
                                }
                            }
                        } else {
                            assert(queue@[queue@.len() - 1] == neighbor);
                        }
                    }
                    assert(queue@.no_duplicates()) by {
                        assert forall|a: int, b: int| 0 <= a < queue@.len() && 0 <= b < queue@.len() && a != b implies queue@[a]
                            != queue@[b] by {
                            if a < old_queue.len() && b < old_queue.len() {
                                assert(old_queue[a] != old_queue[b]);
                            } else if a < old_queue.len() {
                                assert(old_queue.contains(old_queue[a]));
                            } else if b < old_queue.len() {
                                assert(old_queue.contains(old_queue[b]));
                            }
                        }
                    }
                    assert forall|c: int| 0 <= c < queue@.len() implies (labels@[#[trigger] queue@[c] as int] == l <==> start <= c) by {
                        if c < old_queue.len() {
                            assert(queue@[c] == old_queue[c]);
                            assert(old_queue.contains(old_queue[c]));
                        }
                    }
                    assert forall|j: int|
                        0 <= j < n && #[trigger] labels@[j] != 0 && labels@[j] != l implies labels_settled(px, w, h, diag, labels@, j) by {
                        assert(labels_settled(px, w, h, diag, old_labels, j));
                        assert forall|q: int| 0 <= q < w * h && #[trigger] adjacent(w, h, diag, j, q) && px[q] == EDGE_ON implies labels@[q] == labels@[j] by {
                            if q == neighbor as int {
                                assert(old_labels[q] == old_labels[j]);
                            }
                        }
                    }
                    assert forall|a: int| start <= a < head implies labels_settled(px, w, h, diag, labels@, #[trigger] queue@[a] as int) by {
                        assert(queue@[a] == old_queue[a]);
                        let j = queue@[a] as int;
                        assert(labels_settled(px, w, h, diag, old_labels, j));
                        assert forall|q: int| 0 <= q < w * h && #[trigger] adjacent(w, h, diag, j, q) && px[q] == EDGE_ON implies labels@[q] == labels@[j] by {
                            if q == neighbor as int {
                                assert(old_labels[q] == old_labels[j]);
                            }
                        }
                    }
                    assert forall|j: int|
                        0 <= j < n && #[trigger] labels@[j] != 0 implies on_path(px, w, h, diag, paths[j]) && paths[j][0] == seeds[labels@[j] - 1]
                            && paths[j].last() == j by {
                        if j != neighbor as int {
                            assert(old_labels[j] != 0);
                        } else {
                            assert(old_labels[index as int] == l);
                        }
                    }
                }
            }
            proof {
                assert forall|c: int|
                    0 <= c < k + 1 implies px[grid_index(w, (#[trigger] around@[c]).0 as int, around@[c].1 as int)] == EDGE_ON
                        ==> labels@[grid_index(w, around@[c].0 as int, around@[c].1 as int)] != 0 by {
                    assert(is_neighbor(w, h, pixel_x as int, pixel_y as int, around@[c].0 as int, around@[c].1 as int, diagonals));
                    lemma_index(w, h, around@[c].0 as int, around@[c].1 as int);
                }
            }
            k += 1;
    }
    proof {
        lemma_settle(px, w, h, diag, labels@, l, index as int, around@);
        assert(queue@[head as int] == index);
        assert(queue@[start] == i);
        reveal(flood_state);
    }
    Ghost(paths)
}

/// Label binary connected components in stable row-major discovery order.
#[verifier::rlimit(100)]
#[verifier::spinoff_prover]
pub fn connected_components(input: &Raster<u8>, connectivity: Connectivity) -> (r: Result<
    (Raster<u32>, Vec<Component>),
    KernelError,
>)
    ensures
        r is Ok <==> is_binary(input.px()),
        r matches Ok((out, comps)) ==> {
            let px = input.px();
            let w = input.w();
            let h = input.h();
            let diag = connectivity == Connectivity::Eight;
            let lab = out.px();
            &&& out.w() == w && out.h() == h
            &&& forall|j: int|
                0 <= j < lab.len() ==> (#[trigger] lab[j] == 0 <==> px[j] != EDGE_ON) && lab[j] <= comps@.len()
            &&& forall|j: int| 0 <= j < lab.len() && #[trigger] lab[j] != 0 ==> labels_settled(px, w, h, diag, lab, j)
            &&& forall|k: int| 0 <= k < comps@.len() ==> component_matches(#[trigger] comps@[k], lab, w, k + 1)
            &&& forall|i: int, j: int|
                0 <= i < lab.len() && 0 <= j < lab.len() && #[trigger] lab[i] != 0 && #[trigger] lab[j] > lab[i]
                    ==> exists|k: int| 0 <= k < j && #[trigger] lab[k] == lab[i]
            &&& forall|j: int|
                0 <= j < lab.len() && #[trigger] lab[j] != 0 ==> exists|path: Seq<int>|
                    #[trigger] on_path(px, w, h, diag, path) && path.last() == j && lab[path[0]] == lab[j]
                        && forall|k: int| 0 <= k < path[0] ==> lab[k] != lab[j]
        },
{
    match validate_binary(input) {
        Err(e) => return Err(e),
        Ok(()) => {},
    }
    input.facts();
    let width = input.width();
    let height = input.height();
    let diagonals = match connectivity {
        Connectivity::Eight => true,
        Connectivity::Four => false,
    };
    let ghost px = input.px();
    let ghost w = width as int;
    let ghost h = height as int;
    let ghost n = w * h;
    let ghost diag = diagonals;
    proof {
        lemma_grid_bound(w, h);
    }
    let pixels = input.pixels();
    let count = pixels.len();
    let mut labels: Vec<u32> = Vec::new();
    let mut z: usize = 0;
    while z < count
        invariant
            z <= count,
            labels@.len() == z,
            forall|j: int| 0 <= j < z ==> #[trigger] labels@[j] == 0,
        decreases count - z,
    {
        labels.push(0);
        z += 1;
    }
    let mut components: Vec<Component> = Vec::new();
    let mut queue: Vec<usize> = Vec::new();
    let mut head: usize = 0;
    let ghost mut seeds: Seq<int> = Seq::empty();
    let ghost mut paths: Seq<Seq<int>> = Seq::new(n as nat, |j: int| seq![j]);
    let mut i: usize = 0;
    while i < count
        invariant
            px == input.px() && w == input.w() && h == input.h() && pixels@ == px && px.len() == n,
            valid_dims(w, h),
            width == w && height == h,
            n == w * h && count == n && 1 <= n <= 16_777_216,
            diag == diagonals && diagonals == (connectivity == Connectivity::Eight),
            i <= count,
            labels@.len() == n && paths.len() == n,
            seeds.len() == components@.len() && components@.len() <= i,
            forall|j: int| 0 <= j < n ==> #[trigger] labels@[j] <= components@.len() && (labels@[j] != 0 ==> px[j] == EDGE_ON),
            forall|j: int| 0 <= j < i && px[j] == EDGE_ON ==> #[trigger] labels@[j] != 0,
            forall|j: int| 0 <= j < n && #[trigger] labels@[j] != 0 ==> labels_settled(px, w, h, diag, labels@, j),
            forall|l: int| 0 <= l < seeds.len() ==> 0 <= #[trigger] seeds[l] < i && labels@[seeds[l]] == l + 1,
            forall|l: int, j: int| 0 <= l < seeds.len() && 0 <= j < n && #[trigger] labels@[j] == l + 1 ==> #[trigger] seeds[l] <= j,
            forall|a: int, b: int| 0 <= a < b < seeds.len() ==> #[trigger] seeds[a] < #[trigger] seeds[b],
            forall|j: int|
                0 <= j < n && #[trigger] labels@[j] != 0 ==> on_path(px, w, h, diag, paths[j]) && paths[j][0] == seeds[labels@[j] - 1]
                    && paths[j].last() == j,
            forall|l: int| 0 <= l < components@.len() ==> component_matches(#[trigger] components@[l], labels@, w, l + 1),
            queue@.no_duplicates(),
            forall|c: int| 0 <= c < queue@.len() ==> (#[trigger] queue@[c] as int) < n,
            forall|j: int| 0 <= j < n ==> (#[trigger] labels@[j] != 0 <==> queue@.contains(j as usize)),
            head == queue@.len(),
        decreases count - i,
    {
        if pixels[i] == EDGE_ON && labels[i] == 0 {
            proof {
                lemma_position(w, h, i as int);
                lemma_distinct_bounded(queue@, n);
            }
            let label = (components.len() + 1) as u32;
            let ghost l = label as int;
            let ghost k0 = components@.len() as int;
            let start_index: usize = queue.len();
            let ghost start = start_index as int;
            let ghost before = labels@;
            let ghost q0 = queue@;
            let ghost seeds0 = seeds;
            let x = (i % width as usize) as u32;
            let y = (i / width as usize) as u32;
            proof {
                lemma_count_label_update(labels@, i as int, label, l);
                lemma_components_stable(components@, before, w, i as int, label);
                assert(count_label(before, l) == 0) by {
                    if count_label(before, l) > 0 {
                        lemma_count_label_positive(before, l);
                    }
                }
            }
            labels.set(i, label);
            queue.push(i);
            proof {
                seeds = seeds.push(i as int);
                paths = paths.update(i as int, seq![i as int]);
            }
            let mut component = Component { label, area: 0, min_x: x, min_y: y, max_x: x, max_y: y };
            proof {
                assert forall|j: int| 0 <= j < n implies (#[trigger] labels@[j] != 0 <==> queue@.contains(j as usize)) by {
                    if j != i as int {
                        if q0.contains(j as usize) {
                            let a = choose|a: int| 0 <= a < q0.len() && q0[a] == j as usize;
                            assert(queue@[a] == j as usize);
                        }
                        if queue@.contains(j as usize) {
                            let a = choose|a: int| 0 <= a < queue@.len() && queue@[a] == j as usize;
                            if a < q0.len() {
                                assert(q0[a] == j as usize);
                            }
                        }
                    } else {
                        assert(queue@[queue@.len() - 1] == i);
                    }
                }
                assert(queue@.no_duplicates()) by {
                    assert forall|a: int, b: int| 0 <= a < queue@.len() && 0 <= b < queue@.len() && a != b implies queue@[a]
                        != queue@[b] by {
                        if a < q0.len() && b < q0.len() {
                            assert(q0[a] != q0[b]);
                        } else if a < q0.len() {
                            assert(q0.contains(q0[a]));
                            assert(before[q0[a] as int] != 0);
                        } else if b < q0.len() {
                            assert(q0.contains(q0[b]));
                            assert(before[q0[b] as int] != 0);
                        }
                    }
                }
                assert forall|c: int| 0 <= c < queue@.len() implies (labels@[#[trigger] queue@[c] as int] == l <==> start <= c) by {
                    if c < q0.len() {
                        assert(q0.contains(q0[c]));
                        assert(queue@[c] == q0[c]);
                    }
                }
                assert forall|m: int| 0 <= m < seeds.len() implies 0 <= #[trigger] seeds[m] <= i && labels@[seeds[m]] == m + 1 by {
                    if m < k0 {
                        assert(seeds[m] == seeds0[m]);
                    }
                }
                assert forall|m: int, j: int| 0 <= m < seeds.len() && 0 <= j < n && #[trigger] labels@[j] == m + 1 implies #[trigger] seeds[m] <= j by {
                    if m < k0 {
                        assert(seeds[m] == seeds0[m]);
                    } else {
                        if j < i {
                            assert(before[j] != 0);
                        }
                    }
                }
                assert forall|j: int|
                    0 <= j < n && #[trigger] labels@[j] != 0 implies on_path(px, w, h, diag, paths[j]) && paths[j][0] == seeds[labels@[j] - 1]
                        && paths[j].last() == j by {
                    if j != i as int {
                        assert(before[j] != 0);
                        assert(seeds[before[j] - 1] == seeds0[before[j] - 1]);
                    }
                }
                reveal(flood_state);
                assert(flood_state(px, w, h, diag, labels@, paths, seeds, components@, queue@, i as int, l, start, start));
            }
            while head < queue.len()
                invariant
                    px == input.px() && w == input.w() && h == input.h(),
                    valid_dims(w, h),
                    width == w && height == h,
                    n == w * h && 1 <= n <= 16_777_216,
                    diag == diagonals,
                    l == label && l == k0 + 1 && k0 == components@.len(),
                    start == start_index,
                    flood_state(px, w, h, diag, labels@, paths, seeds, components@, queue@, i as int, l, start, head as int),
                    start <= head <= queue@.len(),
                    component.label == label,
                    component.area == head - start,
                    head == start ==> component.min_x == x && component.max_x == x && component.min_y == y
                        && component.max_y == y,
                    x == i as int % w && y == i as int / w,
                    forall|a: int|
                        start <= a < head ==> component.min_x <= (#[trigger] queue@[a] as int) % w <= component.max_x
                            && component.min_y <= (queue@[a] as int) / w <= component.max_y,
                    head > start ==> exists|a: int| start <= a < head && (#[trigger] queue@[a] as int) % w == component.min_x,
                    head > start ==> exists|a: int| start <= a < head && (#[trigger] queue@[a] as int) % w == component.max_x,
                    head > start ==> exists|a: int| start <= a < head && (#[trigger] queue@[a] as int) / w == component.min_y,
                    head > start ==> exists|a: int| start <= a < head && (#[trigger] queue@[a] as int) / w == component.max_y,
                decreases n - head,
            {
                let ghost qh = queue@;
                let index = queue[head];
                proof {
                    reveal(flood_state);
                    lemma_distinct_bounded(queue@, n);
                    lemma_position(w, h, index as int);
                    assert(queue@[start] == i);
                }
                let pixel_x = (index % width as usize) as u32;
                let pixel_y = (index / width as usize) as u32;
                let ghost old_component = component;
                component.area = component.area + 1;
                if head == start_index {
                    component.min_x = pixel_x;
                    component.max_x = pixel_x;
                    component.min_y = pixel_y;
                    component.max_y = pixel_y;
                } else {
                    if pixel_x < component.min_x {
                        component.min_x = pixel_x;
                    }
                    if pixel_y < component.min_y {
                        component.min_y = pixel_y;
                    }
                    if pixel_x > component.max_x {
                        component.max_x = pixel_x;
                    }
                    if pixel_y > component.max_y {
                        component.max_y = pixel_y;
                    }
                }
                proof {
                    lemma_bbox_step(queue@, start, head as int, w, old_component, component);
                }
                let new_paths = label_neighbors(
                    input,
                    diagonals,
                    &mut labels,
                    &mut queue,
                    Ghost(paths),
                    Ghost(seeds),
                    &components,
                    i,
                    start_index,
                    head,
                    label,
                );
                proof {
                    paths = new_paths@;
                    assert forall|a: int|
                        start <= a < head + 1 implies component.min_x <= (#[trigger] queue@[a] as int) % w <= component.max_x
                            && component.min_y <= (queue@[a] as int) / w <= component.max_y by {
                        assert(queue@[a] == qh[a]);
                    }
                    let a1 = choose|a: int| start <= a < head + 1 && (#[trigger] qh[a] as int) % w == component.min_x;
                    assert(queue@[a1] == qh[a1]);
                    let a2 = choose|a: int| start <= a < head + 1 && (#[trigger] qh[a] as int) % w == component.max_x;
                    assert(queue@[a2] == qh[a2]);
                    let a3 = choose|a: int| start <= a < head + 1 && (#[trigger] qh[a] as int) / w == component.min_y;
                    assert(queue@[a3] == qh[a3]);
                    let a4 = choose|a: int| start <= a < head + 1 && (#[trigger] qh[a] as int) / w == component.max_y;
                    assert(queue@[a4] == qh[a4]);
                }
                head += 1;
            }
            proof {
                reveal(flood_state);
                assert(component_matches(component, labels@, w, l)) by {
                    assert forall|j: int| 0 <= j < labels@.len() && #[trigger] labels@[j] == l implies component.min_x <= j % w
                        <= component.max_x && component.min_y <= j / w <= component.max_y by {
                        assert(queue@.contains(j as usize));
                        let a = choose|a: int| 0 <= a < queue@.len() && queue@[a] == j as usize;
                        assert(start <= a);
                    }
                    let a1 = choose|a: int| start <= a < head && (#[trigger] queue@[a] as int) % w == component.min_x;
                    assert(labels@[queue@[a1] as int] == l);
                    let a2 = choose|a: int| start <= a < head && (#[trigger] queue@[a] as int) % w == component.max_x;
                    assert(labels@[queue@[a2] as int] == l);
                    let a3 = choose|a: int| start <= a < head && (#[trigger] queue@[a] as int) / w == component.min_y;
                    assert(labels@[queue@[a3] as int] == l);
                    let a4 = choose|a: int| start <= a < head && (#[trigger] queue@[a] as int) / w == component.max_y;
                    assert(labels@[queue@[a4] as int] == l);
                }
                assert forall|j: int| 0 <= j < n && #[trigger] labels@[j] != 0 implies labels_settled(px, w, h, diag, labels@, j) by {
                    if labels@[j] == l {
                        assert(queue@.contains(j as usize));
                        let a = choose|a: int| 0 <= a < queue@.len() && queue@[a] == j as usize;
                        assert(start <= a);
                    }
                }
                assert forall|a: int, b: int| 0 <= a < b < seeds.len() implies #[trigger] seeds[a] < #[trigger] seeds[b] by {
                    if b < k0 {
                        assert(seeds[a] == seeds0[a] && seeds[b] == seeds0[b]);
                    } else {
                        assert(seeds[a] == seeds0[a]);
                    }
                }
            }
            components.push(component);
            proof {
                assert forall|m: int| 0 <= m < components@.len() implies component_matches(#[trigger] components@[m], labels@, w, m + 1) by {
                    if m < k0 {
                        assert(components@[m] == components@[m]);
                    }
                }
            }
        }
        i += 1;
    }
    proof {
        let lab = labels@;
        assert forall|a: int, b: int|
            0 <= a < lab.len() && 0 <= b < lab.len() && #[trigger] lab[a] != 0 && #[trigger] lab[b] > lab[a] implies exists|k: int|
                0 <= k < b && #[trigger] lab[k] == lab[a] by {
            let la = lab[a] - 1;
            let lb = lab[b] - 1;
            assert(seeds[la] < seeds[lb]);
            assert(seeds[lb] <= b);
            assert(lab[seeds[la]] == lab[a]);
        }
        assert forall|j: int| 0 <= j < lab.len() && #[trigger] lab[j] != 0 implies exists|path: Seq<int>|
            #[trigger] on_path(px, w, h, diag, path) && path.last() == j && lab[path[0]] == lab[j] && forall|k: int|
                0 <= k < path[0] ==> lab[k] != lab[j] by {
            let path = paths[j];
            let m = lab[j] - 1;
            assert(lab[seeds[m]] == lab[j]);
            assert forall|k: int| 0 <= k < path[0] implies lab[k] != lab[j] by {
                if lab[k] == lab[j] {
                    assert(seeds[m] <= k);
                }
            }
        }
        assert forall|j: int| 0 <= j < lab.len() implies (#[trigger] lab[j] == 0 <==> px[j] != EDGE_ON) && lab[j] <= components@.len() by {}
    }
    let out = match Raster::new(width, height, labels) {
        Ok(raster) => raster,
        Err(e) => return Err(e),
    };
    Ok((out, components))
}

proof fn lemma_count_label_positive(labels: Seq<u32>, l: int)
    requires
        count_label(labels, l) > 0,
    ensures
        exists|j: int| 0 <= j < labels.len() && #[trigger] labels[j] == l,
    decreases labels.len(),
{
    if labels.last() == l {
        assert(labels[labels.len() - 1] == l);
    } else {
        lemma_count_label_positive(labels.drop_last(), l);
        let j = choose|j: int| 0 <= j < labels.drop_last().len() && #[trigger] labels.drop_last()[j] == l;
        assert(labels[j] == l);
    }
}

/// Whether `l` is the label of some marker.
pub open spec fn is_marker_label(markers: Seq<u32>, l: int) -> bool {
    l != 0 && exists|j: int| 0 <= j < markers.len() && #[trigger] markers[j] == l
}

/// Whether the watershed inputs are accepted: one grid, binary coverage,
/// covered markers, and at least one marker.
pub open spec fn watershed_accepts(topography: &Raster<u32>, markers: &Raster<u32>, coverage: &Raster<u8>) -> bool {
    &&& topography.w() == markers.w() && topography.h() == markers.h()
    &&& topography.w() == coverage.w() && topography.h() == coverage.h()
    &&& is_binary(coverage.px())
    &&& forall|i: int| 0 <= i < markers.px().len() && #[trigger] markers.px()[i] != 0 ==> coverage.px()[i] == EDGE_ON
    &&& exists|i: int| 0 <= i < markers.px().len() && #[trigger] markers.px()[i] != 0
}

/// Every covered neighbor of a labeled pixel is labeled too.
pub open spec fn flooded_around(cov: Seq<u8>, w: int, h: int, labels: Seq<u32>, i: int) -> bool {
    forall|j: int| 0 <= j < w * h && #[trigger] adjacent(w, h, true, i, j) && cov[j] == EDGE_ON ==> labels[j] != 0
}

/// Flood priority of one pixel: lower cost first, then a lower positive
/// label, with an unlabeled pixel ranking last.
pub open spec fn flood_rank(cost: u32, label: u32) -> int {
    cost as int * 0x2_0000_0000 + if label == 0 { 0x1_0000_0000int } else { label as int }
}

/// Sum of the flood ranks of the first `n` pixels.
pub open spec fn flood_potential(cost: Seq<u32>, labels: Seq<u32>, n: int) -> int
    decreases n,
{
    if n <= 0 {
        0
    } else {
        flood_potential(cost, labels, n - 1) + flood_rank(cost[n - 1], labels[n - 1])
    }
}

proof fn lemma_flood_potential_update(cost: Seq<u32>, labels: Seq<u32>, j: int, c: u32, l: u32, n: int)
    requires
        0 <= j < n,
        n <= cost.len() && n <= labels.len(),
    ensures
        flood_potential(cost.update(j, c), labels.update(j, l), n) == flood_potential(cost, labels, n) - flood_rank(
            cost[j],
            labels[j],
        ) + flood_rank(c, l),
    decreases n,
{
    if n - 1 > j {
        lemma_flood_potential_update(cost, labels, j, c, l, n - 1);
    } else {
        assert(flood_potential(cost.update(j, c), labels.update(j, l), n - 1) == flood_potential(cost, labels, n - 1)) by {
            assert forall|k: int| 0 <= k < n - 1 implies #[trigger] cost[k] == cost.update(j, c)[k] && labels[k] == labels.update(j, l)[k] by {}
            lemma_flood_potential_prefix(cost, labels, cost.update(j, c), labels.update(j, l), n - 1);
        }
    }
}

proof fn lemma_flood_potential_prefix(c1: Seq<u32>, l1: Seq<u32>, c2: Seq<u32>, l2: Seq<u32>, n: int)
    requires
        forall|k: int| 0 <= k < n ==> #[trigger] c1[k] == c2[k] && l1[k] == l2[k],
    ensures
        flood_potential(c1, l1, n) == flood_potential(c2, l2, n),
    decreases n,
{
    if n > 0 {
        lemma_flood_potential_prefix(c1, l1, c2, l2, n - 1);
    }
}

proof fn lemma_flood_potential_nonnegative(cost: Seq<u32>, labels: Seq<u32>, n: int)
    ensures
        flood_potential(cost, labels, n) >= 0,
    decreases n,
{
    if n > 0 {
        lemma_flood_potential_nonnegative(cost, labels, n - 1);
    }
}

/// The larger of two costs: what a flood pays to enter ground `b` after cost `a`.
pub open spec fn max_cost(a: u32, b: u32) -> u32 {
    if a >= b { a } else { b }
}

/// No covered, unmarked neighbor `q` of pixel `p` could improve by taking `p`'s flood: `q`
/// already holds a flood rank no worse than the larger of `p`'s cost and `q`'s ground under
/// `p`'s label.
pub open spec fn relaxed_from(topo: Seq<u32>, mk: Seq<u32>, cov: Seq<u8>, w: int, h: int, cost: Seq<u32>, labels: Seq<u32>, p: int) -> bool {
    forall|q: int|
        0 <= q < w * h && #[trigger] adjacent(w, h, true, p, q) && cov[q] == EDGE_ON && mk[q] == 0 ==> flood_rank(
            cost[q],
            labels[q],
        ) <= flood_rank(max_cost(cost[p], topo[q]), labels[p])
}

/// A settled priority flood with path costs `cost`: markers cost their ground, unlabeled pixels
/// cost the most, a labeled pixel costs at least its ground, and no labeled pixel offers a
/// neighbor a better flood rank than the neighbor holds.
pub open spec fn flood_settled(topo: Seq<u32>, mk: Seq<u32>, cov: Seq<u8>, w: int, h: int, cost: Seq<u32>, labels: Seq<u32>) -> bool {
    &&& cost.len() == w * h
    &&& forall|i: int| 0 <= i < w * h && #[trigger] mk[i] != 0 ==> cost[i] == topo[i]
    &&& forall|i: int| 0 <= i < w * h && #[trigger] labels[i] == 0 ==> cost[i] == u32::MAX
    &&& forall|i: int| 0 <= i < w * h && #[trigger] labels[i] != 0 ==> cost[i] >= topo[i]
    &&& forall|p: int| 0 <= p < w * h && #[trigger] labels[p] != 0 ==> relaxed_from(topo, mk, cov, w, h, cost, labels, p)
}

/// Pixel `i` is joined to a marker by a chain of covered neighbors.
pub open spec fn reached_from_marker(cov: Seq<u8>, mk: Seq<u32>, w: int, h: int, i: int) -> bool {
    exists|path: Seq<int>| #[trigger] on_path(cov, w, h, true, path) && mk[path[0]] != 0 && path.last() == i
}

/// Every labeled, unmarked pixel was flooded from a labeled neighbor stamped earlier.
pub open spec fn stamped_support(mk: Seq<u32>, w: int, h: int, labels: Seq<u32>, stamp: Seq<nat>) -> bool {
    forall|j: int|
        0 <= j < w * h && #[trigger] labels[j] != 0 && mk[j] == 0 ==> exists|p: int|
            0 <= p < w * h && labels[p] != 0 && stamp[p] < stamp[j] && #[trigger] adjacent(w, h, true, p, j)
}

proof fn lemma_stamps_reach_markers(cov: Seq<u8>, mk: Seq<u32>, w: int, h: int, labels: Seq<u32>, stamp: Seq<nat>, s: nat)
    requires
        w >= 1 && h >= 1,
        cov.len() == w * h && mk.len() == w * h && labels.len() == w * h && stamp.len() == w * h,
        forall|j: int| 0 <= j < w * h && #[trigger] labels[j] != 0 ==> cov[j] == EDGE_ON,
        forall|j: int| 0 <= j < w * h && #[trigger] mk[j] != 0 ==> labels[j] != 0,
        stamped_support(mk, w, h, labels, stamp),
    ensures
        forall|j: int| 0 <= j < w * h && #[trigger] labels[j] != 0 && stamp[j] <= s ==> reached_from_marker(cov, mk, w, h, j),
    decreases s,
{
    if s > 0 {
        lemma_stamps_reach_markers(cov, mk, w, h, labels, stamp, (s - 1) as nat);
    }
    assert forall|j: int| 0 <= j < w * h && #[trigger] labels[j] != 0 && stamp[j] <= s implies reached_from_marker(cov, mk, w, h, j) by {
        if mk[j] != 0 {
            let path = seq![j];
            assert(on_path(cov, w, h, true, path));
        } else {
            let p = choose|p: int| 0 <= p < w * h && labels[p] != 0 && stamp[p] < stamp[j] && #[trigger] adjacent(w, h, true, p, j);
            assert(labels[p] != 0 && stamp[p] <= s - 1);
            let path = choose|path: Seq<int>| #[trigger] on_path(cov, w, h, true, path) && mk[path[0]] != 0 && path.last() == p;
            let longer = path.push(j);
            assert(longer[longer.len() - 2] == p);
            assert forall|k: int| 0 <= k < longer.len() implies 0 <= #[trigger] longer[k] < w * h && cov[longer[k]] == EDGE_ON by {
                if k < path.len() {
                    assert(longer[k] == path[k]);
                }
            }
            assert forall|k: int| 1 <= k < longer.len() implies adjacent(w, h, true, longer[k - 1], #[trigger] longer[k]) by {
                if k < path.len() {
                    assert(longer[k] == path[k] && longer[k - 1] == path[k - 1]);
                }
            }
            assert(on_path(cov, w, h, true, longer));
            assert(longer[0] == path[0]);
        }
    }
}

/// Partition a covered topography from positive marker labels.
///
/// Flood priority is `(maximum path cost, pixel index, label)`; an equal-cost conflict goes to
/// the lower label whatever order the markers come in. The result is a settled flood: markers
/// keep their labels, no labeled pixel could offer a covered neighbor a lower cost or, at equal
/// cost, a lower label, and every labeled pixel is joined to a marker through covered pixels,
/// so pixels that no flood reaches stay 0.
#[verifier::rlimit(100)]
#[verifier::spinoff_prover]
pub fn watershed(topography: &Raster<u32>, markers: &Raster<u32>, coverage: &Raster<u8>) -> (r: Result<
    Raster<u32>,
    KernelError,
>)
    ensures
        r is Ok <==> watershed_accepts(topography, markers, coverage),
        r matches Ok(out) ==> {
            let mk = markers.px();
            let cov = coverage.px();
            let lab = out.px();
            let w = topography.w();
            let h = topography.h();
            &&& out.w() == w && out.h() == h
            &&& forall|i: int| 0 <= i < lab.len() && #[trigger] mk[i] != 0 ==> lab[i] == mk[i]
            &&& forall|i: int| 0 <= i < lab.len() && #[trigger] cov[i] != EDGE_ON ==> lab[i] == 0
            &&& forall|i: int| 0 <= i < lab.len() && #[trigger] lab[i] != 0 ==> is_marker_label(mk, lab[i] as int)
            &&& forall|i: int| 0 <= i < lab.len() && #[trigger] lab[i] != 0 ==> flooded_around(cov, w, h, lab, i)
            &&& exists|cost: Seq<u32>| flood_settled(topography.px(), mk, cov, w, h, cost, lab)
            &&& forall|i: int| 0 <= i < lab.len() && #[trigger] lab[i] != 0 ==> reached_from_marker(cov, mk, w, h, i)
        },
{
    match topography.same_grid(markers) {
        Err(e) => return Err(e),
        Ok(()) => {},
    }
    match topography.same_grid(coverage) {
        Err(e) => return Err(e),
        Ok(()) => {},
    }
    match validate_coverage(coverage) {
        Err(e) => return Err(e),
        Ok(()) => {},
    }
    topography.facts();
    markers.facts();
    coverage.facts();
    let width = topography.width();
    let height = topography.height();
    let ghost w = width as int;
    let ghost h = height as int;
    let ghost n = w * h;
    let ghost mk = markers.px();
    let ghost cov = coverage.px();
    let ghost topo = topography.px();
    proof {
        lemma_grid_bound(w, h);
    }
    let marker_pixels = markers.pixels();
    let cover_pixels = coverage.pixels();
    let topo_pixels = topography.pixels();
    let count = marker_pixels.len();
    let mut labels: Vec<u32> = Vec::new();
    let mut cost: Vec<u32> = Vec::new();
    let mut queue = FloodQueue::new();
    let mut i: usize = 0;
    while i < count
        invariant
            marker_pixels@ == mk && cover_pixels@ == cov && topo_pixels@ == topo,
            mk == markers.px() && cov == coverage.px() && topo == topography.px(),
            topography.w() == markers.w() && topography.h() == markers.h(),
            topography.w() == coverage.w() && topography.h() == coverage.h(),
            is_binary(cov),
            mk.len() == n && cov.len() == n && topo.len() == n && count == n,
            n == w * h && 1 <= n <= 16_777_216,
            i <= count,
            labels@.len() == i && cost@.len() == i,
            forall|k: int| 0 <= k < i ==> #[trigger] labels@[k] == mk[k],
            forall|k: int| 0 <= k < i && #[trigger] mk[k] != 0 ==> cov[k] == EDGE_ON,
            forall|k: int| 0 <= k < i ==> #[trigger] cost@[k] == (if mk[k] == 0 { u32::MAX } else { topo[k] }),
            queue.size() == 0 <==> forall|k: int| 0 <= k < i ==> #[trigger] mk[k] == 0,
            forall|e: Entry| #[trigger] queue.view().contains(e) ==> (e.1 as int) < i && is_marker_label(mk, e.2 as int),
            forall|k: int| 0 <= k < i && #[trigger] mk[k] != 0 ==> queue.view().contains((cost@[k], k as u32, mk[k])),
        decreases count - i,
    {
        let label = marker_pixels[i];
        if label == 0 {
            labels.push(0);
            cost.push(u32::MAX);
        } else {
            if cover_pixels[i] != EDGE_ON {
                proof {
                    assert(mk[i as int] != 0 && cov[i as int] != EDGE_ON);
                }
                return Err(invalid("watershed marker lies outside source coverage"));
            }
            labels.push(label);
            cost.push(topo_pixels[i]);
            let ghost before = queue.view();
            queue.push((topo_pixels[i], i as u32, label));
            proof {
                assert(mk[i as int] == label);
                assert(is_marker_label(mk, label as int));
                assert((i as u32) as int == i as int);
                assert forall|e: Entry| #[trigger] queue.view().contains(e) implies (e.1 as int) < i + 1 && is_marker_label(mk, e.2 as int) by {
                    if e != (topo_pixels@[i as int], i as u32, label) {
                        assert(before.contains(e));
                    }
                }
                assert forall|k: int| 0 <= k < i + 1 && #[trigger] mk[k] != 0 implies queue.view().contains((cost@[k], k as u32, mk[k])) by {
                    if k < i {
                        assert(before.contains((cost@[k], k as u32, mk[k])));
                    }
                }
            }
        }
        i += 1;
    }
    if queue.len() == 0 {
        proof {
            assert(!watershed_accepts(topography, markers, coverage)) by {
                if exists|k: int| 0 <= k < mk.len() && #[trigger] mk[k] != 0 {
                    let k = choose|k: int| 0 <= k < mk.len() && #[trigger] mk[k] != 0;
                    assert(mk[k] == 0);
                }
            }
        }
        return Err(invalid("watershed requires at least one positive marker"));
    }
    proof {
        assert(watershed_accepts(topography, markers, coverage)) by {
            assert(queue.size() != 0);
            let k = choose|k: int| 0 <= k < count && #[trigger] mk[k] != 0;
        }
    }
    let ghost mut measure: int = flood_potential(cost@, labels@, n) + queue.size();
    let ghost mut stamp: Seq<nat> = Seq::new(n as nat, |i: int| 0nat);
    proof {
        assert(labels@ =~= mk);
        assert(stamped_support(mk, w, h, labels@, stamp));
    }
    while queue.len() > 0
        invariant
            marker_pixels@ == mk && cover_pixels@ == cov && topo_pixels@ == topo,
            mk == markers.px() && cov == coverage.px() && topo == topography.px(),
            w == topography.w() && h == topography.h() && valid_dims(w, h),
            width == w && height == h,
            mk.len() == n && cov.len() == n && topo.len() == n && count == n,
            n == w * h && 1 <= n <= 16_777_216,
            labels@.len() == n && cost@.len() == n && stamp.len() == n,
            forall|k: int| 0 <= k < n && #[trigger] mk[k] != 0 ==> labels@[k] == mk[k] && cost@[k] == topo[k],
            forall|k: int| 0 <= k < n && #[trigger] cov[k] != EDGE_ON ==> labels@[k] == 0,
            forall|k: int| 0 <= k < n && #[trigger] labels@[k] == 0 ==> cost@[k] == u32::MAX,
            forall|k: int| 0 <= k < n && #[trigger] labels@[k] != 0 ==> is_marker_label(mk, labels@[k] as int) && cost@[k] >= topo[k],
            forall|e: Entry| #[trigger] queue.view().contains(e) ==> (e.1 as int) < n && is_marker_label(mk, e.2 as int),
            forall|k: int|
                0 <= k < n && #[trigger] labels@[k] != 0 ==> queue.view().contains((cost@[k], k as u32, labels@[k]))
                    || relaxed_from(topo, mk, cov, w, h, cost@, labels@, k),
            stamped_support(mk, w, h, labels@, stamp),
            measure == flood_potential(cost@, labels@, n) + queue.size(),
        decreases measure,
    {
        let ghost pending = queue.view();
        let (path_cost, index32, label) = match queue.pop() {
            Some(entry) => entry,
            None => return Err(invalid("watershed queue ended unexpectedly")),
        };
        let index = index32 as usize;
        proof {
            assert(pending.contains((path_cost, index32, label)));
            lemma_flood_potential_nonnegative(cost@, labels@, n);
            assert forall|e: Entry| #[trigger] queue.view().contains(e) implies pending.contains(e) by {}
        }
        let ghost limit = measure - 1;
        if cost[index] == path_cost && labels[index] == label {
            proof {
                lemma_position(w, h, index as int);
            }
            let x = (index32 % width) as u32;
            let y = (index32 / width) as u32;
            let around = neighbors(width, height, x, y, true);
            let mut k: usize = 0;
            while k < around.len()
                invariant
                    marker_pixels@ == mk && cover_pixels@ == cov && topo_pixels@ == topo,
                    mk == markers.px() && cov == coverage.px() && topo == topography.px(),
                    w == topography.w() && h == topography.h() && valid_dims(w, h),
                    width == w && height == h,
                    mk.len() == n && cov.len() == n && topo.len() == n && count == n,
                    n == w * h && 1 <= n <= 16_777_216,
                    labels@.len() == n && cost@.len() == n && stamp.len() == n,
                    0 <= index < n && index == index32,
                    x == index as int % w && y == index as int / w,
                    labels@[index as int] == label && label != 0 && cost@[index as int] == path_cost,
                    is_marker_label(mk, label as int),
                    k <= around@.len(),
                    forall|c: int|
                        0 <= c < around@.len() ==> is_neighbor(w, h, x as int, y as int, (#[trigger] around@[c]).0 as int, around@[c].1 as int, true),
                    forall|j: int| 0 <= j < n && #[trigger] mk[j] != 0 ==> labels@[j] == mk[j] && cost@[j] == topo[j],
                    forall|j: int| 0 <= j < n && #[trigger] cov[j] != EDGE_ON ==> labels@[j] == 0,
                    forall|j: int| 0 <= j < n && #[trigger] labels@[j] == 0 ==> cost@[j] == u32::MAX,
                    forall|j: int| 0 <= j < n && #[trigger] labels@[j] != 0 ==> is_marker_label(mk, labels@[j] as int) && cost@[j] >= topo[j],
                    forall|e: Entry| #[trigger] queue.view().contains(e) ==> (e.1 as int) < n && is_marker_label(mk, e.2 as int),
                    forall|j: int|
                        0 <= j < n && j != index && #[trigger] labels@[j] != 0 ==> queue.view().contains((cost@[j], j as u32, labels@[j]))
                            || relaxed_from(topo, mk, cov, w, h, cost@, labels@, j),
                    forall|c: int|
                        0 <= c < k ==> {
                            let q = grid_index(w, (#[trigger] around@[c]).0 as int, around@[c].1 as int);
                            cov[q] == EDGE_ON && mk[q] == 0 ==> flood_rank(cost@[q], labels@[q]) <= flood_rank(
                                max_cost(path_cost, topo[q]),
                                label,
                            )
                        },
                    stamped_support(mk, w, h, labels@, stamp),
                    flood_potential(cost@, labels@, n) + queue.size() <= limit,
                decreases around@.len() - k,
            {
                let (neighbor_x, neighbor_y) = around[k];
                proof {
                    assert(is_neighbor(w, h, x as int, y as int, around@[k as int].0 as int, around@[k as int].1 as int, true));
                    lemma_index(w, h, neighbor_x as int, neighbor_y as int);
                }
                let neighbor = topography.index(neighbor_x, neighbor_y);
                assert(neighbor as int == grid_index(w, around@[k as int].0 as int, around@[k as int].1 as int));
                if cover_pixels[neighbor] == EDGE_ON && marker_pixels[neighbor] == 0 {
                    let ground = topo_pixels[neighbor];
                    let candidate = if path_cost >= ground { path_cost } else { ground };
                    let current = cost[neighbor];
                    let current_label = labels[neighbor];
                    if candidate < current || (candidate == current && (current_label == 0 || label < current_label)) {
                        let ghost old_cost = cost@;
                        let ghost old_labels = labels@;
                        let ghost old_view = queue.view();
                        let ghost old_stamp = stamp;
                        proof {
                            lemma_flood_potential_update(old_cost, old_labels, neighbor as int, candidate, label, n);
                            assert(flood_rank(candidate, label) < flood_rank(current, current_label));
                            assert(neighbor != index);
                            assert(adjacent(w, h, true, index as int, neighbor as int));
                            if current_label == 0 {
                                stamp = stamp.update(neighbor as int, stamp[index as int] + 1);
                            }
                        }
                        cost.set(neighbor, candidate);
                        labels.set(neighbor, label);
                        queue.push((candidate, neighbor as u32, label));
                        proof {
                            assert(cost@ == old_cost.update(neighbor as int, candidate));
                            assert(labels@ == old_labels.update(neighbor as int, label));
                            assert forall|j: int|
                                0 <= j < n && j != index && #[trigger] labels@[j] != 0 implies queue.view().contains((cost@[j], j as u32, labels@[j]))
                                    || relaxed_from(topo, mk, cov, w, h, cost@, labels@, j) by {
                                if j == neighbor as int {
                                    assert(queue.view().contains((candidate, neighbor as u32, label)));
                                } else {
                                    assert(old_labels[j] != 0);
                                    if old_view.contains((old_cost[j], j as u32, old_labels[j])) {
                                        assert(queue.view().contains((cost@[j], j as u32, labels@[j])));
                                    } else {
                                        assert(relaxed_from(topo, mk, cov, w, h, old_cost, old_labels, j));
                                        assert forall|q: int|
                                            0 <= q < w * h && #[trigger] adjacent(w, h, true, j, q) && cov[q] == EDGE_ON && mk[q] == 0 implies flood_rank(
                                                cost@[q],
                                                labels@[q],
                                            ) <= flood_rank(max_cost(cost@[j], topo[q]), labels@[j]) by {
                                            assert(flood_rank(old_cost[q], old_labels[q]) <= flood_rank(max_cost(old_cost[j], topo[q]), old_labels[j]));
                                        }
                                    }
                                }
                            }
                            assert forall|e: Entry| #[trigger] queue.view().contains(e) implies (e.1 as int) < n && is_marker_label(mk, e.2 as int) by {
                                if e != (candidate, neighbor as u32, label) {
                                    assert(old_view.contains(e));
                                }
                            }
                            assert forall|j: int|
                                0 <= j < w * h && #[trigger] labels@[j] != 0 && mk[j] == 0 implies exists|p: int|
                                    0 <= p < w * h && labels@[p] != 0 && stamp[p] < stamp[j] && #[trigger] adjacent(w, h, true, p, j) by {
                                if j == neighbor as int && current_label == 0 {
                                    assert(labels@[index as int] != 0 && stamp[index as int] < stamp[j]);
                                    assert(adjacent(w, h, true, index as int, j));
                                } else {
                                    assert(old_labels[j] != 0);
                                    let p = choose|p: int|
                                        0 <= p < w * h && old_labels[p] != 0 && old_stamp[p] < old_stamp[j] && #[trigger] adjacent(w, h, true, p, j);
                                    assert(labels@[p] != 0 && stamp[p] < stamp[j]);
                                }
                            }
                        }
                    }
                }
                proof {
                    assert forall|c: int|
                        0 <= c < k + 1 implies {
                            let q = grid_index(w, (#[trigger] around@[c]).0 as int, around@[c].1 as int);
                            cov[q] == EDGE_ON && mk[q] == 0 ==> flood_rank(cost@[q], labels@[q]) <= flood_rank(
                                max_cost(path_cost, topo[q]),
                                label,
                            )
                        } by {
                        assert(is_neighbor(w, h, x as int, y as int, around@[c].0 as int, around@[c].1 as int, true));
                        lemma_index(w, h, around@[c].0 as int, around@[c].1 as int);
                    }
                }
                k += 1;
            }
            proof {
                let j0 = index as int;
                assert forall|q: int|
                    0 <= q < w * h && #[trigger] adjacent(w, h, true, j0, q) && cov[q] == EDGE_ON && mk[q] == 0 implies flood_rank(
                        cost@[q],
                        labels@[q],
                    ) <= flood_rank(max_cost(cost@[j0], topo[q]), labels@[j0]) by {
                    lemma_position(w, h, q);
                    assert(around@.contains(((q % w) as u32, (q / w) as u32)));
                    let c = choose|c: int| 0 <= c < around@.len() && around@[c] == ((q % w) as u32, (q / w) as u32);
                    assert(grid_index(w, around@[c].0 as int, around@[c].1 as int) == q);
                }
                assert(relaxed_from(topo, mk, cov, w, h, cost@, labels@, j0));
            }
        } else {
            proof {
                assert forall|k: int|
                    0 <= k < n && #[trigger] labels@[k] != 0 implies queue.view().contains((cost@[k], k as u32, labels@[k]))
                        || relaxed_from(topo, mk, cov, w, h, cost@, labels@, k) by {
                    if pending.contains((cost@[k], k as u32, labels@[k])) {
                        assert((cost@[k], k as u32, labels@[k]) != (path_cost, index32, label)) by {
                            if k != index as int {
                                assert(k as u32 != index32);
                            }
                        }
                    }
                }
            }
        }
        proof {
            lemma_flood_potential_nonnegative(cost@, labels@, n);
            measure = flood_potential(cost@, labels@, n) + queue.size();
        }
    }
    proof {
        assert forall|k: int| 0 <= k < n && #[trigger] labels@[k] != 0 implies relaxed_from(topo, mk, cov, w, h, cost@, labels@, k) by {
            if queue.view().contains((cost@[k], k as u32, labels@[k])) {
                assert(queue.view().len() > 0);
            }
        }
        assert forall|k: int| 0 <= k < n && #[trigger] labels@[k] != 0 implies flooded_around(cov, w, h, labels@, k) by {
            assert(relaxed_from(topo, mk, cov, w, h, cost@, labels@, k));
            assert forall|q: int| 0 <= q < w * h && #[trigger] adjacent(w, h, true, k, q) && cov[q] == EDGE_ON implies labels@[q] != 0 by {
                if mk[q] == 0 && labels@[q] == 0 {
                    assert(flood_rank(cost@[q], labels@[q]) <= flood_rank(max_cost(cost@[k], topo[q]), labels@[k]));
                }
            }
        }
        assert(flood_settled(topo, mk, cov, w, h, cost@, labels@));
        assert forall|k: int| 0 <= k < n && #[trigger] labels@[k] != 0 implies reached_from_marker(cov, mk, w, h, k) by {
            lemma_stamps_reach_markers(cov, mk, w, h, labels@, stamp, stamp[k]);
        }
    }
    Raster::new(width, height, labels)
}

/// Dilate a binary raster with a square radius.
pub fn morphology_dilate(input: &Raster<u8>, radius: u8) -> (r: Result<Raster<u8>, KernelError>)
    ensures
        r is Ok <==> (is_binary(input.px()) && radius <= MAX_RADIUS),
        r matches Ok(out) ==> {
            &&& out.w() == input.w() && out.h() == input.h()
            &&& out.px() == morphology_px(input.px(), input.w(), input.h(), radius as int, true)
        },
{
    binary_filter(input, radius, true)
}

/// Erode a binary raster with a square radius and zero exterior.
pub fn morphology_erode(input: &Raster<u8>, radius: u8) -> (r: Result<Raster<u8>, KernelError>)
    ensures
        r is Ok <==> (is_binary(input.px()) && radius <= MAX_RADIUS),
        r matches Ok(out) ==> {
            &&& out.w() == input.w() && out.h() == input.h()
            &&& out.px() == morphology_px(input.px(), input.w(), input.h(), radius as int, false)
        },
{
    binary_filter(input, radius, false)
}

/// Apply erosion followed by dilation.
pub fn open_binary(input: &Raster<u8>, radius: u8) -> (r: Result<Raster<u8>, KernelError>)
    ensures
        r is Ok <==> (is_binary(input.px()) && radius <= MAX_RADIUS),
        r matches Ok(out) ==> {
            &&& out.w() == input.w() && out.h() == input.h()
            &&& out.px() == morphology_px(
                morphology_px(input.px(), input.w(), input.h(), radius as int, false),
                input.w(),
                input.h(),
                radius as int,
                true,
            )
        },
{
    let eroded = match morphology_erode(input, radius) {
        Ok(raster) => raster,
        Err(e) => return Err(e),
    };
    proof {
        lemma_morphology_binary(input.px(), input.w(), input.h(), radius as int, false);
    }
    morphology_dilate(&eroded, radius)
}

/// Apply dilation followed by erosion.
pub fn close_binary(input: &Raster<u8>, radius: u8) -> (r: Result<Raster<u8>, KernelError>)
    ensures
        r is Ok <==> (is_binary(input.px()) && radius <= MAX_RADIUS),
        r matches Ok(out) ==> {
            &&& out.w() == input.w() && out.h() == input.h()
            &&& out.px() == morphology_px(
                morphology_px(input.px(), input.w(), input.h(), radius as int, true),
                input.w(),
                input.h(),
                radius as int,
                false,
            )
        },
{
    let dilated = match morphology_dilate(input, radius) {
        Ok(raster) => raster,
        Err(e) => return Err(e),
    };
    proof {
        lemma_morphology_binary(input.px(), input.w(), input.h(), radius as int, true);
    }
    morphology_erode(&dilated, radius)
}

/// Quantized line orientation.
#[derive(Clone, Copy, Debug, Eq, PartialEq, Structural)]
pub enum LineOrientation {
    /// Left to right.
    Horizontal,
    /// Top to bottom.
    Vertical,
    /// Top-left to bottom-right.
    DiagonalDown,
    /// Bottom-left to top-right.
    DiagonalUp,
}

/// One maximal deterministic line run.
#[derive(Clone, Debug, Eq, PartialEq, Structural)]
pub struct LineSegment {
    /// Quantized orientation.
    pub orientation: LineOrientation,
    /// Inclusive start x coordinate.
    pub start_x: u32,
    /// Inclusive start y coordinate.
    pub start_y: u32,
    /// Inclusive end x coordinate.
    pub end_x: u32,
    /// Inclusive end y coordinate.
    pub end_y: u32,
    /// Number of contributing pixels.
    pub length: u32,
}

/// The orientation scanned in pass `k` (horizontal, vertical, falling, rising).
pub open spec fn line_orientation(k: int) -> LineOrientation {
    if k == 0 {
        LineOrientation::Horizontal
    } else if k == 1 {
        LineOrientation::Vertical
    } else if k == 2 {
        LineOrientation::DiagonalDown
    } else {
        LineOrientation::DiagonalUp
    }
}

/// Column step of pass `k`.
pub open spec fn line_step_x(k: int) -> int {
    if k == 1 { 0 } else { 1 }
}

/// Row step of pass `k`.
pub open spec fn line_step_y(k: int) -> int {
    if k == 0 { 0 } else if k == 3 { -1 } else { 1 }
}

/// `len` on pixels follow `(x, y)` along `(sx, sy)`, and the next one is off.
pub open spec fn is_run(px: Seq<u8>, w: int, h: int, x: int, y: int, sx: int, sy: int, len: int) -> bool {
    &&& len >= 0
    &&& forall|k: int| 0 <= k < len ==> #[trigger] on_at(px, w, h, x + k * sx, y + k * sy)
    &&& !on_at(px, w, h, x + len * sx, y + len * sy)
}

/// A run from a position has exactly one length.
pub proof fn lemma_run_unique(px: Seq<u8>, w: int, h: int, x: int, y: int, sx: int, sy: int, a: int, b: int)
    requires
        is_run(px, w, h, x, y, sx, sy, a),
        is_run(px, w, h, x, y, sx, sy, b),
    ensures
        a == b,
{
    if a < b {
        assert(on_at(px, w, h, x + a * sx, y + a * sy));
    }
    if b < a {
        assert(on_at(px, w, h, x + b * sx, y + b * sy));
    }
}

/// The length of the run that starts at `(x, y)` along `(sx, sy)`.
pub open spec fn run_length(px: Seq<u8>, w: int, h: int, x: int, y: int, sx: int, sy: int) -> int {
    choose|len: int| is_run(px, w, h, x, y, sx, sy, len)
}

/// Whether pass `k` starts a reported run at `(x, y)`.
pub open spec fn starts_line(px: Seq<u8>, w: int, h: int, minimum: int, k: int, x: int, y: int) -> bool {
    &&& on_at(px, w, h, x, y)
    &&& !on_at(px, w, h, x - line_step_x(k), y - line_step_y(k))
    &&& run_length(px, w, h, x, y, line_step_x(k), line_step_y(k)) >= minimum
}

/// The segment pass `k` reports at `(x, y)`.
pub open spec fn line_at(px: Seq<u8>, w: int, h: int, k: int, x: int, y: int) -> LineSegment {
    let len = run_length(px, w, h, x, y, line_step_x(k), line_step_y(k));
    LineSegment {
        orientation: line_orientation(k),
        start_x: x as u32,
        start_y: y as u32,
        end_x: (x + (len - 1) * line_step_x(k)) as u32,
        end_y: (y + (len - 1) * line_step_y(k)) as u32,
        length: len as u32,
    }
}

/// Segments reported by the first `t` scan steps; step `t` visits pass
/// `t / (w * h)` at row-major pixel `t % (w * h)`.
pub open spec fn lines_upto(px: Seq<u8>, w: int, h: int, minimum: int, t: int) -> Seq<LineSegment>
    decreases t,
{
    if t <= 0 {
        Seq::empty()
    } else {
        let previous = lines_upto(px, w, h, minimum, t - 1);
        let k = (t - 1) / (w * h);
        let i = (t - 1) % (w * h);
        if starts_line(px, w, h, minimum, k, i % w, i / w) {
            previous.push(line_at(px, w, h, k, i % w, i / w))
        } else {
            previous
        }
    }
}

fn line_pass(k: u8) -> (r: (LineOrientation, i64, i64))
    requires
        k < 4,
    ensures
        r.0 == line_orientation(k as int),
        r.1 == line_step_x(k as int),
        r.2 == line_step_y(k as int),
{
    if k == 0 {
        (LineOrientation::Horizontal, 1, 0)
    } else if k == 1 {
        (LineOrientation::Vertical, 0, 1)
    } else if k == 2 {
        (LineOrientation::DiagonalDown, 1, 1)
    } else {
        (LineOrientation::DiagonalUp, 1, -1)
    }
}

/// Length of the run of on pixels that starts at `(x, y)` along `(sx, sy)`.
fn measure_run(input: &Raster<u8>, x: u32, y: u32, sx: i64, sy: i64) -> (len: u32)
    requires
        (sx == 1 && -1 <= sy <= 1) || (sx == 0 && sy == 1),
        in_grid(input.w(), input.h(), x as int, y as int),
    ensures
        is_run(input.px(), input.w(), input.h(), x as int, y as int, sx as int, sy as int, len as int),
        len <= MAX_DIMENSION + 1,
{
    input.facts();
    let ghost px = input.px();
    let ghost w = input.w();
    let ghost h = input.h();
    let mut end_x: i64 = x as i64;
    let mut end_y: i64 = y as i64;
    let mut length: u32 = 0;
    while sample_binary(input, end_x, end_y)
        invariant
            px == input.px() && w == input.w() && h == input.h(),
            valid_dims(w, h),
            (sx == 1 && -1 <= sy <= 1) || (sx == 0 && sy == 1),
            end_x == x + length * sx,
            end_y == y + length * sy,
            forall|k: int| 0 <= k < length ==> #[trigger] on_at(px, w, h, x + k * sx, y + k * sy),
            sx == 1 ==> length <= w && end_x <= w,
            sx == 0 ==> length <= h && end_y <= h,
            0 <= x <= u32::MAX && 0 <= y <= u32::MAX,
        decreases (if sx == 1 { w - end_x } else { h - end_y }),
    {
        assert(on_at(px, w, h, x + length * sx, y + length * sy));
        length += 1;
        end_x += sx;
        end_y += sy;
        proof {
            assert(end_x == x + length * sx) by (nonlinear_arith)
                requires
                    end_x == x + (length - 1) * sx + sx,
            ;
            assert(end_y == y + length * sy) by (nonlinear_arith)
                requires
                    end_y == y + (length - 1) * sy + sy,
            ;
        }
    }
    length
}

/// Extract maximal horizontal, vertical, and 45-degree binary line evidence.
pub fn extract_line_evidence(input: &Raster<u8>, minimum_length: u16) -> (r: Result<Vec<LineSegment>, KernelError>)
    ensures
        r is Ok <==> (is_binary(input.px()) && minimum_length > 0),
        r matches Ok(lines) ==> lines@ == lines_upto(
            input.px(),
            input.w(),
            input.h(),
            minimum_length as int,
            4 * (input.w() * input.h()),
        ),
{
    match validate_binary(input) {
        Err(e) => return Err(e),
        Ok(()) => {},
    }
    if minimum_length == 0 {
        return Err(invalid("line minimum length must be positive"));
    }
    input.facts();
    let width = input.width();
    let height = input.height();
    let ghost px = input.px();
    let ghost w = width as int;
    let ghost h = height as int;
    let ghost n = w * h;
    let ghost m = minimum_length as int;
    proof {
        lemma_grid_bound(w, h);
    }
    let mut output: Vec<LineSegment> = Vec::new();
    let mut pass: u8 = 0;
    while pass < 4
        invariant
            px == input.px() && w == input.w() && h == input.h(),
            valid_dims(w, h),
            width == w && height == h,
            n == w * h && 1 <= n <= 16_777_216,
            m == minimum_length as int && m >= 1,
            pass <= 4,
            output@ == lines_upto(px, w, h, m, pass * n),
        decreases 4 - pass,
    {
        let (orientation, step_x, step_y) = line_pass(pass);
        let mut y: u32 = 0;
        while y < height
            invariant
                px == input.px() && w == input.w() && h == input.h(),
                valid_dims(w, h),
                width == w && height == h,
                n == w * h && 1 <= n <= 16_777_216,
                m == minimum_length as int && m >= 1,
                pass < 4,
                orientation == line_orientation(pass as int),
                step_x == line_step_x(pass as int),
                step_y == line_step_y(pass as int),
                y <= height,
                output@ == lines_upto(px, w, h, m, pass * n + y * w),
            decreases height - y,
        {
            let mut x: u32 = 0;
            while x < width
                invariant
                    px == input.px() && w == input.w() && h == input.h(),
                    valid_dims(w, h),
                    width == w && height == h,
                    n == w * h && 1 <= n <= 16_777_216,
                    m == minimum_length as int && m >= 1,
                    pass < 4,
                    orientation == line_orientation(pass as int),
                    step_x == line_step_x(pass as int),
                    step_y == line_step_y(pass as int),
                    y < height,
                    x <= width,
                    output@ == lines_upto(px, w, h, m, pass * n + y * w + x),
                decreases width - x,
            {
                let ghost t = pass * n + y * w + x;
                proof {
                    lemma_index(w, h, x as int, y as int);
                    assert(0 <= y * w + x < n);
                    lemma_fundamental_div_mod_converse(t, n, pass as int, y * w + x);
                    assert(lines_upto(px, w, h, m, t + 1) == {
                        let previous = lines_upto(px, w, h, m, t);
                        if starts_line(px, w, h, m, pass as int, x as int, y as int) {
                            previous.push(line_at(px, w, h, pass as int, x as int, y as int))
                        } else {
                            previous
                        }
                    });
                }
                let on = sample_binary(input, x as i64, y as i64);
                let before = sample_binary(input, x as i64 - step_x, y as i64 - step_y);
                if on && !before {
                    let length = measure_run(input, x, y, step_x, step_y);
                    proof {
                        let len = run_length(px, w, h, x as int, y as int, step_x as int, step_y as int);
                        assert(is_run(px, w, h, x as int, y as int, step_x as int, step_y as int, length as int));
                        lemma_run_unique(px, w, h, x as int, y as int, step_x as int, step_y as int, len, length as int);
                    }
                    if length >= minimum_length as u32 {
                        let last: i64 = length as i64 - 1;
                        proof {
                            assert(on_at(px, w, h, x + last * step_x, y + last * step_y));
                        }
                        let end_x = (x as i64 + last * step_x) as u32;
                        let end_y = (y as i64 + last * step_y) as u32;
                        output.push(LineSegment {
                            orientation,
                            start_x: x,
                            start_y: y,
                            end_x,
                            end_y,
                            length,
                        });
                    }
                }
                x += 1;
            }
            proof {
                assert(pass * n + (y + 1) * w == pass * n + y * w + w) by (nonlinear_arith);
            }
            y += 1;
        }
        proof {
            assert((pass + 1) * n == pass * n + height * w) by (nonlinear_arith)
                requires
                    n == w * h,
                    height == h,
            ;
        }
        pass += 1;
    }
    Ok(output)
}

/// The 3-4 chamfer length between two positions: orthogonal steps cost 3 and
/// diagonal steps cost 4.
pub open spec fn chamfer_metric(x1: int, y1: int, x2: int, y2: int) -> int {
    let dx = abs(x1 - x2);
    let dy = abs(y1 - y2);
    if dx >= dy {
        3 * dx + dy
    } else {
        3 * dy + dx
    }
}

/// Whether a binary raster has at least one source pixel.
pub open spec fn has_source(px: Seq<u8>) -> bool {
    exists|j: int| 0 <= j < px.len() && #[trigger] px[j] == EDGE_ON
}

/// Invariant facts about one distance value at index `i`: zero exactly on
/// sources, bounded by the sentinel, and otherwise no shorter than the chamfer
/// length to some source.
pub open spec fn chamfer_sound_at(px: Seq<u8>, w: int, d: Seq<u32>, i: int) -> bool {
    &&& (d[i] == 0 <==> px[i] == EDGE_ON)
    &&& d[i] <= UNREACHED_DISTANCE
    &&& (d[i] == UNREACHED_DISTANCE || exists|j: int|
        0 <= j < px.len() && #[trigger] px[j] == EDGE_ON && chamfer_metric(i % w, i / w, j % w, j / w) <= d[i])
}

proof fn lemma_chamfer_step(x1: int, y1: int, x2: int, y2: int, sx: int, sy: int, weight: int)
    requires
        -1 <= x1 - x2 <= 1,
        -1 <= y1 - y2 <= 1,
        weight == (if x1 == x2 || y1 == y2 { 3int } else { 4int }),
    ensures
        chamfer_metric(x1, y1, sx, sy) <= chamfer_metric(x2, y2, sx, sy) + weight,
{
}

/// Distances after relaxing the entry of `(x, y)` through its neighbor at offset `(ox, oy)`:
/// when the neighbor lies in the grid and its distance plus `weight` (saturating) is smaller,
/// that sum replaces the entry.
pub open spec fn relaxed_distances(d: Seq<u32>, w: int, h: int, x: int, y: int, ox: int, oy: int, weight: int) -> Seq<u32> {
    let nx = x + ox;
    let ny = y + oy;
    if nx < 0 || ny < 0 || nx >= w || ny >= h {
        d
    } else {
        let n = grid_index(w, nx, ny);
        let through = if d[n] + weight > u32::MAX { u32::MAX as int } else { d[n] + weight };
        if through < d[grid_index(w, x, y)] { d.update(grid_index(w, x, y), through as u32) } else { d }
    }
}

/// Relax `distance[index]` through the neighbor at offset `(ox, oy)`.
fn relax_distance(
    input: &Raster<u8>,
    distance: &mut Vec<u32>,
    x: u32,
    y: u32,
    index: usize,
    ox: i64,
    oy: i64,
    weight: u32,
)
    requires
        in_grid(input.w(), input.h(), x as int, y as int),
        index == grid_index(input.w(), x as int, y as int),
        old(distance)@.len() == input.w() * input.h(),
        -1 <= ox <= 1 && -1 <= oy <= 1 && !(ox == 0 && oy == 0),
        weight == (if ox == 0 || oy == 0 { 3u32 } else { 4u32 }),
        forall|i: int| 0 <= i < old(distance)@.len() ==> chamfer_sound_at(input.px(), input.w(), old(distance)@, i),
    ensures
        final(distance)@.len() == old(distance)@.len(),
        forall|i: int| 0 <= i < final(distance)@.len() ==> chamfer_sound_at(input.px(), input.w(), final(distance)@, i),
        final(distance)@ == relaxed_distances(
            old(distance)@,
            input.w(),
            input.h(),
            x as int,
            y as int,
            ox as int,
            oy as int,
            weight as int,
        ),
{
    input.facts();
    let ghost px = input.px();
    let ghost w = input.w();
    let ghost h = input.h();
    let neighbor_x = x as i64 + ox;
    let neighbor_y = y as i64 + oy;
    if neighbor_x < 0 || neighbor_y < 0 || neighbor_x >= input.width() as i64 || neighbor_y >= input.height() as i64 {
        return;
    }
    let neighbor = input.index(neighbor_x as u32, neighbor_y as u32);
    proof {
        lemma_index(w, h, x as int, y as int);
        lemma_index(w, h, neighbor_x as int, neighbor_y as int);
    }
    let through = distance[neighbor].saturating_add(weight);
    if through < distance[index] {
        let ghost before = distance@;
        proof {
            assert(chamfer_sound_at(px, w, before, neighbor as int));
            assert(chamfer_sound_at(px, w, before, index as int));
            assert(before[neighbor as int] != UNREACHED_DISTANCE);
            let j = choose|j: int|
                0 <= j < px.len() && #[trigger] px[j] == EDGE_ON && chamfer_metric(
                    neighbor as int % w,
                    neighbor as int / w,
                    j % w,
                    j / w,
                ) <= before[neighbor as int];
            lemma_chamfer_step(x as int, y as int, neighbor_x as int, neighbor_y as int, j % w, j / w, weight as int);
            assert(chamfer_metric(index as int % w, index as int / w, j % w, j / w) <= through);
        }
        distance.set(index, through);
        proof {
            assert forall|i: int| 0 <= i < distance@.len() implies chamfer_sound_at(px, w, distance@, i) by {
                if i != index as int {
                    assert(chamfer_sound_at(px, w, before, i));
                    if distance@[i] != UNREACHED_DISTANCE {
                        let j = choose|j: int|
                            0 <= j < px.len() && #[trigger] px[j] == EDGE_ON && chamfer_metric(i % w, i / w, j % w, j / w)
                                <= before[i];
                        assert(px[j] == EDGE_ON);
                    }
                } else {
                    assert(chamfer_sound_at(px, w, before, i));
                    let j = choose|j: int|
                        0 <= j < px.len() && #[trigger] px[j] == EDGE_ON && chamfer_metric(
                            neighbor as int % w,
                            neighbor as int / w,
                            j % w,
                            j / w,
                        ) <= before[neighbor as int];
                    lemma_chamfer_step(x as int, y as int, neighbor_x as int, neighbor_y as int, j % w, j / w, weight as int);
                    assert(px[j] == EDGE_ON);
                }
            }
        }
    }
}

/// The distance at index `i` is the least chamfer length to any source, attained by one.
pub open spec fn chamfer_exact_at(px: Seq<u8>, w: int, d: Seq<u32>, i: int) -> bool {
    &&& forall|j: int| 0 <= j < px.len() && #[trigger] px[j] == EDGE_ON ==> d[i] <= chamfer_metric(i % w, i / w, j % w, j / w)
    &&& exists|j: int| 0 <= j < px.len() && #[trigger] px[j] == EDGE_ON && d[i] == chamfer_metric(i % w, i / w, j % w, j / w)
}

/// Offsets from a source that the first (row-major) pass reaches along a shortest path.
pub open spec fn forward_region(dx: int, dy: int) -> bool {
    (dy > 0 && dx >= -dy) || (dy == 0 && dx >= 0)
}

/// The distance at `(qx, qy)` is at most the chamfer length to `(sx, sy)`.
pub open spec fn bounded_by(d: Seq<u32>, w: int, qx: int, qy: int, sx: int, sy: int) -> bool {
    d[grid_index(w, qx, qy)] <= chamfer_metric(qx, qy, sx, sy)
}

/// Whether `(x, y)` is a source.
pub open spec fn is_source_at(px: Seq<u8>, w: int, x: int, y: int) -> bool {
    px[grid_index(w, x, y)] == EDGE_ON
}

/// After the first pass has handled every pixel before `(x, y)`: each handled pixel is within
/// the chamfer length of every source whose shortest paths the pass follows.
pub open spec fn forward_done(px: Seq<u8>, d: Seq<u32>, w: int, h: int, x: int, y: int) -> bool {
    forall|sx: int, sy: int, qx: int, qy: int|
        in_grid(w, h, sx, sy) && in_grid(w, h, qx, qy) && is_source_at(px, w, sx, sy) && forward_region(qx - sx, qy - sy)
            && (qy < y || (qy == y && qx < x)) ==> #[trigger] bounded_by(d, w, qx, qy, sx, sy)
}

/// Every pixel is within the chamfer length of every source in its forward region.
pub open spec fn forward_all(px: Seq<u8>, d: Seq<u32>, w: int, h: int) -> bool {
    forall|sx: int, sy: int, qx: int, qy: int|
        in_grid(w, h, sx, sy) && in_grid(w, h, qx, qy) && is_source_at(px, w, sx, sy) && forward_region(qx - sx, qy - sy)
            ==> #[trigger] bounded_by(d, w, qx, qy, sx, sy)
}

/// After the second pass has handled every pixel from `(x, y)` on in reverse row-major order:
/// each handled pixel is within the chamfer length of every source.
pub open spec fn backward_done(px: Seq<u8>, d: Seq<u32>, w: int, h: int, x: int, y: int) -> bool {
    forall|sx: int, sy: int, qx: int, qy: int|
        in_grid(w, h, sx, sy) && in_grid(w, h, qx, qy) && is_source_at(px, w, sx, sy) && (qy > y || (qy == y && qx
            >= x)) ==> #[trigger] bounded_by(d, w, qx, qy, sx, sy)
}

proof fn lemma_index_distinct(w: int, h: int, x1: int, y1: int, x2: int, y2: int)
    requires
        w >= 1,
        in_grid(w, h, x1, y1),
        in_grid(w, h, x2, y2),
        x1 != x2 || y1 != y2,
    ensures
        grid_index(w, x1, y1) != grid_index(w, x2, y2),
{
    lemma_index(w, h, x1, y1);
    lemma_index(w, h, x2, y2);
}

proof fn lemma_relaxed_facts(d: Seq<u32>, w: int, h: int, x: int, y: int, ox: int, oy: int, weight: int)
    requires
        valid_dims(w, h),
        d.len() == w * h,
        in_grid(w, h, x, y),
        -1 <= ox <= 1 && -1 <= oy <= 1 && !(ox == 0 && oy == 0),
        0 <= weight <= 4,
    ensures
        relaxed_distances(d, w, h, x, y, ox, oy, weight).len() == d.len(),
        forall|k: int| 0 <= k < d.len() && k != grid_index(w, x, y) ==> #[trigger] relaxed_distances(d, w, h, x, y, ox, oy, weight)[k] == d[k],
        relaxed_distances(d, w, h, x, y, ox, oy, weight)[grid_index(w, x, y)] <= d[grid_index(w, x, y)],
        in_grid(w, h, x + ox, y + oy) && d[grid_index(w, x + ox, y + oy)] + weight <= u32::MAX ==> relaxed_distances(
            d,
            w,
            h,
            x,
            y,
            ox,
            oy,
            weight,
        )[grid_index(w, x, y)] <= d[grid_index(w, x + ox, y + oy)] + weight,
{
    lemma_index(w, h, x, y);
}

/// The four first-pass relaxations of one pixel: through its left, upper, upper-left and
/// upper-right neighbors.
fn relax_forward_pixel(input: &Raster<u8>, distance: &mut Vec<u32>, x: u32, y: u32, index: usize)
    requires
        in_grid(input.w(), input.h(), x as int, y as int),
        index == grid_index(input.w(), x as int, y as int),
        old(distance)@.len() == input.w() * input.h(),
        forall|i: int| 0 <= i < old(distance)@.len() ==> chamfer_sound_at(input.px(), input.w(), old(distance)@, i),
    ensures
        final(distance)@.len() == old(distance)@.len(),
        forall|i: int| 0 <= i < final(distance)@.len() ==> chamfer_sound_at(input.px(), input.w(), final(distance)@, i),
        forall|k: int| 0 <= k < old(distance)@.len() && k != index ==> #[trigger] final(distance)@[k] == old(distance)@[k],
        final(distance)@[index as int] <= old(distance)@[index as int],
        in_grid(input.w(), input.h(), x - 1, y as int) ==> final(distance)@[index as int] <= old(distance)@[grid_index(
            input.w(),
            x - 1,
            y as int,
        )] + 3,
        in_grid(input.w(), input.h(), x as int, y - 1) ==> final(distance)@[index as int] <= old(distance)@[grid_index(
            input.w(),
            x as int,
            y - 1,
        )] + 3,
        in_grid(input.w(), input.h(), x - 1, y - 1) ==> final(distance)@[index as int] <= old(distance)@[grid_index(
            input.w(),
            x - 1,
            y - 1,
        )] + 4,
        in_grid(input.w(), input.h(), x + 1, y - 1) ==> final(distance)@[index as int] <= old(distance)@[grid_index(
            input.w(),
            x + 1,
            y - 1,
        )] + 4,
{
    input.facts();
    let ghost w = input.w();
    let ghost h = input.h();
    let ghost xi = x as int;
    let ghost yi = y as int;
    let ghost d0 = distance@;
    proof {
        lemma_relaxed_facts(d0, w, h, xi, yi, -1, 0, 3);
        if in_grid(w, h, xi - 1, yi) {
            lemma_index(w, h, xi - 1, yi);
            assert(chamfer_sound_at(input.px(), w, d0, grid_index(w, xi - 1, yi)));
        }
    }
    relax_distance(input, distance, x, y, index, -1, 0, 3);
    let ghost d1 = distance@;
    proof {
        lemma_relaxed_facts(d1, w, h, xi, yi, 0, -1, 3);
        if in_grid(w, h, xi, yi - 1) {
            lemma_index_distinct(w, h, xi, yi - 1, xi, yi);
            lemma_index(w, h, xi, yi - 1);
            assert(chamfer_sound_at(input.px(), w, d1, grid_index(w, xi, yi - 1)));
        }
    }
    relax_distance(input, distance, x, y, index, 0, -1, 3);
    let ghost d2 = distance@;
    proof {
        lemma_relaxed_facts(d2, w, h, xi, yi, -1, -1, 4);
        if in_grid(w, h, xi - 1, yi - 1) {
            lemma_index_distinct(w, h, xi - 1, yi - 1, xi, yi);
            lemma_index(w, h, xi - 1, yi - 1);
            assert(chamfer_sound_at(input.px(), w, d2, grid_index(w, xi - 1, yi - 1)));
        }
    }
    relax_distance(input, distance, x, y, index, -1, -1, 4);
    let ghost d3 = distance@;
    proof {
        lemma_relaxed_facts(d3, w, h, xi, yi, 1, -1, 4);
        if in_grid(w, h, xi + 1, yi - 1) {
            lemma_index_distinct(w, h, xi + 1, yi - 1, xi, yi);
            lemma_index(w, h, xi + 1, yi - 1);
            assert(chamfer_sound_at(input.px(), w, d3, grid_index(w, xi + 1, yi - 1)));
        }
        if in_grid(w, h, xi - 1, yi) {
            lemma_index_distinct(w, h, xi - 1, yi, xi, yi);
        }
        if in_grid(w, h, xi, yi - 1) {
            lemma_index_distinct(w, h, xi, yi - 1, xi, yi);
        }
        if in_grid(w, h, xi - 1, yi - 1) {
            lemma_index_distinct(w, h, xi - 1, yi - 1, xi, yi);
        }
    }
    relax_distance(input, distance, x, y, index, 1, -1, 4);
}

/// The four second-pass relaxations of one pixel: through its right, lower, lower-right and
/// lower-left neighbors.
fn relax_backward_pixel(input: &Raster<u8>, distance: &mut Vec<u32>, x: u32, y: u32, index: usize)
    requires
        in_grid(input.w(), input.h(), x as int, y as int),
        index == grid_index(input.w(), x as int, y as int),
        old(distance)@.len() == input.w() * input.h(),
        forall|i: int| 0 <= i < old(distance)@.len() ==> chamfer_sound_at(input.px(), input.w(), old(distance)@, i),
    ensures
        final(distance)@.len() == old(distance)@.len(),
        forall|i: int| 0 <= i < final(distance)@.len() ==> chamfer_sound_at(input.px(), input.w(), final(distance)@, i),
        forall|k: int| 0 <= k < old(distance)@.len() && k != index ==> #[trigger] final(distance)@[k] == old(distance)@[k],
        final(distance)@[index as int] <= old(distance)@[index as int],
        in_grid(input.w(), input.h(), x + 1, y as int) ==> final(distance)@[index as int] <= old(distance)@[grid_index(
            input.w(),
            x + 1,
            y as int,
        )] + 3,
        in_grid(input.w(), input.h(), x as int, y + 1) ==> final(distance)@[index as int] <= old(distance)@[grid_index(
            input.w(),
            x as int,
            y + 1,
        )] + 3,
        in_grid(input.w(), input.h(), x + 1, y + 1) ==> final(distance)@[index as int] <= old(distance)@[grid_index(
            input.w(),
            x + 1,
            y + 1,
        )] + 4,
        in_grid(input.w(), input.h(), x - 1, y + 1) ==> final(distance)@[index as int] <= old(distance)@[grid_index(
            input.w(),
            x - 1,
            y + 1,
        )] + 4,
{
    input.facts();
    let ghost w = input.w();
    let ghost h = input.h();
    let ghost xi = x as int;
    let ghost yi = y as int;
    let ghost d0 = distance@;
    proof {
        lemma_relaxed_facts(d0, w, h, xi, yi, 1, 0, 3);
        if in_grid(w, h, xi + 1, yi) {
            lemma_index(w, h, xi + 1, yi);
            assert(chamfer_sound_at(input.px(), w, d0, grid_index(w, xi + 1, yi)));
        }
    }
    relax_distance(input, distance, x, y, index, 1, 0, 3);
    let ghost d1 = distance@;
    proof {
        lemma_relaxed_facts(d1, w, h, xi, yi, 0, 1, 3);
        if in_grid(w, h, xi, yi + 1) {
            lemma_index_distinct(w, h, xi, yi + 1, xi, yi);
            lemma_index(w, h, xi, yi + 1);
            assert(chamfer_sound_at(input.px(), w, d1, grid_index(w, xi, yi + 1)));
        }
    }
    relax_distance(input, distance, x, y, index, 0, 1, 3);
    let ghost d2 = distance@;
    proof {
        lemma_relaxed_facts(d2, w, h, xi, yi, 1, 1, 4);
        if in_grid(w, h, xi + 1, yi + 1) {
            lemma_index_distinct(w, h, xi + 1, yi + 1, xi, yi);
            lemma_index(w, h, xi + 1, yi + 1);
            assert(chamfer_sound_at(input.px(), w, d2, grid_index(w, xi + 1, yi + 1)));
        }
    }
    relax_distance(input, distance, x, y, index, 1, 1, 4);
    let ghost d3 = distance@;
    proof {
        lemma_relaxed_facts(d3, w, h, xi, yi, -1, 1, 4);
        if in_grid(w, h, xi - 1, yi + 1) {
            lemma_index_distinct(w, h, xi - 1, yi + 1, xi, yi);
            lemma_index(w, h, xi - 1, yi + 1);
            assert(chamfer_sound_at(input.px(), w, d3, grid_index(w, xi - 1, yi + 1)));
        }
        if in_grid(w, h, xi + 1, yi) {
            lemma_index_distinct(w, h, xi + 1, yi, xi, yi);
        }
        if in_grid(w, h, xi, yi + 1) {
            lemma_index_distinct(w, h, xi, yi + 1, xi, yi);
        }
        if in_grid(w, h, xi + 1, yi + 1) {
            lemma_index_distinct(w, h, xi + 1, yi + 1, xi, yi);
        }
    }
    relax_distance(input, distance, x, y, index, -1, 1, 4);
}

/// The facts one relaxation step leaves: only `(x, y)` changes, it does not grow, and it is
/// at most each listed in-grid neighbor plus the step weight.
pub open spec fn step_facts(d: Seq<u32>, d2: Seq<u32>, w: int, h: int, x: int, y: int, offsets: Seq<(int, int, int)>) -> bool {
    &&& d2.len() == d.len()
    &&& forall|k: int| 0 <= k < d.len() && k != grid_index(w, x, y) ==> #[trigger] d2[k] == d[k]
    &&& d2[grid_index(w, x, y)] <= d[grid_index(w, x, y)]
    &&& forall|t: int|
        0 <= t < offsets.len() && in_grid(w, h, x + offsets[t].0, y + offsets[t].1) ==> d2[grid_index(w, x, y)]
            <= d[grid_index(w, x + (#[trigger] offsets[t]).0, y + offsets[t].1)] + offsets[t].2
}

/// Neighbor offsets and weights of the first pass.
pub open spec fn forward_offsets() -> Seq<(int, int, int)> {
    seq![(-1int, 0int, 3int), (0int, -1int, 3int), (-1int, -1int, 4int), (1int, -1int, 4int)]
}

/// Neighbor offsets and weights of the second pass.
pub open spec fn backward_offsets() -> Seq<(int, int, int)> {
    seq![(1int, 0int, 3int), (0int, 1int, 3int), (1int, 1int, 4int), (-1int, 1int, 4int)]
}

proof fn lemma_forward_step(px: Seq<u8>, d: Seq<u32>, d2: Seq<u32>, w: int, h: int, x: int, y: int)
    requires
        valid_dims(w, h),
        px.len() == w * h,
        d.len() == w * h,
        in_grid(w, h, x, y),
        forward_done(px, d, w, h, x, y),
        forall|i: int| 0 <= i < d.len() ==> chamfer_sound_at(px, w, d, i),
        step_facts(d, d2, w, h, x, y, forward_offsets()),
    ensures
        forward_done(px, d2, w, h, x + 1, y),
{
    let offs = forward_offsets();
    assert forall|sx: int, sy: int, qx: int, qy: int|
        in_grid(w, h, sx, sy) && in_grid(w, h, qx, qy) && is_source_at(px, w, sx, sy) && forward_region(qx - sx, qy - sy)
            && (qy < y || (qy == y && qx < x + 1)) implies #[trigger] bounded_by(d2, w, qx, qy, sx, sy) by {
        lemma_index(w, h, qx, qy);
        if qx != x || qy != y {
            lemma_index_distinct(w, h, qx, qy, x, y);
            assert(bounded_by(d, w, qx, qy, sx, sy));
        } else {
            let dx = x - sx;
            let dy = y - sy;
            if dx == 0 && dy == 0 {
                assert(chamfer_sound_at(px, w, d, grid_index(w, x, y)));
            } else if dy == 0 {
                assert(offs[0] == (-1int, 0int, 3int));
                assert(bounded_by(d, w, x - 1, y, sx, sy));
            } else if dx > 0 {
                assert(offs[2] == (-1int, -1int, 4int));
                assert(bounded_by(d, w, x - 1, y - 1, sx, sy));
            } else if dx == 0 {
                assert(offs[1] == (0int, -1int, 3int));
                assert(bounded_by(d, w, x, y - 1, sx, sy));
            } else {
                assert(offs[3] == (1int, -1int, 4int));
                assert(bounded_by(d, w, x + 1, y - 1, sx, sy));
            }
        }
    }
}

proof fn lemma_backward_step(px: Seq<u8>, d: Seq<u32>, d2: Seq<u32>, w: int, h: int, x: int, y: int)
    requires
        valid_dims(w, h),
        px.len() == w * h,
        d.len() == w * h,
        in_grid(w, h, x, y),
        forward_all(px, d, w, h),
        backward_done(px, d, w, h, x + 1, y),
        forall|i: int| 0 <= i < d.len() ==> chamfer_sound_at(px, w, d, i),
        step_facts(d, d2, w, h, x, y, backward_offsets()),
    ensures
        forward_all(px, d2, w, h),
        backward_done(px, d2, w, h, x, y),
{
    let offs = backward_offsets();
    assert forall|sx: int, sy: int, qx: int, qy: int|
        in_grid(w, h, sx, sy) && in_grid(w, h, qx, qy) && is_source_at(px, w, sx, sy) && forward_region(qx - sx, qy - sy)
        implies #[trigger] bounded_by(d2, w, qx, qy, sx, sy) by {
        lemma_index(w, h, qx, qy);
        assert(bounded_by(d, w, qx, qy, sx, sy));
        if qx != x || qy != y {
            lemma_index_distinct(w, h, qx, qy, x, y);
        }
    }
    assert forall|sx: int, sy: int, qx: int, qy: int|
        in_grid(w, h, sx, sy) && in_grid(w, h, qx, qy) && is_source_at(px, w, sx, sy) && (qy > y || (qy == y && qx >= x))
        implies #[trigger] bounded_by(d2, w, qx, qy, sx, sy) by {
        lemma_index(w, h, qx, qy);
        if qx != x || qy != y {
            lemma_index_distinct(w, h, qx, qy, x, y);
            assert(bounded_by(d, w, qx, qy, sx, sy));
        } else {
            let dx = x - sx;
            let dy = y - sy;
            if forward_region(dx, dy) {
                assert(bounded_by(d, w, x, y, sx, sy));
            } else if dy > 0 {
                assert(offs[0] == (1int, 0int, 3int));
                assert(bounded_by(d, w, x + 1, y, sx, sy));
            } else if dy == 0 {
                assert(offs[0] == (1int, 0int, 3int));
                assert(bounded_by(d, w, x + 1, y, sx, sy));
            } else if dx < 0 {
                assert(offs[2] == (1int, 1int, 4int));
                assert(bounded_by(d, w, x + 1, y + 1, sx, sy));
            } else if dx == 0 {
                assert(offs[1] == (0int, 1int, 3int));
                assert(bounded_by(d, w, x, y + 1, sx, sy));
            } else {
                assert(offs[3] == (-1int, 1int, 4int));
                assert(bounded_by(d, w, x - 1, y + 1, sx, sy));
            }
        }
    }
}

proof fn lemma_chamfer_exact(px: Seq<u8>, d: Seq<u32>, w: int, h: int)
    requires
        valid_dims(w, h),
        px.len() == w * h,
        d.len() == w * h,
        has_source(px),
        backward_done(px, d, w, h, 0, 0),
        forall|i: int| 0 <= i < d.len() ==> chamfer_sound_at(px, w, d, i),
    ensures
        forall|i: int| 0 <= i < d.len() ==> chamfer_exact_at(px, w, d, i),
{
    assert forall|i: int| 0 <= i < d.len() implies chamfer_exact_at(px, w, d, i) by {
        lemma_position(w, h, i);
        assert forall|j: int| 0 <= j < px.len() && #[trigger] px[j] == EDGE_ON implies d[i] <= chamfer_metric(
            i % w,
            i / w,
            j % w,
            j / w,
        ) by {
            lemma_position(w, h, j);
            assert(is_source_at(px, w, j % w, j / w));
            assert(bounded_by(d, w, i % w, i / w, j % w, j / w));
        }
        let j0 = choose|j: int| 0 <= j < px.len() && #[trigger] px[j] == EDGE_ON;
        lemma_position(w, h, j0);
        assert(d[i] <= chamfer_metric(i % w, i / w, j0 % w, j0 / w));
        assert(chamfer_metric(i % w, i / w, j0 % w, j0 / w) <= 4 * 4096);
        assert(chamfer_sound_at(px, w, d, i));
    }
}

/// Compute a deterministic 3-4 chamfer distance from nonzero source pixels.
pub fn chamfer_distance(input: &Raster<u8>) -> (r: Result<Raster<u32>, KernelError>)
    ensures
        r is Ok <==> is_binary(input.px()),
        r matches Ok(out) ==> {
            &&& out.w() == input.w() && out.h() == input.h()
            &&& forall|i: int| 0 <= i < out.px().len() ==> chamfer_sound_at(input.px(), input.w(), out.px(), i)
            &&& !has_source(input.px()) ==> forall|i: int|
                0 <= i < out.px().len() ==> #[trigger] out.px()[i] == UNREACHED_DISTANCE
            &&& has_source(input.px()) ==> forall|i: int|
                0 <= i < out.px().len() ==> chamfer_exact_at(input.px(), input.w(), out.px(), i)
        },
{
    match validate_binary(input) {
        Err(e) => return Err(e),
        Ok(()) => {},
    }
    input.facts();
    let width = input.width();
    let height = input.height();
    let ghost px = input.px();
    let ghost w = width as int;
    let ghost h = height as int;
    let pixels = input.pixels();
    let mut distance: Vec<u32> = Vec::new();
    let mut i: usize = 0;
    while i < pixels.len()
        invariant
            pixels@ == px,
            i <= pixels@.len(),
            distance@.len() == i,
            forall|k: int| 0 <= k < i ==> chamfer_sound_at(px, w, distance@, k),
            forall|k: int| 0 <= k < i ==> #[trigger] distance@[k] == (if px[k] == EDGE_ON { 0u32 } else { UNREACHED_DISTANCE }),
        decreases pixels@.len() - i,
    {
        distance.push(if pixels[i] == EDGE_ON { 0 } else { UNREACHED_DISTANCE });
        proof {
            assert forall|k: int| 0 <= k < i + 1 implies chamfer_sound_at(px, w, distance@, k) by {
                if k < i {
                    assert(chamfer_sound_at(px, w, distance@.drop_last(), k));
                }
            }
        }
        i += 1;
    }
    let mut y: u32 = 0;
    while y < height
        invariant
            px == input.px() && w == input.w() && h == input.h(),
            valid_dims(w, h),
            px.len() == w * h,
            width == w && height == h,
            y <= height,
            distance@.len() == w * h,
            forall|k: int| 0 <= k < distance@.len() ==> chamfer_sound_at(px, w, distance@, k),
            forward_done(px, distance@, w, h, 0, y as int),
        decreases height - y,
    {
        let mut x: u32 = 0;
        while x < width
            invariant
                px == input.px() && w == input.w() && h == input.h(),
                valid_dims(w, h),
                px.len() == w * h,
                width == w && height == h,
                y < height,
                x <= width,
                distance@.len() == w * h,
                forall|k: int| 0 <= k < distance@.len() ==> chamfer_sound_at(px, w, distance@, k),
                forward_done(px, distance@, w, h, x as int, y as int),
            decreases width - x,
        {
            let index = input.index(x, y);
            let ghost before = distance@;
            relax_forward_pixel(input, &mut distance, x, y, index);
            proof {
                let offs = forward_offsets();
                assert forall|t: int|
                    0 <= t < offs.len() && in_grid(w, h, x + offs[t].0, y + offs[t].1) implies distance@[grid_index(
                    w,
                    x as int,
                    y as int,
                )] <= before[grid_index(w, x + (#[trigger] offs[t]).0, y + offs[t].1)] + offs[t].2 by {
                    if t == 0 {
                    } else if t == 1 {
                    } else if t == 2 {
                    } else {
                    }
                }
                assert(step_facts(before, distance@, w, h, x as int, y as int, offs));
                lemma_forward_step(px, before, distance@, w, h, x as int, y as int);
            }
            x += 1;
        }
        y += 1;
    }
    assert(forward_all(px, distance@, w, h));
    let mut y: u32 = height;
    while y > 0
        invariant
            px == input.px() && w == input.w() && h == input.h(),
            valid_dims(w, h),
            px.len() == w * h,
            width == w && height == h,
            y <= height,
            distance@.len() == w * h,
            forall|k: int| 0 <= k < distance@.len() ==> chamfer_sound_at(px, w, distance@, k),
            forward_all(px, distance@, w, h),
            backward_done(px, distance@, w, h, 0, y as int),
        decreases y,
    {
        y -= 1;
        let mut x: u32 = width;
        assert(backward_done(px, distance@, w, h, w, y as int));
        while x > 0
            invariant
                px == input.px() && w == input.w() && h == input.h(),
                valid_dims(w, h),
                px.len() == w * h,
                width == w && height == h,
                y < height,
                x <= width,
                distance@.len() == w * h,
                forall|k: int| 0 <= k < distance@.len() ==> chamfer_sound_at(px, w, distance@, k),
                forward_all(px, distance@, w, h),
                backward_done(px, distance@, w, h, x as int, y as int),
            decreases x,
        {
            x -= 1;
            let index = input.index(x, y);
            let ghost before = distance@;
            relax_backward_pixel(input, &mut distance, x, y, index);
            proof {
                let offs = backward_offsets();
                assert forall|t: int|
                    0 <= t < offs.len() && in_grid(w, h, x + offs[t].0, y + offs[t].1) implies distance@[grid_index(
                    w,
                    x as int,
                    y as int,
                )] <= before[grid_index(w, x + (#[trigger] offs[t]).0, y + offs[t].1)] + offs[t].2 by {
                    if t == 0 {
                    } else if t == 1 {
                    } else if t == 2 {
                    } else {
                    }
                }
                assert(step_facts(before, distance@, w, h, x as int, y as int, offs));
                lemma_backward_step(px, before, distance@, w, h, x as int, y as int);
            }
        }
    }
    proof {
        if has_source(px) {
            lemma_chamfer_exact(px, distance@, w, h);
        }
        if !has_source(px) {
            assert forall|k: int| 0 <= k < distance@.len() implies #[trigger] distance@[k] == UNREACHED_DISTANCE by {
                assert(chamfer_sound_at(px, w, distance@, k));
                if distance@[k] != UNREACHED_DISTANCE {
                    let j = choose|j: int|
                        0 <= j < px.len() && #[trigger] px[j] == EDGE_ON && chamfer_metric(k % w, k / w, j % w, j / w)
                            <= distance@[k];
                    assert(has_source(px));
                }
            }
        }
    }
    Raster::new(width, height, distance)
}

/// Pixel count of an accepted grid.
fn checked_pixel_count(width: u32, height: u32) -> (r: Result<usize, KernelError>)
    ensures
        r is Ok <==> valid_dims(width as int, height as int),
        r matches Ok(count) ==> count == width as int * height as int,
{
    if width == 0 || height == 0 || width > MAX_DIMENSION || height > MAX_DIMENSION {
        return Err(invalid("kernel raster dimensions are zero or exceed 4,096"));
    }
    proof {
        assert(width as int * height as int <= 4096 * 4096) by (nonlinear_arith)
            requires
                width <= 4096,
                height <= 4096,
        ;
    }
    Ok(width as usize * height as usize)
}

/// The direction of a depth gradient `(dx, dy)`: horizontal when `|dx|` exceeds twice `|dy|`,
/// vertical when `|dy|` exceeds twice `|dx|`, and otherwise diagonal: the falling diagonal, whose
/// suppression neighbors are up-left and down-right, when `dx` and `dy` share a sign, and the
/// rising diagonal, whose neighbors are down-left and up-right, when their signs differ.
pub proof fn lemma_gradient_direction(dx: int, dy: int)
    requires
        -0x4000_0000_0000_0000 <= dx <= 0x4000_0000_0000_0000,
        -0x4000_0000_0000_0000 <= dy <= 0x4000_0000_0000_0000,
    ensures
        2 * (if dy < 0 { -dy } else { dy }) < (if dx < 0 { -dx } else { dx }) ==> quantize_spec(dx, dy)
            == GradientDirection::Horizontal && suppression_offsets(quantize_spec(dx, dy)) == (-1int, 0int, 1int, 0int),
        !(2 * (if dy < 0 { -dy } else { dy }) < (if dx < 0 { -dx } else { dx })) && 2 * (if dx < 0 { -dx } else { dx })
            < (if dy < 0 { -dy } else { dy }) ==> quantize_spec(dx, dy) == GradientDirection::Vertical
            && suppression_offsets(quantize_spec(dx, dy)) == (0int, -1int, 0int, 1int),
        !(2 * (if dy < 0 { -dy } else { dy }) < (if dx < 0 { -dx } else { dx })) && !(2 * (if dx < 0 { -dx } else { dx })
            < (if dy < 0 { -dy } else { dy })) && ((dx > 0 && dy > 0) || (dx < 0 && dy < 0)) ==> quantize_spec(dx, dy)
            == GradientDirection::DiagonalDown && suppression_offsets(quantize_spec(dx, dy)) == (-1int, -1int, 1int, 1int),
        !(2 * (if dy < 0 { -dy } else { dy }) < (if dx < 0 { -dx } else { dx })) && !(2 * (if dx < 0 { -dx } else { dx })
            < (if dy < 0 { -dy } else { dy })) && ((dx > 0 && dy < 0) || (dx < 0 && dy > 0)) ==> quantize_spec(dx, dy)
            == GradientDirection::DiagonalUp && suppression_offsets(quantize_spec(dx, dy)) == (-1int, 1int, 1int, -1int),
{
}

} // verus!
