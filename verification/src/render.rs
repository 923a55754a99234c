//! Deterministic fixed-point projection, indexed images and their previews.
use vstd::prelude::*;
use crate::primitives::{ScreenPoint, WorldPoint};
use crate::style::{Rgb8, StylePack, style_verdict};
use crate::text::{decimal, decimal_spec};

verus! {

/// Largest indexed-image edge.
pub const MAX_IMAGE_DIMENSION: u32 = 16_384;

/// Renderer errors.
#[derive(Clone, Copy, Debug, Eq, PartialEq, Structural)]
pub enum RenderError {
    /// An image dimension is zero or above the bounded maximum.
    InvalidDimensions,
    /// Pixel capacity overflowed the host address space.
    CapacityOverflow,
    /// Fixed-point projection overflowed.
    ArithmeticOverflow,
    /// Style validation failed.
    InvalidStyle,
    /// A pixel references a palette entry that does not exist.
    PaletteIndex,
    /// A triangle has zero signed area.
    DegenerateTriangle,
    /// A primitive key is zero, duplicated, or otherwise noncanonical.
    InvalidPrimitiveKey,
    /// A vertex exceeds the bounded raster coordinate contract.
    InvalidVertex,
    /// A surface was submitted more than once.
    SurfaceAlreadyRasterized,
    /// No renderable geometry was available for viewport construction.
    EmptyWorld,
    /// Polygon decomposition could not produce valid triangles.
    Triangulation,
}

/// The description of each failure.
pub open spec fn render_error_message(e: RenderError) -> Seq<char> {
    match e {
        RenderError::InvalidDimensions => "image dimensions are outside the accepted bounds"@,
        RenderError::CapacityOverflow => "image capacity overflow"@,
        RenderError::ArithmeticOverflow => "fixed-point projection overflow"@,
        RenderError::InvalidStyle => "style pack is invalid"@,
        RenderError::PaletteIndex => "rendered palette index does not exist"@,
        RenderError::DegenerateTriangle => "triangle has zero signed area"@,
        RenderError::InvalidPrimitiveKey => "primitive keys must be nonzero and unique"@,
        RenderError::InvalidVertex => "raster vertex exceeds the accepted coordinate range"@,
        RenderError::SurfaceAlreadyRasterized => "raster surface accepts one canonical batch"@,
        RenderError::EmptyWorld => "world contains no renderable geometry"@,
        RenderError::Triangulation => "polygon could not be decomposed deterministically"@,
    }
}

impl RenderError {
    /// Human-readable description.
    pub fn message(&self) -> (r: &'static str)
        ensures
            r@ == render_error_message(*self),
    {
        match self {
            RenderError::InvalidDimensions => "image dimensions are outside the accepted bounds",
            RenderError::CapacityOverflow => "image capacity overflow",
            RenderError::ArithmeticOverflow => "fixed-point projection overflow",
            RenderError::InvalidStyle => "style pack is invalid",
            RenderError::PaletteIndex => "rendered palette index does not exist",
            RenderError::DegenerateTriangle => "triangle has zero signed area",
            RenderError::InvalidPrimitiveKey => "primitive keys must be nonzero and unique",
            RenderError::InvalidVertex => "raster vertex exceeds the accepted coordinate range",
            RenderError::SurfaceAlreadyRasterized => "raster surface accepts one canonical batch",
            RenderError::EmptyWorld => "world contains no renderable geometry",
            RenderError::Triangulation => "polygon could not be decomposed deterministically",
        }
    }
}

/// Indexed-palette image with one byte per pixel.
#[derive(Debug, Eq, PartialEq)]
pub struct IndexedImage {
    width: u32,
    height: u32,
    pixels: Vec<u8>,
}

impl IndexedImage {
    /// Bounded dimensions and one byte per pixel.
    #[verifier::type_invariant]
    spec fn shape(self) -> bool {
        &&& 1 <= self.width <= MAX_IMAGE_DIMENSION
        &&& 1 <= self.height <= MAX_IMAGE_DIMENSION
        &&& self.pixels@.len() == self.width as int * self.height as int
    }

    /// Image width.
    pub closed spec fn w(&self) -> int {
        self.width as int
    }

    /// Image height.
    pub closed spec fn h(&self) -> int {
        self.height as int
    }

    /// Row-major palette indexes.
    pub closed spec fn px(&self) -> Seq<u8> {
        self.pixels@
    }

    /// Creates an image filled with `background` after validating its bounded dimensions.
    pub fn new(width: u32, height: u32, background: u8) -> (r: Result<Self, RenderError>)
        ensures
            r is Ok <==> (1 <= width <= MAX_IMAGE_DIMENSION && 1 <= height <= MAX_IMAGE_DIMENSION),
            r is Err ==> r == Err::<Self, RenderError>(RenderError::InvalidDimensions),
            r matches Ok(img) ==> img.w() == width && img.h() == height && img.px() == Seq::new(
                (width * height) as nat,
                |i: int| background,
            ),
    {
        if width == 0 || height == 0 || width > MAX_IMAGE_DIMENSION || height > MAX_IMAGE_DIMENSION {
            return Err(RenderError::InvalidDimensions);
        }
        proof {
            assert(width as int * height as int <= 16384 * 16384) by (nonlinear_arith)
                requires
                    width <= 16384,
                    height <= 16384,
            ;
        }
        let length = width as usize * height as usize;
        let mut pixels: Vec<u8> = Vec::new();
        let mut i: usize = 0;
        while i < length
            invariant
                i <= length,
                pixels@.len() == i,
                forall|j: int| 0 <= j < i ==> #[trigger] pixels@[j] == background,
            decreases length - i,
        {
            pixels.push(background);
            i += 1;
        }
        proof {
            assert(pixels@ =~= Seq::new((width * height) as nat, |i: int| background));
        }
        Ok(IndexedImage { width, height, pixels })
    }

    /// Returns the image width.
    pub fn width(&self) -> (r: u32)
        ensures
            r == self.w(),
    {
        self.width
    }

    /// Returns the image height.
    pub fn height(&self) -> (r: u32)
        ensures
            r == self.h(),
    {
        self.height
    }

    /// Returns the palette indexes in row-major order.
    pub fn pixels(&self) -> (r: &[u8])
        ensures
            r@ == self.px(),
            r@.len() == self.w() * self.h(),
    {
        proof {
            use_type_invariant(self);
        }
        self.pixels.as_slice()
    }

    /// Overwrite one pixel.
    pub(crate) fn set_index(&mut self, index: usize, value: u8)
        requires
            index < old(self).px().len(),
        ensures
            final(self).w() == old(self).w(),
            final(self).h() == old(self).h(),
            final(self).px() == old(self).px().update(index as int, value),
        no_unwind
    {
        proof {
            use_type_invariant(&*self);
        }
        self.pixels[index] = value;
    }

    /// Dimension bounds and the exact pixel count.
    pub fn facts(&self)
        ensures
            1 <= self.w() <= MAX_IMAGE_DIMENSION,
            1 <= self.h() <= MAX_IMAGE_DIMENSION,
            self.px().len() == self.w() * self.h(),
    {
        proof {
            use_type_invariant(self);
        }
    }

    /// Serializes a lossless binary PPM preview; every pixel must index the palette.
    pub fn to_ppm(&self, palette: &[Rgb8]) -> (r: Result<Vec<u8>, RenderError>)
        ensures
            r is Ok <==> forall|i: int| 0 <= i < self.px().len() ==> (#[trigger] self.px()[i] as int) < palette@.len(),
            r is Err ==> r == Err::<Vec<u8>, RenderError>(RenderError::PaletteIndex),
            r matches Ok(bytes) ==> bytes@ == ppm_header(self.w() as nat, self.h() as nat) + ppm_body(self.px(), palette@),
    {
        let mut bytes: Vec<u8> = Vec::new();
        push_str_bytes(&mut bytes, "P6\n");
        let w = decimal(self.width as u64);
        push_str_bytes(&mut bytes, w.as_str());
        push_str_bytes(&mut bytes, " ");
        let h = decimal(self.height as u64);
        push_str_bytes(&mut bytes, h.as_str());
        push_str_bytes(&mut bytes, "\n255\n");
        proof {
            reveal_strlit("P6\n");
            reveal_strlit(" ");
            reveal_strlit("\n255\n");
            assert(bytes@ =~= ppm_header(self.w() as nat, self.h() as nat));
        }
        let ghost head = bytes@;
        let pixels = self.pixels();
        let mut i: usize = 0;
        while i < pixels.len()
            invariant
                pixels@ == self.px(),
                i <= pixels@.len(),
                forall|j: int| 0 <= j < i ==> (#[trigger] pixels@[j] as int) < palette@.len(),
                bytes@ == head + ppm_body(pixels@.subrange(0, i as int), palette@),
            decreases pixels@.len() - i,
        {
            let index = pixels[i] as usize;
            if index >= palette.len() {
                return Err(RenderError::PaletteIndex);
            }
            let color = palette[index];
            bytes.push(color.red);
            bytes.push(color.green);
            bytes.push(color.blue);
            proof {
                assert(pixels@.subrange(0, i + 1).drop_last() =~= pixels@.subrange(0, i as int));
                assert(bytes@ =~= head + ppm_body(pixels@.subrange(0, i + 1), palette@));
            }
            i += 1;
        }
        proof {
            assert(pixels@.subrange(0, pixels@.len() as int) =~= pixels@);
        }
        Ok(bytes)
    }
}

impl Clone for IndexedImage {
    fn clone(&self) -> (r: Self)
        ensures
            r.w() == self.w(),
            r.h() == self.h(),
            r.px() == self.px(),
    {
        proof {
            use_type_invariant(self);
        }
        IndexedImage { width: self.width, height: self.height, pixels: self.pixels.clone() }
    }
}

/// ASCII bytes of a character sequence that is ASCII.
pub open spec fn ascii_bytes(s: Seq<char>) -> Seq<u8> {
    Seq::new(s.len(), |i: int| s[i] as u8)
}

/// The binary PPM header `P6\n<w> <h>\n255\n`.
pub open spec fn ppm_header(w: nat, h: nat) -> Seq<u8> {
    ascii_bytes("P6\n"@ + decimal_spec(w) + " "@ + decimal_spec(h) + "\n255\n"@)
}

/// RGB triples of indexed pixels.
pub open spec fn ppm_body(pixels: Seq<u8>, palette: Seq<Rgb8>) -> Seq<u8>
    decreases pixels.len(),
{
    if pixels.len() == 0 {
        Seq::empty()
    } else {
        let c = palette[pixels.last() as int];
        ppm_body(pixels.drop_last(), palette) + seq![c.red, c.green, c.blue]
    }
}

fn push_str_bytes(out: &mut Vec<u8>, s: &str)
    ensures
        final(out)@ == old(out)@ + ascii_bytes(s@),
{
    let ghost start = out@;
    let mut it = s.chars();
    let ghost chars = s@;
    let mut k: usize = 0;
    for c in iter: it
        invariant
            iter.seq() == chars,
            out@ == start + ascii_bytes(chars.subrange(0, iter.index() as int)),
    {
        out.push(c as u8);
        proof {
            assert(ascii_bytes(chars.subrange(0, iter.index() + 1)) =~= ascii_bytes(chars.subrange(0, iter.index() as int)).push(
                c as u8,
            ));
        }
    }
    proof {
        assert(chars.subrange(0, chars.len() as int) =~= chars);
    }
}

/// Truncating integer division, as Rust's `/` computes it, for a positive divisor.
pub open spec fn trunc_div(a: int, b: int) -> int {
    if a >= 0 {
        a / b
    } else {
        -((-a) / b)
    }
}

/// The projected point of a valid style, or `None` when fixed-point math overflows.
pub open spec fn projection(p: WorldPoint, s: StylePack) -> Option<ScreenPoint> {
    let scale = s.subpixels_per_pixel as int;
    let half = s.world_mm_per_half_step as int;
    let x = p.x_mm - p.y_mm;
    let xy = p.x_mm + p.y_mm;
    let in_range = |v: int| i64::MIN <= v <= i64::MAX;
    if !in_range(x) || !in_range(xy) || !in_range(x * scale) || !in_range(xy * scale) || !in_range(p.z_mm * scale) {
        None
    } else {
        let px = trunc_div(x * scale, half);
        let py = trunc_div(trunc_div(xy * scale, half), 2);
        let elevation = trunc_div(p.z_mm * scale, s.elevation_mm_per_pixel as int);
        if !in_range(py - elevation) {
            None
        } else {
            Some(ScreenPoint { x_subpx: px as i64, y_subpx: (py - elevation) as i64 })
        }
    }
}

fn div_positive(a: i64, b: i64) -> (r: i64)
    requires
        b > 0,
    ensures
        r == trunc_div(a as int, b as int),
{
    a / b
}

/// Projects integer millimeters into fixed subpixels with a 2:1 isometric camera.
pub fn project(point: WorldPoint, style: &StylePack) -> (r: Result<ScreenPoint, RenderError>)
    ensures
        !style.valid() ==> r == Err::<ScreenPoint, RenderError>(RenderError::InvalidStyle),
        style.valid() ==> (match projection(point, *style) {
            Some(q) => r == Ok::<ScreenPoint, RenderError>(q),
            None => r == Err::<ScreenPoint, RenderError>(RenderError::ArithmeticOverflow),
        }),
        r matches Ok(q) ==> q.x_subpx == trunc_div(
            (point.x_mm - point.y_mm) * style.subpixels_per_pixel,
            style.world_mm_per_half_step as int,
        ) && q.y_subpx == trunc_div(
            trunc_div((point.x_mm + point.y_mm) * style.subpixels_per_pixel, style.world_mm_per_half_step as int),
            2,
        ) - trunc_div(point.z_mm * style.subpixels_per_pixel, style.elevation_mm_per_pixel as int),
{
    match style.validate() {
        Err(_) => return Err(RenderError::InvalidStyle),
        Ok(()) => {},
    }
    let scale = style.subpixels_per_pixel;
    let half_step = style.world_mm_per_half_step;
    let x = match point.x_mm.checked_sub(point.y_mm) {
        Some(v) => v,
        None => return Err(RenderError::ArithmeticOverflow),
    };
    let xy = match point.x_mm.checked_add(point.y_mm) {
        Some(v) => v,
        None => return Err(RenderError::ArithmeticOverflow),
    };
    let scaled_x = match x.checked_mul(scale) {
        Some(v) => v,
        None => return Err(RenderError::ArithmeticOverflow),
    };
    let projected_x = div_positive(scaled_x, half_step);
    let scaled_y = match xy.checked_mul(scale) {
        Some(v) => v,
        None => return Err(RenderError::ArithmeticOverflow),
    };
    let projected_y = div_positive(div_positive(scaled_y, half_step), 2);
    let scaled_z = match point.z_mm.checked_mul(scale) {
        Some(v) => v,
        None => return Err(RenderError::ArithmeticOverflow),
    };
    let elevation = div_positive(scaled_z, style.elevation_mm_per_pixel);
    let y = match projected_y.checked_sub(elevation) {
        Some(v) => v,
        None => return Err(RenderError::ArithmeticOverflow),
    };
    Ok(ScreenPoint { x_subpx: projected_x, y_subpx: y })
}

/// Raising a point at or above the datum by `elevation_mm_per_pixel` millimeters moves its
/// projection up by exactly one pixel, `subpixels_per_pixel` subpixels, and leaves its
/// horizontal position alone.
pub proof fn lemma_projection_lifts_one_pixel_per_elevation_step(p: WorldPoint, raised: WorldPoint, s: StylePack)
    requires
        s.valid(),
        p.z_mm >= 0,
        raised.x_mm == p.x_mm && raised.y_mm == p.y_mm,
        raised.z_mm == p.z_mm + s.elevation_mm_per_pixel,
        projection(p, s) is Some,
        projection(raised, s) is Some,
    ensures
        projection(raised, s)->0.y_subpx == projection(p, s)->0.y_subpx - s.subpixels_per_pixel,
        projection(raised, s)->0.x_subpx == projection(p, s)->0.x_subpx,
{
    let scale = s.subpixels_per_pixel as int;
    let e = s.elevation_mm_per_pixel as int;
    assert(scale > 0 && e > 0);
    assert(p.z_mm * scale >= 0) by (nonlinear_arith)
        requires
            p.z_mm >= 0,
            scale > 0,
    ;
    assert(raised.z_mm * scale == p.z_mm * scale + scale * e) by (nonlinear_arith)
        requires
            raised.z_mm == p.z_mm + e,
    ;
    vstd::arithmetic::div_mod::lemma_hoist_over_denominator(p.z_mm * scale, scale, e as nat);
    assert(trunc_div(raised.z_mm * scale, e) == trunc_div(p.z_mm * scale, e) + scale);
}

/// The projection of a valid style in closed form: `x` is the east-minus-north offset scaled
/// to subpixels per half step; `y` is half the scaled east-plus-north offset, lifted by the
/// elevation scaled to subpixels per `elevation_mm_per_pixel`, each division rounding toward
/// zero.
pub proof fn lemma_projection_closed_form(p: WorldPoint, s: StylePack)
    requires
        s.valid(),
        projection(p, s) is Some,
    ensures
        projection(p, s)->0.x_subpx == trunc_div((p.x_mm - p.y_mm) * s.subpixels_per_pixel, s.world_mm_per_half_step as int),
        projection(p, s)->0.y_subpx == trunc_div(
            trunc_div((p.x_mm + p.y_mm) * s.subpixels_per_pixel, s.world_mm_per_half_step as int),
            2,
        ) - trunc_div(p.z_mm * s.subpixels_per_pixel, s.elevation_mm_per_pixel as int),
{
}

/// The 64-bit FNV-1a state after some bytes.
pub open spec fn fnv1a(bytes: Seq<u8>) -> u64
    decreases bytes.len(),
{
    if bytes.len() == 0 {
        0xcbf2_9ce4_8422_2325
    } else {
        (((fnv1a(bytes.drop_last()) ^ (bytes.last() as u64)) as nat * 0x0000_0100_0000_01b3nat) % 0x1_0000_0000_0000_0000nat) as u64
    }
}

/// Stable 64-bit FNV-1a used for regression fixtures, not cryptography.
pub fn stable_hash(bytes: &[u8]) -> (r: u64)
    ensures
        r == fnv1a(bytes@),
{
    let mut hash: u64 = 0xcbf2_9ce4_8422_2325;
    let mut i: usize = 0;
    while i < bytes.len()
        invariant
            i <= bytes@.len(),
            hash == fnv1a(bytes@.subrange(0, i as int)),
        decreases bytes@.len() - i,
    {
        hash = hash ^ (bytes[i] as u64);
        hash = hash.wrapping_mul(0x0000_0100_0000_01b3);
        proof {
            assert(bytes@.subrange(0, i + 1).drop_last() =~= bytes@.subrange(0, i as int));
        }
        i += 1;
    }
    proof {
        assert(bytes@.subrange(0, bytes@.len() as int) =~= bytes@);
    }
    hash
}

} // verus!
