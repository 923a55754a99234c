//! Validated, dependency-free value types shared by the pipeline.
use vstd::prelude::*;

verus! {

/// A stable identifier derived from source identity, never collection order.
#[derive(Clone, Copy, Debug, Eq, Hash, Ord, PartialEq, PartialOrd)]
pub struct ObjectId(u64);

/// Multiplier of the variation finalizer.
pub const VARIATION_MULTIPLIER: u64 = 0xff51_afd7_ed55_8ccd;

/// The deterministic 64-bit mixing used by [`ObjectId::variation`].
pub open spec fn variation_mix(value: u64) -> u64 {
    let first = value ^ (value >> 33u64);
    let product = ((first as nat * VARIATION_MULTIPLIER as nat) % 0x1_0000_0000_0000_0000nat) as u64;
    product ^ (product >> 33u64)
}

/// The variation bucket selected for a stable value.
pub open spec fn variation_spec(value: u64, buckets: u8) -> u8 {
    if buckets == 0 {
        0
    } else {
        (variation_mix(value) % (buckets as u64)) as u8
    }
}

impl ObjectId {
    /// Zero never names an object.
    #[verifier::type_invariant]
    spec fn nonzero(self) -> bool {
        self.0 != 0
    }

    /// The identifier value.
    pub closed spec fn value(self) -> u64 {
        self.0
    }

    /// Creates an identifier. Zero is reserved for background and is rejected.
    pub fn new(value: u64) -> (r: Result<Self, CoreError>)
        ensures
            value == 0 ==> r == Err::<Self, CoreError>(CoreError::ReservedObjectId),
            value != 0 ==> (r matches Ok(id) && id.value() == value),
    {
        if value == 0 {
            Err(CoreError::ReservedObjectId)
        } else {
            Ok(ObjectId(value))
        }
    }

    /// Returns the underlying stable value.
    pub fn get(self) -> (r: u64)
        ensures
            r == self.value(),
            r != 0,
    {
        proof {
            use_type_invariant(&self);
        }
        self.0
    }

    /// Returns a deterministic variation bucket without process-random hashing.
    pub fn variation(self, buckets: u8) -> (r: u8)
        ensures
            r == variation_spec(self.value(), buckets),
            buckets > 0 ==> r < buckets,
            buckets == 0 ==> r == 0,
    {
        if buckets == 0 {
            return 0;
        }
        let mut value = self.0;
        value ^= value >> 33u64;
        value = value.wrapping_mul(VARIATION_MULTIPLIER);
        value ^= value >> 33u64;
        let reduced = value % (buckets as u64);
        reduced as u8
    }
}

/// A world-space point in integer millimeters.
#[derive(Clone, Copy, Debug, Eq, PartialEq)]
pub struct WorldPoint {
    /// Easting relative to the world origin.
    pub x_mm: i64,
    /// Northing relative to the world origin.
    pub y_mm: i64,
    /// Elevation relative to the world datum.
    pub z_mm: i64,
}

impl WorldPoint {
    /// Creates an integer world point.
    pub fn new(x_mm: i64, y_mm: i64, z_mm: i64) -> (r: Self)
        ensures
            r.x_mm == x_mm,
            r.y_mm == y_mm,
            r.z_mm == z_mm,
    {
        WorldPoint { x_mm, y_mm, z_mm }
    }
}

/// A projected point in fixed subpixels.
#[derive(Clone, Copy, Debug, Eq, PartialEq)]
pub struct ScreenPoint {
    /// Horizontal coordinate in fixed subpixels.
    pub x_subpx: i64,
    /// Vertical coordinate in fixed subpixels.
    pub y_subpx: i64,
}

/// An index into an approved style palette.
#[derive(Clone, Copy, Debug, Eq, PartialEq)]
pub struct PaletteIndex(u8);

impl PaletteIndex {
    /// The raw index.
    pub closed spec fn value(self) -> u8 {
        self.0
    }

    /// Creates an index if it is present in the declared palette length.
    pub fn new(value: u8, palette_len: u8) -> (r: Result<Self, CoreError>)
        ensures
            (palette_len == 0 || value >= palette_len) ==> r == Err::<Self, CoreError>(
                CoreError::PaletteIndexOutOfRange,
            ),
            (palette_len != 0 && value < palette_len) ==> (r matches Ok(index)
                && index.value() == value),
    {
        if palette_len == 0 || value >= palette_len {
            Err(CoreError::PaletteIndexOutOfRange)
        } else {
            Ok(PaletteIndex(value))
        }
    }

    /// Returns the raw palette index.
    pub fn get(self) -> (r: u8)
        ensures
            r == self.value(),
    {
        self.0
    }
}

/// Validation failures at the portable value boundary.
#[derive(Clone, Copy, Debug, Eq, PartialEq)]
pub enum CoreError {
    /// Object ID zero is reserved for the background.
    ReservedObjectId,
    /// A palette index is outside the declared palette.
    PaletteIndexOutOfRange,
}

/// The description of each failure.
pub open spec fn core_error_message(e: CoreError) -> Seq<char> {
    match e {
        CoreError::ReservedObjectId => "object ID zero is reserved"@,
        CoreError::PaletteIndexOutOfRange => "palette index is out of range"@,
    }
}

impl CoreError {
    /// Human-readable description.
    pub fn message(&self) -> (r: &'static str)
        ensures
            r@ == core_error_message(*self),
    {
        match self {
            CoreError::ReservedObjectId => "object ID zero is reserved",
            CoreError::PaletteIndexOutOfRange => "palette index is out of range",
        }
    }
}

} // verus!
