//! Bounded deterministic Deep Zoom (DZI) publication: the level pyramid, the
//! canonical indexed tiles, the lossless WebP encoding, and the release checks.
use vstd::prelude::*;
use vstd::string::StringSliceAdditionalSpecFns;
use vstd::utf8::encode_utf8;
use vstd::multiset::Multiset;
use image_webp::{ColorType, DecodingError, EncodingError, WebPDecoder, WebPEncoder};
use std::io::Cursor;
use crate::digest::{is_sha256, is_sha256_bytes, sha256_hex, sha256_spec};
use crate::style::Rgb8;
use crate::text::{decimal, decimal_spec, hex_spec, str_eq};
use crate::atlas::{le32, push_le32, word32};

verus! {

/// Saved tile edge of the accepted publication contract.
pub const TILE_SIZE: u32 = 512;

/// World millimeters per isometric half-step of the accepted publication contract.
pub const WORLD_MM_PER_HALF_STEP: i64 = 250;

/// Largest accepted release manifest.
pub const MAX_MANIFEST_BYTES: u64 = 8388608;

/// Largest accepted DZI descriptor.
pub const MAX_DESCRIPTOR_BYTES: u64 = 4096;

/// Largest accepted encoded WebP tile.
pub const MAX_WEBP_TILE_BYTES: u64 = 4194304;

/// Largest palette a release may be validated against.
pub const MAX_PALETTE_COLORS: usize = 128;

/// Immutable inputs recorded in the release artifact.
#[derive(Clone, Debug, Eq, PartialEq)]
pub struct InputDigests {
    /// SHA-256 of the canonical world artifact bytes.
    pub world_sha256: String,
    /// SHA-256 of the exact style-pack bytes used for publication.
    pub style_sha256: String,
}

/// DZI publication settings that affect canonical bytes.
#[derive(Clone, Copy, Debug, Eq, PartialEq)]
pub struct DziOptions {
    /// Saved tile edge in pixels.
    pub tile_size: u32,
    /// World millimeters represented by one isometric half-step at maximum level.
    pub world_mm_per_half_step: i64,
}

/// Summary of one completed publication.
#[derive(Clone, Debug, Eq, PartialEq)]
pub struct PublishReport {
    /// Maximum-resolution artwork width.
    pub width: u32,
    /// Maximum-resolution artwork height.
    pub height: u32,
    /// Highest DZI level.
    pub max_level: u32,
    /// Total WebP tiles across all levels.
    pub tile_count: usize,
    /// Total encoded WebP bytes across all levels.
    pub encoded_bytes: u64,
    /// SHA-256 over the sorted tile path and digest chain.
    pub tile_set_sha256: String,
}

/// The WebP encoder's error type, carried through unchanged.
#[verifier::external_type_specification]
#[verifier::external_body]
pub struct ExEncodingError(EncodingError);

/// The WebP decoder's error type, carried through unchanged.
#[verifier::external_type_specification]
#[verifier::external_body]
pub struct ExDecodingError(DecodingError);

/// DZI publication failures that the library decides.
#[derive(Debug)]
pub enum PublishError {
    /// Publication settings are outside the accepted prototype contract.
    InvalidOptions,
    /// The final or staging output already exists.
    OutputExists,
    /// The output path has no safe final component.
    InvalidOutputPath,
    /// Canonical indexed bytes are malformed or outside the palette.
    InvalidCanonicalTile,
    /// Release metadata is malformed or inconsistent.
    InvalidManifest,
    /// One or more expected level tiles are missing or duplicated.
    IncompletePyramid,
    /// Artifact bytes do not match the manifest hash chain.
    HashMismatch,
    /// A WebP tile is lossy, malformed, or differs from canonical indexed colors.
    InvalidWebP,
    /// An artifact exceeds its bounded validation allocation.
    ArtifactTooLarge,
    /// Capacity arithmetic overflowed.
    CapacityOverflow,
    /// WebP encoding failed.
    Encode(EncodingError),
    /// WebP decoding failed during release validation.
    Decode(DecodingError),
}

/// The description of each failure.
pub open spec fn publish_error_message(e: PublishError) -> Seq<char> {
    match e {
        PublishError::InvalidOptions => "invalid DZI publication options"@,
        PublishError::OutputExists => "DZI output or staging path already exists"@,
        PublishError::InvalidOutputPath => "invalid DZI output path"@,
        PublishError::InvalidCanonicalTile => "invalid canonical indexed tile"@,
        PublishError::InvalidManifest => "invalid DZI release manifest"@,
        PublishError::IncompletePyramid => "incomplete DZI tile pyramid"@,
        PublishError::HashMismatch => "DZI artifact hash mismatch"@,
        PublishError::InvalidWebP => "invalid or non-lossless WebP tile"@,
        PublishError::ArtifactTooLarge => "DZI artifact exceeds size limit"@,
        PublishError::CapacityOverflow => "DZI capacity arithmetic overflow"@,
        PublishError::Encode(_) => "WebP encoding failed"@,
        PublishError::Decode(_) => "WebP decoding failed"@,
    }
}

impl PublishError {
    /// Human-readable description of the failure.
    pub fn message(&self) -> (r: &'static str)
        ensures
            r@ == publish_error_message(*self),
    {
        match self {
            PublishError::InvalidOptions => "invalid DZI publication options",
            PublishError::OutputExists => "DZI output or staging path already exists",
            PublishError::InvalidOutputPath => "invalid DZI output path",
            PublishError::InvalidCanonicalTile => "invalid canonical indexed tile",
            PublishError::InvalidManifest => "invalid DZI release manifest",
            PublishError::IncompletePyramid => "incomplete DZI tile pyramid",
            PublishError::HashMismatch => "DZI artifact hash mismatch",
            PublishError::InvalidWebP => "invalid or non-lossless WebP tile",
            PublishError::ArtifactTooLarge => "DZI artifact exceeds size limit",
            PublishError::CapacityOverflow => "DZI capacity arithmetic overflow",
            PublishError::Encode(_) => "WebP encoding failed",
            PublishError::Decode(_) => "WebP decoding failed",
        }
    }
}

impl InputDigests {
    /// Creates validated hexadecimal digests; both must be lowercase SHA-256 strings.
    pub fn new(world_sha256: String, style_sha256: String) -> (r: Result<Self, PublishError>)
        ensures
            r is Ok <==> is_sha256_bytes(encode_utf8(world_sha256@)) && is_sha256_bytes(
                encode_utf8(style_sha256@),
            ),
            r matches Ok(d) ==> d.world_sha256@ == world_sha256@ && d.style_sha256@ == style_sha256@,
            r matches Err(e) ==> e is InvalidOptions,
    {
        if !is_sha256(world_sha256.as_str()) || !is_sha256(style_sha256.as_str()) {
            return Err(PublishError::InvalidOptions);
        }
        Ok(InputDigests { world_sha256, style_sha256 })
    }
}

impl DziOptions {
    /// Accepted prototype settings: 512-pixel tiles and 250 mm logical scale.
    pub fn prototype() -> (r: Self)
        ensures
            r.tile_size == TILE_SIZE,
            r.world_mm_per_half_step == WORLD_MM_PER_HALF_STEP,
    {
        DziOptions { tile_size: TILE_SIZE, world_mm_per_half_step: WORLD_MM_PER_HALF_STEP }
    }
}

/// Rejects every setting but the accepted prototype contract.
pub fn validate_options(options: DziOptions) -> (r: Result<(), PublishError>)
    ensures
        r is Ok <==> options.tile_size == TILE_SIZE && options.world_mm_per_half_step == WORLD_MM_PER_HALF_STEP,
        r matches Err(e) ==> e is InvalidOptions,
{
    if options.tile_size != TILE_SIZE || options.world_mm_per_half_step != WORLD_MM_PER_HALF_STEP {
        return Err(PublishError::InvalidOptions);
    }
    Ok(())
}

/// Two to the power `n`.
pub open spec fn two_pow(n: nat) -> nat
    decreases n,
{
    if n == 0 { 1 } else { 2 * two_pow((n - 1) as nat) }
}

/// Number of binary digits of `n` (zero for zero).
pub open spec fn bit_length(n: nat) -> nat
    decreases n,
{
    if n == 0 { 0 } else { 1 + bit_length(n / 2) }
}

/// The highest DZI level of an image whose larger edge is `max_dimension`: the
/// number of binary digits of `max_dimension - 1`.
pub open spec fn dzi_max_level_spec(max_dimension: nat) -> nat {
    if max_dimension <= 1 { 0 } else { bit_length((max_dimension - 1) as nat) }
}

/// The highest DZI level of an image whose larger edge is `max_dimension`.
pub fn dzi_max_level(max_dimension: u32) -> (r: u32)
    ensures
        r == dzi_max_level_spec(max_dimension as nat),
{
    if max_dimension <= 1 {
        return 0;
    }
    let mut n: u32 = max_dimension - 1;
    let mut bits: u32 = 0;
    proof {
        reveal_with_fuel(two_pow, 33);
        lemma_bit_length_bound(n as nat, 32);
    }
    while n > 0
        invariant
            bits + bit_length(n as nat) == bit_length((max_dimension - 1) as nat),
            bit_length((max_dimension - 1) as nat) <= 32,
        decreases n,
    {
        n = n / 2;
        bits = bits + 1;
    }
    bits
}

proof fn lemma_bit_length_bound(n: nat, b: nat)
    requires
        n < two_pow(b),
    ensures
        bit_length(n) <= b,
    decreases b,
{
    if n > 0 {
        if b == 0 {
        } else {
            lemma_bit_length_bound(n / 2, (b - 1) as nat);
        }
    }
}

/// `value` halved `k` times, rounding up each time.
pub open spec fn halve_up(value: nat, k: nat) -> nat
    decreases k,
{
    if k == 0 { value } else { (halve_up(value, (k - 1) as nat) + 1) / 2 }
}

/// The pixel dimensions of every level, lowest first: the top level keeps the
/// full size and every lower level halves the one above, rounding up.
pub open spec fn level_dimensions_spec(width: u32, height: u32, max_level: u32) -> Seq<(u32, u32)> {
    Seq::new(
        (max_level + 1) as nat,
        |l: int| (halve_up(width as nat, (max_level - l) as nat) as u32, halve_up(height as nat, (max_level - l) as nat) as u32),
    )
}

proof fn lemma_halve_up_bounded(value: nat, k: nat)
    ensures
        halve_up(value, k) <= value,
    decreases k,
{
    if k > 0 {
        lemma_halve_up_bounded(value, (k - 1) as nat);
    }
}

/// Dimensions of every DZI level from 0 through `max_level`.
pub fn level_dimensions(width: u32, height: u32, max_level: u32) -> (r: Result<Vec<(u32, u32)>, PublishError>)
    ensures
        r is Ok <==> max_level + 1 <= usize::MAX,
        r matches Ok(v) ==> v@ == level_dimensions_spec(width, height, max_level),
        r matches Err(e) ==> e is CapacityOverflow,
{
    if max_level as u64 + 1 > usize::MAX as u64 {
        return Err(PublishError::CapacityOverflow);
    }
    let count = max_level as usize + 1;
    let mut dims: Vec<(u32, u32)> = Vec::new();
    while dims.len() < count
        invariant
            dims.len() <= count,
            count == max_level + 1,
        decreases count - dims.len(),
    {
        dims.push((0, 0));
    }
    let top = max_level as usize;
    dims.set(top, (width, height));
    let mut level: usize = top;
    while level > 0
        invariant
            dims.len() == count,
            count == max_level + 1,
            top == max_level,
            level <= top,
            forall|l: int|
                level <= l <= top ==> #[trigger] dims@[l] == (
                    halve_up(width as nat, (max_level - l) as nat) as u32,
                    halve_up(height as nat, (max_level - l) as nat) as u32,
                ),
        decreases level,
    {
        let above = dims[level];
        proof {
            lemma_halve_up_bounded(width as nat, (max_level - level) as nat);
            lemma_halve_up_bounded(height as nat, (max_level - level) as nat);
            assert(halve_up(width as nat, (max_level - (level - 1)) as nat) == (halve_up(
                width as nat,
                (max_level - level) as nat,
            ) + 1) / 2);
            assert(halve_up(height as nat, (max_level - (level - 1)) as nat) == (halve_up(
                height as nat,
                (max_level - level) as nat,
            ) + 1) / 2);
        }
        let w = (above.0 as u64 + 1) / 2;
        let h = (above.1 as u64 + 1) / 2;
        dims.set(level - 1, (w as u32, h as u32));
        level = level - 1;
    }
    proof {
        assert(dims@ =~= level_dimensions_spec(width, height, max_level));
    }
    Ok(dims)
}

/// Number of tiles of edge `tile_size` needed to cover `extent` pixels.
pub open spec fn tiles_across(extent: nat, tile_size: nat) -> nat {
    if tile_size == 0 { 0 } else { ((extent + tile_size - 1) / (tile_size as int)) as nat }
}

/// Whether `(level, column, row)` names a tile of the pyramid with these level dimensions.
pub open spec fn is_expected_tile(dims: Seq<(u32, u32)>, tile_size: u32, level: u32, column: u32, row: u32) -> bool {
    &&& level < dims.len()
    &&& column < tiles_across(dims[level as int].0 as nat, tile_size as nat)
    &&& row < tiles_across(dims[level as int].1 as nat, tile_size as nat)
}

/// Number of tiles in the pyramid with these level dimensions.
pub open spec fn expected_tile_count(dims: Seq<(u32, u32)>, tile_size: u32) -> nat
    decreases dims.len(),
{
    if dims.len() == 0 {
        0
    } else {
        expected_tile_count(dims.drop_last(), tile_size) + tiles_across(dims.last().0 as nat, tile_size as nat)
            * tiles_across(dims.last().1 as nat, tile_size as nat)
    }
}

/// The DZI descriptor text.
pub open spec fn descriptor_spec(width: u32, height: u32, tile_size: u32) -> Seq<char> {
    "<?xml version=\"1.0\" encoding=\"UTF-8\"?>\n<Image TileSize=\""@ + decimal_spec(tile_size as nat)
        + "\" Overlap=\"0\" Format=\"webp\" xmlns=\"http://schemas.microsoft.com/deepzoom/2008\">\n  <Size Width=\""@
        + decimal_spec(width as nat) + "\" Height=\""@ + decimal_spec(height as nat) + "\"/>\n</Image>\n"@
}

/// The DZI descriptor for an image and tile size.
pub fn descriptor(width: u32, height: u32, tile_size: u32) -> (s: String)
    ensures
        s@ == descriptor_spec(width, height, tile_size),
{
    let mut s = String::new();
    s.push_str("<?xml version=\"1.0\" encoding=\"UTF-8\"?>\n<Image TileSize=\"");
    let ts = decimal(tile_size as u64);
    s.push_str(ts.as_str());
    s.push_str("\" Overlap=\"0\" Format=\"webp\" xmlns=\"http://schemas.microsoft.com/deepzoom/2008\">\n  <Size Width=\"");
    let w = decimal(width as u64);
    s.push_str(w.as_str());
    s.push_str("\" Height=\"");
    let h = decimal(height as u64);
    s.push_str(h.as_str());
    s.push_str("\"/>\n</Image>\n");
    s
}

/// Magic bytes of a canonical indexed tile.
pub open spec fn raw_magic() -> Seq<u8> {
    seq![0x49u8, 0x53u8, 0x49u8, 0x44u8, 0x58u8, 0x31u8, 0u8, 0u8]
}

/// A canonical palette-indexed tile: row-major palette indices.
#[derive(Clone, Debug, Eq, PartialEq)]
pub struct RawTile {
    /// Tile width in pixels.
    pub width: u32,
    /// Tile height in pixels.
    pub height: u32,
    /// Row-major palette indices.
    pub pixels: Vec<u8>,
}

/// Whether a tile is non-empty, has one index per pixel, and every index names a palette color.
pub open spec fn raw_tile_ok(width: u32, height: u32, pixels: Seq<u8>, palette_len: nat) -> bool {
    &&& width > 0
    &&& height > 0
    &&& pixels.len() == width * height
    &&& forall|i: int| 0 <= i < pixels.len() ==> (#[trigger] pixels[i]) < palette_len
}

/// The canonical bytes of a tile: magic, little-endian width and height, then the indices.
pub open spec fn raw_tile_bytes(width: u32, height: u32, pixels: Seq<u8>) -> Seq<u8> {
    raw_magic() + le32(width) + le32(height) + pixels
}

/// Whether tile bytes start with the magic and the expected little-endian dimensions.
pub open spec fn raw_header_ok(bytes: Seq<u8>, expected_width: u32, expected_height: u32) -> bool {
    &&& bytes.len() >= 16
    &&& bytes.subrange(0, 8) == raw_magic()
    &&& word32(bytes, 8) == expected_width
    &&& word32(bytes, 12) == expected_height
}

impl RawTile {
    /// Creates a tile, rejecting empty or mis-sized tiles and indices outside the palette.
    pub fn new(width: u32, height: u32, pixels: Vec<u8>, palette_len: usize) -> (r: Result<Self, PublishError>)
        ensures
            (width > 0 && height > 0 && width * height > usize::MAX) ==> r matches Err(
                PublishError::CapacityOverflow,
            ),
            !(width > 0 && height > 0 && width * height > usize::MAX) ==> (r is Ok <==> raw_tile_ok(
                width,
                height,
                pixels@,
                palette_len as nat,
            )),
            !(width > 0 && height > 0 && width * height > usize::MAX) && r is Err ==> r matches Err(
                PublishError::InvalidCanonicalTile,
            ),
            r matches Ok(t) ==> t.width == width && t.height == height && t.pixels@ == pixels@,
    {
        if width == 0 || height == 0 {
            return Err(PublishError::InvalidCanonicalTile);
        }
        let count = match pixel_capacity(width, height) {
            Ok(c) => c,
            Err(e) => return Err(e),
        };
        if pixels.len() != count {
            return Err(PublishError::InvalidCanonicalTile);
        }
        let mut i: usize = 0;
        while i < pixels.len()
            invariant
                i <= pixels@.len(),
                pixels@.len() == width * height,
                width > 0,
                height > 0,
                forall|j: int| 0 <= j < i ==> (#[trigger] pixels@[j]) < palette_len,
            decreases pixels@.len() - i,
        {
            if pixels[i] as usize >= palette_len {
                return Err(PublishError::InvalidCanonicalTile);
            }
            i += 1;
        }
        Ok(RawTile { width, height, pixels })
    }

    /// The palette index at `(x, y)`.
    pub fn pixel(&self, x: u32, y: u32) -> (r: Result<u8, PublishError>)
        ensures
            (x >= self.width || y >= self.height) ==> r matches Err(PublishError::InvalidCanonicalTile),
            (x < self.width && y < self.height && y * self.width + x > usize::MAX) ==> r matches Err(
                PublishError::CapacityOverflow,
            ),
            (x < self.width && y < self.height && y * self.width + x <= usize::MAX) ==> (if y * self.width + x
                < self.pixels@.len() {
                r == Ok::<u8, PublishError>(self.pixels@[y * self.width + x])
            } else {
                r matches Err(PublishError::InvalidCanonicalTile)
            }),
    {
        if x >= self.width || y >= self.height {
            return Err(PublishError::InvalidCanonicalTile);
        }
        proof {
            assert(y * self.width + x <= 0xffff_ffffu64 * 0xffff_ffffu64 + 0xffff_ffffu64) by (nonlinear_arith)
                requires y < self.width || y <= 0xffff_ffff, y <= 0xffff_ffff, self.width <= 0xffff_ffff, x <= 0xffff_ffff;
        }
        let index: u64 = y as u64 * self.width as u64 + x as u64;
        if index > usize::MAX as u64 {
            return Err(PublishError::CapacityOverflow);
        }
        let index = index as usize;
        if index >= self.pixels.len() {
            return Err(PublishError::InvalidCanonicalTile);
        }
        Ok(self.pixels[index])
    }

    /// The canonical bytes of the tile.
    pub fn to_bytes(&self) -> (r: Result<Vec<u8>, PublishError>)
        ensures
            r is Ok <==> 16 + self.pixels@.len() <= usize::MAX,
            r matches Ok(b) ==> b@ == raw_tile_bytes(self.width, self.height, self.pixels@),
            r matches Err(e) ==> e is CapacityOverflow,
    {
        if self.pixels.len() > usize::MAX - 16 {
            return Err(PublishError::CapacityOverflow);
        }
        let mut bytes: Vec<u8> = Vec::new();
        bytes.push(0x49);
        bytes.push(0x53);
        bytes.push(0x49);
        bytes.push(0x44);
        bytes.push(0x58);
        bytes.push(0x31);
        bytes.push(0);
        bytes.push(0);
        proof {
            assert(bytes@ =~= raw_magic());
        }
        push_le32(&mut bytes, self.width);
        push_le32(&mut bytes, self.height);
        let ghost head = bytes@;
        let mut i: usize = 0;
        while i < self.pixels.len()
            invariant
                i <= self.pixels@.len(),
                bytes@ == head + self.pixels@.subrange(0, i as int),
            decreases self.pixels@.len() - i,
        {
            bytes.push(self.pixels[i]);
            proof {
                assert(bytes@ =~= head + self.pixels@.subrange(0, i + 1));
            }
            i += 1;
        }
        proof {
            assert(self.pixels@.subrange(0, self.pixels@.len() as int) =~= self.pixels@);
        }
        Ok(bytes)
    }

    /// Parses canonical tile bytes whose dimensions must be the expected ones.
    pub fn parse(bytes: &[u8], expected_width: u32, expected_height: u32, palette_len: usize) -> (r: Result<
        Self,
        PublishError,
    >)
        ensures
            !raw_header_ok(bytes@, expected_width, expected_height) ==> r matches Err(
                PublishError::InvalidCanonicalTile,
            ),
            raw_header_ok(bytes@, expected_width, expected_height) && expected_width * expected_height > usize::MAX
                ==> r matches Err(PublishError::CapacityOverflow),
            raw_header_ok(bytes@, expected_width, expected_height) && expected_width * expected_height <= usize::MAX
                ==> (r is Ok <==> raw_tile_ok(
                expected_width,
                expected_height,
                bytes@.subrange(16, bytes@.len() as int),
                palette_len as nat,
            )),
            raw_header_ok(bytes@, expected_width, expected_height) && expected_width * expected_height <= usize::MAX
                && r is Err ==> r matches Err(PublishError::InvalidCanonicalTile),
            r matches Ok(t) ==> t.width == expected_width && t.height == expected_height && t.pixels@
                == bytes@.subrange(16, bytes@.len() as int),
    {
        if bytes.len() < 16 {
            return Err(PublishError::InvalidCanonicalTile);
        }
        if !(bytes[0] == 0x49 && bytes[1] == 0x53 && bytes[2] == 0x49 && bytes[3] == 0x44 && bytes[4] == 0x58
            && bytes[5] == 0x31 && bytes[6] == 0 && bytes[7] == 0) {
            proof {
                assert(bytes@.subrange(0, 8) != raw_magic()) by {
                    if bytes@.subrange(0, 8) == raw_magic() {
                        assert(bytes@.subrange(0, 8)[0] == bytes@[0]);
                        assert(bytes@.subrange(0, 8)[1] == bytes@[1]);
                        assert(bytes@.subrange(0, 8)[2] == bytes@[2]);
                        assert(bytes@.subrange(0, 8)[3] == bytes@[3]);
                        assert(bytes@.subrange(0, 8)[4] == bytes@[4]);
                        assert(bytes@.subrange(0, 8)[5] == bytes@[5]);
                        assert(bytes@.subrange(0, 8)[6] == bytes@[6]);
                        assert(bytes@.subrange(0, 8)[7] == bytes@[7]);
                    }
                }
            }
            return Err(PublishError::InvalidCanonicalTile);
        }
        proof {
            assert(bytes@.subrange(0, 8) =~= raw_magic());
        }
        let width: u64 = bytes[8] as u64 + 256 * bytes[9] as u64 + 65536 * bytes[10] as u64 + 16777216 * bytes[11] as u64;
        let height: u64 = bytes[12] as u64 + 256 * bytes[13] as u64 + 65536 * bytes[14] as u64 + 16777216
            * bytes[15] as u64;
        if width != expected_width as u64 || height != expected_height as u64 {
            return Err(PublishError::InvalidCanonicalTile);
        }
        let mut rest: Vec<u8> = Vec::new();
        let mut i: usize = 16;
        while i < bytes.len()
            invariant
                16 <= i <= bytes@.len(),
                rest@ == bytes@.subrange(16, i as int),
            decreases bytes@.len() - i,
        {
            rest.push(bytes[i]);
            proof {
                assert(rest@ =~= bytes@.subrange(16, i + 1));
            }
            i += 1;
        }
        proof {
            assert(expected_width * expected_height > 0 ==> expected_width > 0 && expected_height > 0) by (nonlinear_arith);
        }
        RawTile::new(expected_width, expected_height, rest, palette_len)
    }
}

/// Number of pixels of a `width` by `height` tile, when it fits in memory.
pub fn pixel_capacity(width: u32, height: u32) -> (r: Result<usize, PublishError>)
    ensures
        r is Ok <==> width * height <= usize::MAX,
        r matches Ok(n) ==> n == width * height,
        r matches Err(e) ==> e is CapacityOverflow,
{
    proof {
        assert(width * height <= 0xffff_ffffu64 * 0xffff_ffffu64) by (nonlinear_arith)
            requires width <= 0xffff_ffff, height <= 0xffff_ffff;
    }
    let n: u64 = width as u64 * height as u64;
    if n > usize::MAX as u64 {
        return Err(PublishError::CapacityOverflow);
    }
    Ok(n as usize)
}

/// One channel of a palette color: 0 red, 1 green, 2 blue.
pub open spec fn channel(color: Rgb8, c: int) -> u8 {
    if c == 0 { color.red } else if c == 1 { color.green } else { color.blue }
}

/// The RGB bytes of palette indices, three per pixel.
pub open spec fn palette_rgb(pixels: Seq<u8>, palette: Seq<Rgb8>) -> Seq<u8> {
    Seq::new(3 * pixels.len(), |i: int| channel(palette[pixels[i / 3] as int], i % 3))
}

/// Whether every index names a palette color.
pub open spec fn indices_in_palette(pixels: Seq<u8>, palette_len: nat) -> bool {
    forall|i: int| 0 <= i < pixels.len() ==> (#[trigger] pixels[i]) < palette_len
}

/// Expands palette indices into RGB bytes.
pub fn expand_palette(pixels: &[u8], palette: &[Rgb8]) -> (r: Result<Vec<u8>, PublishError>)
    ensures
        3 * pixels@.len() > usize::MAX ==> r matches Err(PublishError::CapacityOverflow),
        3 * pixels@.len() <= usize::MAX ==> (r is Ok <==> indices_in_palette(pixels@, palette@.len())),
        3 * pixels@.len() <= usize::MAX && r is Err ==> r matches Err(PublishError::InvalidCanonicalTile),
        r matches Ok(v) ==> v@ == palette_rgb(pixels@, palette@),
{
    if pixels.len() > usize::MAX / 3 {
        return Err(PublishError::CapacityOverflow);
    }
    let mut rgb: Vec<u8> = Vec::new();
    let mut i: usize = 0;
    while i < pixels.len()
        invariant
            i <= pixels@.len(),
            3 * pixels@.len() <= usize::MAX,
            rgb@.len() == 3 * i,
            forall|j: int| 0 <= j < i ==> (#[trigger] pixels@[j]) < palette@.len(),
            forall|k: int| 0 <= k < 3 * i ==> #[trigger] rgb@[k] == channel(palette@[pixels@[k / 3] as int], k % 3),
        decreases pixels@.len() - i,
    {
        let index = pixels[i] as usize;
        if index >= palette.len() {
            return Err(PublishError::InvalidCanonicalTile);
        }
        let color = palette[index];
        rgb.push(color.red);
        rgb.push(color.green);
        rgb.push(color.blue);
        proof {
            assert forall|k: int| 0 <= k < 3 * (i + 1) implies #[trigger] rgb@[k] == channel(
                palette@[pixels@[k / 3] as int],
                k % 3,
            ) by {
                if k >= 3 * i {
                    assert(k / 3 == i);
                }
            }
        }
        i += 1;
    }
    proof {
        assert(rgb@ =~= palette_rgb(pixels@, palette@));
    }
    Ok(rgb)
}

/// The lossless WebP bytes that the encoder writes for a `width` by `height` RGB image.
pub uninterp spec fn webp_lossless_rgb(rgb: Seq<u8>, width: u32, height: u32) -> Seq<u8>;

/// Calls `image_webp::WebPEncoder::encode` on an in-memory buffer with the RGB color
/// type. The encoder panics unless the data holds three bytes per pixel, so that is
/// required; its source refuses exactly the dimensions outside 1 to 16384 with
/// `InvalidDimensions`, and writing to a `Vec` cannot fail otherwise. What it writes is
/// named, as a function of the pixels and dimensions.
#[verifier::external_body]
fn encode_lossless_rgb(rgb: &[u8], width: u32, height: u32) -> (r: Result<Vec<u8>, EncodingError>)
    requires
        rgb@.len() == 3 * (width * height),
    ensures
        r is Ok <==> (1 <= width <= 16384 && 1 <= height <= 16384),
        r matches Ok(v) ==> v@ == webp_lossless_rgb(rgb@, width, height),
{
    let mut output = Vec::new();
    match WebPEncoder::new(&mut output).encode(rgb, width, height, ColorType::Rgb8) {
        Ok(()) => Ok(output),
        Err(error) => Err(error),
    }
}

/// Encodes a canonical tile as lossless WebP through its palette.
pub fn encode_webp(raw: &RawTile, palette: &[Rgb8]) -> (r: Result<Vec<u8>, PublishError>)
    requires
        raw.pixels@.len() == raw.width * raw.height,
    ensures
        3 * raw.pixels@.len() > usize::MAX ==> r matches Err(PublishError::CapacityOverflow),
        3 * raw.pixels@.len() <= usize::MAX && !indices_in_palette(raw.pixels@, palette@.len()) ==> r matches Err(
            PublishError::InvalidCanonicalTile,
        ),
        3 * raw.pixels@.len() <= usize::MAX && indices_in_palette(raw.pixels@, palette@.len()) ==> {
            &&& r is Ok <==> (1 <= raw.width <= 16384 && 1 <= raw.height <= 16384)
            &&& r is Err ==> r matches Err(PublishError::Encode(_))
        },
        r matches Ok(v) ==> v@ == webp_lossless_rgb(palette_rgb(raw.pixels@, palette@), raw.width, raw.height),
{
    let rgb = match expand_palette(raw.pixels.as_slice(), palette) {
        Ok(v) => v,
        Err(e) => return Err(e),
    };
    match encode_lossless_rgb(rgb.as_slice(), raw.width, raw.height) {
        Ok(bytes) => Ok(bytes),
        Err(error) => Err(PublishError::Encode(error)),
    }
}

/// One published tile in the release manifest.
#[derive(Clone, Debug, Eq, PartialEq)]
pub struct TileManifest {
    /// DZI level.
    pub level: u32,
    /// Tile column within the level.
    pub column: u32,
    /// Tile row within the level.
    pub row: u32,
    /// Tile width in pixels.
    pub width: u32,
    /// Tile height in pixels.
    pub height: u32,
    /// SHA-256 of the canonical indexed bytes.
    pub canonical_sha256: String,
    /// SHA-256 of the WebP bytes.
    pub webp_sha256: String,
    /// Length of the WebP bytes.
    pub encoded_bytes: u64,
}

/// The WebP path of a tile within the tile directory.
pub open spec fn webp_tile_name(level: u32, column: u32, row: u32) -> Seq<char> {
    decimal_spec(level as nat) + "/"@ + decimal_spec(column as nat) + "_"@ + decimal_spec(row as nat) + ".webp"@
}

/// One link of the tile-set chain: the tile's WebP path, a zero byte, its WebP digest, a newline.
pub open spec fn tile_link(entry: TileManifest) -> Seq<u8> {
    encode_utf8(webp_tile_name(entry.level, entry.column, entry.row)) + seq![0u8] + encode_utf8(entry.webp_sha256@)
        + seq![10u8]
}

/// The bytes hashed into the tile-set digest: every entry's link in order.
pub open spec fn tile_set_preimage(entries: Seq<TileManifest>) -> Seq<u8>
    decreases entries.len(),
{
    if entries.len() == 0 { Seq::empty() } else { tile_set_preimage(entries.drop_last()) + tile_link(entries.last()) }
}

fn push_bytes(out: &mut Vec<u8>, bytes: &[u8])
    ensures
        final(out)@ == old(out)@ + bytes@,
{
    let ghost head = out@;
    let mut i: usize = 0;
    while i < bytes.len()
        invariant
            i <= bytes@.len(),
            out@ == head + bytes@.subrange(0, i as int),
        decreases bytes@.len() - i,
    {
        out.push(bytes[i]);
        proof {
            assert(out@ =~= head + bytes@.subrange(0, i + 1));
        }
        i += 1;
    }
    proof {
        assert(bytes@.subrange(0, bytes@.len() as int) =~= bytes@);
    }
}

/// The WebP path of a tile within the tile directory.
pub fn webp_tile_name_of(level: u32, column: u32, row: u32) -> (s: String)
    ensures
        s@ == webp_tile_name(level, column, row),
{
    let mut s = decimal(level as u64);
    s.push_str("/");
    let c = decimal(column as u64);
    s.push_str(c.as_str());
    s.push_str("_");
    let r = decimal(row as u64);
    s.push_str(r.as_str());
    s.push_str(".webp");
    s
}

/// The bytes hashed into the tile-set digest.
pub fn tile_set_preimage_of(entries: &[TileManifest]) -> (r: Vec<u8>)
    ensures
        r@ == tile_set_preimage(entries@),
{
    let mut out: Vec<u8> = Vec::new();
    let mut i: usize = 0;
    while i < entries.len()
        invariant
            i <= entries@.len(),
            out@ == tile_set_preimage(entries@.subrange(0, i as int)),
        decreases entries@.len() - i,
    {
        let entry = &entries[i];
        let name = webp_tile_name_of(entry.level, entry.column, entry.row);
        push_bytes(&mut out, name.as_str().as_bytes());
        out.push(0);
        push_bytes(&mut out, entry.webp_sha256.as_str().as_bytes());
        out.push(10);
        proof {
            let prefix = entries@.subrange(0, i + 1);
            assert(prefix.drop_last() =~= entries@.subrange(0, i as int));
            assert(out@ =~= tile_set_preimage(prefix));
        }
        i += 1;
    }
    proof {
        assert(entries@.subrange(0, entries@.len() as int) =~= entries@);
    }
    out
}

/// SHA-256 over the tile path and digest chain, lowercase hexadecimal.
pub fn tile_set_hash(entries: &[TileManifest]) -> (s: String)
    ensures
        s@ == hex_spec(sha256_spec(tile_set_preimage(entries@))),
        s@.len() == 64,
{
    let preimage = tile_set_preimage_of(entries);
    sha256_hex(preimage.as_slice())
}

/// The DZI section of a release manifest.
#[derive(Clone, Debug, Eq, PartialEq)]
pub struct DziArtifact {
    /// Descriptor file name.
    pub descriptor: String,
    /// Maximum-resolution width.
    pub width: u32,
    /// Maximum-resolution height.
    pub height: u32,
    /// Saved tile edge.
    pub tile_size: u32,
    /// Tile overlap.
    pub overlap: u32,
    /// Tile image format.
    pub format: String,
    /// Highest level.
    pub max_level: u32,
    /// Logical scale.
    pub world_mm_per_half_step: i64,
    /// Number of tiles.
    pub tile_count: usize,
    /// Total WebP bytes.
    pub encoded_bytes: u64,
    /// SHA-256 of the descriptor bytes.
    pub descriptor_sha256: String,
    /// SHA-256 of the tile-set chain.
    pub tile_set_sha256: String,
    /// Directory of canonical indexed tiles.
    pub canonical_directory: String,
    /// Directory of WebP tiles.
    pub tile_directory: String,
}

/// A release manifest as written beside the published tiles.
#[derive(Clone, Debug, Eq, PartialEq)]
pub struct ReleaseArtifact {
    /// Manifest schema.
    pub schema: String,
    /// Release status.
    pub status: String,
    /// Whether the release was qualified.
    pub qualified: bool,
    /// SHA-256 of the world artifact.
    pub world_sha256: String,
    /// SHA-256 of the style pack.
    pub style_sha256: String,
    /// DZI settings and totals.
    pub dzi: DziArtifact,
    /// Every tile, sorted by level, row, then column.
    pub tiles: Vec<TileManifest>,
}

/// Lowercase SHA-256 text.
pub open spec fn sha_text(s: Seq<char>) -> bool {
    is_sha256_bytes(encode_utf8(s))
}

/// The larger of two values.
pub open spec fn larger(a: u32, b: u32) -> u32 {
    if a >= b { a } else { b }
}

/// Whether release metadata matches the accepted contract, for a palette of `palette_len` colors.
pub open spec fn release_metadata_ok(m: ReleaseArtifact, palette_len: nat) -> bool {
    &&& m.schema@ == "isometric-release/v1"@
    &&& m.status@ == "artifact-candidate"@
    &&& !m.qualified
    &&& m.dzi.descriptor@ == "hero.dzi"@
    &&& m.dzi.format@ == "webp"@
    &&& m.dzi.tile_size == TILE_SIZE
    &&& m.dzi.overlap == 0
    &&& m.dzi.world_mm_per_half_step == WORLD_MM_PER_HALF_STEP
    &&& m.dzi.canonical_directory@ == "canonical"@
    &&& m.dzi.tile_directory@ == "hero_files"@
    &&& m.dzi.width != 0
    &&& m.dzi.height != 0
    &&& m.dzi.max_level == dzi_max_level_spec(larger(m.dzi.width, m.dzi.height) as nat)
    &&& 1 <= palette_len <= MAX_PALETTE_COLORS
    &&& sha_text(m.world_sha256@)
    &&& sha_text(m.style_sha256@)
    &&& sha_text(m.dzi.descriptor_sha256@)
    &&& sha_text(m.dzi.tile_set_sha256@)
}

/// Checks release metadata against the accepted contract.
pub fn check_release_metadata(m: &ReleaseArtifact, palette_len: usize) -> (r: Result<(), PublishError>)
    ensures
        r is Ok <==> release_metadata_ok(*m, palette_len as nat),
        r matches Err(e) ==> e is InvalidManifest,
{
    let d = &m.dzi;
    let larger_edge = if d.width >= d.height { d.width } else { d.height };
    if !str_eq(m.schema.as_str(), "isometric-release/v1") || !str_eq(m.status.as_str(), "artifact-candidate")
        || m.qualified || !str_eq(d.descriptor.as_str(), "hero.dzi") || !str_eq(d.format.as_str(), "webp")
        || d.tile_size != TILE_SIZE || d.overlap != 0 || d.world_mm_per_half_step != WORLD_MM_PER_HALF_STEP
        || !str_eq(d.canonical_directory.as_str(), "canonical") || !str_eq(d.tile_directory.as_str(), "hero_files")
        || d.width == 0 || d.height == 0 || d.max_level != dzi_max_level(larger_edge) || palette_len == 0
        || palette_len > MAX_PALETTE_COLORS || !is_sha256(m.world_sha256.as_str()) || !is_sha256(
        m.style_sha256.as_str(),
    ) || !is_sha256(d.descriptor_sha256.as_str()) || !is_sha256(d.tile_set_sha256.as_str()) {
        return Err(PublishError::InvalidManifest);
    }
    Ok(())
}

/// Whether two byte slices are equal.
pub fn bytes_equal(a: &[u8], b: &[u8]) -> (r: bool)
    ensures
        r == (a@ == b@),
{
    if a.len() != b.len() {
        return false;
    }
    let mut i: usize = 0;
    while i < a.len()
        invariant
            a@.len() == b@.len(),
            i <= a@.len(),
            forall|j: int| 0 <= j < i ==> a@[j] == b@[j],
        decreases a@.len() - i,
    {
        if a[i] != b[i] {
            return false;
        }
        i += 1;
    }
    proof {
        assert(a@ =~= b@);
    }
    true
}

/// Whether descriptor bytes are the canonical descriptor recorded in the manifest.
pub open spec fn descriptor_ok(bytes: Seq<u8>, m: ReleaseArtifact) -> bool {
    &&& hex_spec(sha256_spec(bytes)) == m.dzi.descriptor_sha256@
    &&& bytes == encode_utf8(descriptor_spec(m.dzi.width, m.dzi.height, m.dzi.tile_size))
}

/// Checks the descriptor bytes against the manifest's digest and dimensions.
pub fn check_descriptor(bytes: &[u8], m: &ReleaseArtifact) -> (r: Result<(), PublishError>)
    ensures
        r is Ok <==> descriptor_ok(bytes@, *m),
        r matches Err(e) ==> e is InvalidManifest,
{
    let digest = sha256_hex(bytes);
    let expected = descriptor(m.dzi.width, m.dzi.height, m.dzi.tile_size);
    if !str_eq(digest.as_str(), m.dzi.descriptor_sha256.as_str()) || !bytes_equal(bytes, expected.as_str().as_bytes()) {
        return Err(PublishError::InvalidManifest);
    }
    Ok(())
}

/// Tile order: by level, then row, then column.
pub open spec fn key_le(a: TileManifest, b: TileManifest) -> bool {
    a.level < b.level || (a.level == b.level && (a.row < b.row || (a.row == b.row && a.column <= b.column)))
}

/// Strict tile order.
pub open spec fn key_lt(a: TileManifest, b: TileManifest) -> bool {
    key_le(a, b) && !(a.level == b.level && a.row == b.row && a.column == b.column)
}

/// Whether tiles are listed in tile order.
pub open spec fn tiles_sorted(t: Seq<TileManifest>) -> bool {
    forall|i: int, j: int| 0 <= i < j < t.len() ==> key_le(#[trigger] t[i], #[trigger] t[j])
}

/// Whether tiles are listed in strict tile order, so that no tile occurs twice.
pub open spec fn tiles_strictly_sorted(t: Seq<TileManifest>) -> bool {
    forall|i: int, j: int| 0 <= i < j < t.len() ==> key_lt(#[trigger] t[i], #[trigger] t[j])
}

/// Whether every listed tile belongs to the pyramid.
pub open spec fn tiles_expected(t: Seq<TileManifest>, dims: Seq<(u32, u32)>, tile_size: u32) -> bool {
    forall|i: int| 0 <= i < t.len() ==> #[trigger] is_expected_tile(dims, tile_size, t[i].level, t[i].column, t[i].row)
}

fn sort_verdict(t: &[TileManifest]) -> (r: u8)
    ensures
        r == 0 <==> !tiles_sorted(t@),
        r == 1 <==> tiles_sorted(t@) && !tiles_strictly_sorted(t@),
        r == 2 <==> tiles_strictly_sorted(t@),
{
    let mut strict = true;
    let mut i: usize = 1;
    if t.len() == 0 {
        return 2;
    }
    while i < t.len()
        invariant
            1 <= i <= t@.len(),
            forall|a: int, b: int| 0 <= a < b < i ==> key_le(#[trigger] t@[a], #[trigger] t@[b]),
            strict <==> (forall|a: int, b: int| 0 <= a < b < i ==> key_lt(#[trigger] t@[a], #[trigger] t@[b])),
        decreases t@.len() - i,
    {
        let p = &t[i - 1];
        let q = &t[i];
        let le = p.level < q.level || (p.level == q.level && (p.row < q.row || (p.row == q.row && p.column
            <= q.column)));
        if !le {
            proof {
                assert(!key_le(t@[i - 1], t@[i as int]));
            }
            return 0;
        }
        let same = p.level == q.level && p.row == q.row && p.column == q.column;
        proof {
            assert forall|a: int, b: int| 0 <= a < b < i + 1 implies key_le(#[trigger] t@[a], #[trigger] t@[b]) by {
                if b == i && a < i - 1 {
                    assert(key_le(t@[a], t@[i - 1]));
                }
            }
            if same {
                assert(!key_lt(t@[i - 1], t@[i as int]));
            }
            if strict && !same {
                assert forall|a: int, b: int| 0 <= a < b < i + 1 implies key_lt(#[trigger] t@[a], #[trigger] t@[b]) by {
                    if b == i && a < i - 1 {
                        assert(key_lt(t@[a], t@[i - 1]));
                    }
                }
            }
            if !strict {
                let (a, b) = choose|a: int, b: int| 0 <= a < b < i && !key_lt(#[trigger] t@[a], #[trigger] t@[b]);
                assert(!key_lt(t@[a], t@[b]));
            }
        }
        if same {
            strict = false;
        }
        i += 1;
    }
    if strict { 2 } else { 1 }
}

/// Number of tiles of edge `tile_size` covering `extent` pixels.
pub fn tiles_across_of(extent: u32, tile_size: u32) -> (r: u64)
    requires
        tile_size >= 1,
    ensures
        r == tiles_across(extent as nat, tile_size as nat),
        r <= extent,
{
    let q = (extent as u64 + tile_size as u64 - 1) / tile_size as u64;
    proof {
        let x = extent + tile_size - 1;
        vstd::arithmetic::div_mod::lemma_fundamental_div_mod(x as int, tile_size as int);
        assert(q <= extent) by (nonlinear_arith)
            requires
                x == tile_size * q + x % (tile_size as int),
                0 <= x % (tile_size as int),
                x == extent + tile_size - 1,
                tile_size >= 1,
                q >= 0,
        {
            if q > extent {
                assert(tile_size * q >= tile_size * (extent + 1));
                assert(tile_size * (extent + 1) >= extent + tile_size);
            }
        }
    }
    q
}

/// Number of tiles in the pyramid with these level dimensions.
pub fn expected_tile_count_of(dims: &[(u32, u32)], tile_size: u32) -> (r: u128)
    requires
        tile_size >= 1,
        dims@.len() <= 0x1_0000_0000,
    ensures
        r == expected_tile_count(dims@, tile_size),
{
    let mut total: u128 = 0;
    let mut i: usize = 0;
    while i < dims.len()
        invariant
            i <= dims@.len(),
            dims@.len() <= 0x1_0000_0000,
            tile_size >= 1,
            total == expected_tile_count(dims@.subrange(0, i as int), tile_size),
            total <= i * 0x1_0000_0000_0000_0000,
        decreases dims@.len() - i,
    {
        let across = tiles_across_of(dims[i].0, tile_size);
        let down = tiles_across_of(dims[i].1, tile_size);
        proof {
            assert(across * down <= 0x1_0000_0000_0000_0000) by (nonlinear_arith)
                requires across <= 0x1_0000_0000, down <= 0x1_0000_0000;
            let prefix = dims@.subrange(0, i + 1);
            assert(prefix.drop_last() =~= dims@.subrange(0, i as int));
        }
        total = total + across as u128 * down as u128;
        i += 1;
    }
    proof {
        assert(dims@.subrange(0, dims@.len() as int) =~= dims@);
    }
    total
}

/// Why a release's tile list is rejected, if it is; `dims` are the level dimensions it declares.
pub open spec fn tile_list_error(m: ReleaseArtifact) -> Option<PublishErrorKind> {
    let t = m.tiles@;
    let dims = level_dimensions_spec(m.dzi.width, m.dzi.height, m.dzi.max_level);
    if !tiles_sorted(t) || t.len() != m.dzi.tile_count || hex_spec(sha256_spec(tile_set_preimage(t)))
        != m.dzi.tile_set_sha256@ {
        Some(PublishErrorKind::InvalidManifest)
    } else if m.dzi.max_level + 1 > usize::MAX {
        Some(PublishErrorKind::CapacityOverflow)
    } else if !(tiles_strictly_sorted(t) && tiles_expected(t, dims, m.dzi.tile_size) && t.len() == expected_tile_count(
        dims,
        m.dzi.tile_size,
    )) {
        Some(PublishErrorKind::IncompletePyramid)
    } else {
        None
    }
}

/// The payload-free kinds of publication failure, for contracts.
#[derive(PartialEq, Eq, Structural, Clone, Copy, Debug)]
pub enum PublishErrorKind {
    /// See [`PublishError::InvalidManifest`].
    InvalidManifest,
    /// See [`PublishError::CapacityOverflow`].
    CapacityOverflow,
    /// See [`PublishError::IncompletePyramid`].
    IncompletePyramid,
    /// See [`PublishError::InvalidCanonicalTile`].
    InvalidCanonicalTile,
    /// See [`PublishError::InvalidWebP`].
    InvalidWebP,
}

/// The kind of a publication failure, where it has one of the kinds above.
pub open spec fn kind_of(e: PublishError) -> Option<PublishErrorKind> {
    match e {
        PublishError::InvalidManifest => Some(PublishErrorKind::InvalidManifest),
        PublishError::CapacityOverflow => Some(PublishErrorKind::CapacityOverflow),
        PublishError::IncompletePyramid => Some(PublishErrorKind::IncompletePyramid),
        _ => None,
    }
}

/// Checks the tile list of release metadata that passed [`check_release_metadata`]: its
/// order, count, and chain digest, then that it lists every pyramid tile exactly once.
/// Returns the level dimensions.
pub fn check_tile_list(m: &ReleaseArtifact) -> (r: Result<Vec<(u32, u32)>, PublishError>)
    requires
        m.dzi.tile_size == TILE_SIZE,
    ensures
        r is Ok <==> tile_list_error(*m) is None,
        r matches Err(e) ==> tile_list_error(*m) == kind_of(e),
        r matches Ok(dims) ==> dims@ == level_dimensions_spec(m.dzi.width, m.dzi.height, m.dzi.max_level),
{
    let order = sort_verdict(m.tiles.as_slice());
    let digest = tile_set_hash(m.tiles.as_slice());
    if order == 0 || m.tiles.len() != m.dzi.tile_count || !str_eq(digest.as_str(), m.dzi.tile_set_sha256.as_str()) {
        return Err(PublishError::InvalidManifest);
    }
    let dims = match level_dimensions(m.dzi.width, m.dzi.height, m.dzi.max_level) {
        Ok(d) => d,
        Err(e) => return Err(e),
    };
    if order == 1 {
        return Err(PublishError::IncompletePyramid);
    }
    let mut i: usize = 0;
    while i < m.tiles.len()
        invariant
            i <= m.tiles@.len(),
            dims@ == level_dimensions_spec(m.dzi.width, m.dzi.height, m.dzi.max_level),
            m.dzi.tile_size == TILE_SIZE,
            tiles_sorted(m.tiles@),
            tiles_strictly_sorted(m.tiles@),
            m.tiles@.len() == m.dzi.tile_count,
            hex_spec(sha256_spec(tile_set_preimage(m.tiles@))) == m.dzi.tile_set_sha256@,
            m.dzi.max_level + 1 <= usize::MAX,
            forall|j: int| 0 <= j < i ==> #[trigger] is_expected_tile(dims@, m.dzi.tile_size, m.tiles@[j].level, m.tiles@[j].column, m.tiles@[j].row),
        decreases m.tiles@.len() - i,
    {
        let e = &m.tiles[i];
        if e.level as usize >= dims.len() {
            proof {
                assert(!is_expected_tile(dims@, m.dzi.tile_size, m.tiles@[i as int].level, m.tiles@[i as int].column, m.tiles@[i as int].row));
            }
            return Err(PublishError::IncompletePyramid);
        }
        let (w, h) = dims[e.level as usize];
        if e.column as u64 >= tiles_across_of(w, m.dzi.tile_size) || e.row as u64 >= tiles_across_of(h, m.dzi.tile_size) {
            proof {
                assert(!is_expected_tile(dims@, m.dzi.tile_size, m.tiles@[i as int].level, m.tiles@[i as int].column, m.tiles@[i as int].row));
            }
            return Err(PublishError::IncompletePyramid);
        }
        i += 1;
    }
    let expected = expected_tile_count_of(dims.as_slice(), m.dzi.tile_size);
    if m.tiles.len() as u128 != expected {
        return Err(PublishError::IncompletePyramid);
    }
    Ok(dims)
}

/// Pixels covered by a tile that starts at `index * tile_size` of a `extent`-pixel level edge.
pub open spec fn tile_extent(extent: u32, index: u32, tile_size: u32) -> int {
    if index * tile_size >= extent {
        0
    } else if extent - index * tile_size < tile_size {
        extent - index * tile_size
    } else {
        tile_size as int
    }
}

/// Whether a manifest entry has its level's tile dimensions and well-formed digests.
pub open spec fn tile_entry_ok(entry: TileManifest, dims: Seq<(u32, u32)>, tile_size: u32) -> bool {
    &&& entry.level < dims.len()
    &&& entry.width == tile_extent(dims[entry.level as int].0, entry.column, tile_size)
    &&& entry.height == tile_extent(dims[entry.level as int].1, entry.row, tile_size)
    &&& sha_text(entry.canonical_sha256@)
    &&& sha_text(entry.webp_sha256@)
}

fn tile_extent_of(extent: u32, index: u32, tile_size: u32) -> (r: u32)
    ensures
        r == tile_extent(extent, index, tile_size),
{
    proof {
        assert(index * tile_size <= 0xffff_ffffu64 * 0xffff_ffffu64) by (nonlinear_arith)
            requires index <= 0xffff_ffff, tile_size <= 0xffff_ffff;
    }
    let start: u64 = index as u64 * tile_size as u64;
    if start >= extent as u64 {
        0
    } else if (extent as u64 - start) < tile_size as u64 {
        (extent as u64 - start) as u32
    } else {
        tile_size
    }
}

/// Checks a manifest entry's dimensions and digests against the level dimensions.
pub fn check_tile_entry(entry: &TileManifest, dims: &[(u32, u32)], tile_size: u32) -> (r: Result<(), PublishError>)
    ensures
        r is Ok <==> tile_entry_ok(*entry, dims@, tile_size),
        r matches Err(e) ==> e is InvalidManifest,
{
    if entry.level as usize >= dims.len() {
        return Err(PublishError::InvalidManifest);
    }
    let (w, h) = dims[entry.level as usize];
    if entry.width != tile_extent_of(w, entry.column, tile_size) || entry.height != tile_extent_of(
        h,
        entry.row,
        tile_size,
    ) || !is_sha256(entry.canonical_sha256.as_str()) || !is_sha256(entry.webp_sha256.as_str()) {
        return Err(PublishError::InvalidManifest);
    }
    Ok(())
}

/// Exact length of an entry's canonical indexed bytes: the largest read that validation allows.
pub fn raw_tile_length(entry: &TileManifest) -> (r: u64)
    ensures
        r == 16 + entry.width * entry.height,
{
    proof {
        assert(entry.width * entry.height <= 0xffff_ffffu64 * 0xffff_ffffu64) by (nonlinear_arith)
            requires entry.width <= 0xffff_ffff, entry.height <= 0xffff_ffff;
    }
    16 + entry.width as u64 * entry.height as u64
}

/// Whether the entry's digests and length match the bytes read for it.
pub open spec fn tile_hashes_ok(entry: TileManifest, raw_bytes: Seq<u8>, webp_bytes: Seq<u8>) -> bool {
    &&& hex_spec(sha256_spec(raw_bytes)) == entry.canonical_sha256@
    &&& hex_spec(sha256_spec(webp_bytes)) == entry.webp_sha256@
    &&& webp_bytes.len() == entry.encoded_bytes
}

/// Checks the bytes read for an entry against its digests and length, then parses the
/// canonical tile.
pub fn check_tile_bytes(entry: &TileManifest, raw_bytes: &[u8], webp_bytes: &[u8], palette_len: usize) -> (r: Result<
    RawTile,
    PublishError,
>)
    ensures
        !tile_hashes_ok(*entry, raw_bytes@, webp_bytes@) ==> r matches Err(PublishError::HashMismatch),
        tile_hashes_ok(*entry, raw_bytes@, webp_bytes@) && !raw_header_ok(raw_bytes@, entry.width, entry.height) ==> r matches Err(
            PublishError::InvalidCanonicalTile,
        ),
        tile_hashes_ok(*entry, raw_bytes@, webp_bytes@) && raw_header_ok(raw_bytes@, entry.width, entry.height)
            && entry.width * entry.height <= usize::MAX ==> (r is Ok <==> raw_tile_ok(
            entry.width,
            entry.height,
            raw_bytes@.subrange(16, raw_bytes@.len() as int),
            palette_len as nat,
        )),
        r matches Ok(t) ==> t.width == entry.width && t.height == entry.height && t.pixels@ == raw_bytes@.subrange(
            16,
            raw_bytes@.len() as int,
        ),
{
    let raw_digest = sha256_hex(raw_bytes);
    let webp_digest = sha256_hex(webp_bytes);
    if !str_eq(raw_digest.as_str(), entry.canonical_sha256.as_str()) || !str_eq(
        webp_digest.as_str(),
        entry.webp_sha256.as_str(),
    ) || webp_bytes.len() as u64 != entry.encoded_bytes {
        return Err(PublishError::HashMismatch);
    }
    RawTile::parse(raw_bytes, entry.width, entry.height, palette_len)
}

/// What the WebP decoder reports of an image before decoding its pixels.
#[derive(Clone, Copy, Debug, Eq, PartialEq)]
pub struct WebpHeader {
    /// Canvas width.
    pub width: u32,
    /// Canvas height.
    pub height: u32,
    /// Whether the image is lossy.
    pub lossy: bool,
    /// Bytes needed for the decoded pixels, when that fits in memory.
    pub buffer_size: Option<usize>,
}

/// Memory the WebP decoder may allocate at once during validation.
pub const WEBP_DECODER_MEMORY_LIMIT: usize = 4194304;

/// What the WebP decoder reports of the image in `bytes`, or `None` where it refuses them.
pub uninterp spec fn webp_header_of(bytes: Seq<u8>) -> Option<(u32, u32, bool, Option<usize>)>;

/// Calls `image_webp::WebPDecoder::new` on the bytes, sets the decoder's memory limit, and
/// reads `dimensions`, `is_lossy` and `output_buffer_size`. The contract claims only that
/// these are a function of the bytes alone, named; the decoder's refusal is handed back.
#[verifier::external_body]
fn read_webp_header(bytes: &[u8]) -> (r: Result<WebpHeader, DecodingError>)
    ensures
        r matches Ok(h) ==> webp_header_of(bytes@) == Some((h.width, h.height, h.lossy, h.buffer_size)),
        r is Err ==> webp_header_of(bytes@) is None,
{
    let mut decoder = WebPDecoder::new(Cursor::new(bytes))?;
    decoder.set_memory_limit(WEBP_DECODER_MEMORY_LIMIT);
    let (width, height) = decoder.dimensions();
    let lossy = decoder.is_lossy();
    Ok(WebpHeader { width, height, lossy, buffer_size: decoder.output_buffer_size() })
}

/// The decoded pixels of the image in `bytes` into a `len`-byte buffer, or `None` where the
/// decoder refuses.
pub uninterp spec fn webp_pixels_of(bytes: Seq<u8>, len: usize) -> Option<Seq<u8>>;

/// Calls `image_webp::WebPDecoder::read_image` on a fresh decoder of the bytes with the
/// same memory limit, into a zeroed buffer of `len` bytes. The contract claims that the
/// decoded buffer is a function of the bytes and `len`, named, and keeps its length.
#[verifier::external_body]
fn read_webp_pixels(bytes: &[u8], len: usize) -> (r: Result<Vec<u8>, DecodingError>)
    ensures
        r matches Ok(v) ==> webp_pixels_of(bytes@, len) == Some(v@) && v@.len() == len,
        r is Err ==> webp_pixels_of(bytes@, len) is None,
{
    let mut decoder = WebPDecoder::new(Cursor::new(bytes))?;
    decoder.set_memory_limit(WEBP_DECODER_MEMORY_LIMIT);
    let mut rgb = vec![0u8; len];
    decoder.read_image(&mut rgb)?;
    Ok(rgb)
}

/// Checks what the decoder reports against a canonical tile; returns the RGB length to decode.
pub fn check_webp_header(header: &WebpHeader, raw: &RawTile) -> (r: Result<usize, PublishError>)
    ensures
        (header.width != raw.width || header.height != raw.height || header.lossy) ==> r matches Err(
            PublishError::InvalidWebP,
        ),
        !(header.width != raw.width || header.height != raw.height || header.lossy) && 3 * raw.pixels@.len() > usize::MAX
            ==> r matches Err(PublishError::CapacityOverflow),
        !(header.width != raw.width || header.height != raw.height || header.lossy) && 3 * raw.pixels@.len() <= usize::MAX
            ==> (if header.buffer_size == Some((3 * raw.pixels@.len()) as usize) {
            r == Ok::<usize, PublishError>((3 * raw.pixels@.len()) as usize)
        } else {
            r matches Err(PublishError::InvalidWebP)
        }),
{
    if header.width != raw.width || header.height != raw.height || header.lossy {
        return Err(PublishError::InvalidWebP);
    }
    if raw.pixels.len() > usize::MAX / 3 {
        return Err(PublishError::CapacityOverflow);
    }
    let expected = raw.pixels.len() * 3;
    match header.buffer_size {
        Some(size) => {
            if size != expected {
                return Err(PublishError::InvalidWebP);
            }
        },
        None => {
            return Err(PublishError::InvalidWebP);
        },
    }
    Ok(expected)
}

/// Why decoded pixel `i` is rejected, if it is: its index names no color, or its decoded
/// color differs from the palette color.
#[verifier::opaque]
pub open spec fn decoded_pixel_error(rgb: Seq<u8>, pixels: Seq<u8>, palette: Seq<Rgb8>, i: int) -> Option<PublishErrorKind> {
    if pixels[i] >= palette.len() {
        Some(PublishErrorKind::InvalidCanonicalTile)
    } else if rgb[3 * i] != palette[pixels[i] as int].red || rgb[3 * i + 1] != palette[pixels[i] as int].green || rgb[3 * i
        + 2] != palette[pixels[i] as int].blue {
        Some(PublishErrorKind::InvalidWebP)
    } else {
        None
    }
}

/// The rejection of the first rejected decoded pixel, if any.
pub open spec fn first_decoded_error(rgb: Seq<u8>, pixels: Seq<u8>, palette: Seq<Rgb8>) -> Option<PublishErrorKind> {
    if exists|i: int| 0 <= i < pixels.len() && (#[trigger] decoded_pixel_error(rgb, pixels, palette, i)) is Some {
        decoded_pixel_error(
            rgb,
            pixels,
            palette,
            choose|i: int| 0 <= i < pixels.len() && (#[trigger] decoded_pixel_error(rgb, pixels, palette, i)) is Some && forall|j: int|
                0 <= j < i ==> (#[trigger] decoded_pixel_error(rgb, pixels, palette, j)) is None,
        )
    } else {
        None
    }
}

proof fn lemma_first_decoded_error(rgb: Seq<u8>, pixels: Seq<u8>, palette: Seq<Rgb8>, k: int)
    requires
        0 <= k < pixels.len(),
        forall|j: int| 0 <= j < k ==> (#[trigger] decoded_pixel_error(rgb, pixels, palette, j)) is None,
        decoded_pixel_error(rgb, pixels, palette, k) is Some,
    ensures
        first_decoded_error(rgb, pixels, palette) == decoded_pixel_error(rgb, pixels, palette, k),
{
    let q = choose|i: int| 0 <= i < pixels.len() && (#[trigger] decoded_pixel_error(rgb, pixels, palette, i)) is Some && forall|j: int|
        0 <= j < i ==> (#[trigger] decoded_pixel_error(rgb, pixels, palette, j)) is None;
    assert(decoded_pixel_error(rgb, pixels, palette, k) is Some);
    if q < k {
        assert(decoded_pixel_error(rgb, pixels, palette, q) is None);
    } else if q > k {
        assert(decoded_pixel_error(rgb, pixels, palette, k) is None);
    }
}

/// Compares decoded RGB bytes with a canonical tile's palette colors, pixel by pixel.
pub fn compare_webp_pixels(rgb: &[u8], raw: &RawTile, palette: &[Rgb8]) -> (r: Result<(), PublishError>)
    requires
        rgb@.len() == 3 * raw.pixels@.len(),
    ensures
        r is Ok <==> first_decoded_error(rgb@, raw.pixels@, palette@) is None,
        r matches Err(e) ==> first_decoded_error(rgb@, raw.pixels@, palette@) == publish_kind(e),
{
    let mut i: usize = 0;
    while i < raw.pixels.len()
        invariant
            i <= raw.pixels@.len(),
            rgb@.len() == 3 * raw.pixels@.len(),
            forall|j: int| 0 <= j < i ==> (#[trigger] decoded_pixel_error(rgb@, raw.pixels@, palette@, j)) is None,
        decreases raw.pixels@.len() - i,
    {
        let verdict = decoded_pixel_verdict(rgb, raw, palette, i);
        if verdict != 0 {
            proof {
                lemma_first_decoded_error(rgb@, raw.pixels@, palette@, i as int);
            }
            if verdict == 1 {
                return Err(PublishError::InvalidCanonicalTile);
            }
            return Err(PublishError::InvalidWebP);
        }
        i += 1;
    }
    Ok(())
}

fn decoded_pixel_verdict(rgb: &[u8], raw: &RawTile, palette: &[Rgb8], i: usize) -> (r: u8)
    requires
        rgb@.len() == 3 * raw.pixels@.len(),
        i < raw.pixels@.len(),
    ensures
        r == 0 <==> decoded_pixel_error(rgb@, raw.pixels@, palette@, i as int) is None,
        r == 1 ==> decoded_pixel_error(rgb@, raw.pixels@, palette@, i as int) == Some(PublishErrorKind::InvalidCanonicalTile),
        r != 0 && r != 1 ==> decoded_pixel_error(rgb@, raw.pixels@, palette@, i as int) == Some(PublishErrorKind::InvalidWebP),
{
    proof {
        reveal(decoded_pixel_error);
    }
    let index = raw.pixels[i] as usize;
    if index >= palette.len() {
        return 1;
    }
    let color = palette[index];
    let n = rgb.len();
    if rgb[3 * i] != color.red || rgb[3 * i + 1] != color.green || rgb[3 * i + 2] != color.blue {
        return 2;
    }
    0
}

/// The payload-free kind of a tile-content failure.
pub open spec fn publish_kind(e: PublishError) -> Option<PublishErrorKind> {
    match e {
        PublishError::InvalidCanonicalTile => Some(PublishErrorKind::InvalidCanonicalTile),
        PublishError::InvalidWebP => Some(PublishErrorKind::InvalidWebP),
        _ => kind_of(e),
    }
}

/// Whether WebP bytes decode, losslessly and at the tile's size, to exactly the tile's palette colors.
pub open spec fn webp_tile_ok(bytes: Seq<u8>, raw: RawTile, palette: Seq<Rgb8>) -> bool {
    let n = 3 * raw.pixels@.len();
    &&& n <= usize::MAX
    &&& webp_header_of(bytes) == Some((raw.width, raw.height, false, Some(n as usize)))
    &&& match webp_pixels_of(bytes, n as usize) {
        Some(rgb) => first_decoded_error(rgb, raw.pixels@, palette) is None,
        None => false,
    }
}

/// Checks that a WebP tile is a lossless, exact rendering of a canonical tile through the palette.
pub fn validate_webp(webp_bytes: &[u8], raw: &RawTile, palette: &[Rgb8]) -> (r: Result<(), PublishError>)
    ensures
        webp_header_of(webp_bytes@) is None ==> r matches Err(PublishError::Decode(_)),
        r is Ok <==> webp_tile_ok(webp_bytes@, *raw, palette@),
{
    let header = match read_webp_header(webp_bytes) {
        Ok(h) => h,
        Err(error) => return Err(PublishError::Decode(error)),
    };
    let expected = match check_webp_header(&header, raw) {
        Ok(n) => n,
        Err(e) => return Err(e),
    };
    let rgb = match read_webp_pixels(webp_bytes, expected) {
        Ok(v) => v,
        Err(error) => return Err(PublishError::Decode(error)),
    };
    compare_webp_pixels(rgb.as_slice(), raw, palette)
}

/// Total encoded bytes of every entry.
pub open spec fn encoded_total(tiles: Seq<TileManifest>) -> int
    decreases tiles.len(),
{
    if tiles.len() == 0 { 0 } else { encoded_total(tiles.drop_last()) + tiles.last().encoded_bytes }
}

proof fn lemma_encoded_total_monotone(tiles: Seq<TileManifest>, i: int)
    requires
        0 <= i <= tiles.len(),
    ensures
        encoded_total(tiles.subrange(0, i)) <= encoded_total(tiles),
    decreases tiles.len() - i,
{
    if i < tiles.len() {
        lemma_encoded_total_monotone(tiles, i + 1);
        assert(tiles.subrange(0, i + 1).drop_last() =~= tiles.subrange(0, i));
    } else {
        assert(tiles.subrange(0, i) =~= tiles);
    }
}

/// The report of a release whose every tile validated: its totals must match the manifest.
pub fn release_report(m: &ReleaseArtifact) -> (r: Result<PublishReport, PublishError>)
    ensures
        encoded_total(m.tiles@) > u64::MAX ==> r matches Err(PublishError::CapacityOverflow),
        encoded_total(m.tiles@) <= u64::MAX && encoded_total(m.tiles@) != m.dzi.encoded_bytes ==> r matches Err(
            PublishError::InvalidManifest,
        ),
        encoded_total(m.tiles@) <= u64::MAX && encoded_total(m.tiles@) == m.dzi.encoded_bytes ==> r is Ok,
        r matches Ok(report) ==> report.width == m.dzi.width && report.height == m.dzi.height && report.max_level
            == m.dzi.max_level && report.tile_count == m.dzi.tile_count && report.encoded_bytes == m.dzi.encoded_bytes
            && report.tile_set_sha256@ == m.dzi.tile_set_sha256@,
{
    let mut total: u64 = 0;
    let mut i: usize = 0;
    while i < m.tiles.len()
        invariant
            i <= m.tiles@.len(),
            total == encoded_total(m.tiles@.subrange(0, i as int)),
        decreases m.tiles@.len() - i,
    {
        proof {
            assert(m.tiles@.subrange(0, i + 1).drop_last() =~= m.tiles@.subrange(0, i as int));
        }
        let add = m.tiles[i].encoded_bytes;
        if total > u64::MAX - add {
            proof {
                lemma_encoded_total_monotone(m.tiles@, i + 1);
            }
            return Err(PublishError::CapacityOverflow);
        }
        total = total + add;
        i += 1;
    }
    proof {
        assert(m.tiles@.subrange(0, m.tiles@.len() as int) =~= m.tiles@);
    }
    if total != m.dzi.encoded_bytes {
        return Err(PublishError::InvalidManifest);
    }
    Ok(PublishReport {
        width: m.dzi.width,
        height: m.dzi.height,
        max_level: m.dzi.max_level,
        tile_count: m.dzi.tile_count,
        encoded_bytes: total,
        tile_set_sha256: m.dzi.tile_set_sha256.clone(),
    })
}

proof fn lemma_insert_multiset<A>(s: Seq<A>, i: int, a: A)
    requires
        0 <= i <= s.len(),
    ensures
        s.insert(i, a).to_multiset() =~= s.to_multiset().insert(a),
{
    let t = s.insert(i, a);
    t.to_multiset_ensures();
    assert(t.remove(i) =~= s);
    assert(t.to_multiset().count(a) > 0) by {
        assert(t[i] == a);
        assert(t.contains(a));
    }
    broadcast use vstd::multiset::group_multiset_properties;
}

/// Sorts manifest entries into tile order, keeping equal keys in input order.
pub fn sort_tiles(entries: Vec<TileManifest>) -> (r: Vec<TileManifest>)
    ensures
        tiles_sorted(r@),
        r@.to_multiset() == entries@.to_multiset(),
{
    let mut rest = entries;
    let mut out: Vec<TileManifest> = Vec::new();
    proof {
        broadcast use vstd::seq_lib::group_to_multiset_ensures, vstd::multiset::group_multiset_properties;
        assert(out@.to_multiset() =~= Multiset::empty());
        assert(out@.to_multiset().add(rest@.to_multiset()) =~= rest@.to_multiset());
    }
    while rest.len() > 0
        invariant
            tiles_sorted(out@),
            out@.to_multiset().add(rest@.to_multiset()) == entries@.to_multiset(),
        decreases rest@.len(),
    {
        let ghost before_rest = rest@;
        let next = match rest.pop() {
            Some(e) => e,
            None => { return out; },
        };
        proof {
            assert(before_rest =~= rest@.push(next));
            vstd::seq_lib::to_multiset_build(rest@, next);
        }
        let mut p: usize = 0;
        while p < out.len() && (out[p].level < next.level || (out[p].level == next.level && (out[p].row < next.row || (
        out[p].row == next.row && out[p].column < next.column))))
            invariant
                p <= out@.len(),
                tiles_sorted(out@),
                forall|k: int| 0 <= k < p ==> key_lt(#[trigger] out@[k], next),
            decreases out@.len() - p,
        {
            p += 1;
        }
        let ghost before = out@;
        out.insert(p, next);
        proof {
            lemma_insert_multiset(before, p as int, next);
            assert forall|a: int, b: int| 0 <= a < b < out@.len() implies key_le(#[trigger] out@[a], #[trigger] out@[b]) by {
                if b == p {
                    assert(key_lt(before[a], next));
                } else if a == p {
                    assert(key_le(next, before[p as int]));
                    assert(key_le(before[p as int], before[b - 1]));
                } else if a < p && b > p {
                    assert(key_le(before[a], before[b - 1]));
                } else if b < p {
                    assert(key_le(before[a], before[b]));
                } else {
                    assert(key_le(before[a - 1], before[b - 1]));
                }
            }
        }
    }
    proof {
        broadcast use vstd::seq_lib::group_to_multiset_ensures, vstd::multiset::group_multiset_properties;
        assert(rest@.to_multiset() =~= Multiset::empty());
        assert(out@.to_multiset().add(rest@.to_multiset()) =~= out@.to_multiset());
    }
    out
}

/// A published tile: its manifest entry, canonical bytes and WebP bytes.
pub struct TileRecord {
    /// The manifest entry.
    pub entry: TileManifest,
    /// Canonical indexed bytes.
    pub raw_bytes: Vec<u8>,
    /// Lossless WebP bytes.
    pub webp_bytes: Vec<u8>,
}

/// Encodes one canonical tile and describes it for the manifest.
pub fn tile_record(level: u32, column: u32, row: u32, raw: &RawTile, palette: &[Rgb8]) -> (r: Result<TileRecord, PublishError>)
    requires
        raw.pixels@.len() == raw.width * raw.height,
    ensures
        r matches Ok(t) ==> {
            &&& t.raw_bytes@ == raw_tile_bytes(raw.width, raw.height, raw.pixels@)
            &&& t.webp_bytes@ == webp_lossless_rgb(palette_rgb(raw.pixels@, palette@), raw.width, raw.height)
            &&& t.entry.level == level && t.entry.column == column && t.entry.row == row
            &&& t.entry.width == raw.width && t.entry.height == raw.height
            &&& t.entry.canonical_sha256@ == hex_spec(sha256_spec(t.raw_bytes@))
            &&& t.entry.webp_sha256@ == hex_spec(sha256_spec(t.webp_bytes@))
            &&& t.entry.encoded_bytes == t.webp_bytes@.len()
        },
        16 + raw.pixels@.len() > usize::MAX ==> r matches Err(PublishError::CapacityOverflow),
        16 + raw.pixels@.len() <= usize::MAX && 3 * raw.pixels@.len() > usize::MAX ==> r matches Err(
            PublishError::CapacityOverflow,
        ),
        16 + raw.pixels@.len() <= usize::MAX && 3 * raw.pixels@.len() <= usize::MAX && !indices_in_palette(
            raw.pixels@,
            palette@.len(),
        ) ==> r matches Err(PublishError::InvalidCanonicalTile),
        16 + raw.pixels@.len() <= usize::MAX && 3 * raw.pixels@.len() <= usize::MAX && indices_in_palette(
            raw.pixels@,
            palette@.len(),
        ) ==> (r is Ok <==> (1 <= raw.width <= 16384 && 1 <= raw.height <= 16384)),
{
    let raw_bytes = match raw.to_bytes() {
        Ok(b) => b,
        Err(e) => return Err(e),
    };
    let webp_bytes = match encode_webp(raw, palette) {
        Ok(b) => b,
        Err(e) => return Err(e),
    };
    let canonical_sha256 = sha256_hex(raw_bytes.as_slice());
    let webp_sha256 = sha256_hex(webp_bytes.as_slice());
    let encoded_bytes = webp_bytes.len() as u64;
    Ok(TileRecord {
        entry: TileManifest {
            level,
            column,
            row,
            width: raw.width,
            height: raw.height,
            canonical_sha256,
            webp_sha256,
            encoded_bytes,
        },
        raw_bytes,
        webp_bytes,
    })
}

/// A tile of the level above that a reduced tile reads: its position and expected dimensions.
#[derive(Clone, Copy, Debug, Eq, PartialEq)]
pub struct SourceTile {
    /// Column in the level above.
    pub column: u32,
    /// Row in the level above.
    pub row: u32,
    /// Expected width.
    pub width: u32,
    /// Expected height.
    pub height: u32,
}

/// Whether the level above has a tile at `(c, r)`.
pub open spec fn source_exists(c: int, r: int, tile_size: u32, source_dimensions: (u32, u32)) -> bool {
    c * tile_size < source_dimensions.0 && r * tile_size < source_dimensions.1
}

/// The source tiles a reduced tile reads, row by row: the two-by-two block under it that exists.
pub open spec fn reduction_sources_spec(tile_size: u32, column: u32, row: u32, source_dimensions: (u32, u32)) -> Seq<SourceTile> {
    let cells = seq![(2 * column, 2 * row), (2 * column + 1, 2 * row), (2 * column, 2 * row + 1), (2 * column + 1, 2 * row + 1)];
    cells.filter(|cell: (int, int)| source_exists(cell.0, cell.1, tile_size, source_dimensions)).map_values(
        |cell: (int, int)|
            SourceTile {
                column: cell.0 as u32,
                row: cell.1 as u32,
                width: tile_extent(source_dimensions.0, cell.0 as u32, tile_size) as u32,
                height: tile_extent(source_dimensions.1, cell.1 as u32, tile_size) as u32,
            },
    )
}

/// The canonical tile a reduced tile's pixel reads from the level above, and the pixel in it.
pub open spec fn reduced_source(tile_size: u32, column: u32, row: u32, x: int, y: int) -> (int, int, int, int) {
    let sx = (column * tile_size + x) * 2;
    let sy = (row * tile_size + y) * 2;
    (sx / (tile_size as int), sy / (tile_size as int), sx % (tile_size as int), sy % (tile_size as int))
}

/// The index in `sources` of the tile at `(c, r)`, if it was read.
pub open spec fn find_source(sources: Seq<(u32, u32, RawTile)>, c: int, r: int) -> Option<int> {
    if exists|i: int| 0 <= i < sources.len() && sources[i].0 == c && sources[i].1 == r {
        Some(choose|i: int| 0 <= i < sources.len() && sources[i].0 == c && sources[i].1 == r)
    } else {
        None
    }
}

/// Whether the source pixel of reduced pixel `(x, y)` exists.
pub open spec fn reduced_pixel_ok(sources: Seq<(u32, u32, RawTile)>, tile_size: u32, column: u32, row: u32, x: int, y: int) -> bool {
    let (c, r, px, py) = reduced_source(tile_size, column, row, x, y);
    match find_source(sources, c, r) {
        Some(i) => px < sources[i].2.width && py < sources[i].2.height,
        None => false,
    }
}

/// The palette index of reduced pixel `(x, y)`: the top-left pixel of its two-by-two block.
pub open spec fn reduced_pixel(sources: Seq<(u32, u32, RawTile)>, tile_size: u32, column: u32, row: u32, x: int, y: int) -> u8 {
    let (c, r, px, py) = reduced_source(tile_size, column, row, x, y);
    let i = find_source(sources, c, r)->0;
    sources[i].2.pixels@[py * sources[i].2.width + px]
}

/// The reduced tile's pixels, row-major.
pub open spec fn reduced_pixels(sources: Seq<(u32, u32, RawTile)>, tile_size: u32, column: u32, row: u32, width: u32, height: u32) -> Seq<u8> {
    Seq::new(
        (width * height) as nat,
        |k: int| reduced_pixel(sources, tile_size, column, row, k % (width as int), k / (width as int)),
    )
}

/// Whether every source tile has one index per pixel and no two share a position.
pub open spec fn sources_ok(sources: Seq<(u32, u32, RawTile)>) -> bool {
    &&& forall|i: int| 0 <= i < sources.len() ==> (#[trigger] sources[i]).2.pixels@.len() == sources[i].2.width * sources[i].2.height
    &&& forall|i: int, j: int|
        #![trigger sources[i], sources[j]]
        0 <= i < j < sources.len() ==> !(sources[i].0 == sources[j].0 && sources[i].1 == sources[j].1)
}

/// The source tiles that reduced tile `(column, row)` reads from the level above.
pub fn reduction_sources(tile_size: u32, column: u32, row: u32, source_dimensions: (u32, u32)) -> (r: Vec<SourceTile>)
    requires
        tile_size >= 1,
        2 * column + 1 <= u32::MAX,
        2 * row + 1 <= u32::MAX,
    ensures
        r@ == reduction_sources_spec(tile_size, column, row, source_dimensions),
{
    let mut out: Vec<SourceTile> = Vec::new();
    let cells: [(u32, u32); 4] = [(2 * column, 2 * row), (2 * column + 1, 2 * row), (2 * column, 2 * row + 1), (2 * column + 1, 2 * row + 1)];
    let ghost spec_cells = seq![(2 * column, 2 * row), (2 * column + 1, 2 * row), (2 * column, 2 * row + 1), (2 * column + 1, 2 * row + 1)];
    let ghost pred = |cell: (int, int)| source_exists(cell.0, cell.1, tile_size, source_dimensions);
    let ghost f = |cell: (int, int)|
        SourceTile {
            column: cell.0 as u32,
            row: cell.1 as u32,
            width: tile_extent(source_dimensions.0, cell.0 as u32, tile_size) as u32,
            height: tile_extent(source_dimensions.1, cell.1 as u32, tile_size) as u32,
        };
    let mut k: usize = 0;
    while k < 4
        invariant
            k <= 4,
            tile_size >= 1,
            spec_cells == seq![(2 * column, 2 * row), (2 * column + 1, 2 * row), (2 * column, 2 * row + 1), (2 * column + 1, 2 * row + 1)],
            pred == (|cell: (int, int)| source_exists(cell.0, cell.1, tile_size, source_dimensions)),
            f == (|cell: (int, int)|
                SourceTile {
                    column: cell.0 as u32,
                    row: cell.1 as u32,
                    width: tile_extent(source_dimensions.0, cell.0 as u32, tile_size) as u32,
                    height: tile_extent(source_dimensions.1, cell.1 as u32, tile_size) as u32,
                }),
            forall|i: int| 0 <= i < 4 ==> (#[trigger] cells@[i]).0 == spec_cells[i].0 && cells@[i].1 == spec_cells[i].1,
            out@ == spec_cells.subrange(0, k as int).filter(pred).map_values(f),
        decreases 4 - k,
    {
        let (c, r) = cells[k];
        proof {
            assert(cells@[k as int] == (c, r));
            assert(c == spec_cells[k as int].0 && r == spec_cells[k as int].1);
            assert(spec_cells.subrange(0, k + 1) =~= spec_cells.subrange(0, k as int).push(spec_cells[k as int]));
            spec_cells.subrange(0, k as int).lemma_filter_push(spec_cells[k as int], pred);
            assert(c * tile_size <= 0xffff_ffffu64 * 0xffff_ffffu64) by (nonlinear_arith)
                requires c <= 0xffff_ffff, tile_size <= 0xffff_ffff;
            assert(r * tile_size <= 0xffff_ffffu64 * 0xffff_ffffu64) by (nonlinear_arith)
                requires r <= 0xffff_ffff, tile_size <= 0xffff_ffff;
        }
        if (c as u64) * (tile_size as u64) < source_dimensions.0 as u64 && (r as u64) * (tile_size as u64) < source_dimensions.1 as u64 {
            let w = tile_extent_of(source_dimensions.0, c, tile_size);
            let h = tile_extent_of(source_dimensions.1, r, tile_size);
            let ghost before = out@;
            out.push(SourceTile { column: c, row: r, width: w, height: h });
            proof {
                let head = spec_cells.subrange(0, k as int);
                assert(pred(spec_cells[k as int]));
                assert(head.push(spec_cells[k as int]).filter(pred) == head.filter(pred).push(spec_cells[k as int]));
                assert(f(spec_cells[k as int]) == SourceTile { column: c, row: r, width: w, height: h });
                assert(head.filter(pred).push(spec_cells[k as int]).map_values(f) =~= head.filter(pred).map_values(f).push(
                    f(spec_cells[k as int]),
                ));
                assert(out@ =~= spec_cells.subrange(0, k + 1).filter(pred).map_values(f));
            }
        } else {
            proof {
                let head = spec_cells.subrange(0, k as int);
                assert(!pred(spec_cells[k as int]));
                assert(head.push(spec_cells[k as int]).filter(pred) == head.filter(pred));
                assert(out@ =~= spec_cells.subrange(0, k + 1).filter(pred).map_values(f));
            }
        }
        k += 1;
    }
    proof {
        assert(spec_cells.subrange(0, 4) =~= spec_cells);
    }
    out
}

fn find_source_of(sources: &Vec<(u32, u32, RawTile)>, c: u64, r: u64) -> (found: Option<usize>)
    requires
        sources_ok(sources@),
    ensures
        found is None <==> find_source(sources@, c as int, r as int) is None,
        found matches Some(i) ==> find_source(sources@, c as int, r as int) == Some(i as int) && i < sources@.len(),
{
    let mut i: usize = 0;
    while i < sources.len()
        invariant
            i <= sources@.len(),
            sources_ok(sources@),
            forall|j: int| 0 <= j < i ==> !(sources@[j].0 == c && sources@[j].1 == r),
        decreases sources@.len() - i,
    {
        if sources[i].0 as u64 == c && sources[i].1 as u64 == r {
            proof {
                let k = choose|k: int| 0 <= k < sources@.len() && sources@[k].0 == c as int && sources@[k].1 == r as int;
                if k != i {
                    if k < i {
                        assert(!(sources@[k].0 == c && sources@[k].1 == r));
                    } else {
                        let a = sources@[i as int];
                        let b = sources@[k];
                        assert(!(a.0 == b.0 && a.1 == b.1));
                    }
                }
            }
            return Some(i);
        }
        i += 1;
    }
    None
}

fn reduce_pixel(sources: &Vec<(u32, u32, RawTile)>, tile_size: u32, column: u32, row: u32, x: u32, y: u32) -> (r: Option<u8>)
    requires
        tile_size >= 1,
        sources_ok(sources@),
    ensures
        r is Some <==> reduced_pixel_ok(sources@, tile_size, column, row, x as int, y as int),
        r matches Some(v) ==> v == reduced_pixel(sources@, tile_size, column, row, x as int, y as int),
{
    proof {
        assert((column * tile_size + x) * 2 <= (0xffff_ffffu64 * 0xffff_ffffu64 + 0xffff_ffffu64) * 2) by (nonlinear_arith)
            requires column <= 0xffff_ffff, tile_size <= 0xffff_ffff, x <= 0xffff_ffff;
        assert((row * tile_size + y) * 2 <= (0xffff_ffffu64 * 0xffff_ffffu64 + 0xffff_ffffu64) * 2) by (nonlinear_arith)
            requires row <= 0xffff_ffff, tile_size <= 0xffff_ffff, y <= 0xffff_ffff;
    }
    let sx: u128 = (column as u128 * tile_size as u128 + x as u128) * 2;
    let sy: u128 = (row as u128 * tile_size as u128 + y as u128) * 2;
    let ts = tile_size as u128;
    let c = sx / ts;
    let r = sy / ts;
    let px = sx % ts;
    let py = sy % ts;
    if c > u64::MAX as u128 || r > u64::MAX as u128 {
        proof {
            assert(find_source(sources@, c as int, r as int) is None);
        }
        return None;
    }
    let found = find_source_of(sources, c as u64, r as u64);
    match found {
        None => None,
        Some(i) => {
            let tile = &sources[i].2;
            if px >= tile.width as u128 || py >= tile.height as u128 {
                return None;
            }
            let n = tile.pixels.len();
            proof {
                assert(tile.pixels@.len() == tile.width * tile.height);
                assert(py * tile.width + px < tile.width * tile.height) by (nonlinear_arith)
                    requires py < tile.height, px < tile.width;
            }
            let index = py as usize * tile.width as usize + px as usize;
            Some(tile.pixels[index])
        },
    }
}

/// Reduces the level above into one tile: each pixel takes the top-left pixel of the
/// two-by-two block under it, from the source tiles read for it.
pub fn reduce_tile(
    sources: &Vec<(u32, u32, RawTile)>,
    tile_size: u32,
    column: u32,
    row: u32,
    width: u32,
    height: u32,
    palette_len: usize,
) -> (r: Result<RawTile, PublishError>)
    requires
        tile_size >= 1,
        sources_ok(sources@),
    ensures
        width * height > usize::MAX ==> r matches Err(PublishError::CapacityOverflow),
        width * height <= usize::MAX ==> (r is Ok <==> (forall|x: int, y: int|
            0 <= x < width && 0 <= y < height ==> #[trigger] reduced_pixel_ok(sources@, tile_size, column, row, x, y))
            && raw_tile_ok(width, height, reduced_pixels(sources@, tile_size, column, row, width, height), palette_len as nat)),
        width * height <= usize::MAX && r is Err ==> r matches Err(PublishError::InvalidCanonicalTile),
        r matches Ok(t) ==> t.width == width && t.height == height && t.pixels@ == reduced_pixels(
            sources@,
            tile_size,
            column,
            row,
            width,
            height,
        ),
{
    if let Err(e) = pixel_capacity(width, height) {
        return Err(e);
    }
    let mut pixels: Vec<u8> = Vec::new();
    let mut y: u32 = 0;
    while y < height
        invariant
            y <= height,
            width * height <= usize::MAX,
            tile_size >= 1,
            sources_ok(sources@),
            pixels@.len() == y * width,
            forall|k: int| 0 <= k < pixels@.len() ==> #[trigger] pixels@[k] == reduced_pixel(sources@, tile_size, column, row, k % (width as int), k / (width as int)),
            forall|px: int, py: int| 0 <= px < width && 0 <= py < y ==> #[trigger] reduced_pixel_ok(sources@, tile_size, column, row, px, py),
        decreases height - y,
    {
        let mut x: u32 = 0;
        while x < width
            invariant
                x <= width,
                y < height,
                width * height <= usize::MAX,
                tile_size >= 1,
                sources_ok(sources@),
                pixels@.len() == y * width + x,
                forall|k: int| 0 <= k < pixels@.len() ==> #[trigger] pixels@[k] == reduced_pixel(sources@, tile_size, column, row, k % (width as int), k / (width as int)),
                forall|px: int, py: int| 0 <= px < width && 0 <= py < y ==> #[trigger] reduced_pixel_ok(sources@, tile_size, column, row, px, py),
                forall|px: int| 0 <= px < x ==> #[trigger] reduced_pixel_ok(sources@, tile_size, column, row, px, y as int),
            decreases width - x,
        {
            match reduce_pixel(sources, tile_size, column, row, x, y) {
                None => {
                    return Err(PublishError::InvalidCanonicalTile);
                },
                Some(v) => {
                    proof {
                        vstd::arithmetic::div_mod::lemma_fundamental_div_mod_converse(
                            (y * width + x) as int,
                            width as int,
                            y as int,
                            x as int,
                        );
                        assert((y * width + x) as int == y * width + x);
                    }
                    pixels.push(v);
                },
            }
            x += 1;
        }
        proof {
            assert((y + 1) * width == y * width + width) by (nonlinear_arith);
        }
        y += 1;
    }
    proof {
        assert(height * width == width * height) by (nonlinear_arith);
        assert(pixels@ =~= reduced_pixels(sources@, tile_size, column, row, width, height));
    }
    RawTile::new(width, height, pixels, palette_len)
}

/// The tiles of one level, row by row: column, row, width and height.
pub open spec fn level_plan_spec(level_width: u32, level_height: u32, tile_size: u32) -> Seq<(u32, u32, u32, u32)> {
    let columns = tiles_across(level_width as nat, tile_size as nat);
    let rows = tiles_across(level_height as nat, tile_size as nat);
    Seq::new(
        columns * rows,
        |k: int|
            (
                (k % (columns as int)) as u32,
                (k / (columns as int)) as u32,
                tile_extent(level_width, (k % (columns as int)) as u32, tile_size) as u32,
                tile_extent(level_height, (k / (columns as int)) as u32, tile_size) as u32,
            ),
    )
}

/// The tiles of one level, row by row: column, row, width and height.
pub fn level_plan(level_width: u32, level_height: u32, tile_size: u32) -> (r: Vec<(u32, u32, u32, u32)>)
    requires
        tile_size >= 1,
    ensures
        r@ == level_plan_spec(level_width, level_height, tile_size),
{
    let columns = tiles_across_of(level_width, tile_size) as u32;
    let rows = tiles_across_of(level_height, tile_size) as u32;
    let mut out: Vec<(u32, u32, u32, u32)> = Vec::new();
    let ghost cols = columns as int;
    let mut row: u32 = 0;
    while row < rows
        invariant
            row <= rows,
            tile_size >= 1,
            columns == tiles_across(level_width as nat, tile_size as nat),
            rows == tiles_across(level_height as nat, tile_size as nat),
            out@.len() == row * columns,
            forall|k: int| 0 <= k < out@.len() ==> #[trigger] out@[k] == level_plan_spec(level_width, level_height, tile_size)[k],
        decreases rows - row,
    {
        let mut column: u32 = 0;
        while column < columns
            invariant
                column <= columns,
                row < rows,
                tile_size >= 1,
                columns == tiles_across(level_width as nat, tile_size as nat),
                rows == tiles_across(level_height as nat, tile_size as nat),
                out@.len() == row * columns + column,
                forall|k: int| 0 <= k < out@.len() ==> #[trigger] out@[k] == level_plan_spec(level_width, level_height, tile_size)[k],
            decreases columns - column,
        {
            let w = tile_extent_of(level_width, column, tile_size);
            let h = tile_extent_of(level_height, row, tile_size);
            proof {
                let k = row * columns + column;
                vstd::arithmetic::div_mod::lemma_fundamental_div_mod_converse(k as int, columns as int, row as int, column as int);
                assert(k < rows * columns) by (nonlinear_arith)
                    requires k == row * columns + column, column < columns, row < rows;
                assert(rows * columns == columns * rows) by (nonlinear_arith);
            }
            out.push((column, row, w, h));
            column += 1;
        }
        proof {
            assert((row + 1) * columns == row * columns + columns) by (nonlinear_arith);
        }
        row += 1;
    }
    proof {
        assert(rows * columns == columns * rows) by (nonlinear_arith);
        assert(out@ =~= level_plan_spec(level_width, level_height, tile_size));
    }
    out
}

/// A release ready to be written: its manifest and descriptor text.
pub struct Release {
    /// The release manifest.
    pub artifact: ReleaseArtifact,
    /// The DZI descriptor text.
    pub descriptor: String,
}

/// What [`assemble_release`] builds from its inputs.
pub open spec fn assembled_release(
    rel: Release,
    inputs: InputDigests,
    width: u32,
    height: u32,
    options: DziOptions,
    entries: Seq<TileManifest>,
) -> bool {
    let m = rel.artifact;
    &&& m.schema@ == "isometric-release/v1"@
    &&& m.status@ == "artifact-candidate"@
    &&& !m.qualified
    &&& m.world_sha256@ == inputs.world_sha256@
    &&& m.style_sha256@ == inputs.style_sha256@
    &&& m.dzi.descriptor@ == "hero.dzi"@
    &&& m.dzi.width == width && m.dzi.height == height
    &&& m.dzi.tile_size == options.tile_size
    &&& m.dzi.overlap == 0
    &&& m.dzi.format@ == "webp"@
    &&& m.dzi.max_level == dzi_max_level_spec(larger(width, height) as nat)
    &&& m.dzi.world_mm_per_half_step == options.world_mm_per_half_step
    &&& m.dzi.canonical_directory@ == "canonical"@
    &&& m.dzi.tile_directory@ == "hero_files"@
    &&& tiles_sorted(m.tiles@)
    &&& m.tiles@.to_multiset() == entries.to_multiset()
    &&& m.dzi.tile_count == m.tiles@.len()
    &&& m.dzi.encoded_bytes == encoded_total(m.tiles@)
    &&& m.dzi.tile_set_sha256@ == hex_spec(sha256_spec(tile_set_preimage(m.tiles@)))
    &&& rel.descriptor@ == descriptor_spec(width, height, options.tile_size)
    &&& m.dzi.descriptor_sha256@ == hex_spec(sha256_spec(encode_utf8(rel.descriptor@)))
    &&& m.dzi.descriptor_sha256@.len() == 64
    &&& m.dzi.tile_set_sha256@.len() == 64
}

/// Assembles the release manifest from the published tiles: entries in tile order, the
/// chain digest, the byte total, and the descriptor digest.
pub fn assemble_release(
    inputs: &InputDigests,
    width: u32,
    height: u32,
    options: DziOptions,
    entries: Vec<TileManifest>,
) -> (r: Result<Release, PublishError>)
    ensures
        r is Ok <==> encoded_total(entries@) <= u64::MAX,
        r matches Err(e) ==> e is CapacityOverflow,
        r matches Ok(rel) ==> assembled_release(rel, *inputs, width, height, options, entries@),
{
    let larger_edge = if width >= height { width } else { height };
    let max_level = dzi_max_level(larger_edge);
    let ghost input = entries@;
    let tiles = sort_tiles(entries);
    proof {
        lemma_encoded_total_permutation(tiles@, input);
    }
    let mut total: u64 = 0;
    let mut i: usize = 0;
    while i < tiles.len()
        invariant
            i <= tiles@.len(),
            total == encoded_total(tiles@.subrange(0, i as int)),
            encoded_total(tiles@) == encoded_total(input),
            input == entries@,
        decreases tiles@.len() - i,
    {
        proof {
            assert(tiles@.subrange(0, i + 1).drop_last() =~= tiles@.subrange(0, i as int));
        }
        let add = tiles[i].encoded_bytes;
        if total > u64::MAX - add {
            proof {
                lemma_encoded_total_monotone(tiles@, i + 1);
                assert(tiles@.subrange(0, i + 1).last() == tiles@[i as int]);
                assert(encoded_total(tiles@.subrange(0, i + 1)) == total + add);
                assert(encoded_total(input) > u64::MAX);
                assert(input == entries@);
            }
            return Err(PublishError::CapacityOverflow);
        }
        total = total + add;
        i += 1;
    }
    proof {
        assert(tiles@.subrange(0, tiles@.len() as int) =~= tiles@);
    }
    let tile_set_sha256 = tile_set_hash(tiles.as_slice());
    let text = descriptor(width, height, options.tile_size);
    let descriptor_sha256 = sha256_hex(text.as_str().as_bytes());
    let tile_count = tiles.len();
    let artifact = ReleaseArtifact {
        schema: "isometric-release/v1".to_string(),
        status: "artifact-candidate".to_string(),
        qualified: false,
        world_sha256: inputs.world_sha256.clone(),
        style_sha256: inputs.style_sha256.clone(),
        dzi: DziArtifact {
            descriptor: "hero.dzi".to_string(),
            width,
            height,
            tile_size: options.tile_size,
            overlap: 0,
            format: "webp".to_string(),
            max_level,
            world_mm_per_half_step: options.world_mm_per_half_step,
            tile_count,
            encoded_bytes: total,
            descriptor_sha256,
            tile_set_sha256,
            canonical_directory: "canonical".to_string(),
            tile_directory: "hero_files".to_string(),
        },
        tiles,
    };
    Ok(Release { artifact, descriptor: text })
}

proof fn lemma_encoded_total_permutation(a: Seq<TileManifest>, b: Seq<TileManifest>)
    requires
        a.to_multiset() == b.to_multiset(),
    ensures
        encoded_total(a) == encoded_total(b),
    decreases a.len(),
{
    broadcast use vstd::seq_lib::group_to_multiset_ensures, vstd::multiset::group_multiset_properties;
    if a.len() == 0 {
        assert(b.to_multiset().len() == 0);
        assert(b.len() == 0);
    } else {
        let x = a.last();
        assert(a.to_multiset().count(x) > 0) by {
            assert(a.contains(x)) by {
                assert(a[a.len() - 1] == x);
            }
        }
        assert(b.contains(x));
        let j = choose|j: int| 0 <= j < b.len() && b[j] == x;
        let b2 = b.remove(j);
        assert(b2.to_multiset() =~= b.to_multiset().remove(x));
        assert(a.drop_last() =~= a.remove(a.len() - 1));
        assert(a.drop_last().to_multiset() =~= a.to_multiset().remove(x));
        lemma_encoded_total_permutation(a.drop_last(), b2);
        lemma_encoded_total_remove(b, j);
    }
}

proof fn lemma_encoded_total_remove(s: Seq<TileManifest>, j: int)
    requires
        0 <= j < s.len(),
    ensures
        encoded_total(s) == encoded_total(s.remove(j)) + s[j].encoded_bytes,
    decreases s.len(),
{
    if j == s.len() - 1 {
        assert(s.remove(j) =~= s.drop_last());
    } else {
        lemma_encoded_total_remove(s.drop_last(), j);
        assert(s.remove(j).drop_last() =~= s.drop_last().remove(j));
        assert(s.remove(j).last() == s.last());
    }
}

proof fn lemma_bit_length_range(n: nat)
    requires
        n >= 1,
    ensures
        bit_length(n) >= 1,
        two_pow((bit_length(n) - 1) as nat) <= n < two_pow(bit_length(n)),
    decreases n,
{
    if n == 1 {
        assert(bit_length(0) == 0);
    } else {
        lemma_bit_length_range(n / 2);
    }
}

/// The highest level is the least number of halvings that brings the larger edge to one
/// pixel: `2^max_level` is at least the edge, and `2^(max_level - 1)` is below it.
pub proof fn lemma_max_level_is_ceil_log2(max_dimension: nat)
    requires
        max_dimension >= 1,
    ensures
        max_dimension <= two_pow(dzi_max_level_spec(max_dimension)),
        dzi_max_level_spec(max_dimension) > 0 ==> two_pow((dzi_max_level_spec(max_dimension) - 1) as nat) < max_dimension,
{
    if max_dimension > 1 {
        lemma_bit_length_range((max_dimension - 1) as nat);
    }
}

proof fn lemma_halve_up_at_most(value: nat, k: nat, c: nat)
    requires
        c >= 1,
        value <= c * two_pow(k),
    ensures
        halve_up(value, k) <= c,
    decreases k,
{
    if k > 0 {
        assert(c * two_pow(k) == (2 * c) * two_pow((k - 1) as nat)) by (nonlinear_arith)
            requires two_pow(k) == 2 * two_pow((k - 1) as nat);
        lemma_halve_up_at_most(value, (k - 1) as nat, 2 * c);
        assert(halve_up(value, k) == (halve_up(value, (k - 1) as nat) + 1) / 2);
    } else {
        assert(two_pow(0) == 1);
        assert(c * 1 == c);
    }
}

proof fn lemma_halve_up_positive(value: nat, k: nat)
    requires
        value >= 1,
    ensures
        halve_up(value, k) >= 1,
    decreases k,
{
    if k > 0 {
        lemma_halve_up_positive(value, (k - 1) as nat);
    }
}

/// With the highest level chosen from the larger edge, the lowest level of the pyramid is a
/// single pixel and every level halves the one above it, rounding up.
pub proof fn lemma_pyramid_ends_in_one_pixel(width: u32, height: u32)
    requires
        width >= 1,
        height >= 1,
        dzi_max_level_spec(larger(width, height) as nat) <= u32::MAX,
    ensures
        ({
            let max_level = dzi_max_level_spec(larger(width, height) as nat) as u32;
            let dims = level_dimensions_spec(width, height, max_level);
            &&& dims[0] == (1u32, 1u32)
            &&& dims[max_level as int] == (width, height)
            &&& forall|l: int| 0 <= l < max_level ==> #[trigger] dims[l] == (
                ((dims[l + 1].0 + 1) / 2) as u32,
                ((dims[l + 1].1 + 1) / 2) as u32,
            )
        }),
{
    let m = larger(width, height) as nat;
    let max_level = dzi_max_level_spec(m) as u32;
    let dims = level_dimensions_spec(width, height, max_level);
    lemma_max_level_is_ceil_log2(m);
    lemma_halve_up_at_most(width as nat, max_level as nat, 1);
    lemma_halve_up_at_most(height as nat, max_level as nat, 1);
    lemma_halve_up_positive(width as nat, max_level as nat);
    lemma_halve_up_positive(height as nat, max_level as nat);
    assert forall|l: int| 0 <= l < max_level implies #[trigger] dims[l] == (
        ((dims[l + 1].0 + 1) / 2) as u32,
        ((dims[l + 1].1 + 1) / 2) as u32,
    ) by {
        lemma_halve_up_bounded(width as nat, (max_level - (l + 1)) as nat);
        lemma_halve_up_bounded(height as nat, (max_level - (l + 1)) as nat);
        assert((max_level - l) as nat == ((max_level - (l + 1)) as nat + 1) as nat);
    }
}

/// What publication assembles, release validation accepts: for valid input digests, the
/// prototype options, a non-empty image and a palette of 1 to 128 colors, the metadata and
/// descriptor checks pass, and the tile list is in order with the count and chain digest it
/// records.
pub proof fn lemma_assembled_release_validates(
    rel: Release,
    inputs: InputDigests,
    width: u32,
    height: u32,
    options: DziOptions,
    entries: Seq<TileManifest>,
    palette_len: nat,
)
    requires
        assembled_release(rel, inputs, width, height, options, entries),
        sha_text(inputs.world_sha256@),
        sha_text(inputs.style_sha256@),
        options.tile_size == TILE_SIZE,
        options.world_mm_per_half_step == WORLD_MM_PER_HALF_STEP,
        width >= 1,
        height >= 1,
        1 <= palette_len <= MAX_PALETTE_COLORS,
    ensures
        release_metadata_ok(rel.artifact, palette_len),
        descriptor_ok(encode_utf8(rel.descriptor@), rel.artifact),
        tiles_sorted(rel.artifact.tiles@),
        rel.artifact.tiles@.len() == rel.artifact.dzi.tile_count,
        hex_spec(sha256_spec(tile_set_preimage(rel.artifact.tiles@))) == rel.artifact.dzi.tile_set_sha256@,
{
    crate::digest::lemma_hex_is_sha_text(sha256_spec(encode_utf8(rel.descriptor@)));
    crate::digest::lemma_hex_is_sha_text(sha256_spec(tile_set_preimage(rel.artifact.tiles@)));
}


proof fn lemma_le32_word(u: u32)
    ensures
        le32(u)[0] + 256 * le32(u)[1] + 65536 * le32(u)[2] + 16777216 * le32(u)[3] == u,
{
    assert((u % 256) + 256 * ((u / 256) % 256) + 65536 * ((u / 65536) % 256) + 16777216 * (u / 16777216) == u) by (bit_vector);
}

/// Canonical tile bytes read back as the same tile: the header carries the dimensions and
/// the indices follow it unchanged, so parsing accepts exactly the tiles that creation accepts.
pub proof fn lemma_raw_tile_round_trip(width: u32, height: u32, pixels: Seq<u8>)
    ensures
        raw_header_ok(raw_tile_bytes(width, height, pixels), width, height),
        raw_tile_bytes(width, height, pixels).subrange(16, raw_tile_bytes(width, height, pixels).len() as int) == pixels,
{
    let b = raw_tile_bytes(width, height, pixels);
    lemma_le32_word(width);
    lemma_le32_word(height);
    assert(b.subrange(0, 8) =~= raw_magic());
    assert(b[8] == le32(width)[0] && b[9] == le32(width)[1] && b[10] == le32(width)[2] && b[11] == le32(width)[3]);
    assert(b[12] == le32(height)[0] && b[13] == le32(height)[1] && b[14] == le32(height)[2] && b[15] == le32(height)[3]);
    assert(b.subrange(16, b.len() as int) =~= pixels);
}

proof fn lemma_bit_length_bounds(n: nat)
    requires
        n >= 1,
    ensures
        bit_length(n) >= 1,
        vstd::arithmetic::power2::pow2((bit_length(n) - 1) as nat) <= n < vstd::arithmetic::power2::pow2(bit_length(n)),
    decreases n,
{
    vstd::arithmetic::power2::lemma_pow2_unfold(bit_length(n));
    if n >= 2 {
        lemma_bit_length_bounds(n / 2);
        vstd::arithmetic::power2::lemma_pow2_unfold(bit_length(n / 2));
        if bit_length(n / 2) >= 1 {
            vstd::arithmetic::power2::lemma_pow2_unfold((bit_length(n) - 1) as nat);
        }
    } else {
        assert(bit_length(0) == 0);
        vstd::arithmetic::power2::lemma2_to64();
    }
}

/// The highest DZI level is the number of halvings that bring the larger edge to one pixel:
/// the least `L` with `max_dimension <= 2^L`.
pub proof fn lemma_dzi_max_level_halves_to_one_pixel(max_dimension: nat)
    ensures
        max_dimension <= vstd::arithmetic::power2::pow2(dzi_max_level_spec(max_dimension)),
        max_dimension >= 2 ==> vstd::arithmetic::power2::pow2((dzi_max_level_spec(max_dimension) - 1) as nat)
            < max_dimension,
{
    if max_dimension <= 1 {
        vstd::arithmetic::power2::lemma2_to64();
    } else {
        lemma_bit_length_bounds((max_dimension - 1) as nat);
    }
}

} // verus!
