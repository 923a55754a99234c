//! Registered, content-addressed reference-layer contracts: every captured
//! layer shares one pixel grid and one orthographic camera.
use vstd::prelude::*;
use vstd::string::StringSliceAdditionalSpecFns;
use vstd::utf8::encode_utf8;
use crate::digest::{is_sha256, is_sha256_bytes};
use crate::text::{has_control, has_control_spec, str_eq};

verus! {

broadcast use vstd::string::group_string_axioms;

/// Portable reference-manifest schema.
pub const MANIFEST_SCHEMA: &'static str = "isometric-reference-manifest/v2";
/// Stem of the canonical manifest filename inside a reference bundle.
pub const MANIFEST_STEM: &'static str = "reference.manifest";
/// Extension of the canonical manifest file; the file is `<stem>.<extension>`.
pub const MANIFEST_EXTENSION: &'static str = "json";
/// Minimum accepted valid-pixel coverage for a pilot core.
pub const MIN_CORE_COVERAGE_BASIS_POINTS: u16 = 9_950;
/// Largest capture edge.
pub const MAX_CAPTURE_DIMENSION: u32 = 4_096;
/// Reference provider accepted by version two.
pub const REFERENCE_PROVIDER: &'static str = "google-photorealistic-3d-tiles";

/// Fail-closed reference contract error.
#[derive(Clone, Debug, Eq, PartialEq)]
pub enum ReferenceError {
    /// A manifest or artifact violates a reference invariant.
    Invalid(String),
}

impl ReferenceError {
    /// Human-readable description.
    pub fn message(&self) -> (r: &str)
        ensures
            r@ == (match *self {
                ReferenceError::Invalid(m) => m@,
            }),
    {
        match self {
            ReferenceError::Invalid(message) => message.as_str(),
        }
    }
}

fn invalid(message: &str) -> (e: ReferenceError)
    ensures
        e matches ReferenceError::Invalid(m) && m@ == message@,
{
    ReferenceError::Invalid(message.to_string())
}

/// Portable PNG color layouts accepted by the reference encoder.
#[derive(Clone, Copy, Debug, Eq, PartialEq, Structural)]
pub enum PngColorType {
    /// One 8-bit grayscale channel.
    Grayscale,
    /// Four 8-bit red, green, blue, and alpha channels.
    Rgba,
}

/// Channels per pixel.
pub open spec fn channels_spec(c: PngColorType) -> int {
    match c {
        PngColorType::Grayscale => 1,
        PngColorType::Rgba => 4,
    }
}

/// The PNG IHDR color-type byte.
pub open spec fn png_value_spec(c: PngColorType) -> u8 {
    match c {
        PngColorType::Grayscale => 0,
        PngColorType::Rgba => 6,
    }
}

impl PngColorType {
    /// Channels per pixel.
    pub fn channels(self) -> (r: u64)
        ensures
            r == channels_spec(self),
    {
        match self {
            PngColorType::Grayscale => 1,
            PngColorType::Rgba => 4,
        }
    }

    /// The PNG IHDR color-type byte.
    pub fn png_value(self) -> (r: u8)
        ensures
            r == png_value_spec(self),
    {
        match self {
            PngColorType::Grayscale => 0,
            PngColorType::Rgba => 6,
        }
    }
}

/// One guarded capture region in a stable world grid.
#[derive(Clone, Debug, Eq, PartialEq)]
pub struct TileSpec {
    /// Stable region identifier.
    pub region_id: String,
    /// Stable supertile column.
    pub column: i32,
    /// Stable supertile row.
    pub row: i32,
    /// Saved core width before downstream art-cell subdivision.
    pub core_width_px: u16,
    /// Saved core height before downstream art-cell subdivision.
    pub core_height_px: u16,
    /// Context rendered outside every core edge.
    pub guard_px: u16,
    /// Ground scale in integer millimeters.
    pub millimeters_per_pixel: u32,
    /// Longitude of the orthographic target in degrees times ten million.
    pub center_longitude_e7: i32,
    /// Latitude of the orthographic target in degrees times ten million.
    pub center_latitude_e7: i32,
}

impl TileSpec {
    /// Total registered layer width including both guards.
    pub fn total_width_px(&self) -> (r: u32)
        ensures
            r == self.core_width_px + 2 * self.guard_px,
    {
        self.core_width_px as u32 + 2 * self.guard_px as u32
    }

    /// Total registered layer height including both guards.
    pub fn total_height_px(&self) -> (r: u32)
        ensures
            r == self.core_height_px + 2 * self.guard_px,
    {
        self.core_height_px as u32 + 2 * self.guard_px as u32
    }
}

/// Integer orthographic camera shared by every registered layer.
#[derive(Clone, Debug, Eq, PartialEq)]
pub struct CameraSpec {
    /// Projection contract. Version one accepts only `orthographic`.
    pub projection: String,
    /// Clockwise azimuth in degrees times one thousand.
    pub azimuth_millidegrees: u32,
    /// Elevation above the horizon in degrees times one thousand.
    pub elevation_millidegrees: u32,
    /// Camera target altitude relative to the reference ellipsoid.
    pub target_altitude_mm: i64,
    /// Positive near clipping plane in millimeters.
    pub near_mm: u64,
    /// Far clipping plane in millimeters.
    pub far_mm: u64,
    /// Exact horizontal orthographic span.
    pub orthographic_width_mm: u64,
    /// Exact vertical orthographic span.
    pub orthographic_height_mm: u64,
    /// Camera distance from the geographic target along the view direction.
    pub camera_distance_mm: u64,
}

/// Fixed project lighting used for the registered shadow pass.
#[derive(Clone, Debug, Eq, PartialEq)]
pub struct LightingSpec {
    /// Clockwise sun azimuth in degrees times one thousand.
    pub sun_azimuth_millidegrees: u32,
    /// Sun elevation in degrees times one thousand.
    pub sun_elevation_millidegrees: u32,
}

/// Capture implementation and upstream identity.
#[derive(Clone, Debug, Eq, PartialEq)]
pub struct CaptureSpec {
    /// Stable renderer implementation identifier.
    pub renderer: String,
    /// Pinned renderer build or commit.
    pub renderer_version: String,
    /// Reference provider identifier.
    pub provider: String,
    /// Provider epoch or acquisition timestamp.
    pub source_epoch: String,
    /// Whether the capture reached the strict readiness contract.
    pub complete: bool,
    /// Provider attribution records visible during reference capture.
    pub attributions: Vec<String>,
}

/// Registered layer type.
#[derive(Clone, Copy, Debug, Eq, PartialEq, Structural)]
pub enum LayerKind {
    /// Textured color render.
    Color,
    /// Neutral untextured geometry.
    Whitebox,
    /// Linear camera depth in integer millimeters.
    LinearDepth,
    /// Encoded view-space surface normals.
    ViewNormal,
    /// Shadow-only pass generated with [`LightingSpec`].
    FixedShadow,
    /// Valid-source coverage mask.
    Coverage,
}

/// Position of a layer kind in the required bundle order.
pub open spec fn layer_position(k: LayerKind) -> int {
    match k {
        LayerKind::Color => 0,
        LayerKind::Whitebox => 1,
        LayerKind::LinearDepth => 2,
        LayerKind::ViewNormal => 3,
        LayerKind::FixedShadow => 4,
        LayerKind::Coverage => 5,
    }
}

/// Required bundle-relative filename.
pub open spec fn layer_filename(k: LayerKind) -> Seq<char> {
    match k {
        LayerKind::Color => "color.png"@,
        LayerKind::Whitebox => "whitebox.png"@,
        LayerKind::LinearDepth => "depth.bin"@,
        LayerKind::ViewNormal => "normal.png"@,
        LayerKind::FixedShadow => "fixed-shadow.png"@,
        LayerKind::Coverage => "coverage.png"@,
    }
}

/// Required portable encoding identifier.
pub open spec fn layer_encoding(k: LayerKind) -> Seq<char> {
    match k {
        LayerKind::Color | LayerKind::Whitebox | LayerKind::ViewNormal => "png-rgba8"@,
        LayerKind::LinearDepth => "raw-u32le-millimeters"@,
        LayerKind::FixedShadow | LayerKind::Coverage => "png-gray8"@,
    }
}

/// PNG color type of a layer, or `None` for the raw depth layer.
pub open spec fn layer_png_color(k: LayerKind) -> Option<u8> {
    match k {
        LayerKind::Color | LayerKind::Whitebox | LayerKind::ViewNormal => Some(6u8),
        LayerKind::FixedShadow | LayerKind::Coverage => Some(0u8),
        LayerKind::LinearDepth => None,
    }
}

impl LayerKind {
    /// Required bundle-relative filename.
    pub fn filename(self) -> (r: &'static str)
        ensures
            r@ == layer_filename(self),
    {
        match self {
            LayerKind::Color => "color.png",
            LayerKind::Whitebox => "whitebox.png",
            LayerKind::LinearDepth => "depth.bin",
            LayerKind::ViewNormal => "normal.png",
            LayerKind::FixedShadow => "fixed-shadow.png",
            LayerKind::Coverage => "coverage.png",
        }
    }

    /// Required portable encoding identifier.
    pub fn encoding(self) -> (r: &'static str)
        ensures
            r@ == layer_encoding(self),
    {
        match self {
            LayerKind::Color | LayerKind::Whitebox | LayerKind::ViewNormal => "png-rgba8",
            LayerKind::LinearDepth => "raw-u32le-millimeters",
            LayerKind::FixedShadow | LayerKind::Coverage => "png-gray8",
        }
    }

    /// PNG color type of the layer, or `None` for raw depth.
    pub fn png_color_type(self) -> (r: Option<u8>)
        ensures
            r == layer_png_color(self),
    {
        match self {
            LayerKind::Color | LayerKind::Whitebox | LayerKind::ViewNormal => Some(6),
            LayerKind::FixedShadow | LayerKind::Coverage => Some(0),
            LayerKind::LinearDepth => None,
        }
    }

    /// Position in the required bundle order.
    pub fn position(self) -> (r: usize)
        ensures
            r == layer_position(self),
    {
        match self {
            LayerKind::Color => 0,
            LayerKind::Whitebox => 1,
            LayerKind::LinearDepth => 2,
            LayerKind::ViewNormal => 3,
            LayerKind::FixedShadow => 4,
            LayerKind::Coverage => 5,
        }
    }
}

/// One immutable registered-layer record.
#[derive(Clone, Debug, Eq, PartialEq)]
pub struct LayerRecord {
    /// Semantic layer identity.
    pub kind: LayerKind,
    /// Safe path relative to the bundle directory.
    pub path: String,
    /// Portable encoding identifier.
    pub encoding: String,
    /// Registered image width.
    pub width_px: u32,
    /// Registered image height.
    pub height_px: u32,
    /// Exact file length.
    pub byte_length: u64,
    /// Lowercase SHA-256 over exact file bytes.
    pub sha256: String,
}

/// Complete immutable contract for one registered capture.
#[derive(Clone, Debug, Eq, PartialEq)]
pub struct ReferenceManifest {
    /// Schema identifier.
    pub schema: String,
    /// Stable content role identifier.
    pub bundle_id: String,
    /// Guarded world-grid region.
    pub tile: TileSpec,
    /// Shared orthographic camera.
    pub camera: CameraSpec,
    /// Shared fixed lighting.
    pub lighting: LightingSpec,
    /// Capture implementation identity.
    pub capture: CaptureSpec,
    /// Valid-pixel coverage inside the saved core.
    pub core_coverage_basis_points: u16,
    /// Exactly one record for every [`LayerKind`].
    pub layers: Vec<LayerRecord>,
}

/// What was observed of one layer file: its length, digest and leading bytes.
#[derive(Clone, Debug, Eq, PartialEq)]
pub struct LayerEvidence {
    /// Exact file length.
    pub byte_length: u64,
    /// Lowercase SHA-256 over exact file bytes.
    pub sha256: String,
    /// The first bytes of the file (at least 26 for PNG, 16 for depth).
    pub header: Vec<u8>,
}

/// Verified bundle evidence returned to downstream stages.
#[derive(Clone, Debug, Eq, PartialEq)]
pub struct BundleReport {
    /// SHA-256 over canonical manifest JSON.
    pub manifest_sha256: String,
    /// Verified layer digests in stable layer order.
    pub layer_sha256: Vec<(LayerKind, String)>,
    /// Sum of exact registered layer bytes.
    pub total_layer_bytes: u64,
}

/// A lowercase safe identifier of at most 64 bytes.
pub open spec fn identifier_ok(bytes: Seq<u8>) -> bool {
    1 <= bytes.len() <= 64 && forall|i: int| 0 <= i < bytes.len() ==> crate::mask::identity_byte(#[trigger] bytes[i])
}

/// Whether a string is a lowercase safe identifier of at most 64 bytes.
pub fn is_identifier(value: &str) -> (r: bool)
    ensures
        r == identifier_ok(value.spec_bytes()),
{
    let bytes = value.as_bytes();
    if bytes.len() == 0 || bytes.len() > 64 {
        return false;
    }
    let mut i: usize = 0;
    while i < bytes.len()
        invariant
            bytes@ == value.spec_bytes(),
            1 <= bytes@.len() <= 64,
            i <= bytes@.len(),
            forall|j: int| 0 <= j < i ==> crate::mask::identity_byte(#[trigger] bytes@[j]),
        decreases bytes@.len() - i,
    {
        let b = bytes[i];
        if !((0x61 <= b && b <= 0x7a) || (0x30 <= b && b <= 0x39) || b == 0x2d) {
            return false;
        }
        i += 1;
    }
    true
}

/// Tile, camera and lighting facts of an accepted manifest.
pub open spec fn tile_and_camera_ok(m: ReferenceManifest, width: int, height: int) -> bool {
    &&& m.tile.core_width_px != 0 && m.tile.core_height_px != 0 && m.tile.guard_px != 0
    &&& width <= MAX_CAPTURE_DIMENSION && height <= MAX_CAPTURE_DIMENSION
    &&& m.tile.millimeters_per_pixel != 0
    &&& -1_800_000_000 <= m.tile.center_longitude_e7 <= 1_800_000_000
    &&& -900_000_000 <= m.tile.center_latitude_e7 <= 900_000_000
    &&& m.camera.projection@ == "orthographic"@
    &&& m.camera.azimuth_millidegrees < 360_000
    &&& 1_000 <= m.camera.elevation_millidegrees < 90_000
    &&& m.camera.near_mm != 0
    &&& m.camera.far_mm > m.camera.near_mm
    &&& m.camera.camera_distance_mm > m.camera.near_mm
    &&& m.camera.camera_distance_mm < m.camera.far_mm
    &&& m.camera.orthographic_width_mm == width * m.tile.millimeters_per_pixel
    &&& m.camera.orthographic_height_mm == height * m.tile.millimeters_per_pixel
    &&& m.lighting.sun_azimuth_millidegrees < 360_000
    &&& 1_000 <= m.lighting.sun_elevation_millidegrees < 90_000
}

/// Validate tile, camera and lighting against the registered grid.
pub fn validate_tile_and_camera(manifest: &ReferenceManifest, width: u32, height: u32) -> (r: Result<(), ReferenceError>)
    ensures
        r is Ok <==> tile_and_camera_ok(*manifest, width as int, height as int),
{
    let tile = &manifest.tile;
    let camera = &manifest.camera;
    if tile.core_width_px == 0 || tile.core_height_px == 0 || tile.guard_px == 0 || width > MAX_CAPTURE_DIMENSION
        || height > MAX_CAPTURE_DIMENSION || tile.millimeters_per_pixel == 0 {
        return Err(invalid("reference tile dimensions, guard, or scale are unsafe"));
    }
    if !(-1_800_000_000 <= tile.center_longitude_e7 && tile.center_longitude_e7 <= 1_800_000_000) || !(-900_000_000
        <= tile.center_latitude_e7 && tile.center_latitude_e7 <= 900_000_000) {
        return Err(invalid("reference target longitude or latitude is invalid"));
    }
    if !str_eq(camera.projection.as_str(), "orthographic") || camera.azimuth_millidegrees >= 360_000 || !(1_000
        <= camera.elevation_millidegrees && camera.elevation_millidegrees < 90_000) || camera.near_mm == 0
        || camera.far_mm <= camera.near_mm || camera.camera_distance_mm <= camera.near_mm || camera.camera_distance_mm
        >= camera.far_mm {
        return Err(invalid("reference camera contract is invalid"));
    }
    proof {
        assert(width as int * tile.millimeters_per_pixel as int <= 4096 * 0xffff_ffff) by (nonlinear_arith)
            requires
                width <= 4096,
        ;
        assert(height as int * tile.millimeters_per_pixel as int <= 4096 * 0xffff_ffff) by (nonlinear_arith)
            requires
                height <= 4096,
        ;
    }
    let expected_width_mm = width as u64 * tile.millimeters_per_pixel as u64;
    let expected_height_mm = height as u64 * tile.millimeters_per_pixel as u64;
    if camera.orthographic_width_mm != expected_width_mm || camera.orthographic_height_mm != expected_height_mm {
        return Err(invalid("orthographic span does not match the registered pixel grid"));
    }
    if manifest.lighting.sun_azimuth_millidegrees >= 360_000 || !(1_000 <= manifest.lighting.sun_elevation_millidegrees
        && manifest.lighting.sun_elevation_millidegrees < 90_000) {
        return Err(invalid("reference lighting contract is invalid"));
    }
    Ok(())
}

/// One acceptable attribution record.
pub open spec fn attribution_ok(a: Seq<char>) -> bool {
    a.len() > 0 && encode_utf8(a).len() <= 2_048 && !has_control_spec(a)
}

/// Capture and coverage facts of an accepted manifest.
pub open spec fn capture_ok(m: ReferenceManifest) -> bool {
    &&& m.capture.renderer@.len() > 0
    &&& m.capture.renderer_version@.len() > 0
    &&& m.capture.provider@ == REFERENCE_PROVIDER@
    &&& m.capture.source_epoch@.len() > 0
    &&& m.capture.complete
    &&& 1 <= m.capture.attributions@.len() <= 64
    &&& forall|i: int| 0 <= i < m.capture.attributions@.len() ==> attribution_ok(#[trigger] m.capture.attributions@[i]@)
    &&& MIN_CORE_COVERAGE_BASIS_POINTS <= m.core_coverage_basis_points <= 10_000
}

/// Validate capture identity and core coverage.
pub fn validate_capture(manifest: &ReferenceManifest) -> (r: Result<(), ReferenceError>)
    ensures
        r is Ok <==> capture_ok(*manifest),
{
    let capture = &manifest.capture;
    if capture.renderer.as_str().is_empty() || capture.renderer_version.as_str().is_empty() || !str_eq(
        capture.provider.as_str(),
        REFERENCE_PROVIDER,
    ) || capture.source_epoch.as_str().is_empty() || !capture.complete || capture.attributions.len() == 0
        || capture.attributions.len() > 64 {
        return Err(invalid("reference capture is incomplete or lacks identity"));
    }
    let mut i: usize = 0;
    while i < capture.attributions.len()
        invariant
            *capture == manifest.capture,
            i <= capture.attributions@.len(),
            forall|j: int| 0 <= j < i ==> attribution_ok(#[trigger] capture.attributions@[j]@),
        decreases capture.attributions@.len() - i,
    {
        let attribution = capture.attributions[i].as_str();
        let bytes = attribution.as_bytes();
        if attribution.is_empty() || bytes.len() > 2_048 || has_control(attribution) {
            return Err(invalid("reference capture is incomplete or lacks identity"));
        }
        i += 1;
    }
    if !(MIN_CORE_COVERAGE_BASIS_POINTS <= manifest.core_coverage_basis_points && manifest.core_coverage_basis_points
        <= 10_000) {
        return Err(invalid("reference core coverage is below the pilot gate"));
    }
    Ok(())
}

/// Layer facts of an accepted manifest: every kind once, in order, registered to the grid.
pub open spec fn layers_ok(m: ReferenceManifest, width: int, height: int) -> bool {
    &&& m.layers@.len() == 6
    &&& forall|i: int|
        0 <= i < 6 ==> {
            let layer = #[trigger] m.layers@[i];
            &&& layer_position(layer.kind) == i
            &&& layer.path@ == layer_filename(layer.kind)
            &&& layer.encoding@ == layer_encoding(layer.kind)
            &&& layer.width_px == width && layer.height_px == height
            &&& layer.byte_length != 0
            &&& is_sha256_bytes(encode_utf8(layer.sha256@))
        }
}

/// Validate the six layer records.
pub fn validate_layers(manifest: &ReferenceManifest, width: u32, height: u32) -> (r: Result<(), ReferenceError>)
    ensures
        r is Ok <==> layers_ok(*manifest, width as int, height as int),
{
    let layers = &manifest.layers;
    if layers.len() != 6 {
        return Err(invalid("reference manifest must contain each required layer exactly once"));
    }
    let mut i: usize = 0;
    while i < 6
        invariant
            *layers == manifest.layers,
            layers@.len() == 6,
            i <= 6,
            forall|j: int| 0 <= j < i ==> layer_position(#[trigger] layers@[j].kind) == j,
        decreases 6 - i,
    {
        if layers[i].kind.position() != i {
            return Err(invalid("reference manifest must contain each required layer exactly once"));
        }
        i += 1;
    }
    let mut i: usize = 0;
    while i < 6
        invariant
            *layers == manifest.layers,
            layers@.len() == 6,
            i <= 6,
            forall|j: int| 0 <= j < 6 ==> layer_position(#[trigger] layers@[j].kind) == j,
            forall|j: int|
                0 <= j < i ==> {
                    let layer = #[trigger] layers@[j];
                    &&& layer.path@ == layer_filename(layer.kind)
                    &&& layer.encoding@ == layer_encoding(layer.kind)
                    &&& layer.width_px == width && layer.height_px == height
                    &&& layer.byte_length != 0
                    &&& is_sha256_bytes(encode_utf8(layer.sha256@))
                },
        decreases 6 - i,
    {
        let layer = &layers[i];
        if !str_eq(layer.path.as_str(), layer.kind.filename()) || !str_eq(layer.encoding.as_str(), layer.kind.encoding())
            || layer.width_px != width || layer.height_px != height || layer.byte_length == 0 || !is_sha256(
            layer.sha256.as_str(),
        ) {
            return Err(invalid("reference layer violates its portable contract"));
        }
        i += 1;
    }
    Ok(())
}

/// A complete accepted reference manifest.
pub open spec fn reference_manifest_ok(m: ReferenceManifest) -> bool {
    let width = m.tile.core_width_px + 2 * m.tile.guard_px;
    let height = m.tile.core_height_px + 2 * m.tile.guard_px;
    &&& m.schema@ == MANIFEST_SCHEMA@
    &&& identifier_ok(encode_utf8(m.bundle_id@)) && identifier_ok(encode_utf8(m.tile.region_id@))
    &&& tile_and_camera_ok(m, width, height)
    &&& capture_ok(m)
    &&& layers_ok(m, width, height)
}

/// Validate a complete reference manifest.
pub fn validate_manifest(manifest: &ReferenceManifest) -> (r: Result<(), ReferenceError>)
    ensures
        r is Ok <==> reference_manifest_ok(*manifest),
{
    if !str_eq(manifest.schema.as_str(), MANIFEST_SCHEMA) {
        return Err(invalid("reference schema must be isometric-reference-manifest/v2"));
    }
    if !is_identifier(manifest.bundle_id.as_str()) || !is_identifier(manifest.tile.region_id.as_str()) {
        return Err(invalid("bundle and region IDs must use lowercase safe identifiers"));
    }
    let width = manifest.tile.total_width_px();
    let height = manifest.tile.total_height_px();
    match validate_tile_and_camera(manifest, width, height) {
        Err(e) => return Err(e),
        Ok(()) => {},
    }
    match validate_capture(manifest) {
        Err(e) => return Err(e),
        Ok(()) => {},
    }
    validate_layers(manifest, width, height)
}

/// One reflected CRC-32 polynomial step per bit, `n` times.
pub open spec fn crc_rounds(c: u32, n: nat) -> u32
    decreases n,
{
    if n == 0 {
        c
    } else {
        crc_rounds(if c & 1 == 1 { 0xedb8_8320u32 ^ (c >> 1u32) } else { c >> 1u32 }, (n - 1) as nat)
    }
}

/// The running CRC-32 register after some bytes, starting from all ones.
pub open spec fn crc_register(bytes: Seq<u8>) -> u32
    decreases bytes.len(),
{
    if bytes.len() == 0 {
        0xffff_ffffu32
    } else {
        crc_rounds(crc_register(bytes.drop_last()) ^ (bytes.last() as u32), 8)
    }
}

/// The CRC-32 (IEEE, reflected) of a byte sequence.
pub open spec fn crc32_spec(bytes: Seq<u8>) -> u32 {
    !crc_register(bytes)
}

/// CRC-32 of a byte slice, as PNG chunks use.
pub fn crc32(bytes: &[u8]) -> (r: u32)
    ensures
        r == crc32_spec(bytes@),
{
    let mut crc: u32 = 0xffff_ffff;
    let mut i: usize = 0;
    while i < bytes.len()
        invariant
            i <= bytes@.len(),
            crc == crc_register(bytes@.subrange(0, i as int)),
        decreases bytes@.len() - i,
    {
        let start = crc ^ (bytes[i] as u32);
        crc = start;
        let mut round: u32 = 0;
        while round < 8
            invariant
                round <= 8,
                crc_rounds(start, 8) == crc_rounds(crc, (8 - round) as nat),
            decreases 8 - round,
        {
            crc = if crc & 1 == 1 { 0xedb8_8320u32 ^ (crc >> 1u32) } else { crc >> 1u32 };
            round += 1;
        }
        proof {
            assert(bytes@.subrange(0, i + 1).drop_last() =~= bytes@.subrange(0, i as int));
        }
        i += 1;
    }
    proof {
        assert(bytes@.subrange(0, bytes@.len() as int) =~= bytes@);
    }
    !crc
}

/// The Adler-32 sums `(s1, s2)` after some bytes, starting from `(1, 0)`.
pub open spec fn adler_sums(bytes: Seq<u8>) -> (u32, u32)
    decreases bytes.len(),
{
    if bytes.len() == 0 {
        (1, 0)
    } else {
        let (s1, s2) = adler_sums(bytes.drop_last());
        let n1 = ((s1 + bytes.last()) % 65_521) as u32;
        (n1, ((s2 + n1) % 65_521) as u32)
    }
}

/// Advance Adler-32 sums over more bytes.
pub fn update_adler32(s1: &mut u32, s2: &mut u32, bytes: &[u8], Ghost(before): Ghost<Seq<u8>>)
    requires
        (*old(s1), *old(s2)) == adler_sums(before),
    ensures
        (*final(s1), *final(s2)) == adler_sums(before + bytes@),
{
    let mut i: usize = 0;
    while i < bytes.len()
        invariant
            i <= bytes@.len(),
            (*s1, *s2) == adler_sums(before + bytes@.subrange(0, i as int)),
        decreases bytes@.len() - i,
    {
        proof {
            lemma_adler_bound(before + bytes@.subrange(0, i as int));
            assert((before + bytes@.subrange(0, i + 1)).drop_last() =~= before + bytes@.subrange(0, i as int));
        }
        *s1 = (*s1 + bytes[i] as u32) % 65_521;
        *s2 = (*s2 + *s1) % 65_521;
        i += 1;
    }
    proof {
        assert(bytes@.subrange(0, bytes@.len() as int) =~= bytes@);
    }
}

proof fn lemma_adler_bound(bytes: Seq<u8>)
    ensures
        adler_sums(bytes).0 < 65_521,
        adler_sums(bytes).1 < 65_521,
    decreases bytes.len(),
{
    if bytes.len() > 0 {
        lemma_adler_bound(bytes.drop_last());
    }
}

/// Big-endian bytes of a 32-bit value.
pub open spec fn be32(v: u32) -> Seq<u8> {
    seq![(v / 16777216) as u8, (v / 65536 % 256) as u8, (v / 256 % 256) as u8, (v % 256) as u8]
}

/// Little-endian bytes of a 16-bit value.
pub open spec fn le16(v: u16) -> Seq<u8> {
    seq![(v % 256) as u8, (v / 256) as u8]
}

/// The PNG signature.
pub open spec fn png_signature() -> Seq<u8> {
    seq![0x89u8, 0x50, 0x4e, 0x47, 0x0d, 0x0a, 0x1a, 0x0a]
}

/// One PNG chunk: length, kind, data and the CRC of kind and data.
pub open spec fn png_chunk(kind: Seq<u8>, data: Seq<u8>) -> Seq<u8> {
    be32(data.len() as u32) + kind + data + be32(crc32_spec(kind + data))
}

/// IHDR data: width, height, bit depth 8, color type, and zero methods.
pub open spec fn ihdr_data(width: u32, height: u32, color: PngColorType) -> Seq<u8> {
    be32(width) + be32(height) + seq![8u8, png_value_spec(color), 0u8, 0u8, 0u8]
}

/// Largest stored-DEFLATE block.
pub const STORED_BLOCK_BYTES: usize = 65_535;

/// The IDAT chunks carrying `stream[start..]` in stored blocks; the first block
/// opens the zlib stream and the last closes it with the Adler-32 of the whole stream.
pub open spec fn idat_chunks(stream: Seq<u8>, start: int) -> Seq<u8>
    decreases stream.len() - start,
{
    if start >= stream.len() || start < 0 {
        Seq::empty()
    } else {
        let len = if stream.len() - start < STORED_BLOCK_BYTES { stream.len() - start } else { STORED_BLOCK_BYTES as int };
        let last = start + len == stream.len();
        let sums = adler_sums(stream);
        let data = (if start == 0 { seq![0x78u8, 0x01u8] } else { Seq::empty() }) + seq![if last { 1u8 } else { 0u8 }]
            + le16(len as u16) + le16(!(len as u16)) + stream.subrange(start, start + len) + (if last {
            be32(((sums.1 as u32) << 16u32) | sums.0)
        } else {
            Seq::empty()
        });
        png_chunk(seq![0x49u8, 0x44, 0x41, 0x54], data) + idat_chunks(stream, start + len)
    }
}

/// The filter-zero scanline stream of a crop: each row is a zero byte and the row's pixels.
pub open spec fn filtered_rows(raw: Seq<u8>, source_stride: int, crop_x: int, crop_y: int, crop_stride: int, rows: int) -> Seq<u8>
    decreases rows,
{
    if rows <= 0 {
        Seq::empty()
    } else {
        let start = (crop_y + rows - 1) * source_stride + crop_x;
        filtered_rows(raw, source_stride, crop_x, crop_y, crop_stride, rows - 1) + seq![0u8] + raw.subrange(
            start,
            start + crop_stride,
        )
    }
}

/// The exact PNG file for a crop.
pub open spec fn png_file(width: u32, height: u32, color: PngColorType, stream: Seq<u8>) -> Seq<u8> {
    png_signature() + png_chunk(seq![0x49u8, 0x48, 0x44, 0x52], ihdr_data(width, height, color)) + idat_chunks(stream, 0)
        + png_chunk(seq![0x49u8, 0x45, 0x4e, 0x44], Seq::empty())
}

/// Accepted crop geometry.
pub open spec fn crop_ok(sw: int, sh: int, cx: int, cy: int, cw: int, ch: int) -> bool {
    &&& 1 <= sw <= MAX_CAPTURE_DIMENSION && 1 <= sh <= MAX_CAPTURE_DIMENSION
    &&& cw >= 1 && ch >= 1
    &&& cx + cw <= sw && cy + ch <= sh
}

fn push_be32(out: &mut Vec<u8>, v: u32)
    ensures
        final(out)@ == old(out)@ + be32(v),
{
    out.push((v / 16777216) as u8);
    out.push((v / 65536 % 256) as u8);
    out.push((v / 256 % 256) as u8);
    out.push((v % 256) as u8);
    proof {
        assert(final(out)@ =~= old(out)@ + be32(v));
    }
}

fn push_all(out: &mut Vec<u8>, data: &[u8])
    ensures
        final(out)@ == old(out)@ + data@,
{
    let mut i: usize = 0;
    while i < data.len()
        invariant
            i <= data@.len(),
            out@ == old(out)@ + data@.subrange(0, i as int),
        decreases data@.len() - i,
    {
        out.push(data[i]);
        proof {
            assert(out@ =~= old(out)@ + data@.subrange(0, i + 1));
        }
        i += 1;
    }
    proof {
        assert(data@.subrange(0, data@.len() as int) =~= data@);
    }
}

fn push_chunk(out: &mut Vec<u8>, kind: &[u8], data: &[u8])
    requires
        kind@.len() == 4,
        data@.len() <= u32::MAX,
    ensures
        final(out)@ == old(out)@ + png_chunk(kind@, data@),
{
    push_be32(out, data.len() as u32);
    push_all(out, kind);
    push_all(out, data);
    let mut crc_input: Vec<u8> = Vec::new();
    push_all(&mut crc_input, kind);
    push_all(&mut crc_input, data);
    push_be32(out, crc32(crc_input.as_slice()));
    proof {
        assert(crc_input@ =~= kind@ + data@);
        assert(final(out)@ =~= old(out)@ + png_chunk(kind@, data@));
    }
}

/// Encode a crop of a tightly packed raw image as a deterministic PNG with
/// filter zero and stored DEFLATE blocks.
#[verifier::rlimit(60)]
pub fn encode_raw_png_crop(
    raw: &[u8],
    source_width: u32,
    source_height: u32,
    crop_x: u32,
    crop_y: u32,
    crop_width: u32,
    crop_height: u32,
    color_type: PngColorType,
) -> (r: Result<Vec<u8>, ReferenceError>)
    ensures
        r is Ok <==> (crop_ok(
            source_width as int,
            source_height as int,
            crop_x as int,
            crop_y as int,
            crop_width as int,
            crop_height as int,
        ) && raw@.len() == source_width * channels_spec(color_type) * source_height),
        r matches Ok(png) ==> png@ == png_file(
            crop_width,
            crop_height,
            color_type,
            filtered_rows(
                raw@,
                source_width * channels_spec(color_type),
                crop_x * channels_spec(color_type),
                crop_y as int,
                crop_width * channels_spec(color_type),
                crop_height as int,
            ),
        ),
{
    if source_width == 0 || source_height == 0 || crop_width == 0 || crop_height == 0 || source_width
        > MAX_CAPTURE_DIMENSION || source_height > MAX_CAPTURE_DIMENSION || crop_x as u64 + crop_width as u64
        > source_width as u64 || crop_y as u64 + crop_height as u64 > source_height as u64 {
        return Err(invalid("PNG source or crop dimensions violate the reference capture bound"));
    }
    let channels = color_type.channels();
    let ghost ch = channels as int;
    assert(1 <= channels <= 4);
    proof {
        assert(crop_width as int * ch <= 4096 * 4) by (nonlinear_arith)
            requires
                crop_width <= 4096,
                ch <= 4,
        ;
        assert(source_width as int * ch <= 4096 * 4) by (nonlinear_arith)
            requires
                source_width <= 4096,
                ch <= 4,
        ;
    }
    let source_stride = source_width as u64 * channels;
    let crop_stride = crop_width as u64 * channels;
    proof {
        assert(source_stride * source_height <= 4096 * 4 * 4096) by (nonlinear_arith)
            requires
                source_stride == source_width * ch,
                ch <= 4,
                source_width <= 4096,
                source_height <= 4096,
        ;
    }
    let expected = source_stride * source_height as u64;
    if raw.len() as u64 != expected {
        return Err(invalid("raw PNG source length contradicts its dimensions"));
    }
    let ghost src = source_stride as int;
    let ghost cxs = crop_x as int * ch;
    let ghost cst = crop_stride as int;
    let mut stream: Vec<u8> = Vec::new();
    let mut row: u32 = 0;
    while row < crop_height
        invariant
            row <= crop_height,
            crop_y + crop_height <= source_height <= 4096,
            crop_x + crop_width <= source_width <= 4096,
            1 <= ch <= 4 && channels == ch,
            src == source_width * ch && source_stride == src,
            cxs == crop_x * ch && cst == crop_width * ch && crop_stride == cst,
            raw@.len() == src * source_height,
            stream@ == filtered_rows(raw@, src, cxs, crop_y as int, cst, row as int),
            stream@.len() == row * (cst + 1),
        decreases crop_height - row,
    {
        proof {
            assert(cxs + cst <= src) by (nonlinear_arith)
                requires
                    cxs == crop_x * ch,
                    cst == crop_width * ch,
                    src == source_width * ch,
                    crop_x + crop_width <= source_width,
                    ch >= 1,
            ;
            assert((crop_y + row) * src + cxs + cst <= raw@.len()) by (nonlinear_arith)
                requires
                    crop_y + row + 1 <= source_height,
                    cxs + cst <= src,
                    raw@.len() == src * source_height,
                    src >= 0,
            ;
            assert((crop_y + row) * src + cxs + cst <= 4096 * 16384) by (nonlinear_arith)
                requires
                    crop_y + row + 1 <= source_height,
                    source_height <= 4096,
                    cxs + cst <= src,
                    src == source_width * ch,
                    source_width <= 4096,
                    ch <= 4,
            ;
        }
        let start = ((crop_y + row) as u64 * source_stride + crop_x as u64 * channels) as usize;
        stream.push(0);
        let mut k: usize = 0;
        while k < crop_stride as usize
            invariant
                k <= cst,
                crop_stride == cst,
                start + cst <= raw@.len(),
                start + cst <= 4096 * 16384,
                stream@ == filtered_rows(raw@, src, cxs, crop_y as int, cst, row as int) + seq![0u8] + raw@.subrange(
                    start as int,
                    start + k,
                ),
            decreases cst - k,
        {
            stream.push(raw[start + k]);
            proof {
                assert(raw@.subrange(start as int, start + k + 1) =~= raw@.subrange(start as int, start + k).push(raw@[start + k]));
            }
            k += 1;
        }
        proof {
            assert(start == (crop_y + row) * src + cxs);
            assert(stream@.len() == (row + 1) * (cst + 1)) by (nonlinear_arith)
                requires
                    stream@.len() == row * (cst + 1) + 1 + cst,
            ;
        }
        row += 1;
    }
    let ghost all = stream@;
    proof {
        assert(all.len() <= 4097 * 16385) by (nonlinear_arith)
            requires
                all.len() == crop_height * (cst + 1),
                crop_height <= 4096,
                cst <= 16384,
        ;
    }
    let mut out: Vec<u8> = Vec::new();
    push_all(&mut out, &[0x89u8, 0x50, 0x4e, 0x47, 0x0d, 0x0a, 0x1a, 0x0a]);
    let mut ihdr: Vec<u8> = Vec::new();
    push_be32(&mut ihdr, crop_width);
    push_be32(&mut ihdr, crop_height);
    ihdr.push(8);
    ihdr.push(color_type.png_value());
    ihdr.push(0);
    ihdr.push(0);
    ihdr.push(0);
    proof {
        assert(ihdr@ =~= ihdr_data(crop_width, crop_height, color_type));
    }
    push_chunk(&mut out, &[0x49u8, 0x48, 0x44, 0x52], ihdr.as_slice());
    let ghost prefix = out@;
    let mut s1: u32 = 1;
    let mut s2: u32 = 0;
    update_adler32(&mut s1, &mut s2, stream.as_slice(), Ghost(Seq::empty()));
    proof {
        assert(Seq::<u8>::empty() + all =~= all);
    }
    let total = stream.len();
    let mut offset: usize = 0;
    while offset < total
        invariant
            total == all.len() && stream@ == all,
            offset <= total,
            (s1, s2) == adler_sums(all),
            all.len() <= 4097 * 16385,
            prefix + idat_chunks(all, 0) == out@ + idat_chunks(all, offset as int),
        decreases total - offset,
    {
        let remaining = total - offset;
        let length: usize = if remaining < STORED_BLOCK_BYTES { remaining } else { STORED_BLOCK_BYTES };
        let last = offset + length == total;
        let mut data: Vec<u8> = Vec::new();
        if offset == 0 {
            data.push(0x78);
            data.push(0x01);
        }
        data.push(if last { 1 } else { 0 });
        let len16 = length as u16;
        data.push((len16 % 256) as u8);
        data.push((len16 / 256) as u8);
        let inverse = !len16;
        data.push((inverse % 256) as u8);
        data.push((inverse / 256) as u8);
        let mut k: usize = 0;
        let ghost head = data@;
        while k < length
            invariant
                k <= length,
                offset + length <= total,
                total == all.len() && stream@ == all,
                data@ == head + all.subrange(offset as int, offset + k),
            decreases length - k,
        {
            data.push(stream[offset + k]);
            proof {
                assert(all.subrange(offset as int, offset + k + 1) =~= all.subrange(offset as int, offset + k).push(all[offset + k]));
            }
            k += 1;
        }
        if last {
            push_be32(&mut data, (s2 << 16u32) | s1);
        }
        proof {
            let d = (if offset == 0 { seq![0x78u8, 0x01u8] } else { Seq::empty() }) + seq![if last { 1u8 } else { 0u8 }]
                + le16(length as u16) + le16(!(length as u16)) + all.subrange(offset as int, offset + length as int) + (if last {
                be32(((s2 as u32) << 16u32) | s1)
            } else {
                Seq::empty()
            });
            assert(data@ =~= d);
            assert(idat_chunks(all, offset as int) == png_chunk(seq![0x49u8, 0x44, 0x41, 0x54], d) + idat_chunks(all, offset + length));
        }
        push_chunk(&mut out, &[0x49u8, 0x44, 0x41, 0x54], data.as_slice());
        proof {
            assert(seq![0x49u8, 0x44, 0x41, 0x54] =~= [0x49u8, 0x44, 0x41, 0x54]@);
        }
        offset += length;
    }
    push_chunk(&mut out, &[0x49u8, 0x45, 0x4e, 0x44], &[]);
    proof {
        assert(idat_chunks(all, total as int) =~= Seq::<u8>::empty());
    }
    Ok(out)
}

/// Encode a whole tightly packed raw image as a deterministic PNG.
pub fn encode_raw_png(raw: &[u8], width: u32, height: u32, color_type: PngColorType) -> (r: Result<Vec<u8>, ReferenceError>)
    ensures
        r is Ok <==> (1 <= width <= MAX_CAPTURE_DIMENSION && 1 <= height <= MAX_CAPTURE_DIMENSION && raw@.len() == width
            * channels_spec(color_type) * height),
        r matches Ok(png) ==> png@ == png_file(
            width,
            height,
            color_type,
            filtered_rows(raw@, width * channels_spec(color_type), 0, 0, width * channels_spec(color_type), height as int),
        ),
{
    encode_raw_png_crop(raw, width, height, 0, 0, width, height, color_type)
}

/// The big-endian value of four bytes.
pub open spec fn be_u32(b: Seq<u8>, at: int) -> int {
    b[at] * 16777216 + b[at + 1] * 65536 + b[at + 2] * 256 + b[at + 3]
}

/// The little-endian value of four bytes.
pub open spec fn le_u32_at(b: Seq<u8>, at: int) -> int {
    b[at] + b[at + 1] * 256 + b[at + 2] * 65536 + b[at + 3] * 16777216
}

/// Whether leading file bytes hold a PNG signature and an IHDR of the given color type.
pub open spec fn png_header_ok(h: Seq<u8>, color: u8) -> bool {
    &&& h.len() >= 26
    &&& h.subrange(0, 8) == png_signature()
    &&& h.subrange(8, 12) == seq![0u8, 0, 0, 13]
    &&& h.subrange(12, 16) == seq![0x49u8, 0x48, 0x44, 0x52]
    &&& h[24] == 8 && h[25] == color
}

fn bytes_match(h: &[u8], at: usize, expected: &[u8]) -> (r: bool)
    requires
        at + expected@.len() <= h@.len(),
    ensures
        r == (h@.subrange(at as int, at + expected@.len()) == expected@),
{
    let n = h.len();
    let mut i: usize = 0;
    while i < expected.len()
        invariant
            n == h@.len(),
            at + expected@.len() <= h@.len(),
            i <= expected@.len(),
            forall|j: int| 0 <= j < i ==> h@[at + j] == expected@[j],
        decreases expected@.len() - i,
    {
        if h[at + i] != expected[i] {
            proof {
                assert(h@.subrange(at as int, at + expected@.len())[i as int] != expected@[i as int]);
            }
            return false;
        }
        i += 1;
    }
    proof {
        assert(h@.subrange(at as int, at + expected@.len()) =~= expected@);
    }
    true
}

fn read_be_u32(b: &[u8], at: usize) -> (r: u32)
    requires
        at + 4 <= b@.len(),
    ensures
        r == be_u32(b@, at as int),
{
    b[at] as u32 * 16777216 + b[at + 1] as u32 * 65536 + b[at + 2] as u32 * 256 + b[at + 3] as u32
}

fn read_le_u32(b: &[u8], at: usize) -> (r: u32)
    requires
        at + 4 <= b@.len(),
    ensures
        r == le_u32_at(b@, at as int),
{
    b[at] as u32 + b[at + 1] as u32 * 256 + b[at + 2] as u32 * 65536 + b[at + 3] as u32 * 16777216
}

/// Read the registered grid of a PNG layer from its leading bytes.
pub fn read_png_header(header: &[u8], expected_color_type: u8) -> (r: Result<(u32, u32), ReferenceError>)
    ensures
        r is Ok <==> png_header_ok(header@, expected_color_type),
        r matches Ok((w, h)) ==> w == be_u32(header@, 16) && h == be_u32(header@, 20),
{
    if header.len() < 26 || !bytes_match(header, 0, &[0x89u8, 0x50, 0x4e, 0x47, 0x0d, 0x0a, 0x1a, 0x0a]) || !bytes_match(
        header,
        8,
        &[0u8, 0, 0, 13],
    ) || !bytes_match(header, 12, &[0x49u8, 0x48, 0x44, 0x52]) || header[24] != 8 || header[25] != expected_color_type {
        proof {
            assert([0x89u8, 0x50, 0x4e, 0x47, 0x0d, 0x0a, 0x1a, 0x0a]@ =~= png_signature());
            assert([0u8, 0, 0, 13]@ =~= seq![0u8, 0, 0, 13]);
            assert([0x49u8, 0x48, 0x44, 0x52]@ =~= seq![0x49u8, 0x48, 0x44, 0x52]);
        }
        return Err(invalid("reference PNG has an invalid IHDR contract"));
    }
    proof {
        assert([0x89u8, 0x50, 0x4e, 0x47, 0x0d, 0x0a, 0x1a, 0x0a]@ =~= png_signature());
        assert([0u8, 0, 0, 13]@ =~= seq![0u8, 0, 0, 13]);
        assert([0x49u8, 0x48, 0x44, 0x52]@ =~= seq![0x49u8, 0x48, 0x44, 0x52]);
    }
    Ok((read_be_u32(header, 16), read_be_u32(header, 20)))
}

/// The depth-layer magic `ISOD32V1`.
pub open spec fn depth_magic() -> Seq<u8> {
    seq![0x49u8, 0x53, 0x4f, 0x44, 0x33, 0x32, 0x56, 0x31]
}

/// Whether a depth layer's leading bytes and file length agree.
pub open spec fn depth_header_ok(h: Seq<u8>, file_length: int) -> bool {
    &&& h.len() >= 16
    &&& h.subrange(0, 8) == depth_magic()
    &&& file_length == 16 + le_u32_at(h, 8) * le_u32_at(h, 12) * 4
}

/// Read the registered grid of the raw depth layer and check its length.
pub fn read_depth_header(header: &[u8], file_length: u64) -> (r: Result<(u32, u32), ReferenceError>)
    ensures
        r is Ok <==> depth_header_ok(header@, file_length as int),
        r matches Ok((w, h)) ==> w == le_u32_at(header@, 8) && h == le_u32_at(header@, 12),
{
    if header.len() < 16 || !bytes_match(header, 0, &[0x49u8, 0x53, 0x4f, 0x44, 0x33, 0x32, 0x56, 0x31]) {
        proof {
            assert([0x49u8, 0x53, 0x4f, 0x44, 0x33, 0x32, 0x56, 0x31]@ =~= depth_magic());
        }
        return Err(invalid("reference depth layer has an invalid magic header"));
    }
    proof {
        assert([0x49u8, 0x53, 0x4f, 0x44, 0x33, 0x32, 0x56, 0x31]@ =~= depth_magic());
    }
    let width = read_le_u32(header, 8);
    let height = read_le_u32(header, 12);
    proof {
        assert(width as int * height as int <= u64::MAX) by (nonlinear_arith)
            requires
                width <= u32::MAX,
                height <= u32::MAX,
        ;
    }
    let pixels = width as u64 * height as u64;
    if pixels > (u64::MAX - 16) / 4 {
        return Err(invalid("reference depth length overflowed"));
    }
    let expected = 16 + pixels * 4;
    if file_length != expected {
        return Err(invalid("reference depth payload length does not match its dimensions"));
    }
    Ok((width, height))
}

/// The registered grid a layer's leading bytes announce, when they are well formed.
pub open spec fn layer_grid(kind: LayerKind, e: LayerEvidence) -> Option<(int, int)> {
    match layer_png_color(kind) {
        Some(color) => if png_header_ok(e.header@, color) {
            Some((be_u32(e.header@, 16), be_u32(e.header@, 20)))
        } else {
            None
        },
        None => if depth_header_ok(e.header@, e.byte_length as int) {
            Some((le_u32_at(e.header@, 8), le_u32_at(e.header@, 12)))
        } else {
            None
        },
    }
}

/// Whether the observed evidence of one layer matches its record and the shared grid.
pub open spec fn layer_evidence_ok(layer: LayerRecord, e: LayerEvidence, width: int, height: int) -> bool {
    &&& e.byte_length == layer.byte_length
    &&& e.sha256@ == layer.sha256@
    &&& layer_grid(layer.kind, e) == Some((width, height))
}

/// Sum of the byte lengths of the first `n` layers.
pub open spec fn layer_bytes(layers: Seq<LayerRecord>, n: int) -> int
    decreases n,
{
    if n <= 0 {
        0
    } else {
        layer_bytes(layers, n - 1) + layers[n - 1].byte_length
    }
}

/// Check observed layer files against a manifest and summarize the bundle.
/// `manifest_sha256` is the digest of the manifest's canonical JSON.
pub fn validate_bundle(manifest: &ReferenceManifest, evidence: &[LayerEvidence], manifest_sha256: String) -> (r: Result<
    BundleReport,
    ReferenceError,
>)
    ensures
        r is Ok <==> {
            let width = manifest.tile.core_width_px + 2 * manifest.tile.guard_px;
            let height = manifest.tile.core_height_px + 2 * manifest.tile.guard_px;
            &&& reference_manifest_ok(*manifest)
            &&& evidence@.len() == manifest.layers@.len()
            &&& forall|i: int|
                0 <= i < evidence@.len() ==> layer_evidence_ok(manifest.layers@[i], #[trigger] evidence@[i], width, height)
            &&& layer_bytes(manifest.layers@, 6) <= u64::MAX
        },
        r matches Ok(report) ==> {
            &&& report.manifest_sha256 == manifest_sha256
            &&& report.total_layer_bytes == layer_bytes(manifest.layers@, 6)
            &&& report.layer_sha256@.len() == 6
            &&& forall|i: int|
                0 <= i < 6 ==> (#[trigger] report.layer_sha256@[i]).0 == manifest.layers@[i].kind && report.layer_sha256@[i].1@
                    == manifest.layers@[i].sha256@
        },
{
    match validate_manifest(manifest) {
        Err(e) => return Err(e),
        Ok(()) => {},
    }
    let width = manifest.tile.total_width_px();
    let height = manifest.tile.total_height_px();
    let layers = &manifest.layers;
    if evidence.len() != layers.len() {
        return Err(invalid("reference bundle evidence does not cover every layer"));
    }
    let mut digests: Vec<(LayerKind, String)> = Vec::new();
    let mut total: u64 = 0;
    let mut i: usize = 0;
    while i < 6
        invariant
            *layers == manifest.layers,
            reference_manifest_ok(*manifest),
            width == manifest.tile.core_width_px + 2 * manifest.tile.guard_px,
            height == manifest.tile.core_height_px + 2 * manifest.tile.guard_px,
            layers@.len() == 6 && evidence@.len() == 6,
            i <= 6,
            forall|j: int| 0 <= j < i ==> layer_evidence_ok(layers@[j], #[trigger] evidence@[j], width as int, height as int),
            total == layer_bytes(layers@, i as int),
            digests@.len() == i,
            forall|j: int|
                0 <= j < i ==> (#[trigger] digests@[j]).0 == layers@[j].kind && digests@[j].1@ == layers@[j].sha256@,
        decreases 6 - i,
    {
        let layer = &layers[i];
        let observed = &evidence[i];
        if observed.byte_length != layer.byte_length {
            return Err(invalid("reference layer byte length does not match"));
        }
        if !str_eq(observed.sha256.as_str(), layer.sha256.as_str()) {
            return Err(invalid("reference layer SHA-256 does not match"));
        }
        let grid = match layer.kind.png_color_type() {
            Some(color) => read_png_header(observed.header.as_slice(), color),
            None => read_depth_header(observed.header.as_slice(), observed.byte_length),
        };
        let (w, h) = match grid {
            Err(e) => return Err(e),
            Ok(pair) => pair,
        };
        if w != width || h != height || w != layer.width_px || h != layer.height_px {
            return Err(invalid("reference layer is not registered to the shared grid"));
        }
        if layer.byte_length > u64::MAX - total {
            proof {
                lemma_layer_bytes_monotone(layers@, i as int + 1, 6);
            }
            return Err(invalid("layer byte total overflowed"));
        }
        total = total + layer.byte_length;
        digests.push((layer.kind, observed.sha256.clone()));
        proof {
            assert(digests@[i as int].1@ == observed.sha256@);
        }
        i += 1;
    }
    Ok(BundleReport { manifest_sha256, layer_sha256: digests, total_layer_bytes: total })
}

proof fn lemma_layer_bytes_monotone(layers: Seq<LayerRecord>, a: int, b: int)
    requires
        0 <= a <= b,
    ensures
        layer_bytes(layers, a) <= layer_bytes(layers, b),
    decreases b - a,
{
    if a < b {
        lemma_layer_bytes_monotone(layers, a, b - 1);
    }
}

} // verus!
