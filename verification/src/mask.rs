//! Immutable, registered semantic-mask artifacts: the portable pixel
//! ontology, exact reference registration, record and header encodings, and
//! the boundary that keeps transient evidence out of persistent content.
use vstd::prelude::*;
use vstd::string::StringSliceAdditionalSpecFns;
use vstd::utf8::encode_utf8;
use crate::digest::{is_sha256, is_sha256_bytes, sha256_hex, sha256_spec};
use crate::text::{decimal_spec, decimal, hex_spec};
use crate::text::{has_control, has_control_spec, str_eq};

verus! {

broadcast use vstd::string::group_string_axioms;

/// Portable semantic-mask manifest schema.
pub const MANIFEST_SCHEMA: &'static str = "isometric-mask-manifest/v1";
/// Stable semantic ontology identifier.
pub const ONTOLOGY_ID: &'static str = "isometric-stanford-semantics/v1";
/// Stem of the canonical manifest filename inside a mask artifact.
pub const MANIFEST_STEM: &'static str = "mask.manifest";
/// Extension of the canonical manifest file; the file is `<stem>.<extension>`.
pub const MANIFEST_EXTENSION: &'static str = "json";
/// Canonical binary mask filename inside a mask artifact.
pub const MASK_FILENAME: &'static str = "semantics.mask";
/// Portable fixed-width mask encoding.
pub const MASK_ENCODING: &'static str = "isometric-mask-pixel-u8-u8-u16le-u32le/v1";
/// Bytes of the binary mask header.
pub const HEADER_BYTES: usize = 20;
/// Bytes of one pixel record.
pub const RECORD_BYTES: u16 = 8;
/// Largest registered mask edge.
pub const MAX_MASK_DIMENSION: u32 = 4_096;
/// Largest instance identity.
pub const MAX_INSTANCE_ID: u32 = 262_144;
/// Number of semantic classes.
pub const CLASS_COUNT: usize = 24;
/// Instance-table marker for an identity not yet seen.
pub const UNSEEN_INSTANCE: u8 = 255;

/// Pixel-level semantic class used by reference masking.
#[derive(Clone, Copy, Debug, Eq, PartialEq, Structural)]
pub enum SemanticClass {
    /// Unresolved evidence. Qualification decides whether it is acceptable.
    Unknown,
    /// Pixels outside usable scene geometry.
    SkyOrVoid,
    /// Persistent bare or general terrain.
    Terrain,
    /// Persistent lawn or grass.
    Grass,
    /// Persistent tree crown or canopy.
    TreeCanopy,
    /// Persistent water.
    Water,
    /// Persistent vehicle road.
    Road,
    /// Persistent parking hardscape.
    Parking,
    /// Persistent pedestrian circulation.
    PedestrianPath,
    /// Persistent crosswalk marking.
    CrosswalkMarking,
    /// Persistent non-crosswalk road marking.
    RoadMarking,
    /// Persistent building roof.
    BuildingRoof,
    /// Persistent building facade.
    BuildingFacade,
    /// Persistent window, door, or architectural opening.
    WindowOrOpening,
    /// Persistent landmark-specific detail.
    LandmarkDetail,
    /// Persistent lamppost visible at the accepted scale.
    Lamppost,
    /// Persistent traffic signal visible at the accepted scale.
    TrafficSignal,
    /// Persistent sign or bollard visible at the accepted scale.
    SignOrBollard,
    /// Transient person obstruction.
    Person,
    /// Transient bicycle obstruction.
    Bicycle,
    /// Transient car obstruction.
    Car,
    /// Transient bus or truck obstruction.
    BusOrTruck,
    /// Transient construction equipment obstruction.
    ConstructionEquipment,
    /// Broken or missing reference-source content.
    SourceArtifact,
}

/// The stable binary code of a class, its position in the ontology.
pub open spec fn class_code(c: SemanticClass) -> u8 {
    match c {
        SemanticClass::Unknown => 0,
        SemanticClass::SkyOrVoid => 1,
        SemanticClass::Terrain => 2,
        SemanticClass::Grass => 3,
        SemanticClass::TreeCanopy => 4,
        SemanticClass::Water => 5,
        SemanticClass::Road => 6,
        SemanticClass::Parking => 7,
        SemanticClass::PedestrianPath => 8,
        SemanticClass::CrosswalkMarking => 9,
        SemanticClass::RoadMarking => 10,
        SemanticClass::BuildingRoof => 11,
        SemanticClass::BuildingFacade => 12,
        SemanticClass::WindowOrOpening => 13,
        SemanticClass::LandmarkDetail => 14,
        SemanticClass::Lamppost => 15,
        SemanticClass::TrafficSignal => 16,
        SemanticClass::SignOrBollard => 17,
        SemanticClass::Person => 18,
        SemanticClass::Bicycle => 19,
        SemanticClass::Car => 20,
        SemanticClass::BusOrTruck => 21,
        SemanticClass::ConstructionEquipment => 22,
        SemanticClass::SourceArtifact => 23,
    }
}

/// Whether a class is a removable captured obstruction.
pub open spec fn transient_class(c: SemanticClass) -> bool {
    c is Person || c is Bicycle || c is Car || c is BusOrTruck || c is ConstructionEquipment
}

/// Whether a class may survive into a persistent mask artifact.
pub open spec fn persistent_class(c: SemanticClass) -> bool {
    !transient_class(c) && !(c is SourceArtifact)
}

impl SemanticClass {
    /// Every class in stable binary order.
    pub const ALL: [SemanticClass; 24] = [
        SemanticClass::Unknown,
        SemanticClass::SkyOrVoid,
        SemanticClass::Terrain,
        SemanticClass::Grass,
        SemanticClass::TreeCanopy,
        SemanticClass::Water,
        SemanticClass::Road,
        SemanticClass::Parking,
        SemanticClass::PedestrianPath,
        SemanticClass::CrosswalkMarking,
        SemanticClass::RoadMarking,
        SemanticClass::BuildingRoof,
        SemanticClass::BuildingFacade,
        SemanticClass::WindowOrOpening,
        SemanticClass::LandmarkDetail,
        SemanticClass::Lamppost,
        SemanticClass::TrafficSignal,
        SemanticClass::SignOrBollard,
        SemanticClass::Person,
        SemanticClass::Bicycle,
        SemanticClass::Car,
        SemanticClass::BusOrTruck,
        SemanticClass::ConstructionEquipment,
        SemanticClass::SourceArtifact,
    ];

    /// Whether the class represents a removable captured obstruction.
    pub fn is_transient(self) -> (r: bool)
        ensures
            r == transient_class(self),
    {
        match self {
            SemanticClass::Person | SemanticClass::Bicycle | SemanticClass::Car | SemanticClass::BusOrTruck
            | SemanticClass::ConstructionEquipment => true,
            _ => false,
        }
    }

    /// Whether the class may survive into a persistent mask artifact.
    pub fn is_persistent_compatible(self) -> (r: bool)
        ensures
            r == persistent_class(self),
    {
        !self.is_transient() && !matches!(self, SemanticClass::SourceArtifact)
    }

    /// The stable binary code.
    pub fn code(self) -> (r: u8)
        ensures
            r == class_code(self),
            r < 24,
    {
        match self {
            SemanticClass::Unknown => 0,
            SemanticClass::SkyOrVoid => 1,
            SemanticClass::Terrain => 2,
            SemanticClass::Grass => 3,
            SemanticClass::TreeCanopy => 4,
            SemanticClass::Water => 5,
            SemanticClass::Road => 6,
            SemanticClass::Parking => 7,
            SemanticClass::PedestrianPath => 8,
            SemanticClass::CrosswalkMarking => 9,
            SemanticClass::RoadMarking => 10,
            SemanticClass::BuildingRoof => 11,
            SemanticClass::BuildingFacade => 12,
            SemanticClass::WindowOrOpening => 13,
            SemanticClass::LandmarkDetail => 14,
            SemanticClass::Lamppost => 15,
            SemanticClass::TrafficSignal => 16,
            SemanticClass::SignOrBollard => 17,
            SemanticClass::Person => 18,
            SemanticClass::Bicycle => 19,
            SemanticClass::Car => 20,
            SemanticClass::BusOrTruck => 21,
            SemanticClass::ConstructionEquipment => 22,
            SemanticClass::SourceArtifact => 23,
        }
    }

    /// The class with a binary code; codes of 24 and above are rejected.
    pub fn from_code(value: u8) -> (r: Result<SemanticClass, MaskError>)
        ensures
            r is Ok <==> value < 24,
            r matches Ok(c) ==> class_code(c) == value,
    {
        match value {
            0 => Ok(SemanticClass::Unknown),
            1 => Ok(SemanticClass::SkyOrVoid),
            2 => Ok(SemanticClass::Terrain),
            3 => Ok(SemanticClass::Grass),
            4 => Ok(SemanticClass::TreeCanopy),
            5 => Ok(SemanticClass::Water),
            6 => Ok(SemanticClass::Road),
            7 => Ok(SemanticClass::Parking),
            8 => Ok(SemanticClass::PedestrianPath),
            9 => Ok(SemanticClass::CrosswalkMarking),
            10 => Ok(SemanticClass::RoadMarking),
            11 => Ok(SemanticClass::BuildingRoof),
            12 => Ok(SemanticClass::BuildingFacade),
            13 => Ok(SemanticClass::WindowOrOpening),
            14 => Ok(SemanticClass::LandmarkDetail),
            15 => Ok(SemanticClass::Lamppost),
            16 => Ok(SemanticClass::TrafficSignal),
            17 => Ok(SemanticClass::SignOrBollard),
            18 => Ok(SemanticClass::Person),
            19 => Ok(SemanticClass::Bicycle),
            20 => Ok(SemanticClass::Car),
            21 => Ok(SemanticClass::BusOrTruck),
            22 => Ok(SemanticClass::ConstructionEquipment),
            23 => Ok(SemanticClass::SourceArtifact),
            _ => Err(MaskError::Invalid("mask pixel uses unknown semantic class".to_string())),
        }
    }
}

/// Class codes are a bijection with `0..24`.
pub proof fn lemma_class_code_injective(a: SemanticClass, b: SemanticClass)
    ensures
        class_code(a) == class_code(b) <==> a == b,
        class_code(a) < 24,
{
}

/// Fail-closed mask contract error.
#[derive(Clone, Debug, Eq, PartialEq)]
pub enum MaskError {
    /// A manifest, pixel, or artifact violates a contract invariant.
    Invalid(String),
}

impl MaskError {
    /// Human-readable description.
    pub fn message(&self) -> (r: &str)
        ensures
            r@ == (match *self {
                MaskError::Invalid(m) => m@,
            }),
    {
        match self {
            MaskError::Invalid(message) => message.as_str(),
        }
    }
}

fn invalid(message: &str) -> (e: MaskError)
    ensures
        e matches MaskError::Invalid(m) && m@ == message@,
{
    MaskError::Invalid(message.to_string())
}

/// Bits of the v1 evidence schema.
pub const VALID_EVIDENCE_BITS: u16 = 0xff;

/// Validated provenance flags for one mask pixel.
#[derive(Clone, Copy, Debug, Eq, PartialEq, Structural)]
pub struct EvidenceFlags(u16);

impl EvidenceFlags {
    /// Only bits of the v1 schema are ever set.
    #[verifier::type_invariant]
    spec fn schema_bits(self) -> bool {
        self.0 <= VALID_EVIDENCE_BITS
    }

    /// The portable bit representation.
    pub closed spec fn value(self) -> u16 {
        self.0
    }

    /// Construct flags only when every bit belongs to the v1 evidence schema.
    pub fn from_bits(bits: u16) -> (r: Result<EvidenceFlags, MaskError>)
        ensures
            r is Ok <==> bits & !VALID_EVIDENCE_BITS == 0,
            r matches Ok(f) ==> f.value() == bits,
    {
        if bits & !VALID_EVIDENCE_BITS != 0 {
            return Err(invalid("mask evidence contains reserved bits"));
        }
        proof {
            assert(bits & !0xffu16 == 0 ==> bits <= 0xff) by (bit_vector);
        }
        Ok(EvidenceFlags(bits))
    }

    /// Evidence from an object detector (bit 2).
    pub fn detector() -> (r: EvidenceFlags)
        ensures
            r.value() == 4,
    {
        EvidenceFlags(4)
    }

    /// Evidence from prompt segmentation (bit 3).
    pub fn prompt_segmentation() -> (r: EvidenceFlags)
        ensures
            r.value() == 8,
    {
        EvidenceFlags(8)
    }

    /// Flags with one schema bit, `0 <= bit < 8`.
    pub fn single(bit: u16) -> (r: EvidenceFlags)
        requires
            bit < 8,
        ensures
            r.value() == 1u16 << bit,
    {
        proof {
            assert(bit < 8 ==> 1u16 << bit <= 0xff) by (bit_vector);
        }
        EvidenceFlags(1u16 << bit)
    }

    /// No contributing evidence, normally used only for unresolved pixels.
    pub fn none() -> (r: EvidenceFlags)
        ensures
            r.value() == 0,
    {
        EvidenceFlags(0)
    }

    /// Return the stable portable bit representation.
    pub fn bits(self) -> (r: u16)
        ensures
            r == self.value(),
            r <= VALID_EVIDENCE_BITS,
    {
        proof {
            use_type_invariant(self);
        }
        self.0
    }

    /// Combine two validated evidence sources.
    pub fn union(self, other: EvidenceFlags) -> (r: EvidenceFlags)
        ensures
            r.value() == self.value() | other.value(),
    {
        proof {
            use_type_invariant(self);
            use_type_invariant(other);
            let a = self.0;
            let b = other.0;
            assert(a <= 0xff && b <= 0xff ==> a | b <= 0xff) by (bit_vector);
        }
        EvidenceFlags(self.0 | other.0)
    }

    /// Whether all supplied evidence bits are present.
    pub fn contains(self, other: EvidenceFlags) -> (r: bool)
        ensures
            r == (self.value() & other.value() == other.value()),
    {
        self.0 & other.0 == other.0
    }
}

/// A union contains both of its operands, and containment is exactly
/// "the union adds nothing".
pub proof fn lemma_evidence_union(a: u16, b: u16)
    ensures
        (a | b) & a == a,
        (a | b) & b == b,
        (a & b == b) <==> (a | b == a),
{
    assert((a | b) & a == a) by (bit_vector);
    assert((a | b) & b == b) by (bit_vector);
    assert((a & b == b) <==> (a | b == a)) by (bit_vector);
}

/// One fixed-width semantic mask pixel.
#[derive(Clone, Copy, Debug, Eq, PartialEq, Structural)]
pub struct MaskPixel {
    /// Fused semantic classification.
    pub class: SemanticClass,
    /// Quantized confidence from 0 through 255.
    pub confidence: u8,
    /// Stable zero-based absence or positive instance identity.
    pub instance_id: u32,
    /// Contributing evidence sources.
    pub evidence: EvidenceFlags,
}

/// Intended stage for one immutable mask artifact.
#[derive(Clone, Copy, Debug, Eq, PartialEq, Structural)]
pub enum ArtifactRole {
    /// Raw accepted evidence. Transient and source-artifact classes are legal.
    Evidence,
    /// Fused input to repair. Transient and source-artifact classes are legal.
    RepairInput,
    /// Repaired persistent content. Transient and artifact classes are illegal.
    Persistent,
}

impl ArtifactRole {
    /// Stable human-readable role identifier.
    pub fn as_str(self) -> (r: &'static str)
        ensures
            self is Evidence ==> r@ == "evidence"@,
            self is RepairInput ==> r@ == "repair-input"@,
            self is Persistent ==> r@ == "persistent"@,
    {
        match self {
            ArtifactRole::Evidence => "evidence",
            ArtifactRole::RepairInput => "repair-input",
            ArtifactRole::Persistent => "persistent",
        }
    }
}

/// Exact registration with one validated reference bundle.
#[derive(Clone, Debug, Eq, PartialEq)]
pub struct ReferenceRegistration {
    /// Reference bundle identity.
    pub bundle_id: String,
    /// SHA-256 of the canonical registered reference manifest.
    pub manifest_sha256: String,
    /// Registered region identity.
    pub region_id: String,
    /// Registered full guarded width.
    pub width_px: u32,
    /// Registered full guarded height.
    pub height_px: u32,
    /// SHA-256 of the canonical grid and camera identity record.
    pub grid_sha256: String,
}

/// Identity of the deterministic compiler or frozen model stage.
#[derive(Clone, Debug, Eq, PartialEq)]
pub struct ProducerIdentity {
    /// Stable producer name.
    pub name: String,
    /// Pinned implementation, model, or weights version.
    pub version: String,
}

/// One binary mask file record.
#[derive(Clone, Debug, Eq, PartialEq)]
pub struct MaskLayerRecord {
    /// Canonical artifact-relative path.
    pub path: String,
    /// Portable binary encoding identity.
    pub encoding: String,
    /// Registered pixel width.
    pub width_px: u32,
    /// Registered pixel height.
    pub height_px: u32,
    /// Fixed bytes per pixel record.
    pub record_bytes: u16,
    /// Exact file length including its header.
    pub byte_length: u64,
    /// SHA-256 over exact file bytes.
    pub sha256: String,
}

/// Count for one class in stable ontology order.
#[derive(Clone, Copy, Debug, Eq, PartialEq, Structural)]
pub struct ClassCount {
    /// Semantic class.
    pub class: SemanticClass,
    /// Exact pixel count.
    pub pixels: u64,
}

/// Complete immutable mask artifact contract.
#[derive(Clone, Debug, Eq, PartialEq)]
pub struct MaskManifest {
    /// Manifest schema identity.
    pub schema: String,
    /// Stable artifact identity.
    pub artifact_id: String,
    /// Intended stage and transient policy.
    pub role: ArtifactRole,
    /// Stable ontology identity.
    pub ontology: String,
    /// Immutable promotion marker.
    pub frozen: bool,
    /// Exact upstream reference registration.
    pub reference: ReferenceRegistration,
    /// Compiler or inference-stage identity.
    pub producer: ProducerIdentity,
    /// Binary mask file.
    pub mask: MaskLayerRecord,
    /// Counts for all classes in ontology order.
    pub class_counts: Vec<ClassCount>,
    /// Exact number of unresolved pixels.
    pub unknown_pixels: u64,
    /// Exact number of transient pixels.
    pub transient_pixels: u64,
    /// Number of distinct nonzero instance identities.
    pub instance_count: u32,
    /// Largest nonzero instance identity, or zero when none exist.
    pub max_instance_id: u32,
}

/// Inputs that do not depend on pixel content when creating an artifact.
#[derive(Clone, Debug, Eq, PartialEq)]
pub struct ArtifactDescriptor {
    /// Stable artifact identity.
    pub artifact_id: String,
    /// Intended stage and transient policy.
    pub role: ArtifactRole,
    /// Exact upstream reference registration.
    pub reference: ReferenceRegistration,
    /// Compiler or inference-stage identity.
    pub producer: ProducerIdentity,
}

/// Verified mask evidence returned without retaining the mask raster.
#[derive(Clone, Debug, Eq, PartialEq)]
pub struct ArtifactReport {
    /// SHA-256 over canonical manifest JSON.
    pub manifest_sha256: String,
    /// Verified exact mask SHA-256.
    pub mask_sha256: String,
    /// Number of streamed pixels.
    pub pixel_count: u64,
    /// Number of unresolved pixels.
    pub unknown_pixels: u64,
    /// Number of transient pixels.
    pub transient_pixels: u64,
    /// Number of distinct instances.
    pub instance_count: u32,
}

/// A lowercase safe identifier byte.
pub open spec fn identity_byte(b: u8) -> bool {
    (0x61 <= b && b <= 0x7a) || (0x30 <= b && b <= 0x39) || b == 0x2d
}

/// A non-empty lowercase safe identifier of at most 96 bytes.
pub open spec fn identity_ok(bytes: Seq<u8>) -> bool {
    1 <= bytes.len() <= 96 && forall|i: int| 0 <= i < bytes.len() ==> identity_byte(#[trigger] bytes[i])
}

/// Whether bytes contain the parent-directory step `../`.
pub open spec fn has_parent_step(bytes: Seq<u8>) -> bool {
    exists|i: int| 0 <= i && i + 3 <= bytes.len() && #[trigger] bytes[i] == 0x2e && bytes[i + 1] == 0x2e && bytes[i + 2] == 0x2f
}

/// Free text: non-empty, bounded, without control characters or `../`.
pub open spec fn text_ok(chars: Seq<char>, max_length: int) -> bool {
    &&& chars.len() > 0
    &&& encode_utf8(chars).len() <= max_length
    &&& !has_control_spec(chars)
    &&& !has_parent_step(encode_utf8(chars))
}

/// Accepted mask dimensions.
pub open spec fn mask_dims_ok(width: int, height: int) -> bool {
    1 <= width <= MAX_MASK_DIMENSION && 1 <= height <= MAX_MASK_DIMENSION
}

/// An accepted reference registration.
pub open spec fn registration_ok(r: ReferenceRegistration) -> bool {
    &&& identity_ok(encode_utf8(r.bundle_id@))
    &&& identity_ok(encode_utf8(r.region_id@))
    &&& mask_dims_ok(r.width_px as int, r.height_px as int)
    &&& is_sha256_bytes(encode_utf8(r.manifest_sha256@))
    &&& is_sha256_bytes(encode_utf8(r.grid_sha256@))
}

/// An accepted producer identity.
pub open spec fn producer_ok(p: ProducerIdentity) -> bool {
    text_ok(p.name@, 128) && text_ok(p.version@, 256)
}

/// Validate a lowercase safe identifier.
pub fn validate_identity(value: &str, name: &str) -> (r: Result<(), MaskError>)
    ensures
        r is Ok <==> identity_ok(value.spec_bytes()),
{
    let bytes = value.as_bytes();
    if bytes.len() == 0 || bytes.len() > 96 {
        return Err(invalid("mask identity must use a lowercase safe identifier"));
    }
    let mut i: usize = 0;
    while i < bytes.len()
        invariant
            bytes@ == value.spec_bytes(),
            1 <= bytes@.len() <= 96,
            i <= bytes@.len(),
            forall|j: int| 0 <= j < i ==> identity_byte(#[trigger] bytes@[j]),
        decreases bytes@.len() - i,
    {
        let b = bytes[i];
        if !((0x61 <= b && b <= 0x7a) || (0x30 <= b && b <= 0x39) || b == 0x2d) {
            return Err(invalid("mask identity must use a lowercase safe identifier"));
        }
        i += 1;
    }
    Ok(())
}

/// Whether bytes contain `../`.
pub fn contains_parent_step(bytes: &[u8]) -> (r: bool)
    ensures
        r == has_parent_step(bytes@),
{
    if bytes.len() < 3 {
        return false;
    }
    let mut i: usize = 0;
    while i <= bytes.len() - 3
        invariant
            bytes@.len() >= 3,
            i + 2 <= bytes@.len(),
            forall|j: int| 0 <= j < i ==> !(#[trigger] bytes@[j] == 0x2e && bytes@[j + 1] == 0x2e && bytes@[j + 2] == 0x2f),
        decreases bytes@.len() - i,
    {
        if bytes[i] == 0x2e && bytes[i + 1] == 0x2e && bytes[i + 2] == 0x2f {
            return true;
        }
        i += 1;
    }
    false
}

/// Validate bounded free text.
pub fn validate_text(value: &str, name: &str, max_length: usize) -> (r: Result<(), MaskError>)
    ensures
        r is Ok <==> text_ok(value@, max_length as int),
{
    let bytes = value.as_bytes();
    proof {
        vstd::utf8::encode_utf8_decode_utf8(value@);
    }
    if bytes.len() == 0 || bytes.len() > max_length || has_control(value) || contains_parent_step(bytes) {
        proof {
            if bytes@.len() == 0 {
                assert(vstd::utf8::decode_utf8(bytes@) =~= Seq::<char>::empty());
            }
        }
        return Err(invalid("mask text field is invalid"));
    }
    proof {
        if value@.len() == 0 {
            assert(encode_utf8(value@) =~= Seq::<u8>::empty());
        }
    }
    Ok(())
}

/// Validate a reference registration.
pub fn validate_registration(reference: &ReferenceRegistration) -> (r: Result<(), MaskError>)
    ensures
        r is Ok <==> registration_ok(*reference),
{
    match validate_identity(reference.bundle_id.as_str(), "reference bundle") {
        Err(e) => return Err(e),
        Ok(()) => {},
    }
    match validate_identity(reference.region_id.as_str(), "reference region") {
        Err(e) => return Err(e),
        Ok(()) => {},
    }
    match checked_pixel_count(reference.width_px, reference.height_px) {
        Err(e) => return Err(e),
        Ok(_) => {},
    }
    if !is_sha256(reference.manifest_sha256.as_str()) || !is_sha256(reference.grid_sha256.as_str()) {
        return Err(invalid("mask reference registration lacks canonical SHA-256 identities"));
    }
    Ok(())
}

/// Validate a producer identity.
pub fn validate_producer(producer: &ProducerIdentity) -> (r: Result<(), MaskError>)
    ensures
        r is Ok <==> producer_ok(*producer),
{
    match validate_text(producer.name.as_str(), "mask producer name", 128) {
        Err(e) => return Err(e),
        Ok(()) => {},
    }
    validate_text(producer.version.as_str(), "mask producer version", 256)
}

/// Pixel count of accepted mask dimensions.
pub fn checked_pixel_count(width: u32, height: u32) -> (r: Result<u64, MaskError>)
    ensures
        r is Ok <==> mask_dims_ok(width as int, height as int),
        r matches Ok(n) ==> n == width as int * height as int,
{
    if width == 0 || height == 0 || width > MAX_MASK_DIMENSION || height > MAX_MASK_DIMENSION {
        return Err(invalid("mask dimensions are zero or exceed the registered ceiling"));
    }
    proof {
        assert(width as int * height as int <= 4096 * 4096) by (nonlinear_arith)
            requires
                width <= 4096,
                height <= 4096,
        ;
    }
    Ok(width as u64 * height as u64)
}

/// Exact byte length of a mask file: header plus one record per pixel.
pub open spec fn mask_length(width: int, height: int) -> int {
    width * height * RECORD_BYTES + HEADER_BYTES
}

/// Exact byte length of an accepted mask file.
pub fn expected_mask_length(width: u32, height: u32) -> (r: Result<u64, MaskError>)
    ensures
        r is Ok <==> mask_dims_ok(width as int, height as int),
        r matches Ok(n) ==> n == mask_length(width as int, height as int),
{
    let pixels = match checked_pixel_count(width, height) {
        Err(e) => return Err(e),
        Ok(n) => n,
    };
    proof {
        assert(pixels <= 4096 * 4096) by (nonlinear_arith)
            requires
                pixels == width as int * height as int,
                width <= 4096,
                height <= 4096,
        ;
    }
    Ok(pixels * 8 + 20)
}

/// Sum of the pixel counts of class-count records.
pub open spec fn counted_total(counts: Seq<ClassCount>) -> int
    decreases counts.len(),
{
    if counts.len() == 0 {
        0
    } else {
        counted_total(counts.drop_last()) + counts.last().pixels
    }
}

/// Sum of the pixel counts of transient class-count records.
pub open spec fn transient_total(counts: Seq<ClassCount>) -> int
    decreases counts.len(),
{
    if counts.len() == 0 {
        0
    } else {
        transient_total(counts.drop_last()) + if transient_class(counts.last().class) {
            counts.last().pixels as int
        } else {
            0
        }
    }
}

proof fn lemma_transient_within_total(counts: Seq<ClassCount>)
    ensures
        0 <= transient_total(counts) <= counted_total(counts),
    decreases counts.len(),
{
    if counts.len() > 0 {
        lemma_transient_within_total(counts.drop_last());
    }
}

/// The class counts cover the complete ontology in binary order.
pub open spec fn ontology_ordered(counts: Seq<ClassCount>) -> bool {
    counts.len() == CLASS_COUNT && forall|k: int| 0 <= k < counts.len() ==> class_code(#[trigger] counts[k].class) == k
}

/// A complete, self-consistent mask manifest.
pub open spec fn manifest_ok(m: MaskManifest) -> bool {
    let w = m.mask.width_px as int;
    let h = m.mask.height_px as int;
    &&& m.schema@ == MANIFEST_SCHEMA@ && m.ontology@ == ONTOLOGY_ID@ && m.frozen
    &&& identity_ok(encode_utf8(m.artifact_id@))
    &&& registration_ok(m.reference)
    &&& producer_ok(m.producer)
    &&& mask_dims_ok(w, h)
    &&& m.mask.path@ == MASK_FILENAME@ && m.mask.encoding@ == MASK_ENCODING@
    &&& m.mask.width_px == m.reference.width_px && m.mask.height_px == m.reference.height_px
    &&& m.mask.record_bytes == RECORD_BYTES
    &&& m.mask.byte_length == mask_length(w, h)
    &&& is_sha256_bytes(encode_utf8(m.mask.sha256@))
    &&& ontology_ordered(m.class_counts@)
    &&& counted_total(m.class_counts@) == w * h
    &&& m.unknown_pixels == m.class_counts@[0].pixels
    &&& m.transient_pixels == transient_total(m.class_counts@)
    &&& m.instance_count <= m.max_instance_id <= MAX_INSTANCE_ID
    &&& (m.instance_count == 0) == (m.max_instance_id == 0)
    &&& m.role is Persistent ==> m.transient_pixels == 0 && m.class_counts@[23].pixels == 0
}

/// Validate a complete mask manifest.
pub fn validate_manifest(manifest: &MaskManifest) -> (r: Result<(), MaskError>)
    ensures
        r is Ok <==> manifest_ok(*manifest),
{
    if !str_eq(manifest.schema.as_str(), MANIFEST_SCHEMA) || !str_eq(manifest.ontology.as_str(), ONTOLOGY_ID)
        || !manifest.frozen {
        return Err(invalid("mask schema, ontology, or frozen state is invalid"));
    }
    match validate_identity(manifest.artifact_id.as_str(), "mask artifact") {
        Err(e) => return Err(e),
        Ok(()) => {},
    }
    match validate_registration(&manifest.reference) {
        Err(e) => return Err(e),
        Ok(()) => {},
    }
    match validate_producer(&manifest.producer) {
        Err(e) => return Err(e),
        Ok(()) => {},
    }
    let mask = &manifest.mask;
    let expected_pixels = match checked_pixel_count(mask.width_px, mask.height_px) {
        Err(e) => return Err(e),
        Ok(n) => n,
    };
    proof {
        assert(expected_pixels <= 16_777_216) by (nonlinear_arith)
            requires
                expected_pixels == mask.width_px as int * mask.height_px as int,
                mask.width_px <= 4096,
                mask.height_px <= 4096,
        ;
    }
    let expected_length = match expected_mask_length(mask.width_px, mask.height_px) {
        Err(e) => return Err(e),
        Ok(n) => n,
    };
    if !str_eq(mask.path.as_str(), MASK_FILENAME) || !str_eq(mask.encoding.as_str(), MASK_ENCODING)
        || mask.width_px != manifest.reference.width_px || mask.height_px != manifest.reference.height_px
        || mask.record_bytes != RECORD_BYTES || mask.byte_length != expected_length || !is_sha256(
        mask.sha256.as_str(),
    ) {
        return Err(invalid("mask layer violates its portable registered contract"));
    }
    let counts = &manifest.class_counts;
    if counts.len() != CLASS_COUNT {
        return Err(invalid("mask class counts must contain the complete ontology in order"));
    }
    let mut k: usize = 0;
    while k < counts.len()
        invariant
            *counts == manifest.class_counts,
            counts@.len() == CLASS_COUNT,
            k <= counts@.len(),
            forall|j: int| 0 <= j < k ==> class_code(#[trigger] counts@[j].class) == j,
        decreases counts@.len() - k,
    {
        if counts[k].class.code() as usize != k {
            return Err(invalid("mask class counts must contain the complete ontology in order"));
        }
        k += 1;
    }
    let mut total: u64 = 0;
    let mut transient: u64 = 0;
    let mut k: usize = 0;
    while k < counts.len()
        invariant
            *counts == manifest.class_counts,
            expected_pixels == manifest.mask.width_px as int * manifest.mask.height_px as int,
            expected_pixels <= 16_777_216,
            counts@.len() == CLASS_COUNT,
            k <= counts@.len(),
            total == counted_total(counts@.subrange(0, k as int)),
            transient == transient_total(counts@.subrange(0, k as int)),
        decreases counts@.len() - k,
    {
        proof {
            assert(counts@.subrange(0, k + 1).drop_last() =~= counts@.subrange(0, k as int));
            lemma_transient_within_total(counts@.subrange(0, k as int));
        }
        let add = counts[k].pixels;
        if add > u64::MAX - total {
            proof {
                lemma_total_monotone(counts@, k as int + 1);
                assert(counted_total(counts@.subrange(0, k + 1)) == total + add);
                assert(counts@.subrange(0, counts@.len() as int) =~= counts@);
            }
            return Err(invalid("mask class counts overflowed"));
        }
        total = total + add;
        if counts[k].class.is_transient() {
            transient = transient + add;
        }
        k += 1;
    }
    proof {
        assert(counts@.subrange(0, counts@.len() as int) =~= counts@);
    }
    if total != expected_pixels || manifest.unknown_pixels != counts[0].pixels || manifest.transient_pixels != transient
        || manifest.instance_count > manifest.max_instance_id || manifest.max_instance_id > MAX_INSTANCE_ID
        || (manifest.instance_count == 0) != (manifest.max_instance_id == 0) {
        return Err(invalid("mask summary counts or instance bounds are invalid"));
    }
    if matches!(manifest.role, ArtifactRole::Persistent) && (manifest.transient_pixels != 0 || counts[23].pixels != 0) {
        return Err(invalid("persistent mask contains transient or source-artifact pixels"));
    }
    Ok(())
}

proof fn lemma_total_monotone(counts: Seq<ClassCount>, k: int)
    requires
        0 <= k <= counts.len(),
    ensures
        counted_total(counts.subrange(0, k)) <= counted_total(counts),
    decreases counts.len() - k,
{
    if k < counts.len() {
        lemma_total_monotone(counts, k + 1);
        assert(counts.subrange(0, k + 1).drop_last() =~= counts.subrange(0, k));
    } else {
        assert(counts.subrange(0, k) =~= counts);
    }
}

/// The little-endian value of two bytes.
pub open spec fn le_u16(b0: u8, b1: u8) -> int {
    b0 + 256 * b1
}

/// The little-endian value of four bytes.
pub open spec fn le_u32(b0: u8, b1: u8, b2: u8, b3: u8) -> int {
    b0 + 256 * b1 + 65536 * b2 + 16777216 * b3
}

/// The mask magic `ISOMSKV1`.
pub open spec fn mask_magic() -> Seq<u8> {
    seq![0x49u8, 0x53, 0x4f, 0x4d, 0x53, 0x4b, 0x56, 0x31]
}

/// The exact header bytes of a registered mask file.
pub open spec fn header_spec(width: u32, height: u32) -> Seq<u8> {
    mask_magic() + seq![
        (width % 256) as u8,
        (width / 256 % 256) as u8,
        (width / 65536 % 256) as u8,
        (width / 16777216) as u8,
        (height % 256) as u8,
        (height / 256 % 256) as u8,
        (height / 65536 % 256) as u8,
        (height / 16777216) as u8,
        8u8,
        0u8,
        0u8,
        0u8
    ]
}

/// Whether a header announces the registered grid and record width.
pub open spec fn header_ok(h: Seq<u8>, mask: MaskLayerRecord) -> bool {
    &&& h.len() == HEADER_BYTES
    &&& h.subrange(0, 8) == mask_magic()
    &&& le_u32(h[8], h[9], h[10], h[11]) == mask.width_px
    &&& le_u32(h[12], h[13], h[14], h[15]) == mask.height_px
    &&& le_u16(h[16], h[17]) == RECORD_BYTES
    &&& h[18] == 0 && h[19] == 0
}

fn read_le_u32(bytes: &[u8], at: usize) -> (r: u32)
    requires
        at + 4 <= bytes@.len(),
    ensures
        r == le_u32(bytes@[at as int], bytes@[at + 1], bytes@[at + 2], bytes@[at + 3]),
{
    bytes[at] as u32 + bytes[at + 1] as u32 * 256 + bytes[at + 2] as u32 * 65536 + bytes[at + 3] as u32 * 16777216
}

fn push_le_u32(out: &mut Vec<u8>, value: u32)
    ensures
        final(out)@ == old(out)@ + seq![
            (value % 256) as u8,
            (value / 256 % 256) as u8,
            (value / 65536 % 256) as u8,
            (value / 16777216) as u8
        ],
{
    out.push((value % 256) as u8);
    out.push((value / 256 % 256) as u8);
    out.push((value / 65536 % 256) as u8);
    out.push((value / 16777216) as u8);
}

/// Encode the binary header of a registered mask file.
pub fn encode_header(width: u32, height: u32) -> (r: Vec<u8>)
    ensures
        r@ == header_spec(width, height),
        r@.len() == HEADER_BYTES,
{
    let mut header: Vec<u8> = vec![0x49u8, 0x53, 0x4f, 0x4d, 0x53, 0x4b, 0x56, 0x31];
    push_le_u32(&mut header, width);
    push_le_u32(&mut header, height);
    header.push(8);
    header.push(0);
    header.push(0);
    header.push(0);
    proof {
        assert(header@ =~= header_spec(width, height));
    }
    header
}

/// Check a binary header against its layer record.
pub fn validate_header(header: &[u8], mask: &MaskLayerRecord) -> (r: Result<(), MaskError>)
    requires
        header@.len() == HEADER_BYTES,
    ensures
        r is Ok <==> header_ok(header@, *mask),
{
    let magic: [u8; 8] = [0x49u8, 0x53, 0x4f, 0x4d, 0x53, 0x4b, 0x56, 0x31];
    let mut i: usize = 0;
    while i < 8
        invariant
            header@.len() == HEADER_BYTES,
            i <= 8,
            magic@ == mask_magic(),
            forall|j: int| 0 <= j < i ==> header@[j] == mask_magic()[j],
        decreases 8 - i,
    {
        if header[i] != magic[i] {
            proof {
                assert(header@.subrange(0, 8)[i as int] != mask_magic()[i as int]);
            }
            return Err(invalid("mask binary header is invalid"));
        }
        i += 1;
    }
    proof {
        assert(header@.subrange(0, 8) =~= mask_magic());
    }
    if read_le_u32(header, 8) != mask.width_px || read_le_u32(header, 12) != mask.height_px || header[16] as u16
        + header[17] as u16 * 256 != RECORD_BYTES || header[18] != 0 || header[19] != 0 {
        return Err(invalid("mask binary header is invalid"));
    }
    Ok(())
}

/// Record bytes of one pixel: class, confidence, evidence (u16 LE), instance (u32 LE).
pub open spec fn pixel_record(p: MaskPixel) -> Seq<u8> {
    let bits = p.evidence.value();
    let id = p.instance_id;
    seq![
        class_code(p.class),
        p.confidence,
        (bits % 256) as u8,
        (bits / 256) as u8,
        (id % 256) as u8,
        (id / 256 % 256) as u8,
        (id / 65536 % 256) as u8,
        (id / 16777216) as u8
    ]
}

/// Whether record bytes decode to a pixel: a known class and schema-only evidence bits.
pub open spec fn record_decodes(r: Seq<u8>) -> bool {
    r.len() == 8 && r[0] < 24 && le_u16(r[2], r[3]) <= VALID_EVIDENCE_BITS
}

/// Encode one pixel record.
pub fn encode_pixel(pixel: MaskPixel) -> (r: Vec<u8>)
    ensures
        r@ == pixel_record(pixel),
{
    let bits = pixel.evidence.bits();
    let mut out: Vec<u8> = Vec::new();
    out.push(pixel.class.code());
    out.push(pixel.confidence);
    out.push((bits % 256) as u8);
    out.push((bits / 256) as u8);
    push_le_u32(&mut out, pixel.instance_id);
    proof {
        assert(out@ =~= pixel_record(pixel));
    }
    out
}

proof fn lemma_le_u32_bytes(b0: u8, b1: u8, b2: u8, b3: u8, v: u32)
    requires
        v == b0 as u32 + b1 as u32 * 256 + b2 as u32 * 65536 + b3 as u32 * 16777216,
    ensures
        v % 256 == b0 as u32,
        v / 256 % 256 == b1 as u32,
        v / 65536 % 256 == b2 as u32,
        v / 16777216 == b3 as u32,
{
    assert(v % 256 == b0 as u32 && v / 256 % 256 == b1 as u32 && v / 65536 % 256 == b2 as u32 && v / 16777216
        == b3 as u32) by (bit_vector)
        requires
            v == b0 as u32 + b1 as u32 * 256 + b2 as u32 * 65536 + b3 as u32 * 16777216,
    ;
}

proof fn lemma_le_u16_bytes(b0: u8, b1: u8, v: u16)
    requires
        v == b0 as u16 + b1 as u16 * 256,
    ensures
        v % 256 == b0 as u16,
        v / 256 == b1 as u16,
        v & !0xffu16 == 0 <==> v <= 0xff,
{
    assert(v % 256 == b0 as u16 && v / 256 == b1 as u16 && (v & !0xffu16 == 0 <==> v <= 0xff)) by (bit_vector)
        requires
            v == b0 as u16 + b1 as u16 * 256,
    ;
}

/// Decode one pixel record.
pub fn decode_pixel(encoded: &[u8]) -> (r: Result<MaskPixel, MaskError>)
    requires
        encoded@.len() == 8,
    ensures
        r is Ok <==> record_decodes(encoded@),
        r matches Ok(p) ==> pixel_record(p) == encoded@,
{
    let class = match SemanticClass::from_code(encoded[0]) {
        Err(e) => return Err(e),
        Ok(c) => c,
    };
    let bits: u16 = encoded[2] as u16 + encoded[3] as u16 * 256;
    proof {
        lemma_le_u16_bytes(encoded@[2], encoded@[3], bits);
    }
    let evidence = match EvidenceFlags::from_bits(bits) {
        Err(e) => return Err(e),
        Ok(f) => f,
    };
    let instance_id = read_le_u32(encoded, 4);
    proof {
        lemma_le_u32_bytes(encoded@[4], encoded@[5], encoded@[6], encoded@[7], instance_id);
    }
    let pixel = MaskPixel { class, confidence: encoded[1], instance_id, evidence };
    proof {
        assert(pixel_record(pixel) =~= encoded@);
    }
    Ok(pixel)
}

/// Decoding an encoded pixel gives the pixel back.
pub proof fn lemma_pixel_round_trip(p: MaskPixel)
    requires
        p.evidence.value() <= VALID_EVIDENCE_BITS,
    ensures
        record_decodes(pixel_record(p)),
{
}

/// Instance-table state: class code per identity, distinct identities, and largest identity.
pub type InstanceState = (Seq<u8>, u32, u32);

/// Whether a class code may appear in a persistent artifact.
pub open spec fn code_persistent(c: int) -> bool {
    c < 18
}

/// Whether a class code is transient.
pub open spec fn code_transient(c: int) -> bool {
    18 <= c <= 22
}

/// The effect of accepting one pixel of class code `c` and instance `id`,
/// or `None` when the pixel is refused.
pub open spec fn pixel_step(st: InstanceState, c: int, id: int, role: ArtifactRole) -> Option<InstanceState> {
    let (table, distinct, max) = st;
    if role is Persistent && !code_persistent(c) {
        None
    } else if id == 0 {
        Some(st)
    } else if c == 0 || c == 1 {
        None
    } else if id >= table.len() {
        None
    } else if table[id] == UNSEEN_INSTANCE {
        if distinct == u32::MAX {
            None
        } else {
            Some((table.update(id, c as u8), (distinct + 1) as u32, if id > max { id as u32 } else { max }))
        }
    } else if table[id] != c {
        None
    } else {
        Some((table, distinct, if id > max { id as u32 } else { max }))
    }
}

proof fn lemma_class_code_persistent(c: SemanticClass)
    ensures
        persistent_class(c) <==> code_persistent(class_code(c) as int),
        transient_class(c) <==> code_transient(class_code(c) as int),
        (c is Unknown || c is SkyOrVoid) <==> (class_code(c) == 0 || class_code(c) == 1),
{
}

/// Accept one pixel into the instance table.
pub fn validate_pixel(
    pixel: MaskPixel,
    role: ArtifactRole,
    instance_classes: &mut Vec<u8>,
    distinct_instances: &mut u32,
    observed_max_instance: &mut u32,
) -> (r: Result<(), MaskError>)
    ensures
        ({
            let step = pixel_step(
                (old(instance_classes)@, *old(distinct_instances), *old(observed_max_instance)),
                class_code(pixel.class) as int,
                pixel.instance_id as int,
                role,
            );
            &&& r is Ok <==> step is Some
            &&& step matches Some(st) ==> final(instance_classes)@ == st.0 && *final(distinct_instances) == st.1
                && *final(observed_max_instance) == st.2
        }),
        (role is Persistent && !persistent_class(pixel.class)) ==> (r matches Err(MaskError::Invalid(m)) && m@
            == "persistent mask contains forbidden pixel"@),
{
    proof {
        lemma_class_code_persistent(pixel.class);
    }
    if matches!(role, ArtifactRole::Persistent) && !pixel.class.is_persistent_compatible() {
        return Err(invalid("persistent mask contains forbidden pixel"));
    }
    if pixel.instance_id == 0 {
        return Ok(());
    }
    if matches!(pixel.class, SemanticClass::Unknown | SemanticClass::SkyOrVoid) {
        return Err(invalid("unknown or void mask pixel cannot carry an instance identity"));
    }
    let index = pixel.instance_id as usize;
    if index >= instance_classes.len() {
        return Err(invalid("mask instance identity exceeds its bound"));
    }
    let class = pixel.class.code();
    if instance_classes[index] == UNSEEN_INSTANCE {
        instance_classes.set(index, class);
        if *distinct_instances == u32::MAX {
            return Err(invalid("mask instance count overflowed"));
        }
        *distinct_instances = *distinct_instances + 1;
    } else if instance_classes[index] != class {
        return Err(invalid("mask instance spans multiple semantic classes"));
    }
    if pixel.instance_id > *observed_max_instance {
        *observed_max_instance = pixel.instance_id;
    }
    Ok(())
}

/// Length of the instance table for a manifest: one slot per identity up to the maximum.
pub fn instance_table_len(manifest: &MaskManifest) -> (r: Result<usize, MaskError>)
    ensures
        r is Ok <==> manifest.max_instance_id < u32::MAX,
        r matches Ok(n) ==> n == manifest.max_instance_id + 1,
{
    if manifest.max_instance_id == u32::MAX {
        return Err(invalid("mask instance table overflowed"));
    }
    Ok(manifest.max_instance_id as usize + 1)
}

/// Sum of the counts at transient class codes.
pub open spec fn transient_sum(counts: Seq<u64>) -> int {
    counts[18] + counts[19] + counts[20] + counts[21] + counts[22]
}

/// Number of transient pixels in per-class counts.
pub fn transient_count(class_counts: &[u64]) -> (r: u64)
    requires
        class_counts@.len() == CLASS_COUNT,
        transient_sum(class_counts@) <= u64::MAX,
    ensures
        r == transient_sum(class_counts@),
{
    class_counts[18] + class_counts[19] + class_counts[20] + class_counts[21] + class_counts[22]
}

proof fn lemma_transient_total_ordered(counts: Seq<ClassCount>, k: int)
    requires
        0 <= k <= counts.len(),
        forall|j: int| 0 <= j < counts.len() ==> class_code(#[trigger] counts[j].class) == j,
    ensures
        transient_total(counts.subrange(0, k)) == (if k > 18 { counts[18].pixels as int } else { 0 }) + (if k > 19 {
            counts[19].pixels as int
        } else {
            0
        }) + (if k > 20 { counts[20].pixels as int } else { 0 }) + (if k > 21 { counts[21].pixels as int } else { 0 })
            + (if k > 22 { counts[22].pixels as int } else { 0 }),
    decreases k,
{
    if k > 0 {
        lemma_transient_total_ordered(counts, k - 1);
        assert(counts.subrange(0, k).drop_last() =~= counts.subrange(0, k - 1));
        assert(class_code(counts[k - 1].class) == k - 1);
        lemma_class_code_persistent(counts[k - 1].class);
    }
}

/// Whether observed per-class counts and instance statistics match a manifest.
pub open spec fn observed_matches(m: MaskManifest, observed: Seq<u64>, instance_count: u32, max_instance_id: u32) -> bool {
    &&& forall|k: int| 0 <= k < m.class_counts@.len() && k < observed.len() ==> #[trigger] m.class_counts@[k].pixels == observed[k]
    &&& m.unknown_pixels == observed[0]
    &&& m.transient_pixels == transient_sum(observed)
    &&& m.instance_count == instance_count
    &&& m.max_instance_id == max_instance_id
}

/// Compare observed content summaries with a manifest.
pub fn validate_observed_counts(
    manifest: &MaskManifest,
    observed: &[u64],
    instance_count: u32,
    max_instance_id: u32,
) -> (r: Result<(), MaskError>)
    requires
        observed@.len() == CLASS_COUNT,
        transient_sum(observed@) <= u64::MAX,
    ensures
        r is Ok <==> observed_matches(*manifest, observed@, instance_count, max_instance_id),
{
    let counts = &manifest.class_counts;
    let mut k: usize = 0;
    while k < counts.len() && k < observed.len()
        invariant
            *counts == manifest.class_counts,
            observed@.len() == CLASS_COUNT,
            k <= observed@.len(),
            forall|j: int| 0 <= j < k && j < counts@.len() ==> #[trigger] counts@[j].pixels == observed@[j],
        decreases observed@.len() - k,
    {
        if counts[k].pixels != observed[k] {
            return Err(invalid("mask binary content does not match manifest summaries"));
        }
        k += 1;
    }
    if manifest.unknown_pixels != observed[0] || manifest.transient_pixels != transient_count(observed)
        || manifest.instance_count != instance_count || manifest.max_instance_id != max_instance_id {
        return Err(invalid("mask binary content does not match manifest summaries"));
    }
    Ok(())
}

/// The `k`-th pixel record of a mask file.
pub open spec fn record_at(payload: Seq<u8>, k: int) -> Seq<u8> {
    payload.subrange(HEADER_BYTES + 8 * k, HEADER_BYTES + 8 * k + 8)
}

/// Streaming state: instance table state and per-class counts.
pub type ScanState = (InstanceState, Seq<u64>);

/// The state after accepting the first `k` records, or `None` once one is refused.
pub open spec fn scan_records(payload: Seq<u8>, role: ArtifactRole, table_len: nat, k: int) -> Option<ScanState>
    decreases k,
{
    if k <= 0 {
        Some(((Seq::new(table_len, |i: int| UNSEEN_INSTANCE), 0u32, 0u32), Seq::new(CLASS_COUNT as nat, |i: int| 0u64)))
    } else {
        match scan_records(payload, role, table_len, k - 1) {
            None => None,
            Some(st) => {
                let r = record_at(payload, k - 1);
                if !record_decodes(r) {
                    None
                } else {
                    match pixel_step(st.0, r[0] as int, le_u32(r[4], r[5], r[6], r[7]), role) {
                        None => None,
                        Some(next) => Some((next, st.1.update(r[0] as int, (st.1[r[0] as int] + 1) as u64))),
                    }
                }
            },
        }
    }
}

/// Whether a mask file is exactly the artifact its manifest describes.
pub open spec fn payload_ok(m: MaskManifest, payload: Seq<u8>) -> bool {
    let n = m.mask.width_px as int * m.mask.height_px as int;
    &&& manifest_ok(m)
    &&& payload.len() == m.mask.byte_length
    &&& header_ok(payload.subrange(0, HEADER_BYTES as int), m.mask)
    &&& scan_records(payload, m.role, (m.max_instance_id + 1) as nat, n) matches Some(st) && hex_spec(
        sha256_spec(payload),
    ) == m.mask.sha256@ && observed_matches(m, st.1, st.0.1, st.0.2)
}

proof fn lemma_id_bytes(id: u32)
    ensures
        le_u32((id % 256) as u8, (id / 256 % 256) as u8, (id / 65536 % 256) as u8, (id / 16777216) as u8) == id,
{
    assert(((id % 256) as u8) as u32 + ((id / 256 % 256) as u8) as u32 * 256 + ((id / 65536 % 256) as u8) as u32 * 65536
        + ((id / 16777216) as u8) as u32 * 16777216 == id) by (bit_vector);
}

fn copy_range(bytes: &[u8], start: usize, len: usize) -> (r: Vec<u8>)
    requires
        start + len <= bytes@.len(),
    ensures
        r@ == bytes@.subrange(start as int, start + len),
{
    let mut out: Vec<u8> = Vec::new();
    let total = bytes.len();
    let mut i: usize = 0;
    while i < len
        invariant
            total == bytes@.len(),
            start + len <= bytes@.len(),
            i <= len,
            out@ == bytes@.subrange(start as int, start + i),
        decreases len - i,
    {
        out.push(bytes[start + i]);
        proof {
            assert(out@ =~= bytes@.subrange(start as int, start + i + 1));
        }
        i += 1;
    }
    out
}

proof fn lemma_scan_refused(payload: Seq<u8>, role: ArtifactRole, table_len: nat, k: int, j: int)
    requires
        0 <= k <= j,
        scan_records(payload, role, table_len, k) is None,
    ensures
        scan_records(payload, role, table_len, j) is None,
    decreases j - k,
{
    if k < j {
        lemma_scan_refused(payload, role, table_len, k, j - 1);
    }
}

/// Validate one complete mask file against its manifest and summarize it.
/// `manifest_sha256` is the digest of the manifest's canonical JSON.
#[verifier::rlimit(60)]
pub fn verify_payload(manifest: &MaskManifest, payload: &[u8], manifest_sha256: String) -> (r: Result<
    ArtifactReport,
    MaskError,
>)
    ensures
        r is Ok <==> payload_ok(*manifest, payload@),
        r matches Ok(report) ==> {
            &&& report.manifest_sha256 == manifest_sha256
            &&& report.mask_sha256@ == manifest.mask.sha256@
            &&& report.pixel_count == manifest.mask.width_px as int * manifest.mask.height_px as int
            &&& report.unknown_pixels == manifest.unknown_pixels
            &&& report.transient_pixels == manifest.transient_pixels
            &&& report.instance_count == manifest.instance_count
        },
{
    match validate_manifest(manifest) {
        Err(e) => return Err(e),
        Ok(()) => {},
    }
    if payload.len() as u64 != manifest.mask.byte_length {
        return Err(invalid("mask payload byte length does not match"));
    }
    let header = copy_range(payload, 0, HEADER_BYTES);
    match validate_header(header.as_slice(), &manifest.mask) {
        Err(e) => return Err(e),
        Ok(()) => {},
    }
    let table_len = match instance_table_len(manifest) {
        Err(e) => return Err(e),
        Ok(n) => n,
    };
    let pixel_count = match checked_pixel_count(manifest.mask.width_px, manifest.mask.height_px) {
        Err(e) => return Err(e),
        Ok(n) => n,
    };
    let ghost role = manifest.role;
    let ghost tl = table_len as nat;
    proof {
        assert(pixel_count <= 16_777_216) by (nonlinear_arith)
            requires
                pixel_count == manifest.mask.width_px as int * manifest.mask.height_px as int,
                manifest.mask.width_px <= 4096,
                manifest.mask.height_px <= 4096,
        ;
    }
    let mut instance_classes: Vec<u8> = Vec::new();
    let mut t: usize = 0;
    while t < table_len
        invariant
            t <= table_len,
            instance_classes@.len() == t,
            forall|j: int| 0 <= j < t ==> #[trigger] instance_classes@[j] == UNSEEN_INSTANCE,
        decreases table_len - t,
    {
        instance_classes.push(UNSEEN_INSTANCE);
        t += 1;
    }
    let mut counts: Vec<u64> = Vec::new();
    let mut c: usize = 0;
    while c < CLASS_COUNT
        invariant
            c <= CLASS_COUNT,
            counts@.len() == c,
            forall|j: int| 0 <= j < c ==> #[trigger] counts@[j] == 0,
        decreases CLASS_COUNT - c,
    {
        counts.push(0);
        c += 1;
    }
    let mut distinct: u32 = 0;
    let mut max_seen: u32 = 0;
    proof {
        assert(instance_classes@ =~= Seq::new(tl, |i: int| UNSEEN_INSTANCE));
        assert(counts@ =~= Seq::new(CLASS_COUNT as nat, |i: int| 0u64));
        assert(payload@.len() == pixel_count * 8 + 20);
    }
    let mut k: u64 = 0;
    while k < pixel_count
        invariant
            manifest_ok(*manifest),
            payload@.len() == pixel_count * 8 + 20,
            pixel_count == manifest.mask.width_px as int * manifest.mask.height_px as int,
            pixel_count <= 16_777_216,
            role == manifest.role,
            tl == table_len && table_len == manifest.max_instance_id + 1,
            k <= pixel_count,
            counts@.len() == CLASS_COUNT,
            forall|j: int| 0 <= j < CLASS_COUNT ==> #[trigger] counts@[j] <= k,
            scan_records(payload@, role, tl, k as int) == Some(((instance_classes@, distinct, max_seen), counts@)),
        decreases pixel_count - k,
    {
        let start: usize = (20 + 8 * k) as usize;
        let record = copy_range(payload, start, 8);
        proof {
            assert(record@ == record_at(payload@, k as int));
        }
        let pixel = match decode_pixel(record.as_slice()) {
            Err(e) => {
                proof {
                    assert(!record_decodes(record_at(payload@, k as int)));
                    assert(scan_records(payload@, role, tl, k + 1) is None);
                    lemma_scan_refused(payload@, role, tl, k + 1, pixel_count as int);
                }
                return Err(e);
            },
            Ok(p) => p,
        };
        proof {
            lemma_id_bytes(pixel.instance_id);
            assert(record@ == record_at(payload@, k as int));
        }
        let ghost before = counts@;
        match validate_pixel(pixel, manifest.role, &mut instance_classes, &mut distinct, &mut max_seen) {
            Err(e) => {
                proof {
                    let r = record_at(payload@, k as int);
                    assert(r[0] == class_code(pixel.class));
                    assert(le_u32(r[4], r[5], r[6], r[7]) == pixel.instance_id);
                    assert(record_decodes(r));
                    assert(scan_records(payload@, role, tl, k + 1) is None);
                    lemma_scan_refused(payload@, role, tl, k + 1, pixel_count as int);
                }
                return Err(e);
            },
            Ok(()) => {},
        }
        let code = pixel.class.code() as usize;
        let current = counts[code];
        counts.set(code, current + 1);
        proof {
            assert forall|j: int| 0 <= j < CLASS_COUNT implies #[trigger] counts@[j] <= k + 1 by {
                assert(before[j] <= k);
            }
        }
        k += 1;
    }
    proof {
        assert forall|j: int| 0 <= j < CLASS_COUNT implies #[trigger] counts@[j] <= 16_777_216 by {}
    }
    let digest = sha256_hex(payload);
    if !str_eq(digest.as_str(), manifest.mask.sha256.as_str()) {
        return Err(invalid("mask payload SHA-256 does not match"));
    }
    match validate_observed_counts(manifest, counts.as_slice(), distinct, max_seen) {
        Err(e) => return Err(e),
        Ok(()) => {},
    }
    Ok(ArtifactReport {
        manifest_sha256,
        mask_sha256: digest,
        pixel_count,
        unknown_pixels: counts[0],
        transient_pixels: transient_count(counts.as_slice()),
        instance_count: distinct,
    })
}


/// The mask records of pixels, in order.
pub open spec fn pixels_payload(pixels: Seq<MaskPixel>) -> Seq<u8>
    decreases pixels.len(),
{
    if pixels.len() == 0 {
        Seq::empty()
    } else {
        pixels_payload(pixels.drop_last()) + pixel_record(pixels.last())
    }
}

/// The writer's state after accepting the first `k` pixels with a table for every
/// identity up to the ceiling, or `None` once one is refused.
pub open spec fn pixel_scan(pixels: Seq<MaskPixel>, role: ArtifactRole, k: int) -> Option<ScanState>
    decreases k,
{
    if k <= 0 {
        Some(
            (
                (Seq::new((MAX_INSTANCE_ID + 1) as nat, |i: int| UNSEEN_INSTANCE), 0u32, 0u32),
                Seq::new(CLASS_COUNT as nat, |i: int| 0u64),
            ),
        )
    } else {
        match pixel_scan(pixels, role, k - 1) {
            None => None,
            Some(st) => {
                let p = pixels[k - 1];
                let c = class_code(p.class) as int;
                match pixel_step(st.0, c, p.instance_id as int, role) {
                    None => None,
                    Some(next) => Some((next, st.1.update(c, (st.1[c] + 1) as u64))),
                }
            },
        }
    }
}

/// An artifact assembled in memory: its manifest and the exact mask file bytes.
pub struct BuiltArtifact {
    /// The manifest describing the mask file.
    pub manifest: MaskManifest,
    /// The mask file: header, then one record per pixel.
    pub payload: Vec<u8>,
}

/// Whether a descriptor and pixels can be written: a valid registration, identity and
/// producer, one pixel per registered grid position, and every pixel accepted in order.
pub open spec fn writable(d: ArtifactDescriptor, pixels: Seq<MaskPixel>) -> bool {
    let n = d.reference.width_px as int * d.reference.height_px as int;
    &&& registration_ok(d.reference)
    &&& identity_ok(encode_utf8(d.artifact_id@))
    &&& producer_ok(d.producer)
    &&& pixels.len() == n
    &&& pixel_scan(pixels, d.role, n) is Some
}

/// The descriptor's registration, identity and producer are valid.
pub open spec fn header_valid(d: ArtifactDescriptor) -> bool {
    &&& registration_ok(d.reference)
    &&& identity_ok(encode_utf8(d.artifact_id@))
    &&& producer_ok(d.producer)
}

/// What [`build_artifact`] returns for a writable descriptor and pixels.
pub open spec fn artifact_written(b: BuiltArtifact, d: ArtifactDescriptor, pixels: Seq<MaskPixel>) -> bool {
    let w = d.reference.width_px;
    let h = d.reference.height_px;
    let n = w as int * h as int;
    let st = pixel_scan(pixels, d.role, n)->0;
    let m = b.manifest;
    &&& writable(d, pixels)
    &&& forall|k: int| 0 <= k < pixels.len() ==> (#[trigger] pixels[k]).evidence.value() <= VALID_EVIDENCE_BITS
    &&& b.payload@ == header_spec(w, h) + pixels_payload(pixels)
    &&& m.schema@ == MANIFEST_SCHEMA@ && m.ontology@ == ONTOLOGY_ID@ && m.frozen
    &&& m.artifact_id@ == d.artifact_id@ && m.role == d.role && m.reference == d.reference && m.producer == d.producer
    &&& m.mask.path@ == MASK_FILENAME@ && m.mask.encoding@ == MASK_ENCODING@
    &&& m.mask.width_px == w && m.mask.height_px == h
    &&& m.mask.record_bytes == RECORD_BYTES
    &&& m.mask.byte_length == mask_length(w as int, h as int)
    &&& m.mask.sha256@ == hex_spec(sha256_spec(b.payload@))
    &&& m.mask.sha256@.len() == 64
    &&& m.class_counts@.len() == CLASS_COUNT
    &&& forall|k: int| 0 <= k < CLASS_COUNT ==> class_code(#[trigger] m.class_counts@[k].class) == k && m.class_counts@[k].pixels
        == st.1[k]
    &&& m.unknown_pixels == st.1[0]
    &&& m.transient_pixels == transient_sum(st.1)
    &&& m.instance_count == st.0.1
    &&& m.max_instance_id == st.0.2
}

/// The per-class counts of a scan state.
pub open spec fn scan_counts(st: Option<ScanState>) -> Seq<u64> {
    match st {
        Some(s) => s.1,
        None => Seq::empty(),
    }
}

/// The largest identity recorded by a scan state.
pub open spec fn scan_largest(st: Option<ScanState>) -> u32 {
    match st {
        Some(s) => {
            let (_table, _distinct, largest) = s.0;
            largest
        },
        None => 0,
    }
}

/// The instance table of a scan state.
pub open spec fn scan_table(st: Option<ScanState>) -> Seq<u8> {
    match st {
        Some(s) => {
            let (table, _distinct, _largest) = s.0;
            table
        },
        None => Seq::empty(),
    }
}

proof fn lemma_scan_counts_bounded(pixels: Seq<MaskPixel>, role: ArtifactRole, k: int)
    requires
        0 <= k,
        pixel_scan(pixels, role, k) is Some,
    ensures
        scan_counts(pixel_scan(pixels, role, k)).len() == CLASS_COUNT,
        forall|c: int| 0 <= c < CLASS_COUNT ==> #[trigger] scan_counts(pixel_scan(pixels, role, k))[c] <= k,
        scan_table(pixel_scan(pixels, role, k)).len() == MAX_INSTANCE_ID + 1,
    decreases k,
{
    if k > 0 {
        lemma_scan_counts_bounded(pixels, role, k - 1);
    }
}

proof fn lemma_scan_prefix_some(pixels: Seq<MaskPixel>, role: ArtifactRole, k: int, j: int)
    requires
        0 <= j <= k,
        pixel_scan(pixels, role, k) is Some,
    ensures
        pixel_scan(pixels, role, j) is Some,
    decreases k - j,
{
    if j < k {
        lemma_scan_prefix_some(pixels, role, k - 1, j);
    }
}

/// Assembles a mask artifact in memory: validates the descriptor and every pixel in order,
/// encodes the header and records, counts classes and instances, and digests the file.
pub fn build_artifact(descriptor: ArtifactDescriptor, pixels: &Vec<MaskPixel>) -> (r: Result<BuiltArtifact, MaskError>)
    ensures
        r is Ok <==> writable(descriptor, pixels@),
        r matches Ok(b) ==> artifact_written(b, descriptor, pixels@),
        header_valid(descriptor) && pixels@.len() != descriptor.reference.width_px as int
            * descriptor.reference.height_px as int ==> (r matches Err(MaskError::Invalid(m)) && m@ == "mask iterator has "@
            + decimal_spec(pixels@.len()) + " pixels; expected "@ + decimal_spec(
            (descriptor.reference.width_px as int * descriptor.reference.height_px as int) as nat,
        )),
        header_valid(descriptor) && pixels@.len() == descriptor.reference.width_px as int
            * descriptor.reference.height_px as int && descriptor.role is Persistent ==> forall|k: int|
            #![trigger pixels@[k]]
            0 <= k < pixels@.len() && pixel_scan(pixels@, descriptor.role, k) is Some && !persistent_class(pixels@[k].class)
                ==> (r matches Err(MaskError::Invalid(m)) && m@ == "persistent mask contains forbidden pixel"@),
{
    match validate_registration(&descriptor.reference) {
        Err(e) => return Err(e),
        Ok(()) => {},
    }
    match validate_identity(descriptor.artifact_id.as_str(), "mask artifact") {
        Err(e) => return Err(e),
        Ok(()) => {},
    }
    match validate_producer(&descriptor.producer) {
        Err(e) => return Err(e),
        Ok(()) => {},
    }
    let width = descriptor.reference.width_px;
    let height = descriptor.reference.height_px;
    let expected = match checked_pixel_count(width, height) {
        Err(e) => return Err(e),
        Ok(n) => n,
    };
    if pixels.len() as u64 != expected {
        let mut message = "mask iterator has ".to_string();
        let got = decimal(pixels.len() as u64);
        message.push_str(got.as_str());
        message.push_str(" pixels; expected ");
        let want = decimal(expected);
        message.push_str(want.as_str());
        return Err(MaskError::Invalid(message));
    }
    let role = descriptor.role;
    proof {
        assert(expected <= 16_777_216) by (nonlinear_arith)
            requires expected == width as int * height as int, width <= 4096, height <= 4096;
    }
    let mut payload = encode_header(width, height);
    let mut table: Vec<u8> = Vec::new();
    while table.len() < MAX_INSTANCE_ID as usize + 1
        invariant
            table@.len() <= MAX_INSTANCE_ID + 1,
            forall|i: int| 0 <= i < table@.len() ==> table@[i] == UNSEEN_INSTANCE,
        decreases MAX_INSTANCE_ID + 1 - table@.len(),
    {
        table.push(UNSEEN_INSTANCE);
    }
    let mut counts: Vec<u64> = Vec::new();
    while counts.len() < CLASS_COUNT
        invariant
            counts@.len() <= CLASS_COUNT,
            forall|i: int| 0 <= i < counts@.len() ==> counts@[i] == 0,
        decreases CLASS_COUNT - counts@.len(),
    {
        counts.push(0);
    }
    let mut distinct: u32 = 0;
    let mut max_id: u32 = 0;
    proof {
        assert(table@ =~= Seq::new((MAX_INSTANCE_ID + 1) as nat, |i: int| UNSEEN_INSTANCE));
        assert(counts@ =~= Seq::new(CLASS_COUNT as nat, |i: int| 0u64));
    }
    let mut i: usize = 0;
    while i < pixels.len()
        invariant
            i <= pixels@.len(),
            pixels@.len() == expected,
            expected <= 16_777_216,
            expected == width as int * height as int,
            width == descriptor.reference.width_px,
            height == descriptor.reference.height_px,
            role == descriptor.role,
            payload@ == header_spec(width, height) + pixels_payload(pixels@.subrange(0, i as int)),
            pixel_scan(pixels@, role, i as int) == Some::<ScanState>(((table@, distinct, max_id), counts@)),
            forall|k: int| 0 <= k < i ==> (#[trigger] pixels@[k]).evidence.value() <= VALID_EVIDENCE_BITS,
        decreases pixels@.len() - i,
    {
        let pixel = pixels[i];
        proof {
            use_type_invariant(&pixel.evidence);
            lemma_scan_counts_bounded(pixels@, role, i as int);
        }
        match validate_pixel(pixel, role, &mut table, &mut distinct, &mut max_id) {
            Err(e) => {
                proof {
                    assert(pixels@[i as int] == pixel);
                    assert(pixel_scan(pixels@, role, i as int + 1) is None);
                    lemma_scan_none_persists(pixels@, role, i as int + 1, pixels@.len() as int);
                    assert forall|k: int|
                        #![trigger pixels@[k]]
                        0 <= k < pixels@.len() && pixel_scan(pixels@, role, k) is Some && !persistent_class(pixels@[k].class)
                        && role is Persistent implies (Err::<BuiltArtifact, MaskError>(e) matches Err(MaskError::Invalid(m))
                        && m@ == "persistent mask contains forbidden pixel"@) by {
                        if k > i {
                            lemma_scan_none_persists(pixels@, role, i as int + 1, k);
                        }
                        if k < i {
                            lemma_scan_forbidden_stops(pixels@, role, k);
                            lemma_scan_none_persists(pixels@, role, k + 1, i as int);
                        }
                    }
                }
                return Err(e);
            },
            Ok(()) => {},
        }
        let record = encode_pixel(pixel);
        let mut k: usize = 0;
        let ghost before = payload@;
        while k < record.len()
            invariant
                k <= record@.len(),
                payload@ == before + record@.subrange(0, k as int),
            decreases record@.len() - k,
        {
            payload.push(record[k]);
            proof {
                assert(payload@ =~= before + record@.subrange(0, k + 1));
            }
            k += 1;
        }
        let c = pixel.class.code() as usize;
        let updated = counts[c] + 1;
        counts.set(c, updated);
        proof {
            assert(record@.subrange(0, record@.len() as int) =~= record@);
            assert(pixels@.subrange(0, i + 1).drop_last() =~= pixels@.subrange(0, i as int));
            assert(payload@ =~= header_spec(width, height) + pixels_payload(pixels@.subrange(0, i + 1)));
        }
        i += 1;
    }
    proof {
        assert(pixels@.subrange(0, pixels@.len() as int) =~= pixels@);
        lemma_scan_counts_bounded(pixels@, role, pixels@.len() as int);
        assert(transient_sum(counts@) <= 5 * 16_777_216);
    }
    let sha256 = sha256_hex(payload.as_slice());
    let byte_length = match expected_mask_length(width, height) {
        Err(e) => return Err(e),
        Ok(n) => n,
    };
    let mut class_counts: Vec<ClassCount> = Vec::new();
    let mut k: usize = 0;
    while k < CLASS_COUNT
        invariant
            k <= CLASS_COUNT,
            counts@.len() == CLASS_COUNT,
            class_counts@.len() == k,
            forall|j: int| 0 <= j < k ==> class_code(#[trigger] class_counts@[j].class) == j && class_counts@[j].pixels
                == counts@[j],
        decreases CLASS_COUNT - k,
    {
        let class = match SemanticClass::from_code(k as u8) {
            Ok(c) => c,
            Err(e) => return Err(e),
        };
        class_counts.push(ClassCount { class, pixels: counts[k] });
        k += 1;
    }
    let unknown_pixels = counts[0];
    let transient_pixels = transient_count(counts.as_slice());
    let manifest = MaskManifest {
        schema: MANIFEST_SCHEMA.to_string(),
        artifact_id: descriptor.artifact_id,
        role,
        ontology: ONTOLOGY_ID.to_string(),
        frozen: true,
        reference: descriptor.reference,
        producer: descriptor.producer,
        mask: MaskLayerRecord {
            path: MASK_FILENAME.to_string(),
            encoding: MASK_ENCODING.to_string(),
            width_px: width,
            height_px: height,
            record_bytes: RECORD_BYTES,
            byte_length,
            sha256,
        },
        class_counts,
        unknown_pixels,
        transient_pixels,
        instance_count: distinct,
        max_instance_id: max_id,
    };
    proof {
        if role is Persistent {
            assert forall|k: int|
                #![trigger pixels@[k]]
                0 <= k < pixels@.len() && pixel_scan(pixels@, role, k) is Some implies persistent_class(pixels@[k].class) by {
                if !persistent_class(pixels@[k].class) {
                    lemma_scan_forbidden_stops(pixels@, role, k);
                    lemma_scan_none_persists(pixels@, role, k + 1, pixels@.len() as int);
                }
            }
        }
    }
    Ok(BuiltArtifact { manifest, payload })
}

proof fn lemma_scan_forbidden_stops(pixels: Seq<MaskPixel>, role: ArtifactRole, k: int)
    requires
        0 <= k < pixels.len(),
        role is Persistent,
        !persistent_class(pixels[k].class),
    ensures
        pixel_scan(pixels, role, k + 1) is None,
{
    lemma_class_code_persistent(pixels[k].class);
}

proof fn lemma_scan_none_persists(pixels: Seq<MaskPixel>, role: ArtifactRole, k: int, j: int)
    requires
        0 <= k <= j,
        pixel_scan(pixels, role, k) is None,
    ensures
        pixel_scan(pixels, role, j) is None,
    decreases j - k,
{
    if k < j {
        lemma_scan_none_persists(pixels, role, k, j - 1);
    }
}


/// Sum of a count sequence.
pub open spec fn seq_total(s: Seq<u64>) -> int
    decreases s.len(),
{
    if s.len() == 0 { 0 } else { seq_total(s.drop_last()) + s.last() }
}

proof fn lemma_total_update(s: Seq<u64>, c: int, v: u64)
    requires
        0 <= c < s.len(),
    ensures
        seq_total(s.update(c, v)) == seq_total(s) - s[c] + v,
    decreases s.len(),
{
    if c == s.len() - 1 {
        assert(s.update(c, v).drop_last() =~= s.drop_last());
    } else {
        lemma_total_update(s.drop_last(), c, v);
        assert(s.update(c, v).drop_last() =~= s.drop_last().update(c, v));
    }
}

proof fn lemma_zero_total(n: nat)
    ensures
        seq_total(Seq::new(n, |i: int| 0u64)) == 0,
    decreases n,
{
    if n > 0 {
        lemma_zero_total((n - 1) as nat);
        assert(Seq::new(n, |i: int| 0u64).drop_last() =~= Seq::new((n - 1) as nat, |i: int| 0u64));
    }
}

/// Number of recorded identities among the first `n` table slots.
pub open spec fn seen_below(t: Seq<u8>, n: int) -> int
    decreases n,
{
    if n <= 0 { 0 } else { seen_below(t, n - 1) + if t[n - 1] != UNSEEN_INSTANCE { 1int } else { 0int } }
}

proof fn lemma_seen_update(t: Seq<u8>, id: int, c: u8, n: int)
    requires
        0 <= id < t.len(),
        t[id] == UNSEEN_INSTANCE,
        c != UNSEEN_INSTANCE,
        0 <= n <= t.len(),
    ensures
        seen_below(t.update(id, c), n) == seen_below(t, n) + if id < n { 1int } else { 0int },
    decreases n,
{
    if n > 0 {
        lemma_seen_update(t, id, c, n - 1);
    }
}

proof fn lemma_seen_same(t: Seq<u8>, u: Seq<u8>, n: int)
    requires
        0 <= n <= t.len(),
        n <= u.len(),
        forall|j: int| 0 <= j < n ==> t[j] == u[j],
    ensures
        seen_below(t, n) == seen_below(u, n),
    decreases n,
{
    if n > 0 {
        lemma_seen_same(t, u, n - 1);
    }
}

proof fn lemma_seen_beyond(t: Seq<u8>, m: int, n: int)
    requires
        0 <= m < n <= t.len(),
        forall|j: int| m < j < t.len() ==> t[j] == UNSEEN_INSTANCE,
    ensures
        seen_below(t, n) == seen_below(t, m + 1),
    decreases n,
{
    if n > m + 1 {
        lemma_seen_beyond(t, m, n - 1);
    }
}

proof fn lemma_seen_bounds(t: Seq<u8>, n: int)
    requires
        1 <= n <= t.len(),
        t[0] == UNSEEN_INSTANCE,
    ensures
        0 <= seen_below(t, n) <= n - 1,
        t[n - 1] != UNSEEN_INSTANCE ==> seen_below(t, n) >= 1,
    decreases n,
{
    assert(seen_below(t, 0) == 0);
    if n > 1 {
        lemma_seen_bounds(t, n - 1);
    }
}

/// What holds of the writer's state after `k` accepted pixels.
pub open spec fn scan_inv(pixels: Seq<MaskPixel>, role: ArtifactRole, k: int, st: ScanState) -> bool {
    let (table, distinct, max) = st.0;
    let counts = st.1;
    &&& table.len() == MAX_INSTANCE_ID + 1
    &&& counts.len() == CLASS_COUNT
    &&& seq_total(counts) == k
    &&& table[0] == UNSEEN_INSTANCE
    &&& max <= MAX_INSTANCE_ID
    &&& forall|j: int| max < j < table.len() ==> #[trigger] table[j] == UNSEEN_INSTANCE
    &&& max > 0 ==> table[max as int] != UNSEEN_INSTANCE
    &&& distinct == seen_below(table, table.len() as int)
    &&& forall|j: int| 0 <= j < k && (#[trigger] pixels[j]).instance_id != 0 ==> pixels[j].instance_id <= max
    &&& role is Persistent ==> forall|c: int| 18 <= c < CLASS_COUNT ==> #[trigger] counts[c] == 0
}

proof fn lemma_scan_inv(pixels: Seq<MaskPixel>, role: ArtifactRole, k: int)
    requires
        0 <= k <= pixels.len(),
        pixels.len() < u64::MAX,
        pixel_scan(pixels, role, k) is Some,
    ensures
        scan_inv(pixels, role, k, pixel_scan(pixels, role, k)->0),
    decreases k,
{
    if k == 0 {
        let t = Seq::new((MAX_INSTANCE_ID + 1) as nat, |i: int| UNSEEN_INSTANCE);
        lemma_zero_total(CLASS_COUNT as nat);
        assert(seen_below(t, t.len() as int) == 0) by {
            lemma_seen_all_unseen(t, t.len() as int);
        }
    } else {
        lemma_scan_prefix_some(pixels, role, k, k - 1);
        lemma_scan_inv(pixels, role, k - 1);
        let st = pixel_scan(pixels, role, k - 1)->0;
        let (table, distinct, max) = st.0;
        let p = pixels[k - 1];
        let c = class_code(p.class) as int;
        let id = p.instance_id as int;
        let next = pixel_step(st.0, c, id, role)->0;
        lemma_scan_counts_bounded(pixels, role, k - 1);
        assert(st.1[c] <= k - 1);
        lemma_total_update(st.1, c, (st.1[c] + 1) as u64);
        lemma_class_code_persistent(p.class);
        if id != 0 && table[id] == UNSEEN_INSTANCE {
            lemma_seen_update(table, id, c as u8, table.len() as int);
            lemma_seen_bounds(table, table.len() as int);
        }
        let new_table = next.0;
        let new_max = next.2;
        assert forall|j: int| 0 <= j < k && (#[trigger] pixels[j]).instance_id != 0 implies pixels[j].instance_id <= new_max by {
            if j < k - 1 {
            }
        }
        assert forall|j: int| new_max < j < new_table.len() implies #[trigger] new_table[j] == UNSEEN_INSTANCE by {
            assert(j > max);
        }
        let st2 = pixel_scan(pixels, role, k)->0;
        assert(st2.0 == next);
        assert(st2.1 == st.1.update(c, (st.1[c] + 1) as u64));
        assert(new_table.len() == MAX_INSTANCE_ID + 1);
        assert(st2.1.len() == CLASS_COUNT);
        assert(seq_total(st2.1) == k);
        assert(new_table[0] == UNSEEN_INSTANCE);
        assert(new_max <= MAX_INSTANCE_ID);
        assert(new_max > 0 ==> new_table[new_max as int] != UNSEEN_INSTANCE);
        assert(next.1 == seen_below(new_table, new_table.len() as int));
        assert(role is Persistent ==> forall|cc: int| 18 <= cc < CLASS_COUNT ==> #[trigger] st2.1[cc] == 0);
    }
}

proof fn lemma_seen_all_unseen(t: Seq<u8>, n: int)
    requires
        0 <= n <= t.len(),
        forall|j: int| 0 <= j < t.len() ==> t[j] == UNSEEN_INSTANCE,
    ensures
        seen_below(t, n) == 0,
    decreases n,
{
    if n > 0 {
        lemma_seen_all_unseen(t, n - 1);
    }
}


proof fn lemma_pixels_payload_len(pixels: Seq<MaskPixel>)
    ensures
        pixels_payload(pixels).len() == 8 * pixels.len(),
    decreases pixels.len(),
{
    if pixels.len() > 0 {
        lemma_pixels_payload_len(pixels.drop_last());
    }
}

proof fn lemma_pixels_payload_record(pixels: Seq<MaskPixel>, j: int)
    requires
        0 <= j < pixels.len(),
    ensures
        pixels_payload(pixels).subrange(8 * j, 8 * j + 8) == pixel_record(pixels[j]),
    decreases pixels.len(),
{
    lemma_pixels_payload_len(pixels);
    let front = pixels_payload(pixels.drop_last());
    lemma_pixels_payload_len(pixels.drop_last());
    if j < pixels.len() - 1 {
        lemma_pixels_payload_record(pixels.drop_last(), j);
        assert(pixels_payload(pixels).subrange(8 * j, 8 * j + 8) =~= front.subrange(8 * j, 8 * j + 8));
    } else {
        assert(pixels_payload(pixels).subrange(8 * j, 8 * j + 8) =~= pixel_record(pixels.last()));
    }
}

/// A writer state with its instance table cut to the first `len` identities.
pub open spec fn truncated(st: ScanState, len: nat) -> ScanState {
    let (table, distinct, max) = st.0;
    ((table.subrange(0, len as int), distinct, max), st.1)
}

proof fn lemma_scan_simulation(
    pixels: Seq<MaskPixel>,
    role: ArtifactRole,
    payload: Seq<u8>,
    width: u32,
    height: u32,
    top: u32,
    k: int,
)
    requires
        payload == header_spec(width, height) + pixels_payload(pixels),
        pixels.len() < u64::MAX,
        pixel_scan(pixels, role, pixels.len() as int) is Some,
        top == scan_largest(pixel_scan(pixels, role, pixels.len() as int)),
        forall|j: int| 0 <= j < pixels.len() ==> (#[trigger] pixels[j]).evidence.value() <= VALID_EVIDENCE_BITS,
        0 <= k <= pixels.len(),
    ensures
        scan_records(payload, role, (top + 1) as nat, k) == Some(truncated(pixel_scan(pixels, role, k)->0, (top + 1) as nat)),
    decreases k,
{
    lemma_scan_inv(pixels, role, pixels.len() as int);
    if k == 0 {
        let full = Seq::new((MAX_INSTANCE_ID + 1) as nat, |i: int| UNSEEN_INSTANCE);
        assert(full.subrange(0, top + 1) =~= Seq::new((top + 1) as nat, |i: int| UNSEEN_INSTANCE));
    } else {
        lemma_scan_simulation(pixels, role, payload, width, height, top, k - 1);
        lemma_scan_prefix_some(pixels, role, pixels.len() as int, k);
        lemma_scan_prefix_some(pixels, role, pixels.len() as int, k - 1);
        let st = pixel_scan(pixels, role, k - 1)->0;
        lemma_scan_inv(pixels, role, k - 1);
        let p = pixels[k - 1];
        let c = class_code(p.class) as int;
        let id = p.instance_id as int;
        let r = record_at(payload, k - 1);
        lemma_pixels_payload_record(pixels, k - 1);
        lemma_pixels_payload_len(pixels);
        assert(r =~= pixel_record(p));
        lemma_pixel_round_trip(p);
        lemma_id_bytes(p.instance_id);
        assert(r[0] as int == c);
        assert(le_u32(r[4], r[5], r[6], r[7]) == id);
        let (table, distinct, max) = st.0;
        let cut = table.subrange(0, top + 1);
        if id != 0 {
            assert(id <= top);
        }
        assert(pixel_step((cut, distinct, max), c, id, role) == match pixel_step(st.0, c, id, role) {
            Some(next) => Some((next.0.subrange(0, top + 1), next.1, next.2)),
            None => None,
        }) by {
            if id != 0 && id <= top {
                assert(cut[id] == table[id]);
                assert(table.update(id, c as u8).subrange(0, top + 1) =~= cut.update(id, c as u8));
            }
        }
    }
}

proof fn lemma_counted_total_matches(cc: Seq<ClassCount>, counts: Seq<u64>, k: int)
    requires
        0 <= k <= cc.len(),
        cc.len() == counts.len(),
        forall|j: int| 0 <= j < cc.len() ==> #[trigger] cc[j].pixels == counts[j],
    ensures
        counted_total(cc.subrange(0, k)) == seq_total(counts.subrange(0, k)),
    decreases k,
{
    if k > 0 {
        lemma_counted_total_matches(cc, counts, k - 1);
        assert(cc.subrange(0, k).drop_last() =~= cc.subrange(0, k - 1));
        assert(counts.subrange(0, k).drop_last() =~= counts.subrange(0, k - 1));
    }
}

/// What the writer builds, the validator accepts: the mask file of a built artifact is
/// exactly the artifact its manifest describes, with the same class counts and instance
/// statistics.
pub proof fn lemma_written_artifact_validates(b: BuiltArtifact, d: ArtifactDescriptor, pixels: Seq<MaskPixel>)
    requires
        artifact_written(b, d, pixels),
    ensures
        payload_ok(b.manifest, b.payload@),
{
    let m = b.manifest;
    let w = d.reference.width_px;
    let h = d.reference.height_px;
    let n = w as int * h as int;
    assert(n <= 16_777_216) by (nonlinear_arith)
        requires n == w as int * h as int, w <= 4096, h <= 4096, w >= 1, h >= 1;
    let st = pixel_scan(pixels, d.role, n)->0;
    lemma_scan_inv(pixels, d.role, n);
    let (table, distinct, max) = st.0;
    let counts = st.1;
    crate::digest::lemma_hex_is_sha_text(sha256_spec(b.payload@));
    assert forall|j: int| 0 <= j < m.class_counts@.len() implies #[trigger] m.class_counts@[j].pixels == counts[j] by {
        assert(class_code(m.class_counts@[j].class) == j);
    }
    lemma_counted_total_matches(m.class_counts@, counts, CLASS_COUNT as int);
    assert(m.class_counts@.subrange(0, CLASS_COUNT as int) =~= m.class_counts@);
    assert(counts.subrange(0, CLASS_COUNT as int) =~= counts);
    lemma_transient_total_ordered(m.class_counts@, CLASS_COUNT as int);
    lemma_seen_beyond(table, max as int, table.len() as int);
    lemma_seen_bounds(table, max + 1);
    if max == 0 {
        assert(seen_below(table, 0) == 0);
        assert(seen_below(table, 1) == 0);
    }
    assert(mask_dims_ok(w as int, h as int));
    assert(is_sha256_bytes(encode_utf8(m.mask.sha256@)));
    assert(ontology_ordered(m.class_counts@));
    assert(counted_total(m.class_counts@) == w as int * h as int);
    assert(m.unknown_pixels == m.class_counts@[0].pixels);
    assert(m.transient_pixels == transient_total(m.class_counts@));
    assert(m.instance_count <= m.max_instance_id <= MAX_INSTANCE_ID);
    assert((m.instance_count == 0) == (m.max_instance_id == 0));
    assert(m.role is Persistent ==> m.transient_pixels == 0 && m.class_counts@[23].pixels == 0);
    assert(manifest_ok(m));
    let payload = b.payload@;
    lemma_pixels_payload_len(pixels);
    assert(payload.len() == m.mask.byte_length);
    let head = payload.subrange(0, HEADER_BYTES as int);
    assert(head =~= header_spec(w, h));
    lemma_id_bytes(w);
    lemma_id_bytes(h);
    assert(head.subrange(0, 8) =~= mask_magic());
    assert(header_ok(head, m.mask));
    lemma_scan_simulation(pixels, d.role, payload, w, h, max, n);
    assert(observed_matches(m, counts, distinct, max));
}


/// Building is deterministic: two builds of the same descriptor and pixels write the same
/// payload bytes, digest and counts.
pub proof fn lemma_build_deterministic(b1: BuiltArtifact, b2: BuiltArtifact, d: ArtifactDescriptor, pixels: Seq<MaskPixel>)
    requires
        artifact_written(b1, d, pixels),
        artifact_written(b2, d, pixels),
    ensures
        b1.payload@ == b2.payload@,
        b1.manifest.mask.sha256@ == b2.manifest.mask.sha256@,
        b1.manifest.mask.byte_length == b2.manifest.mask.byte_length,
        b1.manifest.unknown_pixels == b2.manifest.unknown_pixels,
        b1.manifest.transient_pixels == b2.manifest.transient_pixels,
        b1.manifest.instance_count == b2.manifest.instance_count,
        b1.manifest.max_instance_id == b2.manifest.max_instance_id,
        b1.manifest.class_counts@.len() == b2.manifest.class_counts@.len(),
        forall|k: int| 0 <= k < CLASS_COUNT ==> (#[trigger] b1.manifest.class_counts@[k]).pixels == b2.manifest.class_counts@[k].pixels,
{
    assert forall|k: int| 0 <= k < CLASS_COUNT implies (#[trigger] b1.manifest.class_counts@[k]).pixels
        == b2.manifest.class_counts@[k].pixels by {
        assert(class_code(b1.manifest.class_counts@[k].class) == k);
        assert(class_code(b2.manifest.class_counts@[k].class) == k);
    }
}

/// The transient classes are exactly people, bicycles, cars, buses or trucks and construction
/// equipment; the persistent classes are every other class but source artifacts.
pub proof fn lemma_transient_and_persistent_classes(c: SemanticClass)
    ensures
        transient_class(c) <==> (c == SemanticClass::Person || c == SemanticClass::Bicycle || c == SemanticClass::Car
            || c == SemanticClass::BusOrTruck || c == SemanticClass::ConstructionEquipment),
        persistent_class(c) <==> !(c == SemanticClass::Person || c == SemanticClass::Bicycle || c == SemanticClass::Car
            || c == SemanticClass::BusOrTruck || c == SemanticClass::ConstructionEquipment || c
            == SemanticClass::SourceArtifact),
{
}

} // verus!
