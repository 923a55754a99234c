use isometric_stanford::digest::sha256_hex;
use isometric_stanford::mask::{
    build_artifact, decode_pixel, encode_header, encode_pixel, verify_payload, ArtifactDescriptor,
    ArtifactRole, EvidenceFlags, MaskError, MaskPixel, ProducerIdentity, ReferenceRegistration,
    SemanticClass, CLASS_COUNT, HEADER_BYTES,
};

#[test]
fn ontology_has_stable_complete_binary_order() {
    for (expected, class) in (0_u8..).zip(SemanticClass::ALL) {
        assert_eq!(class.code(), expected);
        assert_eq!(
            SemanticClass::from_code(expected).expect("known class"),
            class
        );
    }
    assert!(
        SemanticClass::from_code(u8::try_from(CLASS_COUNT).expect("class count fits")).is_err()
    );
}

#[test]
fn evidence_flags_reject_reserved_bits() {
    let detector = EvidenceFlags::single(2);
    let prompt_segmentation = EvidenceFlags::single(3);
    let flags = detector.union(prompt_segmentation);
    assert!(flags.contains(detector));
    assert_eq!(
        EvidenceFlags::from_bits(flags.bits()).expect("valid"),
        flags
    );
    assert!(EvidenceFlags::from_bits(1 << 15).is_err());
}

#[test]
fn header_has_fixed_length() {
    assert_eq!(encode_header(3, 2).len(), HEADER_BYTES);
}

#[test]
fn pixel_records_round_trip() {
    let pixel = MaskPixel {
        class: SemanticClass::ALL[5],
        confidence: 200,
        evidence: EvidenceFlags::single(0),
        instance_id: 7,
    };
    let bytes = encode_pixel(pixel);
    assert_eq!(bytes.len(), 8);
    assert_eq!(decode_pixel(&bytes).expect("decode"), pixel);
}

#[test]
fn transient_classes_are_not_persistent() {
    for class in SemanticClass::ALL {
        if class.is_transient() {
            assert!(!class.is_persistent_compatible());
        }
    }
}

fn descriptor(role: ArtifactRole) -> ArtifactDescriptor {
    ArtifactDescriptor {
        artifact_id: "synthetic-mask".into(),
        role,
        reference: ReferenceRegistration {
            bundle_id: "synthetic-reference".into(),
            manifest_sha256: "1".repeat(64),
            region_id: "synthetic-region".into(),
            width_px: 3,
            height_px: 2,
            grid_sha256: "2".repeat(64),
        },
        producer: ProducerIdentity {
            name: "isometric-mask-test".into(),
            version: "fixture-v1".into(),
        },
    }
}

fn pixel(class: SemanticClass, instance_id: u32) -> MaskPixel {
    MaskPixel {
        class,
        confidence: 240,
        instance_id,
        evidence: EvidenceFlags::single(0).union(EvidenceFlags::single(4)),
    }
}

fn unknown() -> MaskPixel {
    MaskPixel {
        class: SemanticClass::Unknown,
        confidence: 0,
        instance_id: 0,
        evidence: EvidenceFlags::none(),
    }
}

fn evidence_pixels() -> Vec<MaskPixel> {
    vec![
        pixel(SemanticClass::BuildingRoof, 1),
        pixel(SemanticClass::BuildingRoof, 1),
        pixel(SemanticClass::Road, 2),
        pixel(SemanticClass::Car, 3),
        pixel(SemanticClass::SourceArtifact, 4),
        unknown(),
    ]
}

fn message(error: MaskError) -> String {
    error.message().to_string()
}

#[test]
fn built_evidence_artifact_validates_and_is_deterministic() {
    let first = build_artifact(descriptor(ArtifactRole::Evidence), &evidence_pixels()).expect("first");
    let second = build_artifact(descriptor(ArtifactRole::Evidence), &evidence_pixels()).expect("second");
    assert_eq!(first.manifest, second.manifest);
    assert_eq!(first.payload, second.payload);
    assert_eq!(first.payload.len(), HEADER_BYTES + 6 * 8);
    assert_eq!(first.manifest.mask.sha256, sha256_hex(&first.payload));
    let report = verify_payload(&first.manifest, &first.payload, "f".repeat(64)).expect("validate");
    assert_eq!(report.pixel_count, 6);
    assert_eq!(report.unknown_pixels, 1);
    assert_eq!(report.transient_pixels, 1);
    assert_eq!(report.instance_count, 4);
    assert_eq!(first.manifest.max_instance_id, 4);
    assert_eq!(first.manifest.class_counts.len(), CLASS_COUNT);
}

#[test]
fn persistent_builds_reject_transient_and_source_artifact_pixels() {
    for class in SemanticClass::ALL {
        if class.is_transient() || class == SemanticClass::SourceArtifact {
            let result = build_artifact(descriptor(ArtifactRole::Persistent), &vec![pixel(class, 1); 6]);
            assert!(message(result.err().expect("refused")).contains("forbidden"));
        }
    }
    let built = build_artifact(descriptor(ArtifactRole::Persistent), &vec![unknown(); 6]).expect("unknown only");
    let report = verify_payload(&built.manifest, &built.payload, "f".repeat(64)).expect("validate");
    assert_eq!(report.unknown_pixels, 6);
    assert_eq!(report.transient_pixels, 0);
}

#[test]
fn builds_reject_wrong_counts_and_mixed_instances() {
    let result = build_artifact(descriptor(ArtifactRole::Evidence), &evidence_pixels()[..5].to_vec());
    assert_eq!(message(result.err().expect("short")), "mask iterator has 5 pixels; expected 6");
    let mut mixed = evidence_pixels();
    mixed[1] = pixel(SemanticClass::Road, 1);
    let result = build_artifact(descriptor(ArtifactRole::Evidence), &mixed);
    assert!(message(result.err().expect("mixed")).contains("multiple semantic classes"));
    let mut corrupt = build_artifact(descriptor(ArtifactRole::Evidence), &evidence_pixels()).expect("built");
    corrupt.payload[HEADER_BYTES] = 99;
    assert!(verify_payload(&corrupt.manifest, &corrupt.payload, "f".repeat(64)).is_err());
}

#[test]
fn named_evidence_flags_have_their_schema_bits() {
    assert_eq!(EvidenceFlags::none().bits(), 0);
    assert_eq!(EvidenceFlags::detector().bits(), 4);
    assert_eq!(EvidenceFlags::prompt_segmentation().bits(), 8);
}
