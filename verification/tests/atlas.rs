use isometric_stanford::atlas::{
    best_owner, check_ownership_bytes, encode_ownership_tile, ownership_digest, validate_request,
    validate_session, AtlasCompileRequest, AtlasGrid, AtlasSourceRecord, OwnershipCandidate,
    OwnershipTileRecord, ReferenceAtlasManifest, SessionRecord, ATLAS_REQUEST_SCHEMA,
};
use isometric_stanford::reference::{CameraSpec, ReferenceError};

fn session() -> SessionRecord {
    SessionRecord {
        session_id: "session-1".into(),
        root_tileset_sha256: "a".repeat(64),
        started_at: "2025-01-01T00:00:00Z".into(),
        expires_at: "2025-01-01T03:00:00Z".into(),
    }
}

fn message(result: Result<(), ReferenceError>) -> String {
    match result {
        Ok(()) => String::new(),
        Err(ReferenceError::Invalid(message)) => message,
    }
}

#[test]
fn sessions_and_requests_are_bounded() {
    assert!(validate_session(&session()).is_ok());
    let mut bad = session();
    bad.session_id = "Session".into();
    assert_eq!(message(validate_session(&bad)), "atlas source session contract is invalid");
    let mut bad = session();
    bad.expires_at = "line\nbreak".into();
    assert!(validate_session(&bad).is_err());

    let request = AtlasCompileRequest {
        schema: ATLAS_REQUEST_SCHEMA.into(),
        atlas_id: "campus".into(),
        source_session: session(),
        bundle_directories: vec!["bundles/a".into()],
    };
    assert!(validate_request(&request).is_ok());
    let mut empty = request.clone();
    empty.bundle_directories.clear();
    assert_eq!(message(validate_request(&empty)), "atlas request violates its bounded contract");
    let mut bad_session = request.clone();
    bad_session.source_session.root_tileset_sha256 = "z".repeat(64);
    assert_eq!(message(validate_request(&bad_session)), "atlas source session contract is invalid");
}

fn candidate(edge: u32, stability: u8, density: u32, index: u16) -> Option<OwnershipCandidate> {
    Some(OwnershipCandidate {
        edge_distance: edge,
        structural_stability: stability,
        sampling_density: density,
        source_index: index,
    })
}

#[test]
fn ownership_prefers_interior_then_stability_then_density_then_index() {
    assert_eq!(best_owner(&vec![None, None]), None);
    assert_eq!(best_owner(&vec![candidate(3, 0, 9, 0), candidate(5, 0, 9, 1)]), Some(1));
    assert_eq!(best_owner(&vec![candidate(5, 2, 9, 0), candidate(5, 7, 9, 1)]), Some(1));
    assert_eq!(best_owner(&vec![candidate(5, 7, 9, 0), None, candidate(5, 7, 4, 2)]), Some(2));
    assert_eq!(best_owner(&vec![candidate(5, 7, 4, 3), candidate(5, 7, 4, 1)]), Some(1));
    let forward = vec![candidate(1, 1, 1, 4), candidate(1, 1, 1, 2), candidate(0, 9, 0, 0)];
    let mut backward = forward.clone();
    backward.reverse();
    assert_eq!(best_owner(&forward), best_owner(&backward));
}

fn grid() -> AtlasGrid {
    AtlasGrid {
        minimum_column: 10,
        minimum_row: 20,
        columns: 2,
        rows: 1,
        core_width_px: 2,
        core_height_px: 2,
        source_guard_px: 1,
        millimeters_per_pixel: 100,
        width_px: 4,
        height_px: 2,
        registration_error_micropixels: 0,
    }
}

fn source(index: u16, column: i32) -> AtlasSourceRecord {
    AtlasSourceRecord {
        source_index: index,
        bundle_id: format!("bundle-{index}"),
        manifest_sha256: "b".repeat(64),
        column,
        row: 20,
        core_coverage_basis_points: 10_000,
    }
}

fn manifest() -> ReferenceAtlasManifest {
    ReferenceAtlasManifest {
        schema: String::new(),
        atlas_id: "campus".into(),
        grid: grid(),
        camera: CameraSpec {
            projection: "orthographic".into(),
            azimuth_millidegrees: 0,
            elevation_millidegrees: 0,
            target_altitude_mm: 0,
            near_mm: 0,
            far_mm: 0,
            orthographic_width_mm: 0,
            orthographic_height_mm: 0,
            camera_distance_mm: 0,
        },
        provider: String::new(),
        renderer: String::new(),
        renderer_version: String::new(),
        source_epoch: String::new(),
        source_session: session(),
        attributions: vec![],
        sources: vec![source(0, 10), source(1, 11)],
        layer_tiles: vec![],
        ownership_tiles: vec![],
        ownership_map_sha256: String::new(),
    }
}

fn tile_record(column: i32, length: u64) -> OwnershipTileRecord {
    OwnershipTileRecord {
        column,
        row: 20,
        path: String::new(),
        width_px: 2,
        height_px: 2,
        byte_length: length,
        sha256: "c".repeat(64),
    }
}

#[test]
fn ownership_tiles_encode_and_check_every_owner() {
    let bytes = encode_ownership_tile(2, 2, &vec![0, 0, 0, 1]);
    assert_eq!(
        bytes,
        vec![b'I', b'S', b'O', b'O', b'W', b'N', b'V', b'1', 2, 0, 0, 0, 2, 0, 0, 0, 0, 0, 0, 0, 0, 0, 1, 0]
    );
    let m = manifest();
    let record = tile_record(10, 24);
    assert!(check_ownership_bytes(&bytes, &record, &m).is_ok());

    let mut unknown = bytes.clone();
    unknown[16] = 7;
    assert_eq!(
        message(check_ownership_bytes(&unknown, &record, &m)),
        "ownership references an unknown source"
    );

    let guarded = encode_ownership_tile(2, 2, &vec![0, 1, 0, 1]);
    let far_record = tile_record(11, 24);
    assert!(check_ownership_bytes(&guarded, &far_record, &m).is_ok());
    let outside = encode_ownership_tile(2, 2, &vec![0, 0, 0, 0]);
    assert_eq!(
        message(check_ownership_bytes(&outside, &far_record, &m)),
        "ownership assigns a pixel outside its source guard"
    );
    let mut m2 = m.clone();
    m2.grid.source_guard_px = 0;
    assert_eq!(
        message(check_ownership_bytes(&guarded, &far_record, &m2)),
        "ownership assigns a pixel outside its source guard"
    );

    let mut header = bytes.clone();
    header[0] = b'X';
    assert_eq!(
        message(check_ownership_bytes(&header, &record, &m)),
        "atlas ownership header is invalid"
    );
    let mut long = bytes.clone();
    long.push(0);
    let long_record = tile_record(10, 25);
    assert_eq!(
        message(check_ownership_bytes(&long, &long_record, &m)),
        "atlas ownership length is invalid"
    );
}

#[test]
fn ownership_digest_is_deterministic_and_content_bound() {
    let tiles = vec![tile_record(10, 24), tile_record(11, 24)];
    let first = ownership_digest(&tiles);
    assert_eq!(first, ownership_digest(&tiles.clone()));
    assert_eq!(first.len(), 64);
    let mut changed = tiles.clone();
    changed[1].sha256 = "d".repeat(64);
    assert_ne!(first, ownership_digest(&changed));
}
