use isometric_stanford::perception::{
    add_lidar_point, add_naip_sample, cell_for_absolute_mm, classify_cell, ratio_bp,
    validate_source_set, CellAccumulator, CellIndex, EvidenceArtifact, EvidenceCell,
    EvidenceClass, GridMetadata, ARTIFACT_SCHEMA, ORIGIN_EASTING_MM, ORIGIN_NORTHING_MM,
    REGION_ID,
};

fn hashes() -> Vec<(String, String)> {
    [
        "naip-2024-hero",
        "usgs-lidar-07509800",
        "usgs-lidar-07509825",
        "usgs-lidar-07759800",
        "usgs-lidar-07759825",
    ]
    .into_iter()
    .map(|id| (id.to_owned(), "a".repeat(64)))
    .collect()
}

fn terrain_cell(column: u16) -> EvidenceCell {
    EvidenceCell {
        index: CellIndex::new(column, 0).expect("valid cell"),
        class: EvidenceClass::Terrain,
        material: Some("grass".into()),
        height_mm: 0,
        confidence_bp: 7_500,
        source_ids: vec!["naip-2024-hero".into()],
        naip_sample_count: 1,
        naip_green_fraction_bp: 0,
        lidar_sample_count: 0,
        lidar_vegetation_fraction_bp: 0,
        lidar_building_fraction_bp: 0,
        transient_masked_points: 0,
    }
}

fn baseline() -> EvidenceArtifact {
    EvidenceArtifact {
        schema: ARTIFACT_SCHEMA.into(),
        region_id: REGION_ID.into(),
        status: "compiled-prototype-evidence".into(),
        compiler: "rust-naip-lidar-consensus-v1".into(),
        contains_source_pixels: false,
        contains_transients: false,
        grid: GridMetadata::prototype(),
        source_sha256: hashes(),
        vector_masked_cell_count: 959,
        evidence_cell_count: 2,
        naip_sample_count: 2,
        lidar_sample_count: 0,
        lidar_chunk_points: 250_000,
        cells: vec![terrain_cell(0), terrain_cell(1)],
    }
}

#[test]
fn artifact_rejects_transients_and_unsorted_cells() {
    let mut artifact = baseline();
    artifact.validate().expect("baseline artifact is valid");
    artifact.contains_transients = true;
    assert!(artifact.validate().is_err());
    artifact.contains_transients = false;
    artifact.cells.reverse();
    assert!(artifact.validate().is_err());
}

#[test]
fn transient_candidates_are_excluded_from_class_evidence() {
    let mut accumulator = CellAccumulator {
        naip_samples: 100,
        ground_samples: 10,
        ground_min_mm: 20_000,
        ..CellAccumulator::default()
    };
    accumulator.unclassified_height_bins[42] = 7;
    accumulator.unclassified_height_bins[60] = 20;
    let cell = classify_cell(CellIndex::new(0, 0).expect("valid cell"), &accumulator)
        .expect("cell classifies");
    assert_eq!(cell.class, EvidenceClass::Terrain);
    assert_eq!(cell.transient_masked_points, 7);
    assert_eq!(cell.lidar_sample_count, 10);
}

#[test]
fn unknown_cells_may_not_invent_material() {
    let mut artifact = baseline();
    artifact.cells[0].class = EvidenceClass::Unknown;
    assert!(artifact.validate().is_err());
    artifact.cells[0].material = None;
    artifact.validate().expect("unknown without material is valid");
}

#[test]
fn provenance_hashes_must_be_lowercase_sha256() {
    let mut artifact = baseline();
    artifact.source_sha256[0].1 = "A".repeat(64);
    assert!(artifact.validate().is_err());
    let mut artifact = baseline();
    artifact.source_sha256.pop();
    assert!(artifact.validate().is_err());
}

#[test]
fn provenance_entries_are_accepted_in_any_order() {
    let mut artifact = baseline();
    artifact.source_sha256.reverse();
    artifact.validate().expect("unordered provenance is valid");
    let mut artifact = baseline();
    artifact.source_sha256[1].0 = artifact.source_sha256[0].0.clone();
    assert!(artifact.validate().is_err());
}

#[test]
fn cells_are_found_by_address() {
    let artifact = baseline();
    let index = CellIndex::new(1, 0).expect("valid cell");
    assert_eq!(artifact.cell(index).expect("present").index, index);
    assert!(artifact.cell(CellIndex::new(2, 0).expect("valid cell")).is_none());
    assert!(CellIndex::new(31, 0).is_err());
}

#[test]
fn buildings_dominate_and_vegetation_reports_canopy_height() {
    let building = CellAccumulator {
        naip_samples: 10,
        lidar_samples: 10,
        building_samples: 8,
        ..CellAccumulator::default()
    };
    let cell = classify_cell(CellIndex::new(0, 0).expect("cell"), &building).expect("classify");
    assert_eq!(cell.class, EvidenceClass::Unknown);
    assert_eq!(cell.material, None);
    assert_eq!(cell.confidence_bp, 2_500);

    let canopy = CellAccumulator {
        naip_samples: 10,
        lidar_samples: 100,
        vegetation_samples: 50,
        ground_min_mm: 1_000,
        highest_vegetation_mm: 9_000,
        ..CellAccumulator::default()
    };
    let cell = classify_cell(CellIndex::new(0, 0).expect("cell"), &canopy).expect("classify");
    assert_eq!(cell.class, EvidenceClass::Vegetation);
    assert_eq!(cell.material.as_deref(), Some("canopy"));
    assert_eq!(cell.height_mm, 8_000);
    assert!(classify_cell(CellIndex::new(0, 0).expect("cell"), &CellAccumulator::default()).is_err());
}

#[test]
fn accumulation_counts_samples_and_sources() {
    let mut cell = CellAccumulator::default();
    add_naip_sample(&mut cell, 20, 30, 40, 200);
    add_naip_sample(&mut cell, 10, 10, 10, 20);
    assert_eq!(cell.naip_samples, 2);
    assert_eq!(cell.green_samples, 2);
    assert_eq!(cell.dark_water_samples, 1);
    add_lidar_point(&mut cell, "usgs-b", 2, 1_500);
    add_lidar_point(&mut cell, "usgs-a", 1, 2_600);
    add_lidar_point(&mut cell, "usgs-b", 5, 9_000);
    assert_eq!(cell.lidar_samples, 3);
    assert_eq!(cell.ground_min_mm, 1_500);
    assert_eq!(cell.highest_vegetation_mm, 9_000);
    assert_eq!(cell.unclassified_height_bins[5], 1);
    assert_eq!(cell.lidar_source_ids, vec!["usgs-a".to_owned(), "usgs-b".to_owned()]);
    let classified = classify_cell(CellIndex::new(3, 4).expect("cell"), &cell).expect("classify");
    assert_eq!(
        classified.source_ids,
        vec!["naip-2024-hero".to_owned(), "usgs-a".to_owned(), "usgs-b".to_owned()]
    );
}

#[test]
fn ratios_cap_at_full_scale() {
    assert_eq!(ratio_bp(1, 0), 0);
    assert_eq!(ratio_bp(1, 3), 3_333);
    assert_eq!(ratio_bp(5, 3), 10_000);
}

#[test]
fn absolute_positions_map_to_grid_cells() {
    let cell = cell_for_absolute_mm(ORIGIN_EASTING_MM + 43_583, ORIGIN_NORTHING_MM + 86_784)
        .expect("first cell");
    assert_eq!((cell.column, cell.row), (0, 0));
    assert!(cell_for_absolute_mm(ORIGIN_EASTING_MM, ORIGIN_NORTHING_MM).is_none());
}

#[test]
fn source_set_requires_four_sorted_lidar_inputs_and_exact_hashes() {
    let lidar: Vec<String> = hashes()[1..].iter().map(|(id, _)| id.clone()).collect();
    let keys: Vec<String> = hashes().iter().map(|(id, _)| id.clone()).collect();
    assert!(validate_source_set(&lidar, &keys, 10).is_ok());
    assert!(validate_source_set(&lidar[..3].to_vec(), &keys, 10).is_err());
    assert!(validate_source_set(&lidar, &keys[1..].to_vec(), 10).is_err());
    let mut reversed = lidar.clone();
    reversed.reverse();
    assert!(validate_source_set(&reversed, &keys, 10).is_err());
}
