use isometric_stanford::review::{
    check_candidates, check_image_bytes, check_image_record, check_png_header, check_report_fields,
    estimate_peak_bytes, measure_candidate, ratio, review_gates, run_report, CandidateMetrics,
    RepairReviewReport, ReviewGates, ReviewImageRecord, ALGORITHM_ID, REVIEW_SCHEMA,
};
use isometric_stanford::digest::sha256_hex;
use isometric_stanford::stylize_image::{RgbImage, StylizeError};

fn message(result: Result<(), StylizeError>) -> String {
    match result {
        Ok(()) => String::new(),
        Err(error) => error.message().to_string(),
    }
}

#[test]
fn candidate_measurement_counts_recall_strays_and_changes() {
    let source = RgbImage::new(3, 3, vec![[0, 0, 0]; 9]).expect("source");
    let mut pixels = vec![[0, 0, 0]; 9];
    pixels[4] = [255, 255, 255];
    let candidate = RgbImage::new(3, 3, pixels).expect("candidate");
    let mut structural = vec![false; 9];
    structural[0] = true;
    let canopy = vec![false; 9];
    let metrics = measure_candidate("candidate-a-rgb", &source, &candidate, &structural, &canopy);
    assert_eq!(
        metrics,
        CandidateMetrics {
            candidate_id: "candidate-a-rgb".into(),
            colors_used: 2,
            structural_edge_recall_basis_points: 10_000,
            non_structural_edge_ppm: 222_222,
            mean_luminance_microunits: 28_333_333,
            changed_from_source_ppm: 111_111,
            canopy_interior_edge_ppm: 0,
        }
    );
}

#[test]
fn ratios_clamp_and_tolerate_empty_denominators() {
    assert_eq!(ratio(1, 3, 1_000_000), 333_333);
    assert_eq!(ratio(5, 0, 10_000), 0);
    assert_eq!(ratio(10_000, 1, 1_000_000), u32::MAX);
}

fn metrics(id: &str, colors: u16, recall: u16, canopy: u32) -> CandidateMetrics {
    CandidateMetrics {
        candidate_id: id.into(),
        colors_used: colors,
        structural_edge_recall_basis_points: recall,
        non_structural_edge_ppm: 0,
        mean_luminance_microunits: 0,
        changed_from_source_ppm: 0,
        canopy_interior_edge_ppm: canopy,
    }
}

fn candidates() -> Vec<CandidateMetrics> {
    vec![
        metrics("candidate-a-rgb", 20, 5_000, 900),
        metrics("candidate-b-geometry", 30, 9_500, 800),
        metrics("candidate-c-canopy-repair", 40, 8_000, 100),
    ]
}

#[test]
fn gates_follow_the_candidate_metrics() {
    let gates = review_gates(&candidates());
    assert_eq!(
        gates,
        ReviewGates {
            deterministic_post_capture: true,
            palette_bound: true,
            structural_edge_recall: true,
            canopy_fragmentation_improved: true,
            passenger_cars_preserved_by_policy: true,
            qualified_for_expansion: false,
        }
    );
    let mut worse = candidates();
    worse[1].structural_edge_recall_basis_points = 8_999;
    worse[2].colors_used = 129;
    worse[2].canopy_interior_edge_ppm = 900;
    let gates = review_gates(&worse);
    assert!(!gates.structural_edge_recall && !gates.palette_bound && !gates.canopy_fragmentation_improved);
}

#[test]
fn peak_memory_estimate_is_exact() {
    assert_eq!(estimate_peak_bytes(100).expect("estimate"), 10_240 + 41_943_040 + 2_600);
}

fn png_bytes(width: u32, height: u32) -> Vec<u8> {
    let mut bytes = Vec::new();
    {
        let mut encoder = png::Encoder::new(&mut bytes, width, height);
        encoder.set_color(png::ColorType::Rgba);
        encoder.set_depth(png::BitDepth::Eight);
        let mut writer = encoder.write_header().expect("header");
        writer
            .write_image_data(&vec![7; (width * height * 4) as usize])
            .expect("data");
    }
    bytes
}

fn image_records() -> Vec<ReviewImageRecord> {
    [
        "source-logical.png",
        "candidate-a-rgb.png",
        "candidate-b-geometry.png",
        "candidate-c-canopy-repair.png",
        "canopy-mask.png",
        "structural-edges.png",
    ]
    .iter()
    .map(|path| ReviewImageRecord {
        id: path.trim_end_matches(".png").into(),
        label: "label".into(),
        path: (*path).into(),
        width_px: 2,
        height_px: 2,
        byte_length: 0,
        sha256: "e".repeat(64),
    })
    .collect()
}

fn report() -> RepairReviewReport {
    RepairReviewReport {
        schema: REVIEW_SCHEMA.into(),
        algorithm: ALGORITHM_ID.into(),
        source_bundle_id: "bundle".into(),
        source_manifest_sha256: "f".repeat(64),
        source_millimeters_per_pixel: 125,
        logical_millimeters_per_pixel: 250,
        camera_azimuth_millidegrees: 330_000,
        camera_elevation_millidegrees: 42_000,
        images: image_records(),
        candidates: candidates(),
        canopy_pixels: 3,
        structural_edge_pixels: 4,
        estimated_peak_working_bytes: 50_000_000,
        blocking_findings: vec!["visual-style-approval-is-human-owned".into()],
        gates: review_gates(&candidates()),
    }
}

#[test]
fn report_checks_accept_a_consistent_report_and_name_each_failure() {
    let report = report();
    assert!(check_report_fields(&report).is_ok());
    assert!(check_candidates(&report).is_ok());
    for (index, record) in report.images.iter().enumerate() {
        assert!(check_image_record(record, index).is_ok());
    }
    assert_eq!(
        message(check_image_record(&report.images[0], 1)),
        "reference repair image record is invalid"
    );
    let mut doubled = report.clone();
    doubled.logical_millimeters_per_pixel = 251;
    assert_eq!(message(check_report_fields(&doubled)), "reference repair report contract is invalid");
    let mut qualified = report.clone();
    qualified.gates.qualified_for_expansion = true;
    assert!(check_report_fields(&qualified).is_err());
    let mut renamed = report.clone();
    renamed.candidates.swap(0, 1);
    assert_eq!(message(check_candidates(&renamed)), "reference repair candidate metrics are invalid");

    let json = "{\"report\":true}\n";
    let run = run_report(&report, json).expect("run");
    assert_eq!(run.report_sha256, sha256_hex(json.as_bytes()));
    assert_eq!(run.image_count, 6);
    assert!(!run.qualified_for_expansion);
}

#[test]
fn image_bytes_and_png_headers_are_checked() {
    let bytes = png_bytes(2, 2);
    let mut record = image_records()[0].clone();
    record.byte_length = bytes.len() as u64;
    record.sha256 = sha256_hex(&bytes);
    assert!(check_image_bytes(&record, &bytes).is_ok());
    let mut mutated = bytes.clone();
    let last = mutated.len() - 1;
    mutated[last] ^= 1;
    assert_eq!(message(check_image_bytes(&record, &mutated)), "reference repair image digest is invalid");
    assert!(check_png_header(&bytes, 2, 2).is_ok());
    assert_eq!(message(check_png_header(&bytes, 3, 2)), "reference repair PNG header is invalid");
    assert!(matches!(check_png_header(b"not a png", 2, 2), Err(StylizeError::Png(_))));
}
