use isometric_stanford::overlap::{
    boundary_row, check_depth_header, check_raw_layer, classifications, count_depth_edges,
    evidence_plan, find_layer, heatmap_intensity, heatmap_row, overlap_gates, overlap_report,
    pixel_difference, registration_offsets, registration_window, relation_dimensions,
    relation_row, row_byte_range, scale_to_millionths, select_registration, validate_overlap_request,
    CandidateRole, DifferenceMetrics, DifferenceTally, LayerComparison, LayerGate,
    OverlapComparisonRequest, RawCandidate, RawLayerKind, RegistrationScore, RegistrationSearch,
    Relation, RowCrop, DEPTH_MAGIC, OVERLAP_REPORT_SCHEMA, OVERLAP_REQUEST_SCHEMA,
    REGISTRATION_RADIUS,
};
use isometric_stanford::reference::ReferenceError;

fn message<T>(result: Result<T, ReferenceError>) -> String {
    match result {
        Ok(_) => String::new(),
        Err(error) => error.message().to_string(),
    }
}

/// The six raw layers of one synthetic capture whose columns start at `x_origin`.
struct Capture {
    width: u32,
    height: u32,
    layers: Vec<(RawLayerKind, Vec<u8>)>,
}

fn capture(width: u32, height: u32, x_origin: u32) -> Capture {
    let mut layers = Vec::new();
    for kind in RawLayerKind::all() {
        let mut bytes = Vec::new();
        if kind == RawLayerKind::LinearDepth {
            bytes.extend_from_slice(&DEPTH_MAGIC);
            bytes.extend_from_slice(&width.to_le_bytes());
            bytes.extend_from_slice(&height.to_le_bytes());
        }
        for y in 0..height {
            for x in 0..width {
                let world_x = x_origin + x;
                match kind {
                    RawLayerKind::LinearDepth => {
                        bytes.extend_from_slice(&(1_000_u32 + world_x * 1_000 + y).to_le_bytes());
                    }
                    RawLayerKind::FixedShadow => bytes.push(((world_x + y) % 251) as u8),
                    RawLayerKind::Coverage => bytes.push(255),
                    _ => bytes.extend_from_slice(&[
                        ((world_x * 17) % 251) as u8,
                        (y % 251) as u8,
                        ((world_x + y) % 251) as u8,
                        255,
                    ]),
                }
            }
        }
        layers.push((kind, bytes));
    }
    Capture { width, height, layers }
}

impl Capture {
    fn layer(&self, kind: RawLayerKind) -> &Vec<u8> {
        &self.layers.iter().find(|(k, _)| *k == kind).expect("layer").1
    }

    fn layer_mut(&mut self, kind: RawLayerKind) -> &mut Vec<u8> {
        &mut self.layers.iter_mut().find(|(k, _)| *k == kind).expect("layer").1
    }

    fn read(&self, kind: RawLayerKind, c: RowCrop) -> Vec<u8> {
        let (offset, length) =
            row_byte_range(kind, self.width, self.height, c).expect("crop inside the capture");
        self.layer(kind)[offset as usize..(offset + length) as usize].to_vec()
    }
}

struct Fixture {
    request: OverlapComparisonRequest,
    left: Capture,
    right: Capture,
    monolithic: Capture,
}

fn candidate(name: &str, width: u32, height: u32) -> RawCandidate {
    RawCandidate { directory: name.to_string(), width_px: width, height_px: height }
}

fn fixture() -> Fixture {
    Fixture {
        request: OverlapComparisonRequest {
            schema: OVERLAP_REQUEST_SCHEMA.to_string(),
            left: candidate("left", 14, 14),
            right: candidate("right", 14, 14),
            monolithic: candidate("monolithic", 22, 14),
            independent_core_width_px: 8,
            core_height_px: 8,
            guard_px: 3,
            output_directory: "evidence".to_string(),
        },
        left: capture(14, 14, 0),
        right: capture(14, 14, 8),
        monolithic: capture(22, 14, 0),
    }
}

impl Fixture {
    fn capture(&self, role: CandidateRole) -> &Capture {
        match role {
            CandidateRole::Left => &self.left,
            CandidateRole::Right => &self.right,
            CandidateRole::Monolithic => &self.monolithic,
        }
    }

    fn relation_rows(&self, kind: RawLayerKind, relation: Relation, row: u32) -> (Vec<u8>, Vec<u8>) {
        let (observed, expected) = relation_row(&self.request, relation, row);
        let mut joined = Vec::new();
        for c in observed {
            joined.extend(self.capture(c.candidate).read(kind, c));
        }
        (joined, self.capture(expected.candidate).read(kind, expected))
    }

    fn compare(&self, kind: RawLayerKind, relation: Relation) -> DifferenceMetrics {
        let (width, height) = relation_dimensions(&self.request, relation);
        let mut tally = DifferenceTally::new(kind.gate().maximum_absolute_difference);
        for row in 0..height {
            let (observed, expected) = self.relation_rows(kind, relation, row);
            tally.add_rows(kind, &observed, &expected);
        }
        tally.finish(width, height, kind.gate())
    }

    fn layers(&self) -> Vec<(String, LayerComparison)> {
        let mut layers = Vec::new();
        for kind in RawLayerKind::all() {
            layers.push((
                kind.name().to_string(),
                LayerComparison {
                    gate: kind.gate(),
                    left_vs_right_overlap: self.compare(kind, Relation::LeftRightOverlap),
                    left_vs_right_seam_corridor: self.compare(kind, Relation::LeftRightSeamCorridor),
                    left_vs_monolithic_overlap: self.compare(kind, Relation::LeftMonolithicOverlap),
                    right_vs_monolithic_overlap: self.compare(kind, Relation::RightMonolithicOverlap),
                    joined_vs_monolithic_core: self.compare(kind, Relation::JoinedMonolithicCore),
                    joined_boundary_vs_monolithic: self
                        .compare(kind, Relation::JoinedBoundaryMonolithic),
                },
            ));
        }
        layers
    }

    fn score(&self, dx: i32, dy: i32) -> RegistrationScore {
        let window =
            registration_window(&self.request, dx, dy, REGISTRATION_RADIUS).expect("window");
        let mut above = 0;
        let mut observations = 0;
        for kind in [
            RawLayerKind::Coverage,
            RawLayerKind::LinearDepth,
            RawLayerKind::ViewNormal,
            RawLayerKind::Whitebox,
        ] {
            let mut tally = DifferenceTally::new(kind.gate().maximum_absolute_difference);
            for row in 0..window.height {
                let left = self.left.read(
                    kind,
                    RowCrop {
                        candidate: CandidateRole::Left,
                        y: window.left_y + row,
                        x: window.left_x,
                        width: window.width,
                    },
                );
                let right = self.right.read(
                    kind,
                    RowCrop {
                        candidate: CandidateRole::Right,
                        y: window.right_y + row,
                        x: window.right_x,
                        width: window.width,
                    },
                );
                tally.add_rows(kind, &left, &right);
            }
            above += tally.pixels_above_tolerance;
            observations += tally.pixels_seen;
        }
        RegistrationScore { dx, dy, above, observations }
    }

    fn registration(&self) -> RegistrationSearch {
        let baseline = self.score(0, 0);
        let scores: Vec<RegistrationScore> =
            registration_offsets().into_iter().map(|(dx, dy)| self.score(dx, dy)).collect();
        select_registration(baseline.above, baseline.observations, &scores).expect("registration")
    }
}

#[test]
fn exact_registered_candidates_pass_in_memory() {
    let f = fixture();
    assert!(validate_overlap_request(&f.request, false).is_ok());
    let layers = f.layers();
    let registration = f.registration();
    assert_eq!(registration.best_dx_px, 0);
    assert_eq!(registration.best_dy_px, 0);
    let report = overlap_report(layers, registration, Vec::new(), 0);
    assert!(report.passed);
    assert!(report.failure_classifications.is_empty());
    assert_eq!(report.schema, OVERLAP_REPORT_SCHEMA);
    assert!(report.layers.iter().all(|(_, l)| l.joined_vs_monolithic_core.exact_mismatch_pixels == 0));
    assert!(report.gates.all_relations && report.gates.lighting_seam);
    assert!(report.gates.source.independent_seam && report.gates.source.monolithic_seam);
}

#[test]
fn missing_source_is_classified_in_memory() {
    let mut f = fixture();
    f.right.layer_mut(RawLayerKind::Coverage)[3 * 14] = 0;
    let layers = f.layers();
    let registration = f.registration();
    let report = overlap_report(layers, registration, Vec::new(), 0);
    assert!(!report.passed);
    assert!(report.failure_classifications.contains(&"missing-source".to_string()));
}

#[test]
fn translated_capture_is_distinguished_in_memory() {
    let mut f = fixture();
    f.right = capture(14, 14, 7);
    let layers = f.layers();
    let registration = f.registration();
    assert_eq!(registration.best_dx_px, 1);
    assert_eq!(registration.best_dy_px, 0);
    let report = overlap_report(layers, registration, Vec::new(), 0);
    assert!(!report.passed);
    assert!(report.failure_classifications.contains(&"subpixel-camera".to_string()));
}

#[test]
fn request_layout_errors_are_exact() {
    let f = fixture();
    let mut request = f.request.clone();
    request.guard_px = 0;
    assert_eq!(
        message(validate_overlap_request(&request, false)),
        "registered overlap request violates its bounded layout"
    );
    assert_eq!(
        message(validate_overlap_request(&f.request, true)),
        "registered overlap request violates its bounded layout"
    );
    let mut request = f.request.clone();
    request.guard_px = u32::MAX / 2;
    assert_eq!(message(validate_overlap_request(&request, false)), "independent overlap width overflowed");
    let mut request = f.request.clone();
    request.monolithic.width_px = 23;
    assert!(validate_overlap_request(&request, false).is_err());
}

#[test]
fn pixel_differences_follow_the_layer_kind() {
    assert_eq!(pixel_difference(RawLayerKind::Color, &[10, 20, 30, 255], &[12, 5, 30, 255]), 15);
    assert_eq!(
        pixel_difference(RawLayerKind::LinearDepth, &1_000u32.to_le_bytes(), &1_250u32.to_le_bytes()),
        250
    );
    assert_eq!(pixel_difference(RawLayerKind::Coverage, &[0], &[255]), 255);
}

#[test]
fn tally_metrics_saturate_and_gate() {
    let mut tally = DifferenceTally::new(24);
    tally.add_rows(RawLayerKind::Color, &[0, 0, 0, 0, 9, 9, 9, 9], &[0, 0, 0, 0, 40, 9, 9, 9]);
    assert_eq!(tally.pixels_seen, 2);
    assert_eq!(tally.exact_mismatch_pixels, 1);
    assert_eq!(tally.pixels_above_tolerance, 1);
    assert_eq!(tally.maximum_absolute_difference, 31);
    let gate = LayerGate { maximum_absolute_difference: 24, maximum_above_tolerance_ppm: 5_000 };
    let metrics = tally.finish(2, 1, gate);
    assert_eq!(metrics.pixels_compared, 2);
    assert_eq!(metrics.pixels_above_tolerance_ppm, 500_000);
    assert_eq!(metrics.mean_absolute_difference_microunits, 15_500_000);
    assert!(!metrics.passed);
    let empty = DifferenceTally::new(0).finish(0, 5, gate);
    assert_eq!(empty.pixels_above_tolerance_ppm, u64::MAX);
    assert_eq!(empty.mean_absolute_difference_microunits, u64::MAX);
    assert!(empty.passed);
    assert_eq!(scale_to_millionths(u64::MAX), u64::MAX);
}

#[test]
fn relation_crops_stay_inside_their_captures() {
    let f = fixture();
    assert_eq!(relation_dimensions(&f.request, Relation::LeftRightOverlap), (6, 14));
    assert_eq!(relation_dimensions(&f.request, Relation::LeftRightSeamCorridor), (6, 8));
    assert_eq!(relation_dimensions(&f.request, Relation::JoinedMonolithicCore), (16, 8));
    let (observed, expected) = relation_row(&f.request, Relation::JoinedBoundaryMonolithic, 2);
    assert_eq!(
        observed,
        vec![
            RowCrop { candidate: CandidateRole::Left, y: 5, x: 8, width: 3 },
            RowCrop { candidate: CandidateRole::Right, y: 5, x: 3, width: 3 },
        ]
    );
    assert_eq!(expected, RowCrop { candidate: CandidateRole::Monolithic, y: 5, x: 8, width: 6 });
    assert_eq!(
        row_byte_range(RawLayerKind::LinearDepth, 14, 14, RowCrop { candidate: CandidateRole::Left, y: 1, x: 2, width: 3 })
            .expect("range"),
        (16 + 16 * 4, 12)
    );
    assert_eq!(
        message(row_byte_range(RawLayerKind::Color, 14, 14, RowCrop { candidate: CandidateRole::Left, y: 14, x: 0, width: 1 })),
        "raw overlap crop exceeds its registered image"
    );
}

#[test]
fn registration_window_and_selection_rules() {
    let f = fixture();
    let w = registration_window(&f.request, -1, 2, 2).expect("window");
    assert_eq!((w.width, w.height, w.left_y, w.left_x, w.right_y, w.right_x), (2, 10, 2, 10, 4, 1));
    assert_eq!(
        message(registration_window(&f.request, -3, 0, 2)),
        "registration search translation exceeds its bounded interior"
    );
    assert_eq!(message(registration_window(&f.request, 0, 0, 4)), "registration search width underflowed");
    let offsets = registration_offsets();
    assert_eq!(offsets.len(), 24);
    assert_eq!(offsets[0], (-2, -2));
    assert_eq!(offsets[11], (-1, 0));
    assert_eq!(offsets[12], (1, 0));
    let scores = vec![
        RegistrationScore { dx: 1, dy: 1, above: 4, observations: 10 },
        RegistrationScore { dx: -1, dy: 0, above: 4, observations: 10 },
        RegistrationScore { dx: 1, dy: 0, above: 4, observations: 10 },
    ];
    let search = select_registration(8, 10, &scores).expect("search");
    assert_eq!((search.best_dx_px, search.best_dy_px), (-1, 0));
    assert_eq!(search.best_above_tolerance_ppm, 400_000);
    assert_eq!(search.baseline_above_tolerance_ppm, 800_000);
    assert_eq!(search.radius_px, 2);
    let mismatched = vec![RegistrationScore { dx: 1, dy: 0, above: 0, observations: 9 }];
    assert_eq!(
        message(select_registration(8, 10, &mismatched)),
        "registration search compared inconsistent observations"
    );
}

#[test]
fn gates_and_classes_follow_failed_relations() {
    let f = fixture();
    let mut layers = f.layers();
    let gates = overlap_gates(&layers);
    assert!(gates.all_relations);
    let idx = layers.iter().position(|(n, _)| n == "whitebox").expect("whitebox");
    layers[idx].1.left_vs_monolithic_overlap.passed = false;
    let color = layers.iter().position(|(n, _)| n == "color").expect("color");
    layers[color].1.joined_vs_monolithic_core.passed = false;
    let gates = overlap_gates(&layers);
    assert!(!gates.all_relations);
    assert!(gates.lighting_seam);
    let registration = f.registration();
    assert_eq!(
        classifications(&layers, &registration, &gates),
        vec!["shadow-phase".to_string(), "monolithic-oracle-texture".to_string()]
    );
    assert!(find_layer(&layers, "unknown").is_none());
    let depth = layers.iter().position(|(n, _)| n == "linear-depth").expect("depth");
    layers[depth].1.left_vs_right_seam_corridor.passed = false;
    let gates = overlap_gates(&layers);
    assert!(!gates.source.independent_seam);
    assert_eq!(classifications(&layers, &registration, &gates)[0], "level-of-detail");
}

#[test]
fn boundary_edges_and_heatmap_intensities() {
    let f = fixture();
    let c = boundary_row(&f.request, 0);
    assert_eq!(c, RowCrop { candidate: CandidateRole::Monolithic, y: 3, x: 3, width: 16 });
    let row = f.monolithic.read(RawLayerKind::LinearDepth, c);
    assert_eq!(count_depth_edges(&row), 15);
    let mut flat = Vec::new();
    for v in [5u32, 0, 900, 1_300, 1_310] {
        flat.extend_from_slice(&v.to_le_bytes());
    }
    assert_eq!(count_depth_edges(&flat), 0);
    assert_eq!(heatmap_intensity(RawLayerKind::LinearDepth, 125), 127);
    assert_eq!(heatmap_intensity(RawLayerKind::Color, 10), 160);
    assert_eq!(heatmap_intensity(RawLayerKind::Color, 20), 255);
    let rows = vec![
        (RawLayerKind::Color, vec![0, 0, 0, 255], vec![3, 0, 0, 255]),
        (RawLayerKind::Coverage, vec![255], vec![0]),
        (RawLayerKind::FixedShadow, vec![7], vec![6]),
    ];
    assert_eq!(heatmap_row(&rows, 1), vec![255, 16, 48, 255]);
}

#[test]
fn raw_layer_and_depth_header_checks() {
    assert!(check_raw_layer(RawLayerKind::LinearDepth, 14, 14, true, 16 + 14 * 14 * 4).is_ok());
    assert_eq!(
        message(check_raw_layer(RawLayerKind::Coverage, 14, 14, true, 195)),
        "raw overlap layer coverage.gray8 contradicts its dimensions"
    );
    assert!(check_raw_layer(RawLayerKind::Coverage, 14, 14, false, 196).is_err());
    let f = fixture();
    let depth = f.left.layer(RawLayerKind::LinearDepth);
    assert!(check_depth_header(&depth[..16], 14, 14).is_ok());
    assert_eq!(
        message(check_depth_header(&depth[..16], 14, 15)),
        "raw depth header contradicts the overlap grid"
    );
    let plan = evidence_plan(&f.request, (6, 14), (16, 8));
    assert_eq!(plan.len(), 7);
    assert_eq!(plan[0].name, "joined-core");
    assert_eq!((plan[0].width_px, plan[0].height_px), (16, 8));
    assert_eq!(plan[6].filename, "core-oracle-heatmap.png");
}
