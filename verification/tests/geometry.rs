use isometric_stanford::geometry::{
    chamfer_distance, close_binary, connected_components, extract_line_evidence,
    hysteresis_edges, morphology_dilate, morphology_erode, normal_discontinuity, open_binary,
    scharr_depth, watershed, Connectivity, GradientDirection, GradientField, LineOrientation,
    Raster, EDGE_OFF, EDGE_ON, MAX_DIMENSION, MAX_RADIUS,
};

fn raster(width: u32, height: u32, pixels: &[u8]) -> Raster<u8> {
    Raster::new(width, height, pixels.to_vec()).expect("valid fixture raster")
}

fn crop_raster<T: Copy>(input: &Raster<T>, x: u32, y: u32, width: u32, height: u32) -> Raster<T> {
    let mut output = Vec::new();
    for row in y..y + height {
        for column in x..x + width {
            output.push(input.pixels()[(row * input.width() + column) as usize]);
        }
    }
    Raster::new(width, height, output).expect("valid crop")
}

#[test]
fn raster_bounds_and_registration_fail_closed() {
    assert!(Raster::<u8>::new(0, 1, Vec::new()).is_err());
    assert!(Raster::<u8>::new(MAX_DIMENSION + 1, 1, Vec::new()).is_err());
    assert!(Raster::new(2, 2, vec![0_u8; 3]).is_err());
    let first = Raster::filled(2, 2, 0_u8).expect("first");
    let second = Raster::filled(3, 2, 0_u8).expect("second");
    assert!(first.same_grid(&second).is_err());
}

#[test]
fn malformed_kernel_inputs_fail_closed() {
    let invalid_binary = raster(2, 2, &[0, 1, 255, 0]);
    assert!(morphology_dilate(&invalid_binary, 1).is_err());
    assert!(connected_components(&invalid_binary, Connectivity::Four).is_err());
    assert!(chamfer_distance(&invalid_binary).is_err());

    let depth = Raster::filled(2, 2, 1_000_u32).expect("depth");
    let invalid_coverage = raster(2, 2, &[255, 255, 7, 255]);
    assert!(scharr_depth(&depth, &invalid_coverage, 1_000).is_err());

    let topography = Raster::filled(2, 2, 1_u32).expect("topography");
    let markers = Raster::filled(2, 2, 0_u32).expect("markers");
    let coverage = Raster::filled(2, 2, EDGE_ON).expect("coverage");
    assert!(watershed(&topography, &markers, &coverage).is_err());
}

#[test]
fn scharr_depth_detects_a_step_and_rejects_overflow_contracts() {
    let depth = Raster::new(
        5,
        5,
        (0..25)
            .map(|index| if index % 5 < 2 { 1_000 } else { 2_000 })
            .collect(),
    )
    .expect("depth");
    let coverage = Raster::filled(5, 5, EDGE_ON).expect("coverage");
    let first = scharr_depth(&depth, &coverage, 2_000).expect("first gradient");
    let second = scharr_depth(&depth, &coverage, 2_000).expect("second gradient");
    assert_eq!(first, second);
    assert_eq!(first.magnitude().pixels()[2 * 5 + 2], 16_000);
    assert_eq!(
        first.direction().pixels()[2 * 5 + 2],
        GradientDirection::Horizontal
    );
    assert!(scharr_depth(&depth, &coverage, u32::MAX).is_err());
}

#[test]
fn uncovered_depth_neighborhood_is_suppressed() {
    let depth = Raster::filled(5, 5, 1_000_u32).expect("depth");
    let mut coverage = vec![EDGE_ON; 25];
    coverage[6] = EDGE_OFF;
    let coverage = Raster::new(5, 5, coverage).expect("coverage");
    let gradient = scharr_depth(&depth, &coverage, 1_000).expect("gradient");
    assert_eq!(gradient.magnitude().pixels()[2 * 5 + 2], 0);
}

#[test]
fn normal_difference_uses_covered_neighbors_only() {
    let normals = Raster::new(
        3,
        1,
        vec![[128, 128, 255], [128, 128, 255], [128, 255, 128]],
    )
    .expect("normals");
    let coverage = Raster::filled(3, 1, EDGE_ON).expect("coverage");
    let difference = normal_discontinuity(&normals, &coverage).expect("difference");
    assert_eq!(difference.pixels().to_vec(), vec![0, 32_258, 32_258]);
}

#[test]
fn hysteresis_connects_weak_edges_in_stable_order() {
    let magnitude = Raster::new(5, 1, vec![0, 20, 10, 10, 0]).expect("magnitude");
    let direction = Raster::filled(5, 1, GradientDirection::Vertical).expect("direction");
    let edges = hysteresis_edges(&GradientField::from_parts(magnitude, direction), 10, 20)
        .expect("edges");
    assert_eq!(edges.pixels().to_vec(), vec![0, 255, 255, 255, 0]);
}

#[test]
fn morphology_matches_square_zero_border_contract() {
    let input = raster(
        5,
        5,
        &[
            0, 0, 0, 0, 0, 0, 0, 0, 0, 0, 0, 0, 255, 0, 0, 0, 0, 0, 0, 0, 0, 0, 0, 0, 0,
        ],
    );
    let dilated = morphology_dilate(&input, 1).expect("dilate");
    assert_eq!(
        dilated
            .pixels()
            .iter()
            .fold(0, |count, pixel| count + usize::from(*pixel == 255)),
        9
    );
    assert_eq!(morphology_erode(&dilated, 1).expect("erode"), input);
    assert!(morphology_dilate(&input, MAX_RADIUS + 1).is_err());
}

#[test]
fn components_are_labeled_in_row_major_order() {
    let input = raster(4, 3, &[255, 0, 0, 255, 255, 0, 0, 0, 0, 0, 255, 255]);
    let (labels, components) = connected_components(&input, Connectivity::Four).expect("cc");
    assert_eq!(components.len(), 3);
    assert_eq!(components[0].area, 2);
    assert_eq!(components[1].label, 2);
    assert_eq!(labels.pixels().to_vec(), vec![1, 0, 0, 2, 1, 0, 0, 0, 0, 0, 3, 3]);
}

#[test]
fn eight_connectivity_joins_diagonal_neighbors() {
    let input = raster(3, 3, &[255, 0, 0, 0, 255, 0, 0, 0, 255]);
    let (labels, components) = connected_components(&input, Connectivity::Eight).expect("cc");
    assert_eq!(components.len(), 1);
    assert_eq!(components[0].area, 3);
    assert_eq!((components[0].min_x, components[0].max_x), (0, 2));
    assert_eq!(labels.pixels().to_vec(), vec![1, 0, 0, 0, 1, 0, 0, 0, 1]);
}

#[test]
fn chamfer_distance_has_exact_three_four_metric() {
    let input = raster(3, 3, &[0, 0, 0, 0, 255, 0, 0, 0, 0]);
    let distance = chamfer_distance(&input).expect("distance");
    assert_eq!(distance.pixels().to_vec(), vec![4, 3, 4, 3, 0, 3, 4, 3, 4]);
}

#[test]
fn watershed_resolves_equal_cost_conflicts_to_lower_label() {
    let topography = Raster::filled(5, 1, 10_u32).expect("topography");
    let markers = Raster::new(5, 1, vec![9, 0, 0, 0, 2]).expect("markers");
    let coverage = Raster::filled(5, 1, EDGE_ON).expect("coverage");
    let labels = watershed(&topography, &markers, &coverage).expect("watershed");
    assert_eq!(labels.pixels().to_vec(), vec![9, 2, 2, 2, 2]);

    let permuted_markers = Raster::new(5, 1, vec![2, 0, 0, 0, 9]).expect("markers");
    let permuted = watershed(&topography, &permuted_markers, &coverage).expect("watershed");
    assert_eq!(permuted.pixels().to_vec(), vec![2, 2, 2, 2, 9]);
}

#[test]
fn watershed_leaves_uncovered_pixels_unlabeled() {
    let topography = Raster::filled(3, 1, 1_u32).expect("topography");
    let markers = Raster::new(3, 1, vec![4, 0, 0]).expect("markers");
    let coverage = Raster::new(3, 1, vec![EDGE_ON, EDGE_ON, EDGE_OFF]).expect("coverage");
    let labels = watershed(&topography, &markers, &coverage).expect("watershed");
    assert_eq!(labels.pixels().to_vec(), vec![4, 4, 0]);
}

#[test]
fn watershed_leaves_covered_pixels_no_flood_reaches_unlabeled() {
    let topography = Raster::filled(4, 1, 1_u32).expect("topography");
    let markers = Raster::new(4, 1, vec![4, 0, 0, 0]).expect("markers");
    let coverage = Raster::new(4, 1, vec![EDGE_ON, EDGE_ON, EDGE_OFF, EDGE_ON]).expect("coverage");
    let labels = watershed(&topography, &markers, &coverage).expect("watershed");
    assert_eq!(labels.pixels().to_vec(), vec![4, 4, 0, 0]);
}

#[test]
fn line_runs_are_maximal_stable_and_scale_gated() {
    let input = raster(
        5,
        5,
        &[
            255, 0, 0, 0, 255, 0, 255, 0, 255, 0, 0, 0, 255, 0, 0, 0, 255, 0, 255, 0, 255, 0, 0,
            0, 255,
        ],
    );
    let lines = extract_line_evidence(&input, 5).expect("lines");
    assert_eq!(lines.len(), 2);
    assert_eq!(lines[0].orientation, LineOrientation::DiagonalDown);
    assert_eq!(lines[1].orientation, LineOrientation::DiagonalUp);
    assert!(extract_line_evidence(&input, 0).is_err());
}

#[test]
fn guarded_local_kernels_match_monolithic_core() {
    let mut pixels = vec![0_u8; 9 * 7];
    for y in 2..5 {
        for x in 2..7 {
            pixels[y * 9 + x] = EDGE_ON;
        }
    }
    let full = Raster::new(9, 7, pixels).expect("full");
    let full_result = close_binary(&full, 1).expect("full result");
    let guarded_crop = crop_raster(&full, 2, 0, 7, 7);
    let crop_result = close_binary(&guarded_crop, 1).expect("crop result");
    assert_eq!(
        crop_raster(&full_result, 4, 2, 3, 3),
        crop_raster(&crop_result, 2, 2, 3, 3)
    );

    let depth_pixels = (0..7)
        .flat_map(|_| (0..9).map(|x| if x < 5 { 1_000_u32 } else { 2_000_u32 }))
        .collect();
    let full_depth = Raster::new(9, 7, depth_pixels).expect("full depth");
    let full_coverage = Raster::filled(9, 7, EDGE_ON).expect("full coverage");
    let full_gradient = scharr_depth(&full_depth, &full_coverage, 2_000).expect("full gradient");
    let guarded_depth = crop_raster(&full_depth, 2, 0, 7, 7);
    let guarded_coverage = crop_raster(&full_coverage, 2, 0, 7, 7);
    let guarded_gradient =
        scharr_depth(&guarded_depth, &guarded_coverage, 2_000).expect("guarded gradient");
    assert_eq!(
        crop_raster(full_gradient.magnitude(), 4, 2, 3, 3),
        crop_raster(guarded_gradient.magnitude(), 2, 2, 3, 3)
    );
}

#[test]
fn opening_removes_isolated_pixels_and_closing_fills_pinholes() {
    let mut dot = vec![0_u8; 25];
    dot[12] = EDGE_ON;
    let dot = raster(5, 5, &dot);
    assert!(open_binary(&dot, 1).expect("open").pixels().iter().all(|p| *p == 0));

    let mut block = vec![EDGE_ON; 25];
    block[12] = EDGE_OFF;
    let block = raster(5, 5, &block);
    assert_eq!(close_binary(&block, 1).expect("close").pixels()[12], EDGE_ON);
}

#[test]
fn watershed_takes_the_label_carried_along_the_cheapest_flood() {
    // Marker 1 reaches the right pixel only through the cheap pixel that marker 2 already
    // holds, so the right pixel keeps label 2 although both markers reach it at cost 7.
    let topography = Raster::new(3, 2, vec![5_u32, 0, 7, 0, 0, 0]).expect("topography");
    let markers = Raster::new(3, 2, vec![1_u32, 0, 0, 0, 2, 0]).expect("markers");
    let coverage = raster(3, 2, &[255, 255, 255, 0, 255, 0]);
    let labels = watershed(&topography, &markers, &coverage).expect("watershed");
    assert_eq!(labels.pixels(), &[1, 2, 2, 0, 2, 0]);
}

#[test]
fn opening_is_idempotent_and_only_removes_pixels() {
    let input = raster(5, 4, &[
        255, 255, 255, 0, 255,
        255, 255, 255, 0, 0,
        255, 255, 255, 255, 0,
        0, 0, 255, 0, 0,
    ]);
    let once = open_binary(&input, 1).expect("open");
    let twice = open_binary(&once, 1).expect("open twice");
    assert_eq!(once.pixels(), twice.pixels());
    for (after, before) in once.pixels().iter().zip(input.pixels()) {
        assert!(*after == 0 || *before == 255);
    }
}

#[test]
fn chamfer_distance_is_exact_from_the_nearest_source() {
    let input = raster(5, 3, &[255, 0, 0, 0, 0, 0, 0, 0, 0, 255, 0, 0, 0, 0, 0]);
    let distance = chamfer_distance(&input).expect("distance");
    assert_eq!(
        distance.pixels(),
        &[0, 3, 6, 4, 3, 3, 4, 6, 3, 0, 6, 7, 7, 4, 3]
    );
}
