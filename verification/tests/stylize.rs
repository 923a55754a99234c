use isometric_stanford::stylize_image::{
    apply_structural_outlines, box_blur, canopy_mask, edge_aware_smooth, luminance, mask_image,
    output_edges, quantize, reduce_depth_2x, reduce_rgb_2x, relight, remove_small_components,
    replace_canopy, structural_edges, Rgb, RgbImage,
};

fn image(width: usize, height: usize, value: Rgb) -> RgbImage {
    RgbImage::new(width, height, vec![value; width * height]).expect("fixture")
}

#[test]
fn two_by_two_reduction_is_exact() {
    let source = RgbImage::new(2, 2, vec![[0, 0, 0], [4, 8, 12], [8, 12, 16], [12, 16, 20]])
        .expect("fixture");
    assert_eq!(reduce_rgb_2x(&source).expect("reduce").pixels, [[6, 9, 12]]);
}

#[test]
fn smoothing_does_not_cross_a_hard_color_boundary() {
    let mut source = image(6, 4, [20, 20, 20]);
    for y in 0..4 {
        for x in 3..6 {
            source.pixels[y * 6 + x] = [220, 220, 220];
        }
    }
    assert_eq!(
        edge_aware_smooth(&source, None, None, 3).expect("smooth"),
        source
    );
}

#[test]
fn canopy_replacement_cannot_capture_a_small_car_like_component() {
    let mut color = image(16, 16, [100, 95, 90]);
    let mut normals = image(16, 16, [128, 220, 215]);
    for y in 7..9 {
        for x in 6..10 {
            let index = y * 16 + x;
            color.pixels[index] = [20, 48, 22];
            normals.pixels[index] = [40, 100, 220];
        }
    }
    assert!(
        canopy_mask(&color, &normals)
            .expect("mask")
            .into_iter()
            .all(|value| !value)
    );
}

#[test]
fn large_green_region_is_kept_as_canopy() {
    let mut color = image(16, 16, [100, 95, 90]);
    let normals = image(16, 16, [128, 220, 215]);
    for y in 2..14 {
        for x in 2..14 {
            color.pixels[y * 16 + x] = [30, 120, 40];
        }
    }
    let mask = canopy_mask(&color, &normals).expect("mask");
    assert!(mask[8 * 16 + 8]);
    assert!(!mask[0]);
}

#[test]
fn odd_dimensions_cannot_be_reduced() {
    let source = RgbImage::new(3, 1, vec![[1, 2, 3]; 3]).expect("fixture");
    assert!(reduce_rgb_2x(&source).is_err());
}

#[test]
fn image_dimensions_are_bounded() {
    assert!(RgbImage::new(0, 1, Vec::new()).is_err());
    assert!(RgbImage::new(2, 2, vec![[0, 0, 0]; 3]).is_err());
    assert!(RgbImage::new(4_097, 1, vec![[0, 0, 0]; 4_097]).is_err());
}

#[test]
fn luminance_weights_sum_to_full_scale() {
    assert_eq!(luminance([255, 255, 255]), 255);
    assert_eq!(luminance([0, 0, 0]), 0);
    assert_eq!(luminance([0, 255, 0]), 182);
}

#[test]
fn depth_reduction_takes_the_median_of_valid_samples() {
    let depth = vec![0, 10, 30, 20, 5, 0, 0, 0];
    assert_eq!(reduce_depth_2x(4, 2, &depth).expect("reduce"), vec![10, 30]);
    assert!(reduce_depth_2x(3, 2, &[0; 6]).is_err());
    assert!(reduce_depth_2x(4, 2, &[0; 7]).is_err());
}

#[test]
fn quantize_picks_the_first_nearest_color() {
    let source = image(1, 1, [10, 10, 10]);
    let palette = vec![[0, 0, 0], [20, 20, 20], [0, 0, 0]];
    let out = quantize(&source, &palette).expect("quantize");
    assert_eq!(out.pixels, vec![[0, 0, 0]]);
    assert!(quantize(&source, &Vec::new()).is_err());
}

#[test]
fn box_blur_of_a_constant_is_constant() {
    let values = vec![7_u8; 12];
    assert_eq!(box_blur(&values, 4, 3, 2), values);
    let ramp = vec![0, 30, 60];
    assert_eq!(box_blur(&ramp, 3, 1, 1), vec![15, 30, 45]);
}

#[test]
fn relight_of_flat_normals_is_bounded() {
    let color = image(2, 2, [100, 100, 100]);
    let normals = image(2, 2, [128, 128, 255]);
    let out = relight(&color, &normals).expect("relight");
    assert_eq!(out.pixels.len(), 4);
    assert!(relight(&color, &image(1, 2, [128, 128, 255])).is_err());
}

#[test]
fn structural_edges_mark_depth_discontinuities() {
    let normals = image(2, 1, [128, 128, 255]);
    let edges = structural_edges(&normals, &[1_000, 5_000]).expect("edges");
    assert_eq!(edges, vec![true, true]);
    let flat = structural_edges(&normals, &[1_000, 1_500]).expect("edges");
    assert_eq!(flat, vec![false, false]);
    assert!(structural_edges(&normals, &[1_000]).is_err());
}

#[test]
fn small_components_are_removed() {
    let mut mask = vec![true, false, true, false, false, true];
    remove_small_components(&mut mask, 3, 2, 2);
    assert_eq!(mask, vec![false, false, true, false, false, true]);
}

#[test]
fn outlines_skip_canopy_interiors_and_masks_render_white() {
    let base = image(3, 3, [1, 2, 3]);
    let structural = vec![true; 9];
    let canopy = vec![true; 9];
    let outlined = apply_structural_outlines(&base, &structural, &canopy, [0, 0, 0]).expect("outline");
    assert_eq!(outlined.pixels[4], [1, 2, 3]);
    assert_eq!(outlined.pixels[0], [0, 0, 0]);
    let white = mask_image(&[true, false].to_vec(), 2, 1).expect("mask image");
    assert_eq!(white.pixels, vec![[255, 255, 255], [0, 0, 0]]);
}

#[test]
fn output_edges_follow_luminance_steps() {
    let mut source = image(3, 1, [0, 0, 0]);
    source.pixels[2] = [255, 255, 255];
    assert_eq!(output_edges(&source), vec![false, true, true]);
}

#[test]
fn canopy_replacement_outlines_the_mask_boundary() {
    let base = image(3, 3, [9, 9, 9]);
    let normals = image(3, 3, [128, 128, 255]);
    let mask = vec![true; 9];
    let palette = vec![[1, 1, 1], [2, 2, 2], [3, 3, 3]];
    let out = replace_canopy(&base, &base, &normals, &mask, &palette).expect("replace");
    assert_eq!(out.pixels[0], [1, 1, 1]);
    assert_ne!(out.pixels[4], [9, 9, 9]);
    assert!(replace_canopy(&base, &base, &normals, &mask, &palette[..1].to_vec()).is_err());
}
