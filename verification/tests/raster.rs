use isometric_stanford::raster::{
    RasterSurface, RasterVertex, Triangle, MAX_RASTER_DIMENSION, SUBPIXELS_PER_PIXEL,
};
use isometric_stanford::render::{stable_hash, RenderError};

fn vertex(x: i64, y: i64, depth: i32) -> RasterVertex {
    RasterVertex::new(x * SUBPIXELS_PER_PIXEL, y * SUBPIXELS_PER_PIXEL, depth)
}

fn triangle(vertices: [RasterVertex; 3], color: u8, key: u64) -> Triangle {
    Triangle {
        vertices,
        palette_index: color,
        stable_key: key,
    }
}

#[test]
fn adjacent_triangles_fill_without_shared_edge_cracks() {
    let first = triangle([vertex(0, 0, 1), vertex(4, 0, 1), vertex(4, 4, 1)], 1, 1);
    let second = triangle([vertex(0, 0, 1), vertex(4, 4, 1), vertex(0, 4, 1)], 2, 2);
    let mut surface = RasterSurface::new(4, 4, 0, 3).expect("surface");
    surface.rasterize(&[second, first]).expect("rasterize");
    assert!(surface.image().pixels().iter().all(|pixel| *pixel != 0));
    assert_eq!(stable_hash(surface.image().pixels()), 0x3c59_1e65_e0cf_2fbd);
}

#[test]
fn stable_key_resolves_equal_depth_independent_of_input_order() {
    let vertices = [vertex(0, 0, 5), vertex(4, 0, 5), vertex(0, 4, 5)];
    let low_key = triangle(vertices, 1, 10);
    let high_key = triangle(vertices, 2, 20);
    let mut first = RasterSurface::new(4, 4, 0, 3).expect("surface");
    let mut second = RasterSurface::new(4, 4, 0, 3).expect("surface");
    first.rasterize(&[high_key, low_key]).expect("rasterize");
    second.rasterize(&[low_key, high_key]).expect("rasterize");
    assert_eq!(first, second);
    assert!(first.image().pixels().contains(&1));
    assert!(!first.image().pixels().contains(&2));
}

#[test]
fn closer_depth_wins_and_offscreen_geometry_is_clipped() {
    let far = triangle(
        [vertex(-10, -10, 1), vertex(20, -10, 1), vertex(-10, 20, 1)],
        1,
        1,
    );
    let near = triangle(
        [vertex(-10, -10, 2), vertex(20, -10, 2), vertex(-10, 20, 2)],
        2,
        2,
    );
    let mut surface = RasterSurface::new(4, 4, 0, 3).expect("surface");
    surface.rasterize(&[near, far]).expect("rasterize");
    assert!(surface.image().pixels().contains(&2));
    assert!(!surface.image().pixels().contains(&1));
}

#[test]
fn invalid_batches_fail_before_mutating_output() {
    let mut surface = RasterSurface::new(4, 4, 0, 2).expect("surface");
    let original = surface.clone();
    let valid = triangle([vertex(0, 0, 1), vertex(4, 0, 1), vertex(0, 4, 1)], 1, 1);
    let duplicate = triangle([vertex(0, 0, 2), vertex(4, 0, 2), vertex(0, 4, 2)], 1, 1);
    assert_eq!(
        surface.rasterize(&[valid, duplicate]),
        Err(RenderError::InvalidPrimitiveKey)
    );
    assert_eq!(surface, original);

    let degenerate = triangle([vertex(0, 0, 1), vertex(1, 1, 1), vertex(2, 2, 1)], 1, 2);
    assert_eq!(
        surface.rasterize(&[degenerate]),
        Err(RenderError::DegenerateTriangle)
    );
    assert_eq!(surface, original);
}

#[test]
fn surface_accepts_exactly_one_canonical_batch() {
    let valid = triangle([vertex(0, 0, 1), vertex(4, 0, 1), vertex(0, 4, 1)], 1, 1);
    let mut surface = RasterSurface::new(4, 4, 0, 2).expect("surface");
    surface.rasterize(&[valid]).expect("first batch");
    assert_eq!(
        surface.rasterize(&[]),
        Err(RenderError::SurfaceAlreadyRasterized)
    );
}

#[test]
fn winding_does_not_change_coverage() {
    let clockwise = triangle([vertex(0, 0, 1), vertex(0, 4, 1), vertex(4, 0, 1)], 1, 1);
    let counter_clockwise = triangle([vertex(0, 0, 1), vertex(4, 0, 1), vertex(0, 4, 1)], 1, 1);
    let mut first = RasterSurface::new(4, 4, 0, 2).expect("surface");
    let mut second = RasterSurface::new(4, 4, 0, 2).expect("surface");
    first.rasterize(&[clockwise]).expect("rasterize");
    second.rasterize(&[counter_clockwise]).expect("rasterize");
    assert_eq!(first, second);
}

#[test]
fn surface_rejects_unbounded_allocation() {
    assert_eq!(
        RasterSurface::new(MAX_RASTER_DIMENSION + 1, 1, 0, 1),
        Err(RenderError::InvalidDimensions)
    );
}

#[test]
fn palette_index_outside_the_palette_is_rejected() {
    let mut surface = RasterSurface::new(4, 4, 0, 2).expect("surface");
    let out_of_palette = triangle([vertex(0, 0, 1), vertex(4, 0, 1), vertex(0, 4, 1)], 2, 1);
    assert_eq!(
        surface.rasterize(&[out_of_palette]),
        Err(RenderError::PaletteIndex)
    );
}

#[test]
fn pixel_buffers_hold_five_bytes_per_pixel() {
    let surface = RasterSurface::new(3, 2, 0, 1).expect("surface");
    assert_eq!(surface.pixel_buffer_bytes(), 30);
}
