use isometric_stanford::primitives::ObjectId;
use isometric_stanford::raster::{RasterSurface, RasterVertex};
use isometric_stanford::render::RenderError;
use isometric_stanford::scene::{append_polygon_fill, primitive_key, PASS_GROUND, PASS_ROOF};

#[test]
fn scanline_decomposition_preserves_a_hole() {
    let outer = vec![
        RasterVertex::new(0, 0, 1),
        RasterVertex::new(1_024, 0, 1),
        RasterVertex::new(1_024, 1_024, 1),
        RasterVertex::new(0, 1_024, 1),
        RasterVertex::new(0, 0, 1),
    ];
    let hole = vec![
        RasterVertex::new(256, 256, 1),
        RasterVertex::new(768, 256, 1),
        RasterVertex::new(768, 768, 1),
        RasterVertex::new(256, 768, 1),
        RasterVertex::new(256, 256, 1),
    ];
    let mut triangles = Vec::new();
    let mut ordinal = 0;
    append_polygon_fill(
        &mut triangles,
        &[outer, hole],
        1,
        ObjectId::new(1).expect("id"),
        PASS_GROUND,
        &mut ordinal,
    )
    .expect("decompose");
    let mut surface = RasterSurface::new(4, 4, 0, 2).expect("surface");
    surface.rasterize(&triangles).expect("rasterize");
    assert_eq!(surface.image().pixels()[5], 0);
    assert_eq!(surface.image().pixels()[0], 1);
}

fn square(size: i64) -> Vec<RasterVertex> {
    vec![
        RasterVertex::new(0, 0, 7),
        RasterVertex::new(size, 0, 7),
        RasterVertex::new(size, size, 7),
        RasterVertex::new(0, size, 7),
        RasterVertex::new(0, 0, 7),
    ]
}

#[test]
fn a_square_is_two_keyed_triangles_with_advancing_ordinals() {
    let id = ObjectId::new(42).expect("id");
    let mut triangles = Vec::new();
    let mut ordinal = 5;
    append_polygon_fill(&mut triangles, &[square(512)], 3, id, PASS_ROOF, &mut ordinal).expect("fill");
    assert_eq!(triangles.len(), 2);
    assert_eq!(ordinal, 7);
    assert_eq!(triangles[0].stable_key, primitive_key(id, PASS_ROOF, 5));
    assert_eq!(triangles[1].stable_key, primitive_key(id, PASS_ROOF, 6));
    assert_ne!(triangles[0].stable_key, triangles[1].stable_key);
    assert!(triangles.iter().all(|t| t.palette_index == 3 && t.stable_key != 0));
    assert_eq!(
        triangles[0].vertices,
        [RasterVertex::new(0, 0, 7), RasterVertex::new(512, 0, 7), RasterVertex::new(512, 512, 7)]
    );
}

#[test]
fn a_hole_splits_middle_strips_and_an_open_ring_fails() {
    let id = ObjectId::new(9).expect("id");
    let hole = vec![
        RasterVertex::new(100, 100, 0),
        RasterVertex::new(200, 100, 0),
        RasterVertex::new(200, 200, 0),
        RasterVertex::new(100, 200, 0),
        RasterVertex::new(100, 100, 0),
    ];
    let mut triangles = Vec::new();
    let mut ordinal = 0;
    append_polygon_fill(&mut triangles, &[square(300), hole], 1, id, PASS_GROUND, &mut ordinal).expect("fill");
    assert_eq!(triangles.len(), 2 + 4 + 2);
    assert_eq!(ordinal, 8);

    let open = vec![RasterVertex::new(0, 0, 0), RasterVertex::new(10, 10, 0)];
    let mut output = Vec::new();
    let mut ordinal = 0;
    assert_eq!(
        append_polygon_fill(&mut output, &[open], 1, id, PASS_GROUND, &mut ordinal),
        Err(RenderError::Triangulation)
    );
    assert!(output.is_empty());
}

#[test]
fn empty_and_flat_rings_emit_nothing() {
    let id = ObjectId::new(1).expect("id");
    let mut output = Vec::new();
    let mut ordinal = 0;
    append_polygon_fill(&mut output, &[], 1, id, PASS_GROUND, &mut ordinal).expect("empty");
    let flat = vec![RasterVertex::new(0, 5, 0), RasterVertex::new(10, 5, 0), RasterVertex::new(0, 5, 0)];
    append_polygon_fill(&mut output, &[flat], 1, id, PASS_GROUND, &mut ordinal).expect("flat");
    assert!(output.is_empty());
    assert_eq!(ordinal, 0);
}
