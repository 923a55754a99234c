use isometric_stanford::primitives::WorldPoint;
use isometric_stanford::render::{project, stable_hash, IndexedImage, RenderError};
use isometric_stanford::style::{Rgb8, StylePack};

#[test]
fn projection_has_two_to_one_axes() {
    let style = StylePack::stanford_v1();
    let east = project(WorldPoint::new(1_000, 0, 0), &style).expect("project");
    let north = project(WorldPoint::new(0, 1_000, 0), &style).expect("project");
    assert_eq!(east.x_subpx, 256);
    assert_eq!(north.x_subpx, -256);
    assert_eq!(east.y_subpx, 128);
    assert_eq!(north.y_subpx, 128);
}

#[test]
fn projection_lifts_elevation_upward() {
    let style = StylePack::stanford_v1();
    let raised = project(WorldPoint::new(0, 0, 1_000), &style).expect("project");
    assert_eq!(raised.x_subpx, 0);
    assert!(raised.y_subpx < 0);
}

#[test]
fn fnv_hash_of_empty_input_is_the_offset_basis() {
    assert_eq!(stable_hash(&[]), 0xcbf2_9ce4_8422_2325);
    assert_ne!(stable_hash(&[0]), stable_hash(&[1]));
}

#[test]
fn ppm_encoding_has_header_and_palette_colors() {
    let image = IndexedImage::new(2, 1, 1).expect("image");
    let palette = [
        Rgb8 { red: 0, green: 0, blue: 0 },
        Rgb8 { red: 10, green: 20, blue: 30 },
    ];
    let ppm = image.to_ppm(&palette).expect("ppm");
    let header = b"P6\n2 1\n255\n";
    assert_eq!(&ppm[..header.len()], header);
    assert_eq!(&ppm[header.len()..], &[10, 20, 30, 10, 20, 30]);
    assert_eq!(image.to_ppm(&palette[..1]), Err(RenderError::PaletteIndex));
}

#[test]
fn indexed_image_rejects_zero_dimensions() {
    assert_eq!(IndexedImage::new(0, 1, 0), Err(RenderError::InvalidDimensions));
}
