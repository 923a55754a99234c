use isometric_stanford::atlas::{decode_layer_png, order_sources};
use isometric_stanford::perception::{decode_naip, PerceptionError};
use isometric_stanford::reference::{
    encode_raw_png, CameraSpec, CaptureSpec, LayerKind, LayerRecord, LightingSpec, PngColorType,
    ReferenceManifest, TileSpec,
};
use isometric_stanford::review::{
    decode_core_depth, decode_core_png, repair_report, repair_study, validate_report, RepairPalettes,
};
use isometric_stanford::stylize_image::StylizeError;

fn record(kind: LayerKind, width: u32, height: u32) -> LayerRecord {
    LayerRecord {
        kind,
        path: "layer".to_string(),
        encoding: "png".to_string(),
        width_px: width,
        height_px: height,
        byte_length: 0,
        sha256: "0".repeat(64),
    }
}

fn manifest(core: u16, guard: u16) -> ReferenceManifest {
    let total = u32::from(core) + 2 * u32::from(guard);
    ReferenceManifest {
        schema: "schema".to_string(),
        bundle_id: "bundle".to_string(),
        tile: TileSpec {
            region_id: "region".to_string(),
            column: 0,
            row: 0,
            core_width_px: core,
            core_height_px: core,
            guard_px: guard,
            millimeters_per_pixel: 125,
            center_longitude_e7: 0,
            center_latitude_e7: 0,
        },
        camera: CameraSpec {
            projection: "orthographic".to_string(),
            azimuth_millidegrees: 330_000,
            elevation_millidegrees: 42_000,
            target_altitude_mm: 0,
            near_mm: 1,
            far_mm: 2,
            orthographic_width_mm: 1,
            orthographic_height_mm: 1,
            camera_distance_mm: 1,
        },
        lighting: LightingSpec { sun_azimuth_millidegrees: 0, sun_elevation_millidegrees: 0 },
        capture: CaptureSpec {
            renderer: "r".to_string(),
            renderer_version: "1".to_string(),
            provider: "google-photorealistic-3d-tiles".to_string(),
            source_epoch: "e".to_string(),
            complete: true,
            attributions: vec![],
        },
        core_coverage_basis_points: 10_000,
        layers: vec![
            record(LayerKind::Color, total, total),
            record(LayerKind::ViewNormal, total, total),
            record(LayerKind::LinearDepth, total, total),
        ],
    }
}

fn rgba(width: u32, height: u32) -> Vec<u8> {
    let mut raw = Vec::new();
    for y in 0..height {
        for x in 0..width {
            raw.extend_from_slice(&[(x * 10) as u8, (y * 10) as u8, 7, 255]);
        }
    }
    raw
}

fn depth_bytes(width: u32, height: u32) -> Vec<u8> {
    let mut bytes = b"ISOD32V1".to_vec();
    bytes.extend_from_slice(&width.to_le_bytes());
    bytes.extend_from_slice(&height.to_le_bytes());
    for y in 0..height {
        for x in 0..width {
            bytes.extend_from_slice(&(1_000 + x * 10 + y).to_le_bytes());
        }
    }
    bytes
}

fn message(e: StylizeError) -> String {
    e.message().to_string()
}

#[test]
fn core_png_keeps_the_rgb_core_inside_the_guard() {
    let m = manifest(2, 1);
    let png = encode_raw_png(&rgba(4, 4), 4, 4, PngColorType::Rgba).expect("png");
    let core = decode_core_png(&m, LayerKind::Color, &png).expect("core");
    assert_eq!((core.width, core.height), (2, 2));
    assert_eq!(core.pixels, vec![[10, 10, 7], [20, 10, 7], [10, 20, 7], [20, 20, 7]]);
    let gray = encode_raw_png(&[0; 16], 4, 4, PngColorType::Grayscale).expect("gray");
    assert_eq!(
        message(decode_core_png(&m, LayerKind::Color, &gray).unwrap_err()),
        "reference PNG violates its registered RGBA8 contract"
    );
    assert_eq!(
        message(decode_core_png(&m, LayerKind::Whitebox, &png).unwrap_err()),
        "required reference PNG is missing"
    );
    assert!(matches!(decode_core_png(&m, LayerKind::Color, b"not a png"), Err(StylizeError::Png(_))));
}

#[test]
fn core_depth_reads_the_little_endian_core() {
    let m = manifest(2, 1);
    let depth = decode_core_depth(&m, &depth_bytes(4, 4)).expect("depth");
    assert_eq!(depth, vec![1_011, 1_021, 1_012, 1_022]);
    let mut short = depth_bytes(4, 4);
    short.pop();
    assert!(decode_core_depth(&m, &short).is_err());
    let mut wrong = depth_bytes(4, 4);
    wrong[0] = b'X';
    assert_eq!(
        message(decode_core_depth(&m, &wrong).unwrap_err()),
        "reference depth header violates its registration"
    );
}

#[test]
fn repair_study_names_and_measures_three_candidates() {
    let m = manifest(4, 1);
    let color = encode_raw_png(&rgba(6, 6), 6, 6, PngColorType::Rgba).expect("color");
    let normal = encode_raw_png(&vec![128; 6 * 6 * 4], 6, 6, PngColorType::Rgba).expect("normal");
    let palettes = RepairPalettes {
        base: vec![[0, 0, 0], [255, 255, 255]],
        geometry: vec![[0, 0, 0], [200, 200, 200]],
        canopy: vec![[0, 80, 0], [0, 160, 0]],
        outline: [1, 1, 1],
    };
    let study = repair_study(&m, &color, &normal, &depth_bytes(6, 6), &palettes).expect("study");
    let ids: Vec<&str> = study.images.iter().map(|(id, _, _)| id.as_str()).collect();
    assert_eq!(
        ids,
        vec![
            "source-logical",
            "candidate-a-rgb",
            "candidate-b-geometry",
            "candidate-c-canopy-repair",
            "canopy-mask",
            "structural-edges"
        ]
    );
    assert_eq!((study.images[0].2.width, study.images[0].2.height), (2, 2));
    assert_eq!(study.candidates.len(), 3);
    assert_eq!(study.candidates[1].candidate_id, "candidate-b-geometry");
    assert!(!study.gates.qualified_for_expansion);
    assert_eq!(study.structural_edge_pixels, study.structural.iter().filter(|b| **b).count() as u64);
    assert_eq!(study.estimated_peak_working_bytes, 10_240 + 41_943_040 + 4 * 26);
    for (k, mask) in [(4, &study.canopy), (5, &study.structural)] {
        let visual: Vec<[u8; 3]> = mask.iter().map(|on| if *on { [255, 255, 255] } else { [0, 0, 0] }).collect();
        assert_eq!(study.images[k].2.pixels, visual);
    }
    for pixel in &study.images[1].2.pixels {
        assert!(palettes.base.contains(pixel));
    }
}

#[test]
fn repair_study_refuses_other_captures_and_unusable_palettes() {
    let color = encode_raw_png(&rgba(6, 6), 6, 6, PngColorType::Rgba).expect("color");
    let normal = encode_raw_png(&vec![128; 6 * 6 * 4], 6, 6, PngColorType::Rgba).expect("normal");
    let palettes = RepairPalettes {
        base: vec![[0, 0, 0], [255, 255, 255]],
        geometry: vec![[0, 0, 0], [200, 200, 200]],
        canopy: vec![[0, 80, 0], [0, 160, 0]],
        outline: [1, 1, 1],
    };
    let mut other = manifest(4, 1);
    other.camera.azimuth_millidegrees = 45_000;
    assert_eq!(
        message(repair_study(&other, &color, &normal, &depth_bytes(6, 6), &palettes).unwrap_err()),
        "reference repair requires the qualified 330/42 degree, 125 mm Google capture"
    );
    let one_shade = RepairPalettes { canopy: vec![[0, 80, 0]], ..palettes.clone() };
    assert_eq!(
        message(repair_study(&manifest(4, 1), &color, &normal, &depth_bytes(6, 6), &one_shade).unwrap_err()),
        "repair palettes need 1 to 128 colors and 2 to 128 canopy shades"
    );
    assert!(repair_study(&manifest(4, 1), &color, &normal, &depth_bytes(4, 4), &palettes).is_err());
    assert!(repair_study(&manifest(4, 1), &color, &normal, &depth_bytes(6, 6), &palettes).is_ok());
}

#[test]
fn atlas_layers_decode_with_their_registered_color_type() {
    let png = encode_raw_png(&rgba(3, 2), 3, 2, PngColorType::Rgba).expect("png");
    let (w, h, raw) = decode_layer_png(&png, LayerKind::Color).expect("color layer");
    assert_eq!((w, h), (3, 2));
    assert_eq!(raw, rgba(3, 2));
    assert!(decode_layer_png(&png, LayerKind::Coverage).is_err());
    assert_eq!(
        decode_layer_png(&png, LayerKind::LinearDepth).unwrap_err().message(),
        "depth cannot enter the PNG decoder"
    );
    let gray = encode_raw_png(&[1, 2, 3, 4, 5, 6], 3, 2, PngColorType::Grayscale).expect("gray");
    assert_eq!(decode_layer_png(&gray, LayerKind::Coverage).expect("coverage").2, vec![1, 2, 3, 4, 5, 6]);
    assert!(decode_layer_png(b"junk", LayerKind::Color).unwrap_err().message().starts_with("atlas PNG decode failed: "));
}

#[test]
fn naip_decoding_rejects_what_is_not_tiff() {
    assert_eq!(
        decode_naip(b"not a tiff"),
        Err(PerceptionError::Invalid("NAIP TIFF could not be decoded"))
    );
}

#[test]
fn repair_report_records_each_image_and_validates() {
    let m = manifest(4, 1);
    let color = encode_raw_png(&rgba(6, 6), 6, 6, PngColorType::Rgba).expect("color");
    let normal = encode_raw_png(&vec![128; 6 * 6 * 4], 6, 6, PngColorType::Rgba).expect("normal");
    let palettes = RepairPalettes {
        base: vec![[0, 0, 0], [255, 255, 255]],
        geometry: vec![[0, 0, 0], [200, 200, 200]],
        canopy: vec![[0, 80, 0], [0, 160, 0]],
        outline: [1, 1, 1],
    };
    let study = repair_study(&m, &color, &normal, &depth_bytes(6, 6), &palettes).expect("study");
    let sha = "ab".repeat(32);
    let (report, pngs) = repair_report(&m, &sha, &study);
    assert_eq!(report.images.len(), 6);
    assert_eq!(pngs.len(), 6);
    assert_eq!(report.images[0].path, "source-logical.png");
    assert_eq!(report.images[5].path, "structural-edges.png");
    assert_eq!((report.images[2].width_px, report.images[2].height_px), (2, 2));
    assert_eq!(report.images[3].byte_length, pngs[3].len() as u64);
    assert_eq!(report.logical_millimeters_per_pixel, 250);
    assert_eq!(report.candidates, study.candidates);
    assert_eq!(report.gates, study.gates);
    assert_eq!(report.blocking_findings.len(), 3);
    assert_eq!(report.blocking_findings[2], "visual-style-approval-is-human-owned");
    let run = validate_report(&report, &pngs, "{}").expect("the assembled report validates");
    assert_eq!(run.image_count, 6);
    assert!(!run.qualified_for_expansion);
}

#[test]
fn sources_take_ownership_order_whatever_order_they_come_in() {
    let cell = |column: i32, row: i32| {
        let mut m = manifest(4, 1);
        m.tile.column = column;
        m.tile.row = row;
        m.bundle_id = format!("bundle-{column}-{row}");
        (m, format!("{column}{row}").repeat(32))
    };
    let given = vec![cell(0, 0), cell(1, 0), cell(0, 1), cell(1, 1)];
    let mut reversed = given.clone();
    reversed.reverse();
    let first = order_sources(given);
    let second = order_sources(reversed);
    let cells: Vec<(i32, i32)> = first.iter().map(|(m, _)| (m.tile.row, m.tile.column)).collect();
    assert_eq!(cells, vec![(0, 0), (0, 1), (1, 0), (1, 1)]);
    assert_eq!(first, second);
}
