use std::io::Cursor;

use image_webp::WebPDecoder;
use isometric_stanford::digest::sha256_hex;
use isometric_stanford::publish::{
    assemble_release, check_descriptor, check_release_metadata, check_tile_bytes,
    check_tile_entry, check_tile_list, descriptor, dzi_max_level, encode_webp, level_dimensions,
    level_plan, raw_tile_length, reduce_tile, reduction_sources, release_report, sort_tiles,
    tile_record, tile_set_hash, tile_set_preimage_of, validate_options, validate_webp,
    webp_tile_name_of, DziOptions, InputDigests, PublishError, RawTile, SourceTile, TileManifest,
};
use isometric_stanford::style::{Rgb8, StylePack};

fn inputs() -> InputDigests {
    InputDigests::new("a".repeat(64), "b".repeat(64)).expect("digests")
}

fn palette() -> Vec<Rgb8> {
    StylePack::stanford_v1().palette
}

#[test]
fn level_dimensions_preserve_odd_edges() {
    assert_eq!(
        level_dimensions(5, 3, 3).expect("levels"),
        vec![(1, 1), (2, 1), (3, 2), (5, 3)]
    );
    assert_eq!(dzi_max_level(1), 0);
    assert_eq!(dzi_max_level(8), 3);
    assert_eq!(dzi_max_level(9), 4);
}

#[test]
fn webp_encoding_is_byte_deterministic_and_lossless() {
    let style = StylePack::stanford_v1();
    let raw = RawTile::new(3, 2, vec![0, 1, 2, 3, 4, 5], style.palette.len()).expect("raw tile");
    let first = encode_webp(&raw, &style.palette).expect("first encode");
    let second = encode_webp(&raw, &style.palette).expect("second encode");
    assert_eq!(first, second);

    let mut decoder = WebPDecoder::new(Cursor::new(first)).expect("decoder");
    assert_eq!(decoder.dimensions(), (3, 2));
    assert!(!decoder.is_lossy());
    let mut rgb_output = vec![0; decoder.output_buffer_size().expect("buffer")];
    decoder.read_image(&mut rgb_output).expect("decode");
    let expected = raw
        .pixels
        .iter()
        .flat_map(|index| {
            let color = &style.palette[usize::from(*index)];
            [color.red, color.green, color.blue]
        })
        .collect::<Vec<_>>();
    assert_eq!(rgb_output, expected);
}

#[test]
fn input_digests_and_options_fail_closed() {
    assert!(InputDigests::new("a".repeat(64), "0123456789abcdef".repeat(4)).is_ok());
    assert!(matches!(
        InputDigests::new("A".repeat(64), "b".repeat(64)),
        Err(PublishError::InvalidOptions)
    ));
    assert!(matches!(
        InputDigests::new("a".repeat(63), "b".repeat(64)),
        Err(PublishError::InvalidOptions)
    ));
    assert!(validate_options(DziOptions::prototype()).is_ok());
    assert!(matches!(
        validate_options(DziOptions { tile_size: 256, world_mm_per_half_step: 250 }),
        Err(PublishError::InvalidOptions)
    ));
    assert!(matches!(
        validate_options(DziOptions { tile_size: 512, world_mm_per_half_step: 500 }),
        Err(PublishError::InvalidOptions)
    ));
}

#[test]
fn max_level_is_the_ceiling_log_of_the_larger_edge() {
    assert_eq!(dzi_max_level(0), 0);
    assert_eq!(dzi_max_level(2), 1);
    assert_eq!(dzi_max_level(3), 2);
    assert_eq!(dzi_max_level(4), 2);
    assert_eq!(dzi_max_level(5), 3);
    assert_eq!(dzi_max_level(1024), 10);
    assert_eq!(dzi_max_level(1025), 11);
    assert_eq!(dzi_max_level(u32::MAX), 32);
    let levels = level_dimensions(1025, 7, dzi_max_level(1025)).expect("levels");
    assert_eq!(levels[0], (1, 1));
    assert_eq!(levels[levels.len() - 1], (1025, 7));
}

#[test]
fn raw_tiles_validate_and_round_trip() {
    assert!(matches!(RawTile::new(0, 2, vec![], 4), Err(PublishError::InvalidCanonicalTile)));
    assert!(matches!(RawTile::new(2, 2, vec![0, 1, 2], 4), Err(PublishError::InvalidCanonicalTile)));
    assert!(matches!(RawTile::new(2, 2, vec![0, 1, 2, 4], 4), Err(PublishError::InvalidCanonicalTile)));
    let tile = RawTile::new(2, 2, vec![0, 1, 2, 3], 4).expect("tile");
    assert_eq!(tile.pixel(1, 1).expect("pixel"), 3);
    assert_eq!(tile.pixel(0, 1).expect("pixel"), 2);
    assert!(matches!(tile.pixel(2, 0), Err(PublishError::InvalidCanonicalTile)));
    let bytes = tile.to_bytes().expect("bytes");
    assert_eq!(
        bytes,
        vec![b'I', b'S', b'I', b'D', b'X', b'1', 0, 0, 2, 0, 0, 0, 2, 0, 0, 0, 0, 1, 2, 3]
    );
    assert_eq!(RawTile::parse(&bytes, 2, 2, 4).expect("parse"), tile);
    assert!(matches!(RawTile::parse(&bytes, 2, 3, 4), Err(PublishError::InvalidCanonicalTile)));
    assert!(matches!(RawTile::parse(&bytes, 2, 2, 3), Err(PublishError::InvalidCanonicalTile)));
    let mut corrupt = bytes.clone();
    corrupt[0] = b'J';
    assert!(matches!(RawTile::parse(&corrupt, 2, 2, 4), Err(PublishError::InvalidCanonicalTile)));
    assert!(matches!(RawTile::parse(&bytes[..10], 2, 2, 4), Err(PublishError::InvalidCanonicalTile)));
}

#[test]
fn encoding_rejects_unknown_palette_indices() {
    let raw = RawTile { width: 1, height: 1, pixels: vec![200] };
    assert!(matches!(encode_webp(&raw, &palette()), Err(PublishError::InvalidCanonicalTile)));
}

#[test]
fn descriptor_is_the_deep_zoom_xml() {
    assert_eq!(
        descriptor(5, 3, 512),
        "<?xml version=\"1.0\" encoding=\"UTF-8\"?>\n<Image TileSize=\"512\" Overlap=\"0\" Format=\"webp\" xmlns=\"http://schemas.microsoft.com/deepzoom/2008\">\n  <Size Width=\"5\" Height=\"3\"/>\n</Image>\n"
    );
    assert_eq!(webp_tile_name_of(3, 10, 2), "3/10_2.webp");
}

fn entry(level: u32, column: u32, row: u32, width: u32, height: u32) -> TileManifest {
    TileManifest {
        level,
        column,
        row,
        width,
        height,
        canonical_sha256: "c".repeat(64),
        webp_sha256: "d".repeat(64),
        encoded_bytes: 10,
    }
}

#[test]
fn tile_set_hash_chains_sorted_paths_and_digests() {
    let entries = vec![entry(0, 0, 0, 1, 1), entry(1, 1, 0, 1, 1)];
    let mut expected = Vec::new();
    expected.extend_from_slice(b"0/0_0.webp\0");
    expected.extend_from_slice("d".repeat(64).as_bytes());
    expected.push(b'\n');
    expected.extend_from_slice(b"1/1_0.webp\0");
    expected.extend_from_slice("d".repeat(64).as_bytes());
    expected.push(b'\n');
    assert_eq!(tile_set_preimage_of(&entries), expected);
    assert_eq!(tile_set_hash(&entries), sha256_hex(&expected));
}

#[test]
fn sorting_orders_by_level_row_then_column() {
    let sorted = sort_tiles(vec![
        entry(2, 1, 0, 1, 1),
        entry(0, 0, 0, 1, 1),
        entry(2, 0, 1, 1, 1),
        entry(2, 0, 0, 1, 1),
        entry(1, 0, 0, 1, 1),
    ]);
    let keys = sorted.iter().map(|e| (e.level, e.row, e.column)).collect::<Vec<_>>();
    assert_eq!(keys, vec![(0, 0, 0), (1, 0, 0), (2, 0, 0), (2, 0, 1), (2, 1, 0)]);
}

#[test]
fn level_plan_covers_the_level_row_by_row() {
    assert_eq!(
        level_plan(1030, 600, 512),
        vec![
            (0, 0, 512, 512),
            (1, 0, 512, 512),
            (2, 0, 6, 512),
            (0, 1, 512, 88),
            (1, 1, 512, 88),
            (2, 1, 6, 88)
        ]
    );
    assert_eq!(level_plan(0, 600, 512), vec![]);
}

#[test]
fn reduction_takes_the_top_left_of_each_block() {
    let palette_len = 16;
    let top_left = RawTile::new(4, 4, (0..16).collect(), palette_len).expect("tile");
    let top_right = RawTile::new(2, 4, vec![1; 8], palette_len).expect("tile");
    let sources = vec![(0, 0, top_left.clone()), (1, 0, top_right)];
    assert_eq!(
        reduction_sources(4, 0, 0, (6, 4)),
        vec![
            SourceTile { column: 0, row: 0, width: 4, height: 4 },
            SourceTile { column: 1, row: 0, width: 2, height: 4 }
        ]
    );
    let reduced = reduce_tile(&sources, 4, 0, 0, 3, 2, palette_len).expect("reduce");
    assert_eq!(reduced.pixels, vec![0, 2, 1, 8, 10, 1]);
    let missing = vec![(0, 0, top_left)];
    assert!(matches!(
        reduce_tile(&missing, 4, 0, 0, 3, 2, palette_len),
        Err(PublishError::InvalidCanonicalTile)
    ));
}

fn published(palette: &[Rgb8]) -> (isometric_stanford::publish::Release, Vec<(Vec<u8>, Vec<u8>)>) {
    let raw = RawTile::new(3, 2, vec![0, 1, 2, 3, 4, 5], palette.len()).expect("top");
    let reduced = RawTile::new(2, 1, vec![0, 2], palette.len()).expect("middle");
    let lowest = RawTile::new(1, 1, vec![0], palette.len()).expect("lowest");
    let records = vec![
        tile_record(2, 0, 0, &raw, palette).expect("top record"),
        tile_record(1, 0, 0, &reduced, palette).expect("middle record"),
        tile_record(0, 0, 0, &lowest, palette).expect("lowest record"),
    ];
    let entries = records.iter().map(|r| r.entry.clone()).collect::<Vec<_>>();
    let bytes = records
        .iter()
        .rev()
        .map(|r| (r.raw_bytes.clone(), r.webp_bytes.clone()))
        .collect::<Vec<_>>();
    let release = assemble_release(&inputs(), 3, 2, DziOptions::prototype(), entries).expect("assemble");
    (release, bytes)
}

#[test]
fn assembled_release_passes_every_validation_step() {
    let palette = palette();
    let (release, bytes) = published(&palette);
    let manifest = &release.artifact;
    assert_eq!(manifest.dzi.max_level, 2);
    assert_eq!(manifest.tiles.iter().map(|e| e.level).collect::<Vec<_>>(), vec![0, 1, 2]);
    check_release_metadata(manifest, palette.len()).expect("metadata");
    check_descriptor(release.descriptor.as_bytes(), manifest).expect("descriptor");
    let dims = check_tile_list(manifest).expect("tile list");
    assert_eq!(dims, vec![(1, 1), (2, 1), (3, 2)]);
    for (entry, (raw_bytes, webp_bytes)) in manifest.tiles.iter().zip(&bytes) {
        check_tile_entry(entry, &dims, manifest.dzi.tile_size).expect("entry");
        assert_eq!(raw_tile_length(entry), raw_bytes.len() as u64);
        let raw = check_tile_bytes(entry, raw_bytes, webp_bytes, palette.len()).expect("bytes");
        validate_webp(webp_bytes, &raw, &palette).expect("webp");
    }
    let report = release_report(manifest).expect("report");
    assert_eq!(report.tile_count, 3);
    assert_eq!(report.width, 3);
    assert_eq!(report.encoded_bytes, manifest.dzi.encoded_bytes);
}

#[test]
fn validation_rejects_tampering() {
    let palette = palette();
    let (release, bytes) = published(&palette);
    let mut manifest = release.artifact.clone();
    manifest.dzi.tile_size = 256;
    assert!(matches!(check_release_metadata(&manifest, palette.len()), Err(PublishError::InvalidManifest)));
    assert!(matches!(
        check_release_metadata(&release.artifact, 0),
        Err(PublishError::InvalidManifest)
    ));
    let mut text = release.descriptor.clone().into_bytes();
    text[0] = b' ';
    assert!(matches!(check_descriptor(&text, &release.artifact), Err(PublishError::InvalidManifest)));

    let mut missing = release.artifact.clone();
    missing.tiles.pop();
    missing.dzi.tile_count = 2;
    missing.dzi.tile_set_sha256 = tile_set_hash(&missing.tiles);
    assert!(matches!(check_tile_list(&missing), Err(PublishError::IncompletePyramid)));

    let mut unsorted = release.artifact.clone();
    unsorted.tiles.swap(0, 1);
    assert!(matches!(check_tile_list(&unsorted), Err(PublishError::InvalidManifest)));

    let mut duplicated = release.artifact.clone();
    let copy = duplicated.tiles[2].clone();
    duplicated.tiles.push(copy);
    duplicated.dzi.tile_count = 4;
    duplicated.dzi.tile_set_sha256 = tile_set_hash(&duplicated.tiles);
    assert!(matches!(check_tile_list(&duplicated), Err(PublishError::IncompletePyramid)));

    let dims = check_tile_list(&release.artifact).expect("dims");
    let mut wide = release.artifact.tiles[2].clone();
    wide.width = 2;
    assert!(matches!(check_tile_entry(&wide, &dims, 512), Err(PublishError::InvalidManifest)));

    let entry = &release.artifact.tiles[2];
    let (raw_bytes, webp_bytes) = &bytes[2];
    let mut corrupt = webp_bytes.clone();
    corrupt[0] ^= 0xff;
    assert!(matches!(
        check_tile_bytes(entry, raw_bytes, &corrupt, palette.len()),
        Err(PublishError::HashMismatch)
    ));
    let raw = check_tile_bytes(entry, raw_bytes, webp_bytes, palette.len()).expect("raw");
    assert!(matches!(validate_webp(&corrupt, &raw, &palette), Err(PublishError::Decode(_))));
    let other = RawTile::new(3, 2, vec![5, 4, 3, 2, 1, 0], palette.len()).expect("other");
    assert!(matches!(validate_webp(webp_bytes, &other, &palette), Err(PublishError::InvalidWebP)));

    let mut bigger = release.artifact.clone();
    bigger.dzi.encoded_bytes += 1;
    assert!(matches!(release_report(&bigger), Err(PublishError::InvalidManifest)));
}
