//! Canonical tiled atlas contract: request and session checks, the manifest
//! validator, deterministic tile paths and digests, per-pixel source ownership,
//! and the row assembly of canonical layer tiles.
use vstd::prelude::*;
use vstd::utf8::encode_utf8;
use vstd::multiset::Multiset;
use vstd::string::StrSliceExecFns;
use vstd::string::StringSliceAdditionalSpecFns;
use crate::digest::{is_sha256, is_sha256_bytes, sha256_hex, sha256_spec};
use crate::reference::{
    identifier_ok, is_identifier, layer_encoding, layer_filename, layer_position, CameraSpec, LayerKind,
    ReferenceError, ReferenceManifest, TileSpec, MIN_CORE_COVERAGE_BASIS_POINTS,
};
use crate::perception::{id_set, insert_id, strictly_sorted};
use crate::overlap::{check_depth_header, depth_value, DEPTH_MAGIC};
use crate::review::{png_frame_of, png_header_of, read_png_frame, read_png_header, PngColor};
use crate::text::{str_eq, decimal, decimal_spec, has_control, has_control_spec, hex_spec, lemma_encoding_nonempty};

verus! {

/// Portable request schema for atlas compilation.
pub const ATLAS_REQUEST_SCHEMA: &'static str = "isometric-reference-atlas-request/v1";
/// Portable immutable atlas-manifest schema.
pub const ATLAS_MANIFEST_SCHEMA: &'static str = "isometric-reference-atlas-manifest/v1";
/// The sole accepted geographic provider.
pub const ATLAS_PROVIDER: &'static str = "google-photorealistic-3d-tiles";
/// Most saved cells in one atlas.
pub const MAX_ATLAS_CELLS: usize = 4_096;
/// Longest session timestamp text, in bytes.
pub const MAX_SESSION_TEXT: usize = 256;
/// Registered layers per atlas cell.
pub const LAYERS_PER_CELL: usize = 6;

/// Non-secret identity for one provider root session.
#[derive(Clone, Debug, Eq, PartialEq)]
pub struct SessionRecord {
    /// Stable, non-secret session identifier.
    pub session_id: String,
    /// Hash of the exact root tileset response used by the renderer.
    pub root_tileset_sha256: String,
    /// RFC 3339 acquisition start time.
    pub started_at: String,
    /// RFC 3339 session expiry time.
    pub expires_at: String,
}

/// User request for one canonical atlas compilation.
#[derive(Clone, Debug, Eq, PartialEq)]
pub struct AtlasCompileRequest {
    /// Request schema identity.
    pub schema: String,
    /// Stable atlas identifier.
    pub atlas_id: String,
    /// Provider session shared by the frozen bundles.
    pub source_session: SessionRecord,
    /// Reference-bundle directories, relative to the request file or absolute.
    pub bundle_directories: Vec<String>,
}

/// Rectangular world-grid contract for an atlas.
#[derive(Clone, Debug, Eq, PartialEq)]
pub struct AtlasGrid {
    /// Smallest source supertile column.
    pub minimum_column: i32,
    /// Smallest source supertile row.
    pub minimum_row: i32,
    /// Number of saved core columns.
    pub columns: u16,
    /// Number of saved core rows.
    pub rows: u16,
    /// Saved core width per atlas tile.
    pub core_width_px: u16,
    /// Saved core height per atlas tile.
    pub core_height_px: u16,
    /// Source context outside every core edge.
    pub source_guard_px: u16,
    /// Source ground sampling distance.
    pub millimeters_per_pixel: u32,
    /// Complete atlas width without guards.
    pub width_px: u32,
    /// Complete atlas height without guards.
    pub height_px: u32,
    /// Integer-grid registration error. Canonical compilation requires zero.
    pub registration_error_micropixels: u32,
}

/// One validated input bundle in canonical source order.
#[derive(Clone, Debug, Eq, PartialEq)]
pub struct AtlasSourceRecord {
    /// Dense zero-based ownership identifier.
    pub source_index: u16,
    /// Stable bundle identifier.
    pub bundle_id: String,
    /// Bundle manifest digest.
    pub manifest_sha256: String,
    /// World-grid column.
    pub column: i32,
    /// World-grid row.
    pub row: i32,
    /// Core valid-pixel coverage recorded by capture.
    pub core_coverage_basis_points: u16,
}

/// One canonical layer tile.
#[derive(Clone, Debug, Eq, PartialEq)]
pub struct AtlasLayerTileRecord {
    /// World-grid column.
    pub column: i32,
    /// World-grid row.
    pub row: i32,
    /// Registered layer identity.
    pub kind: LayerKind,
    /// Safe atlas-relative path.
    pub path: String,
    /// Portable encoding identifier.
    pub encoding: String,
    /// Saved tile width.
    pub width_px: u32,
    /// Saved tile height.
    pub height_px: u32,
    /// Exact file length.
    pub byte_length: u64,
    /// Exact file digest.
    pub sha256: String,
}

/// One dense per-pixel source-ownership tile.
#[derive(Clone, Debug, Eq, PartialEq)]
pub struct OwnershipTileRecord {
    /// World-grid column.
    pub column: i32,
    /// World-grid row.
    pub row: i32,
    /// Safe atlas-relative path.
    pub path: String,
    /// Saved tile width.
    pub width_px: u32,
    /// Saved tile height.
    pub height_px: u32,
    /// Exact file length.
    pub byte_length: u64,
    /// Exact file digest.
    pub sha256: String,
}

/// Immutable canonical reference-atlas contract.
#[derive(Clone, Debug, Eq, PartialEq)]
pub struct ReferenceAtlasManifest {
    /// Atlas schema identity.
    pub schema: String,
    /// Stable atlas identity.
    pub atlas_id: String,
    /// Fixed canonical grid.
    pub grid: AtlasGrid,
    /// Shared orthographic camera.
    pub camera: CameraSpec,
    /// Sole geographic provider.
    pub provider: String,
    /// Pinned capture renderer identity.
    pub renderer: String,
    /// Pinned capture renderer version.
    pub renderer_version: String,
    /// Provider epoch shared by all inputs.
    pub source_epoch: String,
    /// Provider session identity.
    pub source_session: SessionRecord,
    /// Stable aggregated provider attributions.
    pub attributions: Vec<String>,
    /// Validated sources in ownership-index order.
    pub sources: Vec<AtlasSourceRecord>,
    /// Canonical registered layer tiles.
    pub layer_tiles: Vec<AtlasLayerTileRecord>,
    /// Canonical dense source-ownership tiles.
    pub ownership_tiles: Vec<OwnershipTileRecord>,
    /// Digest over ordered ownership tile identities and hashes.
    pub ownership_map_sha256: String,
}

/// Reproducible evidence returned by atlas compilation or inspection.
#[derive(Clone, Debug, Eq, PartialEq)]
pub struct AtlasReport {
    /// Canonical manifest digest.
    pub manifest_sha256: String,
    /// Number of canonical saved tiles.
    pub tile_count: usize,
    /// Total exact atlas artifact bytes.
    pub total_bytes: u64,
    /// Conservative maximum row-buffer bytes used by compilation.
    pub peak_row_buffer_bytes: u64,
}

fn invalid(message: &str) -> (e: ReferenceError)
    ensures
        e matches ReferenceError::Invalid(m) && m@ == message@,
{
    ReferenceError::Invalid(message.to_owned())
}

/// Bounded free text: nonempty, at most `max` bytes, without control characters.
pub open spec fn bounded_text(s: Seq<char>, max: int) -> bool {
    s.len() > 0 && encode_utf8(s).len() <= max && !has_control_spec(s)
}

fn bounded_text_exec(s: &str, max: usize) -> (r: bool)
    ensures
        r == bounded_text(s@, max as int),
{
    let bytes = s.as_bytes();
    proof {
        lemma_encoding_nonempty(s@);
    }
    bytes.len() > 0 && bytes.len() <= max && !has_control(s)
}

/// An accepted provider session.
pub open spec fn session_ok(s: SessionRecord) -> bool {
    &&& identifier_ok(encode_utf8(s.session_id@))
    &&& is_sha256_bytes(encode_utf8(s.root_tileset_sha256@))
    &&& bounded_text(s.started_at@, MAX_SESSION_TEXT as int)
    &&& bounded_text(s.expires_at@, MAX_SESSION_TEXT as int)
}

/// Rejected session message.
pub const SESSION_INVALID: &'static str = "atlas source session contract is invalid";

/// Validates a provider session.
pub fn validate_session(session: &SessionRecord) -> (r: Result<(), ReferenceError>)
    ensures
        r is Ok <==> session_ok(*session),
        r matches Err(e) ==> e matches ReferenceError::Invalid(m) && m@ == SESSION_INVALID@,
{
    if !is_identifier(session.session_id.as_str()) || !is_sha256(session.root_tileset_sha256.as_str())
        || !bounded_text_exec(session.started_at.as_str(), MAX_SESSION_TEXT) || !bounded_text_exec(
        session.expires_at.as_str(),
        MAX_SESSION_TEXT,
    ) {
        return Err(invalid(SESSION_INVALID));
    }
    Ok(())
}

/// The bounded request contract, apart from its session.
pub open spec fn request_fields_ok(r: AtlasCompileRequest) -> bool {
    &&& r.schema@ == ATLAS_REQUEST_SCHEMA@
    &&& identifier_ok(encode_utf8(r.atlas_id@))
    &&& 1 <= r.bundle_directories@.len() <= MAX_ATLAS_CELLS
    &&& forall|i: int| 0 <= i < r.bundle_directories@.len() ==> bounded_text(#[trigger] r.bundle_directories@[i]@, 4_096)
}

/// Rejected request message.
pub const REQUEST_INVALID: &'static str = "atlas request violates its bounded contract";

/// Validates an atlas request and its session.
pub fn validate_request(request: &AtlasCompileRequest) -> (r: Result<(), ReferenceError>)
    ensures
        r is Ok <==> request_fields_ok(*request) && session_ok(request.source_session),
        !request_fields_ok(*request) ==> (r matches Err(e) && e matches ReferenceError::Invalid(m) && m@ == REQUEST_INVALID@),
        request_fields_ok(*request) && !session_ok(request.source_session) ==> (r matches Err(e) && e matches ReferenceError::Invalid(m)
            && m@ == SESSION_INVALID@),
{
    let schema = ATLAS_REQUEST_SCHEMA.to_owned();
    if !(request.schema == schema) || !is_identifier(request.atlas_id.as_str()) || request.bundle_directories.len() == 0
        || request.bundle_directories.len() > MAX_ATLAS_CELLS {
        return Err(invalid(REQUEST_INVALID));
    }
    let mut i: usize = 0;
    while i < request.bundle_directories.len()
        invariant
            i <= request.bundle_directories@.len(),
            forall|j: int| 0 <= j < i ==> bounded_text(#[trigger] request.bundle_directories@[j]@, 4_096),
        decreases request.bundle_directories@.len() - i,
    {
        if !bounded_text_exec(request.bundle_directories[i].as_str(), 4_096) {
            return Err(invalid(REQUEST_INVALID));
        }
        i += 1;
    }
    validate_session(&request.source_session)
}

/// Eight-digit zero-padded decimal.
pub open spec fn pad8(n: nat) -> Seq<char> {
    let d = decimal_spec(n);
    if d.len() < 8 { Seq::new((8 - d.len()) as nat, |i: int| '0') + d } else { d }
}

/// Signed grid coordinate as a path component: `n` or `p` and eight padded digits.
pub open spec fn coordinate_component(v: int) -> Seq<char> {
    if v < 0 { "n"@ + pad8((-v) as nat) } else { "p"@ + pad8(v as nat) }
}

/// The atlas-relative directory of one cell.
pub open spec fn tile_directory(column: int, row: int) -> Seq<char> {
    "tiles/r"@ + coordinate_component(row) + "-c"@ + coordinate_component(column)
}

/// The atlas-relative path of one cell's ownership tile.
pub open spec fn ownership_path(column: int, row: int) -> Seq<char> {
    tile_directory(column, row) + "/ownership.bin"@
}

/// The atlas-relative path of one cell's layer tile.
pub open spec fn layer_path(column: int, row: int, kind: LayerKind) -> Seq<char> {
    tile_directory(column, row) + "/"@ + layer_filename(kind)
}

fn push_component(out: &mut String, v: i32)
    ensures
        final(out)@ == old(out)@ + coordinate_component(v as int),
{
    let magnitude: u64 = if v < 0 { (-(v as i64)) as u64 } else { v as u64 };
    if v < 0 {
        out.push_str("n");
    } else {
        out.push_str("p");
    }
    let digits = decimal(magnitude);
    let ghost before = out@;
    let mut pad: usize = digits.as_str().unicode_len();
    proof {
        assert(pad == decimal_spec(magnitude as nat).len());
    }
    let ghost zeros_needed: int = if pad < 8 { 8 - pad } else { 0 };
    let mut k: usize = 0;
    while pad + k < 8
        invariant
            out@ == before + Seq::new(k as nat, |i: int| '0'),
            pad == decimal_spec(magnitude as nat).len(),
            pad + k <= 8 || k == 0,
        decreases 8 - pad - k,
    {
        out.push('0');
        proof {
            assert(out@ =~= before + Seq::new((k + 1) as nat, |i: int| '0'));
        }
        k += 1;
    }
    out.push_str(digits.as_str());
    proof {
        if pad < 8 {
            assert(k == 8 - pad);
        } else {
            assert(k == 0);
            assert(Seq::new(0nat, |i: int| '0') =~= Seq::<char>::empty());
        }
        assert(out@ =~= old(out)@ + coordinate_component(v as int));
    }
}

fn directory_of(column: i32, row: i32) -> (s: String)
    ensures
        s@ == tile_directory(column as int, row as int),
{
    let mut s = "tiles/r".to_owned();
    push_component(&mut s, row);
    s.push_str("-c");
    push_component(&mut s, column);
    s
}


/// Little-endian bytes of a 32-bit value.
pub open spec fn le32(u: u32) -> Seq<u8> {
    seq![(u % 256) as u8, ((u / 256) % 256) as u8, ((u / 65536) % 256) as u8, (u / 16777216) as u8]
}

pub(crate) fn push_le32(out: &mut Vec<u8>, u: u32)
    ensures
        final(out)@ == old(out)@ + le32(u),
{
    out.push((u % 256) as u8);
    out.push(((u / 256) % 256) as u8);
    out.push(((u / 65536) % 256) as u8);
    out.push((u / 16777216) as u8);
    proof {
        assert(final(out)@ =~= old(out)@ + le32(u));
    }
}

/// The bytes hashed into the ownership-map digest: for each tile in order, its
/// row and column as little-endian two's-complement words and its digest text.
pub open spec fn ownership_preimage(tiles: Seq<OwnershipTileRecord>) -> Seq<u8>
    decreases tiles.len(),
{
    if tiles.len() == 0 {
        Seq::empty()
    } else {
        let t = tiles.last();
        ownership_preimage(tiles.drop_last()) + le32(t.row as u32) + le32(t.column as u32) + encode_utf8(t.sha256@)
    }
}

/// The ownership-map digest of ordered ownership tiles.
pub fn ownership_digest(tiles: &Vec<OwnershipTileRecord>) -> (r: String)
    ensures
        r@ == hex_spec(sha256_spec(ownership_preimage(tiles@))),
{
    let mut bytes: Vec<u8> = Vec::new();
    let mut k: usize = 0;
    while k < tiles.len()
        invariant
            k <= tiles@.len(),
            bytes@ == ownership_preimage(tiles@.subrange(0, k as int)),
        decreases tiles@.len() - k,
    {
        let tile = &tiles[k];
        push_le32(&mut bytes, tile.row as u32);
        push_le32(&mut bytes, tile.column as u32);
        let digest = tile.sha256.as_str().as_bytes();
        let ghost before = bytes@;
        let mut i: usize = 0;
        while i < digest.len()
            invariant
                i <= digest@.len(),
                bytes@ == before + digest@.subrange(0, i as int),
            decreases digest@.len() - i,
        {
            bytes.push(digest[i]);
            proof {
                assert(bytes@ =~= before + digest@.subrange(0, i + 1));
            }
            i += 1;
        }
        proof {
            let prefix = tiles@.subrange(0, k + 1);
            assert(prefix.drop_last() =~= tiles@.subrange(0, k as int));
            assert(digest@.subrange(0, digest@.len() as int) =~= digest@);
            assert(bytes@ =~= ownership_preimage(prefix));
        }
        k += 1;
    }
    proof {
        assert(tiles@.subrange(0, tiles@.len() as int) =~= tiles@);
    }
    sha256_hex(bytes.as_slice())
}

/// Whether `(column, row)` lies in the grid rectangle.
pub open spec fn in_rect(g: AtlasGrid, column: int, row: int) -> bool {
    g.minimum_column <= column < g.minimum_column + g.columns && g.minimum_row <= row < g.minimum_row + g.rows
}

/// Row-major dense index of a cell and layer slot (`kinds` slots per cell).
pub open spec fn cell_index(g: AtlasGrid, column: int, row: int, slot: int, kinds: int) -> int {
    ((row - g.minimum_row) * g.columns + (column - g.minimum_column)) * kinds + slot
}

/// Entries are pairwise distinct.
pub open spec fn distinct_cells(s: Seq<(i32, i32, usize)>) -> bool {
    forall|j: int, k: int| 0 <= j < k < s.len() ==> #[trigger] s[j] != #[trigger] s[k]
}

/// The entries are exactly the rectangle's cells times `kinds` slots: each lies
/// inside, and every dense index of the rectangle is taken by some entry.
pub open spec fn covers(g: AtlasGrid, s: Seq<(i32, i32, usize)>, kinds: int) -> bool {
    &&& forall|k: int| 0 <= k < s.len() ==> in_rect(g, (#[trigger] s[k]).0 as int, s[k].1 as int) && (s[k].2 as int) < kinds
    &&& forall|i: int| 0 <= i < g.columns * g.rows * kinds ==> #[trigger] taken(g, s, s.len() as int, kinds, i)
}

/// Some of the first `n` entries has dense index `i`.
pub open spec fn taken(g: AtlasGrid, s: Seq<(i32, i32, usize)>, n: int, kinds: int, i: int) -> bool {
    exists|k: int| 0 <= k < n && cell_index(g, (#[trigger] s[k]).0 as int, s[k].1 as int, s[k].2 as int, kinds) == i
}

fn distinct_exec(cells: &Vec<(i32, i32, usize)>) -> (r: bool)
    ensures
        r == distinct_cells(cells@),
{
    let mut k: usize = 0;
    while k < cells.len()
        invariant
            k <= cells@.len(),
            forall|a: int, b: int| 0 <= a < b < k ==> #[trigger] cells@[a] != #[trigger] cells@[b],
        decreases cells@.len() - k,
    {
        let mut j: usize = 0;
        while j < k
            invariant
                k < cells@.len(),
                j <= k,
                forall|a: int| 0 <= a < j ==> #[trigger] cells@[a] != cells@[k as int],
            decreases k - j,
        {
            let a = cells[j];
            let b = cells[k];
            if a.0 == b.0 && a.1 == b.1 && a.2 == b.2 {
                proof {
                    assert(cells@[j as int] == cells@[k as int]);
                }
                return false;
            }
            j += 1;
        }
        k += 1;
    }
    true
}

fn covers_exec(grid: &AtlasGrid, cells: &Vec<(i32, i32, usize)>, kinds: usize) -> (r: bool)
    requires
        1 <= kinds <= LAYERS_PER_CELL,
        grid.columns * grid.rows <= MAX_ATLAS_CELLS,
    ensures
        r == covers(*grid, cells@, kinds as int),
{
    let columns = grid.columns as i64;
    let rows = grid.rows as i64;
    let mut k: usize = 0;
    while k < cells.len()
        invariant
            columns == grid.columns && rows == grid.rows,
            k <= cells@.len(),
            forall|q: int| 0 <= q < k ==> in_rect(*grid, (#[trigger] cells@[q]).0 as int, cells@[q].1 as int) && (cells@[q].2 as int)
                < kinds,
        decreases cells@.len() - k,
    {
        let c = cells[k];
        let dc = c.0 as i64 - grid.minimum_column as i64;
        let dr = c.1 as i64 - grid.minimum_row as i64;
        if dc < 0 || dc >= columns || dr < 0 || dr >= rows || c.2 >= kinds {
            return false;
        }
        k += 1;
    }
    proof {
        assert(grid.columns * grid.rows * kinds <= 4096 * 6) by (nonlinear_arith)
            requires grid.columns * grid.rows <= 4096, kinds <= 6, kinds >= 1;
    }
    let total = grid.columns as usize * grid.rows as usize * kinds;
    let mut marks: Vec<bool> = Vec::new();
    let mut i: usize = 0;
    while i < total
        invariant
            i <= total,
            marks@.len() == i,
            forall|q: int| 0 <= q < i ==> !#[trigger] marks@[q],
        decreases total - i,
    {
        marks.push(false);
        i += 1;
    }
    let mut k: usize = 0;
    while k < cells.len()
        invariant
            columns == grid.columns && rows == grid.rows,
            grid.columns * grid.rows <= MAX_ATLAS_CELLS,
            total == grid.columns * grid.rows * kinds,
            total <= 4096 * 6,
            1 <= kinds,
            marks@.len() == total,
            k <= cells@.len(),
            forall|q: int| 0 <= q < cells@.len() ==> in_rect(*grid, (#[trigger] cells@[q]).0 as int, cells@[q].1 as int) && (
            cells@[q].2 as int) < kinds,
            forall|x: int| 0 <= x < total ==> (#[trigger] marks@[x] <==> taken(*grid, cells@, k as int, kinds as int, x)),
        decreases cells@.len() - k,
    {
        let c = cells[k];
        let dc = (c.0 as i64 - grid.minimum_column as i64) as usize;
        let dr = (c.1 as i64 - grid.minimum_row as i64) as usize;
        proof {
            assert(in_rect(*grid, cells@[k as int].0 as int, cells@[k as int].1 as int));
            assert(dc == c.0 - grid.minimum_column);
            assert(dr == c.1 - grid.minimum_row);
            assert(dr < grid.rows && dc < grid.columns);
            assert(dr * grid.columns + dc < grid.columns * grid.rows) by (nonlinear_arith)
                requires dr < grid.rows, dc < grid.columns;
            assert((dr * grid.columns + dc) * kinds + c.2 < total) by (nonlinear_arith)
                requires dr * grid.columns + dc < grid.columns * grid.rows, c.2 < kinds, total == grid.columns * grid.rows * kinds;
        }
        let cell = dr * grid.columns as usize + dc;
        let index = cell * kinds + c.2;
        let ghost before = marks@;
        marks.set(index, true);
        proof {
            assert(index == cell_index(*grid, c.0 as int, c.1 as int, c.2 as int, kinds as int));
            assert forall|x: int| 0 <= x < total implies (#[trigger] marks@[x] <==> taken(*grid, cells@, k + 1, kinds as int, x)) by {
                if x == index {
                    assert(cell_index(*grid, cells@[k as int].0 as int, cells@[k as int].1 as int, cells@[k as int].2 as int, kinds as int) == x);
                } else {
                    assert(marks@[x] == before[x]);
                    if taken(*grid, cells@, k + 1, kinds as int, x) {
                        let q = choose|q: int| 0 <= q < k + 1 && cell_index(*grid, (#[trigger] cells@[q]).0 as int, cells@[q].1 as int, cells@[q].2 as int, kinds as int) == x;
                        assert(q < k);
                    }
                }
            }
        }
        k += 1;
    }
    let mut i: usize = 0;
    while i < total
        invariant
            total == grid.columns * grid.rows * kinds,
            marks@.len() == total,
            i <= total,
            forall|x: int| 0 <= x < total ==> (#[trigger] marks@[x] <==> taken(*grid, cells@, cells@.len() as int, kinds as int, x)),
            forall|x: int| 0 <= x < i ==> #[trigger] marks@[x],
        decreases total - i,
    {
        if !marks[i] {
            proof {
                assert(!marks@[i as int]);
            }
            return false;
        }
        i += 1;
    }
    proof {
        assert forall|x: int| 0 <= x < grid.columns * grid.rows * kinds implies #[trigger] taken(*grid, cells@, cells@.len() as int, kinds as int, x) by {
            assert(marks@[x]);
        }
    }
    true
}


/// Identity, provenance, and grid facts of an atlas manifest.
pub open spec fn atlas_identity_ok(m: ReferenceAtlasManifest) -> bool {
    &&& m.schema@ == ATLAS_MANIFEST_SCHEMA@
    &&& identifier_ok(encode_utf8(m.atlas_id@))
    &&& m.provider@ == ATLAS_PROVIDER@
    &&& m.renderer@.len() > 0 && m.renderer_version@.len() > 0 && m.source_epoch@.len() > 0
    &&& m.attributions@.len() > 0
    &&& m.grid.columns != 0 && m.grid.rows != 0
    &&& m.grid.core_width_px != 0 && m.grid.core_height_px != 0
    &&& m.grid.source_guard_px != 0 && m.grid.millimeters_per_pixel != 0
    &&& m.grid.registration_error_micropixels <= 500_000
    &&& is_sha256_bytes(encode_utf8(m.ownership_map_sha256@))
}

/// One complete rectangular tile set: cells, sources, ownership tiles, and six layers per cell.
pub open spec fn atlas_counts_ok(m: ReferenceAtlasManifest) -> bool {
    let c = m.grid.columns * m.grid.rows;
    &&& 0 < c <= MAX_ATLAS_CELLS
    &&& m.sources@.len() == c
    &&& m.ownership_tiles@.len() == c
    &&& m.layer_tiles@.len() == c * LAYERS_PER_CELL
}

/// The declared atlas size equals the grid of cores.
pub open spec fn atlas_dims_ok(m: ReferenceAtlasManifest) -> bool {
    m.grid.width_px == m.grid.columns * m.grid.core_width_px && m.grid.height_px == m.grid.rows * m.grid.core_height_px
}

/// Source record `k` has its dense index, identity, digest, and coverage.
pub open spec fn source_record_ok(m: ReferenceAtlasManifest, k: int) -> bool {
    let s = m.sources@[k];
    &&& s.source_index == k
    &&& identifier_ok(encode_utf8(s.bundle_id@))
    &&& is_sha256_bytes(encode_utf8(s.manifest_sha256@))
    &&& MIN_CORE_COVERAGE_BASIS_POINTS <= s.core_coverage_basis_points <= 10_000
}

/// Source cells.
pub open spec fn source_cells(m: ReferenceAtlasManifest) -> Seq<(i32, i32, usize)> {
    Seq::new(m.sources@.len(), |k: int| (m.sources@[k].column, m.sources@[k].row, 0usize))
}

/// Ownership record `k` has its canonical path, core size, length, and digest.
pub open spec fn ownership_record_ok(m: ReferenceAtlasManifest, k: int) -> bool {
    let t = m.ownership_tiles@[k];
    &&& t.path@ == ownership_path(t.column as int, t.row as int)
    &&& t.width_px == m.grid.core_width_px && t.height_px == m.grid.core_height_px
    &&& t.byte_length != 0
    &&& is_sha256_bytes(encode_utf8(t.sha256@))
}

/// Ownership cells.
pub open spec fn ownership_cells(m: ReferenceAtlasManifest) -> Seq<(i32, i32, usize)> {
    Seq::new(m.ownership_tiles@.len(), |k: int| (m.ownership_tiles@[k].column, m.ownership_tiles@[k].row, 0usize))
}

/// Layer record `k` has its canonical path, encoding, core size, length, and digest.
pub open spec fn layer_record_ok(m: ReferenceAtlasManifest, k: int) -> bool {
    let t = m.layer_tiles@[k];
    &&& t.path@ == layer_path(t.column as int, t.row as int, t.kind)
    &&& t.encoding@ == layer_encoding(t.kind)
    &&& t.width_px == m.grid.core_width_px && t.height_px == m.grid.core_height_px
    &&& t.byte_length != 0
    &&& is_sha256_bytes(encode_utf8(t.sha256@))
}

/// Layer cells with their layer slot.
pub open spec fn layer_cells(m: ReferenceAtlasManifest) -> Seq<(i32, i32, usize)> {
    Seq::new(
        m.layer_tiles@.len(),
        |k: int| (m.layer_tiles@[k].column, m.layer_tiles@[k].row, layer_position(m.layer_tiles@[k].kind) as usize),
    )
}

/// The first violated atlas-manifest rule, as its message.
pub open spec fn atlas_manifest_error(m: ReferenceAtlasManifest) -> Option<Seq<char>> {
    if !session_ok(m.source_session) {
        Some(SESSION_INVALID@)
    } else if !atlas_identity_ok(m) {
        Some("atlas manifest identity or grid is invalid"@)
    } else if m.grid.columns * m.grid.rows > usize::MAX {
        Some("atlas cell count overflowed"@)
    } else if !atlas_counts_ok(m) {
        Some("atlas manifest does not contain one complete rectangular tile set"@)
    } else if !atlas_dims_ok(m) {
        Some("atlas dimensions contradict the rectangular grid"@)
    } else if !((forall|k: int| 0 <= k < m.sources@.len() ==> #[trigger] source_record_ok(m, k)) && distinct_cells(source_cells(m))) {
        Some("atlas source record is invalid or duplicated"@)
    } else if !covers(m.grid, source_cells(m), 1) {
        Some("atlas sources do not cover the declared grid"@)
    } else if !((forall|k: int| 0 <= k < m.ownership_tiles@.len() ==> #[trigger] ownership_record_ok(m, k)) && distinct_cells(
        ownership_cells(m),
    )) {
        Some("atlas ownership record is invalid or duplicated"@)
    } else if !(covers(m.grid, ownership_cells(m), 1) && hex_spec(sha256_spec(ownership_preimage(m.ownership_tiles@)))
        == m.ownership_map_sha256@) {
        Some("atlas ownership map is incomplete or has the wrong digest"@)
    } else if !((forall|k: int| 0 <= k < m.layer_tiles@.len() ==> #[trigger] layer_record_ok(m, k)) && distinct_cells(
        layer_cells(m),
    )) {
        Some("atlas layer record is invalid or duplicated"@)
    } else if !covers(m.grid, layer_cells(m), LAYERS_PER_CELL as int) {
        Some("atlas layer tiles do not cover every declared cell"@)
    } else {
        None
    }
}

fn nonempty_text(s: &String) -> (r: bool)
    ensures
        r == (s@.len() > 0),
{
    proof {
        lemma_encoding_nonempty(s@);
    }
    s.as_str().as_bytes().len() > 0
}

fn identity_exec(m: &ReferenceAtlasManifest) -> (r: bool)
    ensures
        r == atlas_identity_ok(*m),
{
    let schema = ATLAS_MANIFEST_SCHEMA.to_owned();
    let provider = ATLAS_PROVIDER.to_owned();
    m.schema == schema && is_identifier(m.atlas_id.as_str()) && m.provider == provider && nonempty_text(&m.renderer)
        && nonempty_text(&m.renderer_version) && nonempty_text(&m.source_epoch) && m.attributions.len() > 0
        && m.grid.columns != 0 && m.grid.rows != 0 && m.grid.core_width_px != 0 && m.grid.core_height_px != 0
        && m.grid.source_guard_px != 0 && m.grid.millimeters_per_pixel != 0 && m.grid.registration_error_micropixels
        <= 500_000 && is_sha256(m.ownership_map_sha256.as_str())
}

fn string_is(s: &String, expected: &String) -> (r: bool)
    ensures
        r == (s@ == expected@),
{
    *s == *expected
}

/// Validates the complete canonical atlas-manifest contract; the first violated rule names the error.
pub fn validate_atlas_manifest(m: &ReferenceAtlasManifest) -> (r: Result<(), ReferenceError>)
    ensures
        r is Ok <==> atlas_manifest_error(*m) is None,
        r matches Err(e) ==> e matches ReferenceError::Invalid(msg) && msg@ == atlas_manifest_error(*m)->0,
{
    match validate_session(&m.source_session) {
        Ok(()) => {},
        Err(e) => return Err(e),
    }
    if !identity_exec(m) {
        return Err(invalid("atlas manifest identity or grid is invalid"));
    }
    let cell_count = match (m.grid.columns as usize).checked_mul(m.grid.rows as usize) {
        Some(c) => c,
        None => return Err(invalid("atlas cell count overflowed")),
    };
    if cell_count == 0 || cell_count > MAX_ATLAS_CELLS || m.sources.len() != cell_count || m.ownership_tiles.len()
        != cell_count || m.layer_tiles.len() != cell_count * LAYERS_PER_CELL {
        return Err(invalid("atlas manifest does not contain one complete rectangular tile set"));
    }
    proof {
        assert(m.grid.columns * m.grid.core_width_px <= 65535 * 65535) by (nonlinear_arith)
            requires m.grid.columns <= 65535, m.grid.core_width_px <= 65535;
        assert(m.grid.rows * m.grid.core_height_px <= 65535 * 65535) by (nonlinear_arith)
            requires m.grid.rows <= 65535, m.grid.core_height_px <= 65535;
    }
    let expected_width = m.grid.columns as u32 * m.grid.core_width_px as u32;
    let expected_height = m.grid.rows as u32 * m.grid.core_height_px as u32;
    if m.grid.width_px != expected_width || m.grid.height_px != expected_height {
        return Err(invalid("atlas dimensions contradict the rectangular grid"));
    }
    let mut cells: Vec<(i32, i32, usize)> = Vec::new();
    let mut records_ok = true;
    let mut k: usize = 0;
    while k < m.sources.len()
        invariant
            m.sources@.len() <= MAX_ATLAS_CELLS,
            k <= m.sources@.len(),
            cells@ == source_cells(*m).subrange(0, k as int),
            records_ok == forall|q: int| 0 <= q < k ==> #[trigger] source_record_ok(*m, q),
        decreases m.sources@.len() - k,
    {
        let s = &m.sources[k];
        let ok = s.source_index as usize == k && is_identifier(s.bundle_id.as_str()) && is_sha256(s.manifest_sha256.as_str())
            && MIN_CORE_COVERAGE_BASIS_POINTS <= s.core_coverage_basis_points && s.core_coverage_basis_points <= 10_000;
        proof {
            assert(ok == source_record_ok(*m, k as int));
        }
        records_ok = records_ok && ok;
        cells.push((s.column, s.row, 0));
        proof {
            assert(cells@ =~= source_cells(*m).subrange(0, k + 1));
        }
        k += 1;
    }
    proof {
        assert(cells@ =~= source_cells(*m));
    }
    if !records_ok || !distinct_exec(&cells) {
        return Err(invalid("atlas source record is invalid or duplicated"));
    }
    if !covers_exec(&m.grid, &cells, 1) {
        return Err(invalid("atlas sources do not cover the declared grid"));
    }
    let mut cells: Vec<(i32, i32, usize)> = Vec::new();
    let mut records_ok = true;
    let mut k: usize = 0;
    while k < m.ownership_tiles.len()
        invariant
            k <= m.ownership_tiles@.len(),
            cells@ == ownership_cells(*m).subrange(0, k as int),
            records_ok == forall|q: int| 0 <= q < k ==> #[trigger] ownership_record_ok(*m, q),
        decreases m.ownership_tiles@.len() - k,
    {
        let t = &m.ownership_tiles[k];
        let mut expected = directory_of(t.column, t.row);
        expected.push_str("/ownership.bin");
        let ok = string_is(&t.path, &expected) && t.width_px == m.grid.core_width_px as u32 && t.height_px
            == m.grid.core_height_px as u32 && t.byte_length != 0 && is_sha256(t.sha256.as_str());
        proof {
            assert(ok == ownership_record_ok(*m, k as int));
        }
        records_ok = records_ok && ok;
        cells.push((t.column, t.row, 0));
        proof {
            assert(cells@ =~= ownership_cells(*m).subrange(0, k + 1));
        }
        k += 1;
    }
    proof {
        assert(cells@ =~= ownership_cells(*m));
    }
    if !records_ok || !distinct_exec(&cells) {
        return Err(invalid("atlas ownership record is invalid or duplicated"));
    }
    if !covers_exec(&m.grid, &cells, 1) || !string_is(&ownership_digest(&m.ownership_tiles), &m.ownership_map_sha256) {
        return Err(invalid("atlas ownership map is incomplete or has the wrong digest"));
    }
    let mut cells: Vec<(i32, i32, usize)> = Vec::new();
    let mut records_ok = true;
    let mut k: usize = 0;
    while k < m.layer_tiles.len()
        invariant
            k <= m.layer_tiles@.len(),
            cells@ == layer_cells(*m).subrange(0, k as int),
            records_ok == forall|q: int| 0 <= q < k ==> #[trigger] layer_record_ok(*m, q),
        decreases m.layer_tiles@.len() - k,
    {
        let t = &m.layer_tiles[k];
        let mut expected = directory_of(t.column, t.row);
        expected.push_str("/");
        expected.push_str(t.kind.filename());
        let encoding = t.kind.encoding().to_owned();
        let ok = string_is(&t.path, &expected) && string_is(&t.encoding, &encoding) && t.width_px == m.grid.core_width_px
            as u32 && t.height_px == m.grid.core_height_px as u32 && t.byte_length != 0 && is_sha256(t.sha256.as_str());
        proof {
            assert(ok == layer_record_ok(*m, k as int));
        }
        records_ok = records_ok && ok;
        cells.push((t.column, t.row, t.kind.position()));
        proof {
            assert(cells@ =~= layer_cells(*m).subrange(0, k + 1));
        }
        k += 1;
    }
    proof {
        assert(cells@ =~= layer_cells(*m));
    }
    if !records_ok || !distinct_exec(&cells) {
        return Err(invalid("atlas layer record is invalid or duplicated"));
    }
    if !covers_exec(&m.grid, &cells, LAYERS_PER_CELL) {
        return Err(invalid("atlas layer tiles do not cover every declared cell"));
    }
    Ok(())
}


/// Two manifests share one camera, lighting, provider capture, and core grid.
pub open spec fn same_contract(a: ReferenceManifest, first: ReferenceManifest) -> bool {
    &&& a.camera.projection@ == first.camera.projection@
    &&& a.camera.azimuth_millidegrees == first.camera.azimuth_millidegrees
    &&& a.camera.elevation_millidegrees == first.camera.elevation_millidegrees
    &&& a.camera.target_altitude_mm == first.camera.target_altitude_mm
    &&& a.camera.near_mm == first.camera.near_mm && a.camera.far_mm == first.camera.far_mm
    &&& a.camera.orthographic_width_mm == first.camera.orthographic_width_mm
    &&& a.camera.orthographic_height_mm == first.camera.orthographic_height_mm
    &&& a.camera.camera_distance_mm == first.camera.camera_distance_mm
    &&& a.lighting == first.lighting
    &&& a.capture.provider@ == ATLAS_PROVIDER@
    &&& a.capture.provider@ == first.capture.provider@
    &&& a.capture.renderer@ == first.capture.renderer@
    &&& a.capture.renderer_version@ == first.capture.renderer_version@
    &&& a.capture.source_epoch@ == first.capture.source_epoch@
    &&& a.tile.region_id@ == first.tile.region_id@
    &&& a.tile.core_width_px == first.tile.core_width_px && a.tile.core_height_px == first.tile.core_height_px
    &&& a.tile.guard_px == first.tile.guard_px
    &&& a.tile.millimeters_per_pixel == first.tile.millimeters_per_pixel
}

/// Manifest `j` occupies the same cell as manifest `k`.
pub open spec fn same_cell(a: ReferenceManifest, b: ReferenceManifest) -> bool {
    a.tile.column == b.tile.column && a.tile.row == b.tile.row
}

/// The rejection of source `k` given the sources before it, if any.
pub open spec fn source_set_entry_error(ms: Seq<ReferenceManifest>, k: int) -> Option<Seq<char>> {
    if !same_contract(ms[k], ms[0]) {
        Some("atlas sources do not share one Google grid and camera contract"@)
    } else if exists|j: int| 0 <= j < k && same_cell(#[trigger] ms[j], ms[k]) {
        Some("atlas source grid contains a duplicate cell"@)
    } else {
        None
    }
}

/// The first rejection among the first `n` sources.
pub open spec fn first_entry_error(ms: Seq<ReferenceManifest>, n: int) -> Option<Seq<char>>
    decreases n,
{
    if n <= 0 {
        None
    } else {
        let earlier = first_entry_error(ms, n - 1);
        if earlier is Some { earlier } else { source_set_entry_error(ms, n - 1) }
    }
}

/// Some source sits at `(column, row)`.
pub open spec fn occupied(ms: Seq<ReferenceManifest>, column: int, row: int) -> bool {
    exists|k: int| 0 <= k < ms.len() && (#[trigger] ms[k]).tile.column == column && ms[k].tile.row == row
}

/// Every cell of the bounding rectangle of the sources is occupied.
pub open spec fn rectangle_complete(ms: Seq<ReferenceManifest>) -> bool {
    forall|column: int, row: int|
        (exists|a: int| 0 <= a < ms.len() && (#[trigger] ms[a]).tile.column <= column) && (exists|b: int|
            0 <= b < ms.len() && (#[trigger] ms[b]).tile.column >= column) && (exists|c: int|
            0 <= c < ms.len() && (#[trigger] ms[c]).tile.row <= row) && (exists|d: int| 0 <= d < ms.len() && (#[trigger] ms[d]).tile.row
            >= row) ==> #[trigger] occupied(ms, column, row)
}

/// The first violated source-set rule, as its message.
pub open spec fn source_set_error(ms: Seq<ReferenceManifest>) -> Option<Seq<char>> {
    if ms.len() == 0 || ms.len() > MAX_ATLAS_CELLS {
        Some("atlas source count violates its bound"@)
    } else if first_entry_error(ms, ms.len() as int) is Some {
        first_entry_error(ms, ms.len() as int)
    } else if !rectangle_complete(ms) {
        Some("atlas source grid contains a missing cell"@)
    } else {
        None
    }
}

fn same_contract_exec(a: &ReferenceManifest, first: &ReferenceManifest) -> (r: bool)
    ensures
        r == same_contract(*a, *first),
{
    let provider = ATLAS_PROVIDER.to_owned();
    string_is(&a.camera.projection, &first.camera.projection) && a.camera.azimuth_millidegrees
        == first.camera.azimuth_millidegrees && a.camera.elevation_millidegrees == first.camera.elevation_millidegrees
        && a.camera.target_altitude_mm == first.camera.target_altitude_mm && a.camera.near_mm == first.camera.near_mm
        && a.camera.far_mm == first.camera.far_mm && a.camera.orthographic_width_mm == first.camera.orthographic_width_mm
        && a.camera.orthographic_height_mm == first.camera.orthographic_height_mm && a.camera.camera_distance_mm
        == first.camera.camera_distance_mm && a.lighting.sun_azimuth_millidegrees == first.lighting.sun_azimuth_millidegrees
        && a.lighting.sun_elevation_millidegrees == first.lighting.sun_elevation_millidegrees && string_is(
        &a.capture.provider,
        &provider,
    ) && string_is(&a.capture.provider, &first.capture.provider) && string_is(
        &a.capture.renderer,
        &first.capture.renderer,
    ) && string_is(&a.capture.renderer_version, &first.capture.renderer_version) && string_is(
        &a.capture.source_epoch,
        &first.capture.source_epoch,
    ) && string_is(&a.tile.region_id, &first.tile.region_id) && a.tile.core_width_px == first.tile.core_width_px
        && a.tile.core_height_px == first.tile.core_height_px && a.tile.guard_px == first.tile.guard_px
        && a.tile.millimeters_per_pixel == first.tile.millimeters_per_pixel
}

/// Checks that atlas sources share one grid and camera contract and tile a complete rectangle.
pub fn validate_atlas_sources(manifests: &Vec<ReferenceManifest>) -> (r: Result<(), ReferenceError>)
    ensures
        r is Ok <==> source_set_error(manifests@) is None,
        r matches Err(e) ==> e matches ReferenceError::Invalid(msg) && msg@ == source_set_error(manifests@)->0,
{
    if manifests.len() == 0 || manifests.len() > MAX_ATLAS_CELLS {
        return Err(invalid("atlas source count violates its bound"));
    }
    let ghost ms = manifests@;
    let first = &manifests[0];
    let mut min_column = first.tile.column;
    let mut max_column = first.tile.column;
    let mut min_row = first.tile.row;
    let mut max_row = first.tile.row;
    let mut k: usize = 0;
    while k < manifests.len()
        invariant
            ms == manifests@,
            *first == ms[0],
            1 <= ms.len() <= MAX_ATLAS_CELLS,
            k <= ms.len(),
            first_entry_error(ms, k as int) is None,
            k > 0 ==> exists|a: int| 0 <= a < k && ms[a].tile.column == min_column,
            k > 0 ==> exists|a: int| 0 <= a < k && ms[a].tile.column == max_column,
            k > 0 ==> exists|a: int| 0 <= a < k && ms[a].tile.row == min_row,
            k > 0 ==> exists|a: int| 0 <= a < k && ms[a].tile.row == max_row,
            k == 0 ==> min_column == ms[0].tile.column && max_column == ms[0].tile.column && min_row == ms[0].tile.row
                && max_row == ms[0].tile.row,
            forall|a: int| 0 <= a < k ==> min_column <= (#[trigger] ms[a]).tile.column <= max_column && min_row
                <= ms[a].tile.row <= max_row,
        decreases ms.len() - k,
    {
        let m = &manifests[k];
        proof {
            assert(*m == ms[k as int]);
            assert(*first == ms[0]);
            assert(first_entry_error(ms, k + 1) == source_set_entry_error(ms, k as int));
        }
        if !same_contract_exec(m, first) {
            proof {
                lemma_entry_error_sticky(ms, k + 1, ms.len() as int);
            }
            return Err(invalid("atlas sources do not share one Google grid and camera contract"));
        }
        let mut j: usize = 0;
        while j < k
            invariant
                ms == manifests@,
                1 <= ms.len() <= MAX_ATLAS_CELLS,
                k < ms.len(),
                *m == ms[k as int],
                same_contract(ms[k as int], ms[0]),
                first_entry_error(ms, k + 1) == source_set_entry_error(ms, k as int),
                j <= k,
                forall|q: int| 0 <= q < j ==> !same_cell(#[trigger] ms[q], ms[k as int]),
            decreases k - j,
        {
            if manifests[j].tile.column == m.tile.column && manifests[j].tile.row == m.tile.row {
                proof {
                    assert(same_cell(ms[j as int], ms[k as int]));
                    assert(exists|q: int| 0 <= q < k && same_cell(#[trigger] ms[q], ms[k as int]));
                    assert(source_set_entry_error(ms, k as int) == Some("atlas source grid contains a duplicate cell"@));
                    lemma_entry_error_sticky(ms, k + 1, ms.len() as int);
                }
                return Err(invalid("atlas source grid contains a duplicate cell"));
            }
            j += 1;
        }
        if m.tile.column < min_column {
            min_column = m.tile.column;
        }
        if m.tile.column > max_column {
            max_column = m.tile.column;
        }
        if m.tile.row < min_row {
            min_row = m.tile.row;
        }
        if m.tile.row > max_row {
            max_row = m.tile.row;
        }
        proof {
            assert(source_set_entry_error(ms, k as int) is None);
        }
        k += 1;
    }
    let mut row = min_row as i64;
    while row <= max_row as i64
        invariant
            ms == manifests@,
            1 <= ms.len() <= MAX_ATLAS_CELLS,
            first_entry_error(ms, ms.len() as int) is None,
            exists|a: int| 0 <= a < ms.len() && ms[a].tile.column == min_column,
            exists|a: int| 0 <= a < ms.len() && ms[a].tile.column == max_column,
            exists|a: int| 0 <= a < ms.len() && ms[a].tile.row == min_row,
            exists|a: int| 0 <= a < ms.len() && ms[a].tile.row == max_row,
            forall|a: int| 0 <= a < ms.len() ==> min_column <= (#[trigger] ms[a]).tile.column <= max_column && min_row
                <= ms[a].tile.row <= max_row,
            min_row <= row <= max_row as i64 + 1,
            forall|c: int, r: int| min_column <= c <= max_column && min_row <= r < row ==> #[trigger] occupied(ms, c, r),
        decreases max_row as i64 + 1 - row,
    {
        let mut column = min_column as i64;
        while column <= max_column as i64
            invariant
                ms == manifests@,
                1 <= ms.len() <= MAX_ATLAS_CELLS,
                first_entry_error(ms, ms.len() as int) is None,
                exists|a: int| 0 <= a < ms.len() && ms[a].tile.column == min_column,
                exists|a: int| 0 <= a < ms.len() && ms[a].tile.column == max_column,
                exists|a: int| 0 <= a < ms.len() && ms[a].tile.row == min_row,
                exists|a: int| 0 <= a < ms.len() && ms[a].tile.row == max_row,
                min_row <= row <= max_row,
                min_column <= column <= max_column as i64 + 1,
                forall|c: int| min_column <= c < column ==> #[trigger] occupied(ms, c, row as int),
            decreases max_column as i64 + 1 - column,
        {
            let mut found = false;
            let mut q: usize = 0;
            while q < manifests.len()
                invariant
                    ms == manifests@,
                    q <= ms.len(),
                    found ==> occupied(ms, column as int, row as int),
                    !found ==> forall|a: int| 0 <= a < q ==> !((#[trigger] ms[a]).tile.column == column && ms[a].tile.row == row),
                decreases ms.len() - q,
            {
                if manifests[q].tile.column as i64 == column && manifests[q].tile.row as i64 == row {
                    found = true;
                }
                q += 1;
            }
            if !found {
                proof {
                    assert(!occupied(ms, column as int, row as int));
                    assert(!rectangle_complete(ms)) by {
                        let a = choose|a: int| 0 <= a < ms.len() && ms[a].tile.column == min_column;
                        let b = choose|b: int| 0 <= b < ms.len() && ms[b].tile.column == max_column;
                        let c = choose|c: int| 0 <= c < ms.len() && ms[c].tile.row == min_row;
                        let d = choose|d: int| 0 <= d < ms.len() && ms[d].tile.row == max_row;
                        assert(ms[a].tile.column <= column && ms[b].tile.column >= column);
                        assert(ms[c].tile.row <= row && ms[d].tile.row >= row);
                    }
                }
                return Err(invalid("atlas source grid contains a missing cell"));
            }
            column += 1;
        }
        row += 1;
    }
    proof {
        assert forall|column: int, row: int|
            (exists|a: int| 0 <= a < ms.len() && (#[trigger] ms[a]).tile.column <= column) && (exists|b: int|
                0 <= b < ms.len() && (#[trigger] ms[b]).tile.column >= column) && (exists|c: int|
                0 <= c < ms.len() && (#[trigger] ms[c]).tile.row <= row) && (exists|d: int|
                0 <= d < ms.len() && (#[trigger] ms[d]).tile.row >= row) implies #[trigger] occupied(ms, column, row) by {
            let a = choose|a: int| 0 <= a < ms.len() && (#[trigger] ms[a]).tile.column <= column;
            let b = choose|b: int| 0 <= b < ms.len() && (#[trigger] ms[b]).tile.column >= column;
            let c = choose|c: int| 0 <= c < ms.len() && (#[trigger] ms[c]).tile.row <= row;
            let d = choose|d: int| 0 <= d < ms.len() && (#[trigger] ms[d]).tile.row >= row;
            assert(min_column <= ms[a].tile.column);
            assert(ms[b].tile.column <= max_column);
            assert(min_row <= ms[c].tile.row);
            assert(ms[d].tile.row <= max_row);
        }
    }
    Ok(())
}

proof fn lemma_entry_error_sticky(ms: Seq<ReferenceManifest>, k: int, n: int)
    requires
        1 <= k <= n,
        first_entry_error(ms, k) is Some,
    ensures
        first_entry_error(ms, n) == first_entry_error(ms, k),
    decreases n - k,
{
    if k < n {
        lemma_entry_error_sticky(ms, k, n - 1);
    }
}


/// The grid spanned by sorted atlas sources: bounding rectangle of cells, the
/// first source's core, guard, and scale, and zero registration error.
pub open spec fn grid_of(tiles: Seq<TileSpec>, g: AtlasGrid) -> bool {
    &&& (exists|k: int| 0 <= k < tiles.len() && #[trigger] tiles[k].column == g.minimum_column)
    &&& (exists|k: int| 0 <= k < tiles.len() && #[trigger] tiles[k].row == g.minimum_row)
    &&& forall|k: int| 0 <= k < tiles.len() ==> g.minimum_column <= (#[trigger] tiles[k]).column < g.minimum_column + g.columns
        && g.minimum_row <= tiles[k].row < g.minimum_row + g.rows
    &&& (exists|k: int| 0 <= k < tiles.len() && #[trigger] tiles[k].column == g.minimum_column + g.columns - 1)
    &&& (exists|k: int| 0 <= k < tiles.len() && #[trigger] tiles[k].row == g.minimum_row + g.rows - 1)
    &&& g.core_width_px == tiles[0].core_width_px && g.core_height_px == tiles[0].core_height_px
    &&& g.source_guard_px == tiles[0].guard_px
    &&& g.millimeters_per_pixel == tiles[0].millimeters_per_pixel
    &&& g.width_px == g.columns * g.core_width_px && g.height_px == g.rows * g.core_height_px
    &&& g.registration_error_micropixels == 0
}

/// Column span of the sources (`max - min + 1`).
pub open spec fn column_span(tiles: Seq<TileSpec>, lo: int, hi: int) -> bool {
    (exists|k: int| 0 <= k < tiles.len() && #[trigger] tiles[k].column == lo) && (exists|k: int|
        0 <= k < tiles.len() && #[trigger] tiles[k].column == hi) && forall|k: int|
        0 <= k < tiles.len() ==> lo <= (#[trigger] tiles[k]).column <= hi
}

/// Row span of the sources.
pub open spec fn row_span(tiles: Seq<TileSpec>, lo: int, hi: int) -> bool {
    (exists|k: int| 0 <= k < tiles.len() && #[trigger] tiles[k].row == lo) && (exists|k: int|
        0 <= k < tiles.len() && #[trigger] tiles[k].row == hi) && forall|k: int|
        0 <= k < tiles.len() ==> lo <= (#[trigger] tiles[k]).row <= hi
}

/// Derives the atlas grid from sorted, validated sources.
pub fn atlas_grid(tiles: &Vec<TileSpec>) -> (r: Result<AtlasGrid, ReferenceError>)
    requires
        tiles@.len() >= 1,
    ensures
        r matches Ok(g) ==> grid_of(tiles@, g),
        r matches Err(e) ==> e matches ReferenceError::Invalid(m) && (m@ == "atlas column count overflowed"@ || m@
            == "atlas row count overflowed"@),
        r is Err <==> exists|lo: int, hi: int, rlo: int, rhi: int|
            column_span(tiles@, lo, hi) && row_span(tiles@, rlo, rhi) && (hi - lo + 1 > u16::MAX || rhi - rlo + 1 > u16::MAX),
{
    let first = &tiles[0];
    let mut min_column = first.column;
    let mut max_column = first.column;
    let mut min_row = first.row;
    let mut max_row = first.row;
    let mut k: usize = 1;
    proof {
        assert(tiles@.subrange(0, 1)[0] == tiles@[0]);
    }
    while k < tiles.len()
        invariant
            1 <= k <= tiles@.len(),
            column_span(tiles@.subrange(0, k as int), min_column as int, max_column as int),
            row_span(tiles@.subrange(0, k as int), min_row as int, max_row as int),
        decreases tiles@.len() - k,
    {
        let t = &tiles[k];
        let ghost before = tiles@.subrange(0, k as int);
        let ghost after = tiles@.subrange(0, k + 1);
        if t.column < min_column {
            min_column = t.column;
        }
        if t.column > max_column {
            max_column = t.column;
        }
        if t.row < min_row {
            min_row = t.row;
        }
        if t.row > max_row {
            max_row = t.row;
        }
        proof {
            assert forall|q: int| 0 <= q < k implies after[q] == before[q] by {}
            assert(after[k as int] == *t);
        }
        k += 1;
    }
    proof {
        assert(tiles@.subrange(0, tiles@.len() as int) =~= tiles@);
    }
    let columns_wide = max_column as i64 - min_column as i64 + 1;
    let rows_wide = max_row as i64 - min_row as i64 + 1;
    if columns_wide > 65_535 {
        return Err(invalid("atlas column count overflowed"));
    }
    if rows_wide > 65_535 {
        return Err(invalid("atlas row count overflowed"));
    }
    let columns = columns_wide as u16;
    let rows = rows_wide as u16;
    proof {
        assert(columns * first.core_width_px <= 65535 * 65535) by (nonlinear_arith)
            requires columns <= 65535, first.core_width_px <= 65535;
        assert(rows * first.core_height_px <= 65535 * 65535) by (nonlinear_arith)
            requires rows <= 65535, first.core_height_px <= 65535;
        assert forall|lo: int, hi: int, rlo: int, rhi: int| column_span(tiles@, lo, hi) && row_span(tiles@, rlo, rhi)
            implies lo == min_column && hi == max_column && rlo == min_row && rhi == max_row by {
            let a = choose|k: int| 0 <= k < tiles@.len() && #[trigger] tiles@[k].column == lo;
            let b = choose|k: int| 0 <= k < tiles@.len() && #[trigger] tiles@[k].column == min_column;
            let c = choose|k: int| 0 <= k < tiles@.len() && #[trigger] tiles@[k].column == hi;
            let d = choose|k: int| 0 <= k < tiles@.len() && #[trigger] tiles@[k].column == max_column;
            let e = choose|k: int| 0 <= k < tiles@.len() && #[trigger] tiles@[k].row == rlo;
            let f = choose|k: int| 0 <= k < tiles@.len() && #[trigger] tiles@[k].row == min_row;
            let g = choose|k: int| 0 <= k < tiles@.len() && #[trigger] tiles@[k].row == rhi;
            let h = choose|k: int| 0 <= k < tiles@.len() && #[trigger] tiles@[k].row == max_row;
        }
    }
    Ok(AtlasGrid {
        minimum_column: min_column,
        minimum_row: min_row,
        columns,
        rows,
        core_width_px: first.core_width_px,
        core_height_px: first.core_height_px,
        source_guard_px: first.guard_px,
        millimeters_per_pixel: first.millimeters_per_pixel,
        width_px: columns as u32 * first.core_width_px as u32,
        height_px: rows as u32 * first.core_height_px as u32,
        registration_error_micropixels: 0,
    })
}

/// Registered width of a source tile, guards included.
pub open spec fn total_width(t: TileSpec) -> int {
    t.core_width_px + 2 * t.guard_px
}

/// Registered height of a source tile, guards included.
pub open spec fn total_height(t: TileSpec) -> int {
    t.core_height_px + 2 * t.guard_px
}

/// Source-local column of a global atlas column, when inside the source's guarded extent.
pub open spec fn local_x(t: TileSpec, g: AtlasGrid, global_x: int) -> Option<u32> {
    let local = global_x - ((t.column - g.minimum_column) * g.core_width_px - g.source_guard_px);
    if 0 <= local < total_width(t) { Some(local as u32) } else { None }
}

/// Source-local row of a global atlas row, when inside the source's guarded extent.
pub open spec fn local_y(t: TileSpec, g: AtlasGrid, global_y: int) -> Option<u32> {
    let local = global_y - ((t.row - g.minimum_row) * g.core_height_px - g.source_guard_px);
    if 0 <= local < total_height(t) { Some(local as u32) } else { None }
}

/// Source-local column of a global atlas column.
pub fn source_local_x(t: &TileSpec, grid: &AtlasGrid, global_x: i64) -> (r: Option<u32>)
    ensures
        r == local_x(*t, *grid, global_x as int),
{
    let delta = t.column as i128 - grid.minimum_column as i128;
    proof {
        assert(-0x1_0000_0000_0000 <= delta * grid.core_width_px <= 0x1_0000_0000_0000) by (nonlinear_arith)
            requires -0x1_0000_0000 <= delta <= 0x1_0000_0000, 0 <= grid.core_width_px <= 65535;
    }
    let origin = delta * grid.core_width_px as i128 - grid.source_guard_px as i128;
    let local = global_x as i128 - origin;
    let width = t.total_width_px() as i128;
    if 0 <= local && local < width {
        Some(local as u32)
    } else {
        None
    }
}

/// Source-local row of a global atlas row.
pub fn source_local_y(t: &TileSpec, grid: &AtlasGrid, global_y: i64) -> (r: Option<u32>)
    ensures
        r == local_y(*t, *grid, global_y as int),
{
    let delta = t.row as i128 - grid.minimum_row as i128;
    proof {
        assert(-0x1_0000_0000_0000 <= delta * grid.core_height_px <= 0x1_0000_0000_0000) by (nonlinear_arith)
            requires -0x1_0000_0000 <= delta <= 0x1_0000_0000, 0 <= grid.core_height_px <= 65535;
    }
    let origin = delta * grid.core_height_px as i128 - grid.source_guard_px as i128;
    let local = global_y as i128 - origin;
    let height = t.total_height_px() as i128;
    if 0 <= local && local < height {
        Some(local as u32)
    } else {
        None
    }
}

/// One source's claim on an atlas pixel.
#[derive(Clone, Copy, Debug, Eq, PartialEq, Structural)]
pub struct OwnershipCandidate {
    /// Distance to the nearest edge of the source's guarded extent.
    pub edge_distance: u32,
    /// Valid depth plus valid normal, from zero to two.
    pub structural_stability: u8,
    /// Source ground sampling distance; finer sampling wins.
    pub sampling_density: u32,
    /// Ownership index; the lower index wins a full tie.
    pub source_index: u16,
}

/// Whether candidate `a` beats `b`: farther from an edge, then more stable, then
/// finer sampling, then the lower source index.
pub open spec fn beats(a: OwnershipCandidate, b: OwnershipCandidate) -> bool {
    ||| a.edge_distance > b.edge_distance
    ||| a.edge_distance == b.edge_distance && a.structural_stability > b.structural_stability
    ||| a.edge_distance == b.edge_distance && a.structural_stability == b.structural_stability && a.sampling_density
        < b.sampling_density
    ||| a.edge_distance == b.edge_distance && a.structural_stability == b.structural_stability && a.sampling_density
        == b.sampling_density && a.source_index < b.source_index
}

fn beats_exec(a: OwnershipCandidate, b: OwnershipCandidate) -> (r: bool)
    ensures
        r == beats(a, b),
{
    a.edge_distance > b.edge_distance || (a.edge_distance == b.edge_distance && a.structural_stability
        > b.structural_stability) || (a.edge_distance == b.edge_distance && a.structural_stability
        == b.structural_stability && a.sampling_density < b.sampling_density) || (a.edge_distance == b.edge_distance
        && a.structural_stability == b.structural_stability && a.sampling_density == b.sampling_density
        && a.source_index < b.source_index)
}

/// Candidate `k` wins among the present candidates: it beats every earlier one and none later beats it.
pub open spec fn wins(c: Seq<Option<OwnershipCandidate>>, k: int) -> bool {
    &&& 0 <= k < c.len()
    &&& c[k] is Some
    &&& forall|j: int| 0 <= j < k && (#[trigger] c[j]) is Some ==> beats(c[k]->0, c[j]->0)
    &&& forall|j: int| k < j < c.len() && (#[trigger] c[j]) is Some ==> !beats(c[j]->0, c[k]->0)
}

/// The winning candidate's source index, or `None` when no candidate is present.
pub fn best_owner(candidates: &Vec<Option<OwnershipCandidate>>) -> (r: Option<u16>)
    ensures
        r is None <==> forall|j: int| 0 <= j < candidates@.len() ==> (#[trigger] candidates@[j]) is None,
        r matches Some(o) ==> exists|k: int| #[trigger] wins(candidates@, k) && candidates@[k]->0.source_index == o,
{
    let mut best: Option<(OwnershipCandidate, usize)> = None;
    let mut k: usize = 0;
    while k < candidates.len()
        invariant
            k <= candidates@.len(),
            best is None <==> forall|j: int| 0 <= j < k ==> (#[trigger] candidates@[j]) is None,
            best matches Some(b) ==> b.1 < k && candidates@[b.1 as int] == Some(b.0) && (forall|j: int|
                0 <= j < b.1 && (#[trigger] candidates@[j]) is Some ==> beats(b.0, candidates@[j]->0)) && (forall|j: int|
                b.1 < j < k && (#[trigger] candidates@[j]) is Some ==> !beats(candidates@[j]->0, b.0)),
        decreases candidates@.len() - k,
    {
        match candidates[k] {
            Some(c) => {
                let replace = match best {
                    None => true,
                    Some(b) => beats_exec(c, b.0),
                };
                if replace {
                    proof {
                        if best is Some {
                            let b = best->0;
                            assert forall|j: int| 0 <= j < k && (#[trigger] candidates@[j]) is Some implies beats(c, candidates@[j]->0) by {
                                if j != b.1 {
                                    lemma_beats_order(c, b.0, candidates@[j]->0);
                                }
                            }
                        }
                    }
                    best = Some((c, k));
                }
            },
            None => {},
        }
        k += 1;
    }
    match best {
        None => None,
        Some(b) => {
            proof {
                assert(wins(candidates@, b.1 as int));
            }
            Some(b.0.source_index)
        },
    }
}

/// `beats` is a strict total order on distinct candidates.
pub proof fn lemma_beats_order(a: OwnershipCandidate, b: OwnershipCandidate, c: OwnershipCandidate)
    ensures
        !beats(a, a),
        beats(a, b) && beats(b, c) ==> beats(a, c),
        !beats(a, b) && !beats(b, c) ==> !beats(a, c) || a == c,
        beats(a, b) ==> !beats(b, a),
        a != b ==> beats(a, b) || beats(b, a),
        !beats(b, a) && beats(b, c) ==> beats(a, c),
{
}


/// Present candidates are pairwise distinct (as they are when source indices differ).
pub open spec fn distinct_present(c: Seq<Option<OwnershipCandidate>>) -> bool {
    forall|i: int, j: int| 0 <= i < c.len() && 0 <= j < c.len() && i != j && (#[trigger] c[i]) is Some && (#[trigger] c[j]) is Some ==> c[i] != c[j]
}

/// Among distinct candidates the winner beats every other present candidate, and there is
/// exactly one winner.
pub proof fn lemma_owner_beats_all(c: Seq<Option<OwnershipCandidate>>, k: int)
    requires
        wins(c, k),
        distinct_present(c),
    ensures
        forall|j: int| 0 <= j < c.len() && j != k && (#[trigger] c[j]) is Some ==> beats(c[k]->0, c[j]->0),
        forall|m: int| #[trigger] wins(c, m) ==> m == k,
{
    assert forall|j: int| 0 <= j < c.len() && j != k && (#[trigger] c[j]) is Some implies beats(c[k]->0, c[j]->0) by {
        lemma_beats_order(c[k]->0, c[j]->0, c[k]->0);
    }
    assert forall|m: int| #[trigger] wins(c, m) implies m == k by {
        if m != k {
            lemma_beats_order(c[k]->0, c[m]->0, c[k]->0);
            if m < k {
                assert(beats(c[k]->0, c[m]->0));
            } else {
                assert(beats(c[m]->0, c[k]->0));
            }
        }
    }
}

/// The overlap priority does not depend on the order of the sources: two candidate lists with
/// the same distinct present candidates have the same winner.
pub proof fn lemma_owner_is_order_independent(
    a: Seq<Option<OwnershipCandidate>>,
    b: Seq<Option<OwnershipCandidate>>,
    ka: int,
    kb: int,
)
    requires
        wins(a, ka),
        wins(b, kb),
        distinct_present(a),
        distinct_present(b),
        forall|i: int| 0 <= i < a.len() && (#[trigger] a[i]) is Some ==> exists|j: int| 0 <= j < b.len() && #[trigger] b[j] == a[i],
        forall|j: int| 0 <= j < b.len() && (#[trigger] b[j]) is Some ==> exists|i: int| 0 <= i < a.len() && #[trigger] a[i] == b[j],
    ensures
        a[ka] == b[kb],
{
    lemma_owner_beats_all(a, ka);
    lemma_owner_beats_all(b, kb);
    let i = choose|i: int| 0 <= i < a.len() && #[trigger] a[i] == b[kb];
    let j = choose|j: int| 0 <= j < b.len() && #[trigger] b[j] == a[ka];
    if a[ka] != b[kb] {
        assert(i != ka);
        assert(j != kb);
        assert(beats(a[ka]->0, a[i]->0));
        assert(beats(b[kb]->0, b[j]->0));
        lemma_beats_order(a[ka]->0, b[kb]->0, a[ka]->0);
    }
}

/// Rows of one source's coverage, depth, and normal layers at one atlas row.
#[derive(Clone, Debug, Eq, PartialEq)]
pub struct SourceRowSamples {
    /// Ownership index of the source.
    pub source: usize,
    /// Source-local row.
    pub local_y: u32,
    /// Coverage row, one byte per pixel.
    pub coverage: Vec<u8>,
    /// Little-endian depth row, four bytes per pixel.
    pub depth: Vec<u8>,
    /// RGBA normal row, four bytes per pixel.
    pub normal: Vec<u8>,
}

/// Atlas column of the left edge of a cell.
pub open spec fn tile_origin(g: AtlasGrid, column: int) -> int {
    (column - g.minimum_column) * g.core_width_px
}

/// Smallest of four values.
pub open spec fn min4(a: int, b: int, c: int, d: int) -> int {
    let ab = if a < b { a } else { b };
    let cd = if c < d { c } else { d };
    if ab < cd { ab } else { cd }
}

/// The claim of one source row on global column `gx`, if the source covers it.
pub open spec fn candidate_for(tiles: Seq<TileSpec>, g: AtlasGrid, s: SourceRowSamples, gx: int) -> Option<OwnershipCandidate> {
    let t = tiles[s.source as int];
    match local_x(t, g, gx) {
        None => None,
        Some(lx) => if s.coverage@[lx as int] == 0 {
            None
        } else {
            let o = 4 * lx;
            let depth_valid = s.depth@[o] != 0 || s.depth@[o + 1] != 0 || s.depth@[o + 2] != 0 || s.depth@[o + 3] != 0;
            let normal_valid = s.normal@[o + 3] != 0;
            Some(
                OwnershipCandidate {
                    edge_distance: min4(lx as int, total_width(t) - 1 - lx, s.local_y as int, total_height(t) - 1 - s.local_y) as u32,
                    structural_stability: ((if depth_valid { 1int } else { 0int }) + (if normal_valid { 1int } else { 0int })) as u8,
                    sampling_density: t.millimeters_per_pixel,
                    source_index: s.source as u16,
                },
            )
        },
    }
}

/// Candidates of all source rows for global column `gx`.
pub open spec fn candidates_at(tiles: Seq<TileSpec>, g: AtlasGrid, rows: Seq<SourceRowSamples>, gx: int) -> Seq<Option<OwnershipCandidate>> {
    Seq::new(rows.len(), |k: int| candidate_for(tiles, g, rows[k], gx))
}

/// Source `o` wins global column `gx`.
pub open spec fn owner_of(tiles: Seq<TileSpec>, g: AtlasGrid, rows: Seq<SourceRowSamples>, gx: int, o: u16) -> bool {
    exists|k: int| #[trigger] wins(candidates_at(tiles, g, rows, gx), k) && candidates_at(tiles, g, rows, gx)[k]->0.source_index == o
}

/// Some source row claims global column `gx`.
pub open spec fn covered_at(tiles: Seq<TileSpec>, g: AtlasGrid, rows: Seq<SourceRowSamples>, gx: int) -> bool {
    exists|k: int| 0 <= k < rows.len() && (#[trigger] candidates_at(tiles, g, rows, gx)[k]) is Some
}

/// Source rows that match their source's registered width and height.
pub open spec fn rows_registered(tiles: Seq<TileSpec>, rows: Seq<SourceRowSamples>) -> bool {
    forall|k: int| 0 <= k < rows.len() ==> {
        let s = #[trigger] rows[k];
        &&& s.source < tiles.len()
        &&& s.local_y < total_height(tiles[s.source as int])
        &&& s.coverage@.len() == total_width(tiles[s.source as int])
        &&& s.depth@.len() == 4 * total_width(tiles[s.source as int])
        &&& s.normal@.len() == 4 * total_width(tiles[s.source as int])
    }
}

fn candidate_exec(tiles: &Vec<TileSpec>, grid: &AtlasGrid, s: &SourceRowSamples, gx: i64) -> (r: Option<OwnershipCandidate>)
    requires
        tiles@.len() <= MAX_ATLAS_CELLS,
        s.source < tiles@.len(),
        s.local_y < total_height(tiles@[s.source as int]),
        s.coverage@.len() == total_width(tiles@[s.source as int]),
        s.depth@.len() == 4 * total_width(tiles@[s.source as int]),
        s.normal@.len() == 4 * total_width(tiles@[s.source as int]),
    ensures
        r == candidate_for(tiles@, *grid, *s, gx as int),
{
    let t = &tiles[s.source];
    match source_local_x(t, grid, gx) {
        None => None,
        Some(lx) => {
            let x = lx as usize;
            if s.coverage[x] == 0 {
                return None;
            }
            let o = 4 * x;
            let depth_valid = s.depth[o] != 0 || s.depth[o + 1] != 0 || s.depth[o + 2] != 0 || s.depth[o + 3] != 0;
            let normal_valid = s.normal[o + 3] != 0;
            let stability: u8 = (if depth_valid { 1u8 } else { 0u8 }) + (if normal_valid { 1u8 } else { 0u8 });
            let w = t.total_width_px();
            let h = t.total_height_px();
            let a = if lx < w - 1 - lx { lx } else { w - 1 - lx };
            let b = if s.local_y < h - 1 - s.local_y { s.local_y } else { h - 1 - s.local_y };
            let edge = if a < b { a } else { b };
            Some(
                OwnershipCandidate {
                    edge_distance: edge,
                    structural_stability: stability,
                    sampling_density: t.millimeters_per_pixel,
                    source_index: s.source as u16,
                },
            )
        },
    }
}

/// Assigns every pixel of one ownership-tile row to its winning source.
pub fn ownership_row(tiles: &Vec<TileSpec>, grid: &AtlasGrid, column: i32, rows: &Vec<SourceRowSamples>) -> (r: Result<
    Vec<u16>,
    ReferenceError,
>)
    requires
        tiles@.len() <= MAX_ATLAS_CELLS,
        rows_registered(tiles@, rows@),
    ensures
        r is Ok <==> forall|x: int| 0 <= x < grid.core_width_px ==> #[trigger] covered_at(tiles@, *grid, rows@, tile_origin(*grid, column as int) + x),
        r matches Err(e) ==> e matches ReferenceError::Invalid(m) && m@ == "atlas ownership contains a coverage gap"@,
        r matches Ok(owners) ==> owners@.len() == grid.core_width_px && forall|x: int|
            0 <= x < owners@.len() ==> owner_of(tiles@, *grid, rows@, tile_origin(*grid, column as int) + x, #[trigger] owners@[x]),
{
    let width = grid.core_width_px as u32;
    let delta = column as i64 - grid.minimum_column as i64;
    proof {
        assert(-0x1_0000_0000_0000 <= delta * grid.core_width_px <= 0x1_0000_0000_0000) by (nonlinear_arith)
            requires -0x1_0000_0000 <= delta <= 0x1_0000_0000, 0 <= grid.core_width_px <= 65535;
    }
    let origin = delta * grid.core_width_px as i64;
    let mut owners: Vec<u16> = Vec::new();
    let mut x: u32 = 0;
    while x < width
        invariant
            tiles@.len() <= MAX_ATLAS_CELLS,
            rows_registered(tiles@, rows@),
            width == grid.core_width_px,
            origin == tile_origin(*grid, column as int),
            -0x1_0000_0000_0000 <= origin <= 0x1_0000_0000_0000,
            x <= width,
            owners@.len() == x,
            forall|q: int| 0 <= q < x ==> owner_of(tiles@, *grid, rows@, origin + q, #[trigger] owners@[q]),
        decreases width - x,
    {
        let gx = origin + x as i64;
        let ghost cands = candidates_at(tiles@, *grid, rows@, gx as int);
        let mut found: Vec<Option<OwnershipCandidate>> = Vec::new();
        let mut k: usize = 0;
        while k < rows.len()
            invariant
                tiles@.len() <= MAX_ATLAS_CELLS,
                rows_registered(tiles@, rows@),
                cands == candidates_at(tiles@, *grid, rows@, gx as int),
                k <= rows@.len(),
                found@ == cands.subrange(0, k as int),
            decreases rows@.len() - k,
        {
            proof {
                assert(rows_registered(tiles@, rows@));
                let s = rows@[k as int];
                assert(s.source < tiles@.len());
            }
            let c = candidate_exec(tiles, grid, &rows[k], gx);
            found.push(c);
            proof {
                assert(found@ =~= cands.subrange(0, k + 1));
            }
            k += 1;
        }
        proof {
            assert(found@ =~= cands);
        }
        match best_owner(&found) {
            None => {
                proof {
                    assert(forall|j: int| 0 <= j < cands.len() ==> (#[trigger] cands[j]) is None);
                    assert(!covered_at(tiles@, *grid, rows@, origin + x));
                }
                return Err(invalid("atlas ownership contains a coverage gap"));
            },
            Some(owner) => {
                owners.push(owner);
            },
        }
        x += 1;
    }
    proof {
        assert forall|q: int| 0 <= q < grid.core_width_px implies #[trigger] covered_at(tiles@, *grid, rows@, tile_origin(*grid, column as int) + q) by {
            assert(owner_of(tiles@, *grid, rows@, origin + q, owners@[q]));
            let k = choose|k: int| #[trigger] wins(candidates_at(tiles@, *grid, rows@, origin + q), k) && candidates_at(tiles@, *grid, rows@, origin + q)[k]->0.source_index
                == owners@[q];
        }
    }
    Ok(owners)
}


/// Position of the first source row of source `o`, if any.
pub open spec fn first_row_of(rows: Seq<(usize, Vec<u8>)>, o: int) -> Option<int> {
    if exists|k: int| 0 <= k < rows.len() && (#[trigger] rows[k]).0 == o {
        Some(choose|k: int| 0 <= k < rows.len() && (#[trigger] rows[k]).0 == o && forall|j: int| 0 <= j < k ==> (#[trigger] rows[j]).0 != o)
    } else {
        None
    }
}

/// Why output pixel `x` of a layer row cannot be filled, if it cannot.
pub open spec fn layer_pixel_error(tiles: Seq<TileSpec>, g: AtlasGrid, column: int, owners: Seq<u16>, rows: Seq<(usize, Vec<u8>)>, x: int) -> Option<Seq<char>> {
    match first_row_of(rows, owners[x] as int) {
        None => Some("atlas owner does not cover output row"@),
        Some(_) => if local_x(tiles[owners[x] as int], g, tile_origin(g, column) + x) is None {
            Some("atlas owner does not cover output pixel"@)
        } else {
            None
        },
    }
}

/// Byte `b` of output pixel `x`: the owner's source pixel at the same global column.
pub open spec fn layer_byte(tiles: Seq<TileSpec>, g: AtlasGrid, column: int, owners: Seq<u16>, rows: Seq<(usize, Vec<u8>)>, bpp: int, x: int, b: int) -> u8 {
    let o = owners[x] as int;
    let lx = local_x(tiles[o], g, tile_origin(g, column) + x)->0;
    rows[first_row_of(rows, o)->0].1@[lx * bpp + b]
}

/// Source layer rows that match their source's registered width.
pub open spec fn layer_rows_registered(tiles: Seq<TileSpec>, rows: Seq<(usize, Vec<u8>)>, bpp: int) -> bool {
    forall|k: int| 0 <= k < rows.len() ==> (#[trigger] rows[k]).0 < tiles.len() && rows[k].1@.len() == bpp * total_width(
        tiles[rows[k].0 as int],
    )
}

fn copy_pixel(out: &mut Vec<u8>, source_row: &Vec<u8>, start: usize, bytes_per_pixel: usize)
    requires
        start + bytes_per_pixel <= source_row@.len(),
    ensures
        final(out)@ == old(out)@ + source_row@.subrange(start as int, start + bytes_per_pixel),
{
    let n = source_row.len();
    let ghost before = out@;
    let mut b: usize = 0;
    while b < bytes_per_pixel
        invariant
            n == source_row@.len(),
            start + bytes_per_pixel <= n,
            b <= bytes_per_pixel,
            out@ == before + source_row@.subrange(start as int, start + b),
        decreases bytes_per_pixel - b,
    {
        out.push(source_row[start + b]);
        proof {
            assert(out@ =~= before + source_row@.subrange(start as int, start + b + 1));
        }
        b += 1;
    }
}

proof fn lemma_row_slot(q: int, x: int, c: int, bpp: int)
    requires
        0 <= q < x,
        0 <= c < bpp,
    ensures
        q * bpp + c < x * bpp,
        (x + 1) * bpp == x * bpp + bpp,
{
    assert(q * bpp + c < x * bpp) by (nonlinear_arith)
        requires q < x, 0 <= c < bpp;
    assert((x + 1) * bpp == x * bpp + bpp) by (nonlinear_arith);
}

fn fill_pixel(
    tiles: &Vec<TileSpec>,
    grid: &AtlasGrid,
    column: i32,
    owners: &Vec<u16>,
    rows: &Vec<(usize, Vec<u8>)>,
    bytes_per_pixel: usize,
    origin: i64,
    x: usize,
    out: &mut Vec<u8>,
) -> (r: Result<(), ReferenceError>)
    requires
        1 <= bytes_per_pixel <= 4,
        x < owners@.len(),
        layer_rows_registered(tiles@, rows@, bytes_per_pixel as int),
        origin == tile_origin(*grid, column as int),
        -0x1_0000_0000_0000 <= origin <= 0x1_0000_0000_0000,
        x <= 0x1_0000,
    ensures
        r is Ok <==> layer_pixel_error(tiles@, *grid, column as int, owners@, rows@, x as int) is None,
        r matches Err(e) ==> e matches ReferenceError::Invalid(m) && m@ == layer_pixel_error(
            tiles@,
            *grid,
            column as int,
            owners@,
            rows@,
            x as int,
        )->0,
        r is Ok ==> final(out)@ == old(out)@ + Seq::new(
            bytes_per_pixel as nat,
            |b: int| layer_byte(tiles@, *grid, column as int, owners@, rows@, bytes_per_pixel as int, x as int, b),
        ),
{
    let ghost bpp = bytes_per_pixel as int;
    let owner = owners[x] as usize;
    let mut pick: usize = 0;
    while pick < rows.len() && rows[pick].0 != owner
        invariant
            pick <= rows@.len(),
            forall|j: int| 0 <= j < pick ==> (#[trigger] rows@[j]).0 != owner,
        decreases rows@.len() - pick,
    {
        pick += 1;
    }
    if pick == rows.len() {
        proof {
            assert(first_row_of(rows@, owner as int) is None);
        }
        return Err(invalid("atlas owner does not cover output row"));
    }
    proof {
        assert(rows@[pick as int].0 == owner);
        let chosen = first_row_of(rows@, owner as int)->0;
        assert(chosen == pick) by {
            if chosen < pick {
                assert(rows@[chosen].0 != owner);
            } else if chosen > pick {
                assert(rows@[pick as int].0 != owner as usize);
            }
        }
        assert(rows@[pick as int].0 < tiles@.len());
    }
    let gx = origin + x as i64;
    let local = match source_local_x(&tiles[owner], grid, gx) {
        Some(lx) => lx,
        None => {
            return Err(invalid("atlas owner does not cover output pixel"));
        },
    };
    let source_row = &rows[pick].1;
    proof {
        assert(local < total_width(tiles@[owner as int]));
        assert((local + 1) * bpp <= bpp * total_width(tiles@[owner as int])) by (nonlinear_arith)
            requires local + 1 <= total_width(tiles@[owner as int]), bpp >= 1;
        assert(local * bpp + bpp == (local + 1) * bpp) by (nonlinear_arith);
    }
    proof {
        assert(local * bpp <= 4 * 196605) by (nonlinear_arith)
            requires local < 196605, bpp <= 4;
    }
    let start = local as usize * bytes_per_pixel;
    copy_pixel(out, source_row, start, bytes_per_pixel);
    proof {
        assert(out@ =~= old(out)@ + Seq::new(
            bytes_per_pixel as nat,
            |b: int| layer_byte(tiles@, *grid, column as int, owners@, rows@, bpp, x as int, b),
        ));
    }
    Ok(())
}

/// Assembles one output row of a layer tile from the owners' source rows.
#[verifier::rlimit(50)]
pub fn layer_row(
    tiles: &Vec<TileSpec>,
    grid: &AtlasGrid,
    column: i32,
    owners: &Vec<u16>,
    rows: &Vec<(usize, Vec<u8>)>,
    bytes_per_pixel: usize,
) -> (r: Result<Vec<u8>, ReferenceError>)
    requires
        1 <= bytes_per_pixel <= 4,
        owners@.len() == grid.core_width_px,
        layer_rows_registered(tiles@, rows@, bytes_per_pixel as int),
    ensures
        r is Ok <==> forall|x: int| 0 <= x < owners@.len() ==> #[trigger] layer_pixel_error(tiles@, *grid, column as int, owners@, rows@, x) is None,
        r matches Err(e) ==> exists|x: int|
            0 <= x < owners@.len() && (forall|q: int| 0 <= q < x ==> #[trigger] layer_pixel_error(tiles@, *grid, column as int, owners@, rows@, q) is None)
                && #[trigger] layer_pixel_error(tiles@, *grid, column as int, owners@, rows@, x) is Some && (e matches ReferenceError::Invalid(m)
                && m@ == layer_pixel_error(tiles@, *grid, column as int, owners@, rows@, x)->0),
        r matches Ok(out) ==> out@.len() == owners@.len() * bytes_per_pixel && forall|x: int, b: int|
            0 <= x < owners@.len() && 0 <= b < bytes_per_pixel ==> #[trigger] out@[x * bytes_per_pixel + b] == layer_byte(
                tiles@,
                *grid,
                column as int,
                owners@,
                rows@,
                bytes_per_pixel as int,
                x,
                b,
            ),
{
    let width = owners.len();
    let delta = column as i64 - grid.minimum_column as i64;
    proof {
        assert(-0x1_0000_0000_0000 <= delta * grid.core_width_px <= 0x1_0000_0000_0000) by (nonlinear_arith)
            requires -0x1_0000_0000 <= delta <= 0x1_0000_0000, 0 <= grid.core_width_px <= 65535;
    }
    let origin = delta * grid.core_width_px as i64;
    let ghost bpp = bytes_per_pixel as int;
    let mut out: Vec<u8> = Vec::new();
    let mut x: usize = 0;
    while x < width
        invariant
            1 <= bytes_per_pixel <= 4,
            bpp == bytes_per_pixel,
            width == owners@.len(),
            owners@.len() == grid.core_width_px,
            layer_rows_registered(tiles@, rows@, bpp),
            origin == tile_origin(*grid, column as int),
            -0x1_0000_0000_0000 <= origin <= 0x1_0000_0000_0000,
            x <= width,
            out@.len() == x * bpp,
            forall|q: int| 0 <= q < x ==> #[trigger] layer_pixel_error(tiles@, *grid, column as int, owners@, rows@, q) is None,
            forall|q: int, b: int|
                0 <= q < x && 0 <= b < bpp ==> #[trigger] out@[q * bpp + b] == layer_byte(tiles@, *grid, column as int, owners@, rows@, bpp, q, b),
        decreases width - x,
    {
        let ghost before = out@;
        match fill_pixel(tiles, grid, column, owners, rows, bytes_per_pixel, origin, x, &mut out) {
            Ok(()) => {},
            Err(e) => {
                return Err(e);
            },
        }
        proof {
            assert(layer_pixel_error(tiles@, *grid, column as int, owners@, rows@, x as int) is None);
            assert((x + 1) * bpp == x * bpp + bpp) by (nonlinear_arith);
            assert forall|q: int, c: int| 0 <= q < x + 1 && 0 <= c < bpp implies #[trigger] out@[q * bpp + c] == layer_byte(
                tiles@,
                *grid,
                column as int,
                owners@,
                rows@,
                bpp,
                q,
                c,
            ) by {
                if q < x {
                    lemma_row_slot(q, x as int, c, bpp);
                    assert(out@[q * bpp + c] == before[q * bpp + c]);
                } else {
                    assert(q * bpp + c == before.len() + c);
                }
            }
        }
        x += 1;
    }
    Ok(out)
}

/// The magic bytes of an ownership tile.
pub open spec fn ownership_magic() -> Seq<u8> {
    seq![0x49u8, 0x53u8, 0x4fu8, 0x4fu8, 0x57u8, 0x4eu8, 0x56u8, 0x31u8]
}

/// Little-endian bytes of a 16-bit value.
pub open spec fn le16_bytes(v: u16) -> Seq<u8> {
    seq![(v % 256) as u8, (v / 256) as u8]
}

/// The little-endian owner words of a tile.
pub open spec fn owner_words(owners: Seq<u16>) -> Seq<u8>
    decreases owners.len(),
{
    if owners.len() == 0 { Seq::empty() } else { owner_words(owners.drop_last()) + le16_bytes(owners.last()) }
}

/// The encoded ownership tile: magic, width, height, then one little-endian word per pixel.
pub open spec fn ownership_tile_spec(width: u32, height: u32, owners: Seq<u16>) -> Seq<u8> {
    ownership_magic() + le32(width) + le32(height) + owner_words(owners)
}

/// Encodes an ownership tile.
pub fn encode_ownership_tile(width: u32, height: u32, owners: &Vec<u16>) -> (r: Vec<u8>)
    ensures
        r@ == ownership_tile_spec(width, height, owners@),
{
    let mut bytes: Vec<u8> = Vec::new();
    bytes.push(0x49);
    bytes.push(0x53);
    bytes.push(0x4f);
    bytes.push(0x4f);
    bytes.push(0x57);
    bytes.push(0x4e);
    bytes.push(0x56);
    bytes.push(0x31);
    proof {
        assert(bytes@ =~= ownership_magic());
    }
    push_le32(&mut bytes, width);
    push_le32(&mut bytes, height);
    let ghost head = bytes@;
    let mut k: usize = 0;
    while k < owners.len()
        invariant
            k <= owners@.len(),
            bytes@ == head + owner_words(owners@.subrange(0, k as int)),
        decreases owners@.len() - k,
    {
        let v = owners[k];
        bytes.push((v % 256) as u8);
        bytes.push((v / 256) as u8);
        proof {
            let prefix = owners@.subrange(0, k + 1);
            assert(prefix.drop_last() =~= owners@.subrange(0, k as int));
            assert(bytes@ =~= head + owner_words(prefix));
        }
        k += 1;
    }
    proof {
        assert(owners@.subrange(0, owners@.len() as int) =~= owners@);
    }
    bytes
}


/// Whether a source record's guarded extent contains a global pixel.
pub open spec fn record_covers(s: AtlasSourceRecord, g: AtlasGrid, gx: int, gy: int) -> bool {
    let core_x = (s.column - g.minimum_column) * g.core_width_px;
    let core_y = (s.row - g.minimum_row) * g.core_height_px;
    let guard = g.source_guard_px as int;
    core_x - guard <= gx < core_x + g.core_width_px + guard && core_y - guard <= gy < core_y + g.core_height_px + guard
}

fn record_covers_exec(s: &AtlasSourceRecord, g: &AtlasGrid, gx: i128, gy: i128) -> (r: bool)
    ensures
        r == record_covers(*s, *g, gx as int, gy as int),
{
    let dx = s.column as i128 - g.minimum_column as i128;
    let dy = s.row as i128 - g.minimum_row as i128;
    proof {
        assert(-0x1_0000_0000_0000 <= dx * g.core_width_px <= 0x1_0000_0000_0000) by (nonlinear_arith)
            requires -0x1_0000_0000 <= dx <= 0x1_0000_0000, 0 <= g.core_width_px <= 65535;
        assert(-0x1_0000_0000_0000 <= dy * g.core_height_px <= 0x1_0000_0000_0000) by (nonlinear_arith)
            requires -0x1_0000_0000 <= dy <= 0x1_0000_0000, 0 <= g.core_height_px <= 65535;
    }
    let core_x = dx * g.core_width_px as i128;
    let core_y = dy * g.core_height_px as i128;
    let guard = g.source_guard_px as i128;
    gx >= core_x - guard && gx < core_x + g.core_width_px as i128 + guard && gy >= core_y - guard && gy < core_y
        + g.core_height_px as i128 + guard
}

/// Little-endian 32-bit word at `at`.
pub open spec fn word32(b: Seq<u8>, at: int) -> int {
    b[at] + 256 * b[at + 1] + 65536 * b[at + 2] + 16777216 * b[at + 3]
}

/// Owner word of pixel `k`.
pub open spec fn owner_word(b: Seq<u8>, k: int) -> int {
    b[16 + 2 * k] + 256 * b[16 + 2 * k + 1]
}

/// Why pixel `k` of an ownership tile is rejected, if it is.
#[verifier::opaque]
pub open spec fn ownership_pixel_error(b: Seq<u8>, t: OwnershipTileRecord, m: ReferenceAtlasManifest, k: int) -> Option<Seq<char>> {
    let owner = owner_word(b, k);
    let x = k % (t.width_px as int);
    let y = k / (t.width_px as int);
    if owner >= m.sources@.len() {
        Some("ownership references an unknown source"@)
    } else if !record_covers(
        m.sources@[owner],
        m.grid,
        (t.column - m.grid.minimum_column) * t.width_px + x,
        (t.row - m.grid.minimum_row) * t.height_px + y,
    ) {
        Some("ownership assigns a pixel outside its source guard"@)
    } else {
        None
    }
}

/// The rejection of the first pixel, in row-major order, that is rejected.
pub open spec fn first_pixel_error(b: Seq<u8>, t: OwnershipTileRecord, m: ReferenceAtlasManifest) -> Option<Seq<char>> {
    let n = t.width_px * t.height_px;
    if exists|k: int| 0 <= k < n && (#[trigger] ownership_pixel_error(b, t, m, k)) is Some {
        ownership_pixel_error(b, t, m, choose|k: int| 0 <= k < n && (#[trigger] ownership_pixel_error(b, t, m, k)) is Some && forall|j: int|
            0 <= j < k ==> (#[trigger] ownership_pixel_error(b, t, m, j)) is None)
    } else {
        None
    }
}

/// Why an ownership tile's header or declared length is rejected, if it is.
pub open spec fn ownership_header_error(b: Seq<u8>, t: OwnershipTileRecord) -> Option<Seq<char>> {
    let n = t.width_px * t.height_px;
    if b.subrange(0, 8) != ownership_magic() || word32(b, 8) != t.width_px || word32(b, 12) != t.height_px {
        Some("atlas ownership header is invalid"@)
    } else if 16 + 2 * n > u64::MAX {
        Some("ownership length overflowed"@)
    } else if t.byte_length != 16 + 2 * n {
        Some("atlas ownership length is invalid"@)
    } else {
        None
    }
}

/// The first rejection of an ownership tile's bytes, if any.
pub open spec fn ownership_bytes_error(b: Seq<u8>, t: OwnershipTileRecord, m: ReferenceAtlasManifest) -> Option<Seq<char>> {
    if ownership_header_error(b, t) is Some {
        ownership_header_error(b, t)
    } else {
        first_pixel_error(b, t, m)
    }
}

/// Checks the header, length, and every owner of an ownership tile's bytes.
pub fn check_ownership_bytes(bytes: &[u8], tile: &OwnershipTileRecord, manifest: &ReferenceAtlasManifest) -> (r: Result<
    (),
    ReferenceError,
>)
    requires
        bytes@.len() >= 16,
        bytes@.len() == tile.byte_length,
    ensures
        r is Ok <==> ownership_bytes_error(bytes@, *tile, *manifest) is None,
        r matches Err(e) ==> e matches ReferenceError::Invalid(m) && m@ == ownership_bytes_error(bytes@, *tile, *manifest)->0,
{
    if let Err(e) = check_ownership_header(bytes, tile) {
        return Err(e);
    }
    let verdict = first_owner_verdict(bytes, tile, manifest);
    if verdict == 0 {
        Ok(())
    } else if verdict == 1 {
        Err(invalid("ownership references an unknown source"))
    } else {
        Err(invalid("ownership assigns a pixel outside its source guard"))
    }
}

/// Checks the magic, the dimensions and the declared length of an ownership tile.
fn check_ownership_header(b: &[u8], tile: &OwnershipTileRecord) -> (r: Result<(), ReferenceError>)
    requires
        b@.len() >= 16,
    ensures
        r is Ok <==> ownership_header_error(b@, *tile) is None,
        r matches Err(e) ==> e matches ReferenceError::Invalid(m) && m@ == ownership_header_error(b@, *tile)->0,
{
    let width = b[8] as u32 + 256 * b[9] as u32 + 65536 * b[10] as u32 + 16777216 * b[11] as u32;
    let height = b[12] as u32 + 256 * b[13] as u32 + 65536 * b[14] as u32 + 16777216 * b[15] as u32;
    if !(b[0] == 0x49 && b[1] == 0x53 && b[2] == 0x4f && b[3] == 0x4f && b[4] == 0x57 && b[5] == 0x4e && b[6] == 0x56
        && b[7] == 0x31) || width != tile.width_px || height != tile.height_px {
        proof {
            if b@[0] == 0x49 && b@[1] == 0x53 && b@[2] == 0x4f && b@[3] == 0x4f && b@[4] == 0x57 && b@[5] == 0x4e && b@[6]
                == 0x56 && b@[7] == 0x31 {
                assert(b@.subrange(0, 8) =~= ownership_magic());
            } else {
                assert(b@.subrange(0, 8) != ownership_magic()) by {
                    if b@.subrange(0, 8) == ownership_magic() {
                        assert(b@.subrange(0, 8)[0] == b@[0]);
                    }
                }
            }
        }
        return Err(invalid("atlas ownership header is invalid"));
    }
    proof {
        assert(b@.subrange(0, 8) =~= ownership_magic());
        assert(tile.width_px * tile.height_px <= 0xffff_ffff * 0xffff_ffffu64) by (nonlinear_arith)
            requires tile.width_px <= 0xffff_ffff, tile.height_px <= 0xffff_ffff;
    }
    let pixels: u128 = tile.width_px as u128 * tile.height_px as u128;
    let expected: u128 = 16 + 2 * pixels;
    if expected > u64::MAX as u128 {
        return Err(invalid("ownership length overflowed"));
    }
    if tile.byte_length as u128 != expected {
        return Err(invalid("atlas ownership length is invalid"));
    }
    Ok(())
}

/// Scans the owner words in row-major order: 0 when every one is accepted, else the verdict of the first
/// rejected one (1 for an unknown source, 2 outside the source guard).
fn first_owner_verdict(b: &[u8], tile: &OwnershipTileRecord, manifest: &ReferenceAtlasManifest) -> (r: u8)
    requires
        b@.len() == 16 + 2 * (tile.width_px * tile.height_px),
    ensures
        r == 0 <==> first_pixel_error(b@, *tile, *manifest) is None,
        r == 1 ==> first_pixel_error(b@, *tile, *manifest) == Some("ownership references an unknown source"@),
        r != 0 && r != 1 ==> first_pixel_error(b@, *tile, *manifest) == Some(
            "ownership assigns a pixel outside its source guard"@,
        ),
{
    let blen = b.len();
    proof {
        assert(tile.width_px * tile.height_px <= 0xffff_ffff * 0xffff_ffffu64) by (nonlinear_arith)
            requires tile.width_px <= 0xffff_ffff, tile.height_px <= 0xffff_ffff;
    }
    let n = (tile.width_px as u64 * tile.height_px as u64) as usize;
    if tile.width_px == 0 {
        return 0;
    }
    let dx = tile.column as i128 - manifest.grid.minimum_column as i128;
    let dy = tile.row as i128 - manifest.grid.minimum_row as i128;
    proof {
        assert(-0x1_0000_0000_0000_0000 <= dx * tile.width_px <= 0x1_0000_0000_0000_0000) by (nonlinear_arith)
            requires -0x1_0000_0000 <= dx <= 0x1_0000_0000, 0 <= tile.width_px <= 0xffff_ffff;
        assert(-0x1_0000_0000_0000_0000 <= dy * tile.height_px <= 0x1_0000_0000_0000_0000) by (nonlinear_arith)
            requires -0x1_0000_0000 <= dy <= 0x1_0000_0000, 0 <= tile.height_px <= 0xffff_ffff;
    }
    let origin_x = dx * tile.width_px as i128;
    let origin_y = dy * tile.height_px as i128;
    let mut k: usize = 0;
    while k < n
        invariant
            n == tile.width_px * tile.height_px,
            b@.len() == 16 + 2 * n,
            tile.width_px >= 1,
            origin_x == (tile.column - manifest.grid.minimum_column) * tile.width_px,
            origin_y == (tile.row - manifest.grid.minimum_row) * tile.height_px,
            -0x1_0000_0000_0000_0000 <= origin_x <= 0x1_0000_0000_0000_0000,
            -0x1_0000_0000_0000_0000 <= origin_y <= 0x1_0000_0000_0000_0000,
            k <= n,
            forall|j: int| 0 <= j < k ==> (#[trigger] ownership_pixel_error(b@, *tile, *manifest, j)) is None,
        decreases n - k,
    {
        let verdict = owner_pixel_verdict(b, tile, manifest, origin_x, origin_y, k);
        if verdict != 0 {
            proof {
                lemma_first_pixel_error(b@, *tile, *manifest, k as int);
            }
            return verdict;
        }
        k += 1;
    }
    0
}

/// Checks one owner word: 0 when it is accepted, 1 for an unknown source, 2 outside the guard.
fn owner_pixel_verdict(
    b: &[u8],
    tile: &OwnershipTileRecord,
    manifest: &ReferenceAtlasManifest,
    origin_x: i128,
    origin_y: i128,
    k: usize,
) -> (r: u8)
    requires
        tile.width_px >= 1,
        0 <= k < tile.width_px * tile.height_px,
        b@.len() == 16 + 2 * (tile.width_px * tile.height_px),
        origin_x == (tile.column - manifest.grid.minimum_column) * tile.width_px,
        origin_y == (tile.row - manifest.grid.minimum_row) * tile.height_px,
        -0x1_0000_0000_0000_0000 <= origin_x <= 0x1_0000_0000_0000_0000,
        -0x1_0000_0000_0000_0000 <= origin_y <= 0x1_0000_0000_0000_0000,
    ensures
        r == 0 || r == 1 || r == 2,
        r == 0 <==> ownership_pixel_error(b@, *tile, *manifest, k as int) is None,
        r == 1 ==> ownership_pixel_error(b@, *tile, *manifest, k as int) == Some("ownership references an unknown source"@),
        r == 2 ==> ownership_pixel_error(b@, *tile, *manifest, k as int) == Some(
            "ownership assigns a pixel outside its source guard"@,
        ),
{
    proof {
        reveal(ownership_pixel_error);
    }
    let blen = b.len();
    let w = tile.width_px as usize;
    let owner = b[16 + 2 * k] as usize + 256 * b[16 + 2 * k + 1] as usize;
    let x = k % w;
    let y = k / w;
    proof {
        assert(y <= k) by (nonlinear_arith)
            requires y == k / w, w >= 1;
    }
    if owner >= manifest.sources.len() {
        return 1;
    }
    if !record_covers_exec(&manifest.sources[owner], &manifest.grid, origin_x + x as i128, origin_y + y as i128) {
        return 2;
    }
    0
}

proof fn lemma_first_pixel_error(b: Seq<u8>, t: OwnershipTileRecord, m: ReferenceAtlasManifest, k: int)
    requires
        0 <= k < t.width_px * t.height_px,
        forall|j: int| 0 <= j < k ==> (#[trigger] ownership_pixel_error(b, t, m, j)) is None,
        ownership_pixel_error(b, t, m, k) is Some,
    ensures
        first_pixel_error(b, t, m) == ownership_pixel_error(b, t, m, k),
{
    let q = choose|q: int| 0 <= q < t.width_px * t.height_px && (#[trigger] ownership_pixel_error(b, t, m, q)) is Some && forall|j: int|
        0 <= j < q ==> (#[trigger] ownership_pixel_error(b, t, m, j)) is None;
    assert(ownership_pixel_error(b, t, m, k) is Some);
    if q < k {
        assert(ownership_pixel_error(b, t, m, q) is None);
    } else if q > k {
        assert(ownership_pixel_error(b, t, m, k) is None);
    }
}


/// Every attribution of the given bundles, as a set.
pub open spec fn all_attributions(ms: Seq<ReferenceManifest>) -> Set<Seq<char>> {
    Set::new(|v: Seq<char>| exists|k: int, i: int| 0 <= k < ms.len() && 0 <= i < ms[k].capture.attributions@.len() && (
    #[trigger] ms[k].capture.attributions@[i])@ == v)
}

/// The source record of bundle `k`.
pub open spec fn source_record_of(r: AtlasSourceRecord, m: ReferenceManifest, sha: String, k: int) -> bool {
    &&& r.source_index == k
    &&& r.bundle_id@ == m.bundle_id@
    &&& r.manifest_sha256@ == sha@
    &&& r.column == m.tile.column
    &&& r.row == m.tile.row
    &&& r.core_coverage_basis_points == m.core_coverage_basis_points
}

fn source_record(m: &ReferenceManifest, sha: &String, k: u16) -> (r: AtlasSourceRecord)
    ensures
        source_record_of(r, *m, *sha, k as int),
{
    AtlasSourceRecord {
        source_index: k,
        bundle_id: m.bundle_id.clone(),
        manifest_sha256: sha.clone(),
        column: m.tile.column,
        row: m.tile.row,
        core_coverage_basis_points: m.core_coverage_basis_points,
    }
}

fn copy_tile(t: &TileSpec) -> (r: TileSpec)
    ensures
        r == *t,
{
    TileSpec {
        region_id: t.region_id.clone(),
        column: t.column,
        row: t.row,
        core_width_px: t.core_width_px,
        core_height_px: t.core_height_px,
        guard_px: t.guard_px,
        millimeters_per_pixel: t.millimeters_per_pixel,
        center_longitude_e7: t.center_longitude_e7,
        center_latitude_e7: t.center_latitude_e7,
    }
}

fn copy_camera(c: &CameraSpec) -> (r: CameraSpec)
    ensures
        r == *c,
{
    CameraSpec {
        projection: c.projection.clone(),
        azimuth_millidegrees: c.azimuth_millidegrees,
        elevation_millidegrees: c.elevation_millidegrees,
        target_altitude_mm: c.target_altitude_mm,
        near_mm: c.near_mm,
        far_mm: c.far_mm,
        orthographic_width_mm: c.orthographic_width_mm,
        orthographic_height_mm: c.orthographic_height_mm,
        camera_distance_mm: c.camera_distance_mm,
    }
}

fn copy_session(s: &SessionRecord) -> (r: SessionRecord)
    ensures
        r == *s,
{
    SessionRecord {
        session_id: s.session_id.clone(),
        root_tileset_sha256: s.root_tileset_sha256.clone(),
        started_at: s.started_at.clone(),
        expires_at: s.expires_at.clone(),
    }
}

/// Whether the grid spanned by the tiles has more than `u16::MAX` columns or rows.
pub open spec fn grid_overflows(tiles: Seq<TileSpec>) -> bool {
    exists|lo: int, hi: int, rlo: int, rhi: int|
        column_span(tiles, lo, hi) && row_span(tiles, rlo, rhi) && (hi - lo + 1 > u16::MAX || rhi - rlo + 1 > u16::MAX)
}

/// The manifest assembled from a request, its sources in ownership order with their digests,
/// and the written tile records.
pub open spec fn manifest_described(
    m: ReferenceAtlasManifest,
    request: AtlasCompileRequest,
    sources: Seq<ReferenceManifest>,
    shas: Seq<String>,
    layer_tiles: Seq<AtlasLayerTileRecord>,
    ownership_tiles: Seq<OwnershipTileRecord>,
) -> bool {
    &&& sources.len() >= 1 && shas.len() == sources.len()
    &&& m.schema@ == ATLAS_MANIFEST_SCHEMA@
    &&& m.atlas_id@ == request.atlas_id@
    &&& m.source_session == request.source_session
    &&& grid_of(sources.map_values(|s: ReferenceManifest| s.tile), m.grid)
    &&& m.camera == sources[0].camera
    &&& m.provider@ == sources[0].capture.provider@
    &&& m.renderer@ == sources[0].capture.renderer@
    &&& m.renderer_version@ == sources[0].capture.renderer_version@
    &&& m.source_epoch@ == sources[0].capture.source_epoch@
    &&& strictly_sorted(m.attributions@)
    &&& id_set(m.attributions@) == all_attributions(sources)
    &&& m.sources@.len() == sources.len()
    &&& forall|k: int| 0 <= k < sources.len() ==> source_record_of(#[trigger] m.sources@[k], sources[k], shas[k], k)
    &&& m.layer_tiles@ == layer_tiles
    &&& m.ownership_tiles@ == ownership_tiles
    &&& m.ownership_map_sha256@ == hex_spec(sha256_spec(ownership_preimage(ownership_tiles)))
}

/// Assembles the manifest of an atlas from its request, its sources in ownership order with
/// their manifest digests, and the written tile records: the grid of the sources, the first
/// source's camera and capture identity, the sorted union of attributions, one record per
/// source, and the digest of the ownership map. The manifest is returned only when it
/// validates.
pub fn atlas_manifest(
    request: &AtlasCompileRequest,
    sources: &Vec<ReferenceManifest>,
    manifest_sha256: &Vec<String>,
    layer_tiles: Vec<AtlasLayerTileRecord>,
    ownership_tiles: Vec<OwnershipTileRecord>,
) -> (r: Result<ReferenceAtlasManifest, ReferenceError>)
    ensures
        r matches Ok(m) ==> atlas_manifest_error(m) is None && manifest_described(
            m,
            *request,
            sources@,
            manifest_sha256@,
            layer_tiles@,
            ownership_tiles@,
        ),
        (sources@.len() >= 1 && manifest_sha256@.len() == sources@.len() && sources@.len() <= u16::MAX && !grid_overflows(
            sources@.map_values(|s: ReferenceManifest| s.tile),
        ) && forall|m: ReferenceAtlasManifest|
            manifest_described(m, *request, sources@, manifest_sha256@, layer_tiles@, ownership_tiles@)
                ==> #[trigger] atlas_manifest_error(m) is None) ==> r is Ok,
        sources@.len() == 0 || manifest_sha256@.len() != sources@.len() || sources@.len() > u16::MAX ==> r is Err,
{
    if sources.len() == 0 || manifest_sha256.len() != sources.len() || sources.len() > 65_535 {
        return Err(invalid("atlas sources and their digests disagree"));
    }
    let mut tiles: Vec<TileSpec> = Vec::new();
    let mut k: usize = 0;
    while k < sources.len()
        invariant
            k <= sources@.len(),
            tiles@ == sources@.take(k as int).map_values(|s: ReferenceManifest| s.tile),
        decreases sources@.len() - k,
    {
        tiles.push(copy_tile(&sources[k].tile));
        proof {
            assert(sources@.take(k + 1).map_values(|s: ReferenceManifest| s.tile) =~= sources@.take(k as int).map_values(
                |s: ReferenceManifest| s.tile,
            ).push(sources@[k as int].tile));
        }
        k += 1;
    }
    assert(sources@.take(k as int) =~= sources@);
    let grid = match atlas_grid(&tiles) {
        Ok(g) => g,
        Err(e) => return Err(e),
    };
    let mut attributions: Vec<String> = Vec::new();
    let mut records: Vec<AtlasSourceRecord> = Vec::new();
    let mut k: usize = 0;
    while k < sources.len()
        invariant
            k <= sources@.len() <= 65_535,
            manifest_sha256@.len() == sources@.len(),
            strictly_sorted(attributions@),
            id_set(attributions@) == all_attributions(sources@.take(k as int)),
            records@.len() == k,
            forall|j: int| 0 <= j < k ==> source_record_of(#[trigger] records@[j], sources@[j], manifest_sha256@[j], j),
        decreases sources@.len() - k,
    {
        let list = &sources[k].capture.attributions;
        let ghost before = attributions@;
        let mut i: usize = 0;
        while i < list.len()
            invariant
                k < sources@.len(),
                list@ == sources@[k as int].capture.attributions@,
                i <= list@.len(),
                strictly_sorted(attributions@),
                id_set(attributions@) == id_set(before).union(Set::new(|v: Seq<char>| exists|t: int| 0 <= t < i && (#[trigger] list@[t])@ == v)),
            decreases list@.len() - i,
        {
            insert_id(&mut attributions, list[i].as_str());
            proof {
                assert(id_set(attributions@) =~= id_set(before).union(Set::new(|v: Seq<char>| exists|t: int| 0 <= t < i + 1 && (#[trigger] list@[t])@ == v)));
            }
            i += 1;
        }
        proof {
            let ms = sources@.take(k + 1);
            assert(all_attributions(ms) =~= all_attributions(sources@.take(k as int)).union(Set::new(|v: Seq<char>| exists|t: int| 0 <= t < list@.len() && (#[trigger] list@[t])@ == v))) by {
                assert forall|v: Seq<char>| all_attributions(ms).contains(v) implies all_attributions(sources@.take(k as int)).union(Set::new(|v: Seq<char>| exists|t: int| 0 <= t < list@.len() && (#[trigger] list@[t])@ == v)).contains(v) by {
                    let (a, b) = choose|a: int, b: int| 0 <= a < ms.len() && 0 <= b < ms[a].capture.attributions@.len() && (#[trigger] ms[a].capture.attributions@[b])@ == v;
                    if a < k {
                        assert(sources@.take(k as int)[a] == ms[a]);
                    } else {
                        assert(list@[b]@ == v);
                    }
                }
                assert forall|v: Seq<char>| all_attributions(sources@.take(k as int)).union(Set::new(|v: Seq<char>| exists|t: int| 0 <= t < list@.len() && (#[trigger] list@[t])@ == v)).contains(v) implies all_attributions(ms).contains(v) by {
                    if all_attributions(sources@.take(k as int)).contains(v) {
                        let (a, b) = choose|a: int, b: int| 0 <= a < k && 0 <= b < sources@.take(k as int)[a].capture.attributions@.len() && (#[trigger] sources@.take(k as int)[a].capture.attributions@[b])@ == v;
                        assert(ms[a] == sources@.take(k as int)[a]);
                        assert(ms[a].capture.attributions@[b]@ == v);
                    } else {
                        let t = choose|t: int| 0 <= t < list@.len() && (#[trigger] list@[t])@ == v;
                        assert(ms[k as int].capture.attributions@[t]@ == v);
                    }
                }
            }
        }
        records.push(source_record(&sources[k], &manifest_sha256[k], k as u16));
        k += 1;
    }
    assert(sources@.take(k as int) =~= sources@);
    let ownership_map_sha256 = ownership_digest(&ownership_tiles);
    let first = &sources[0];
    let m = ReferenceAtlasManifest {
        schema: ATLAS_MANIFEST_SCHEMA.to_string(),
        atlas_id: request.atlas_id.clone(),
        grid,
        camera: copy_camera(&first.camera),
        provider: first.capture.provider.clone(),
        renderer: first.capture.renderer.clone(),
        renderer_version: first.capture.renderer_version.clone(),
        source_epoch: first.capture.source_epoch.clone(),
        source_session: copy_session(&request.source_session),
        attributions,
        sources: records,
        layer_tiles,
        ownership_tiles,
        ownership_map_sha256,
    };
    assert(manifest_described(m, *request, sources@, manifest_sha256@, layer_tiles@, ownership_tiles@));
    match validate_atlas_manifest(&m) {
        Ok(()) => Ok(m),
        Err(e) => Err(e),
    }
}


/// The PNG color type a layer kind is stored with, or `None` for depth.
pub open spec fn atlas_png_color(kind: LayerKind) -> Option<PngColor> {
    match kind {
        LayerKind::Color | LayerKind::Whitebox | LayerKind::ViewNormal => Some(PngColor::Rgba),
        LayerKind::FixedShadow | LayerKind::Coverage => Some(PngColor::Grayscale),
        LayerKind::LinearDepth => None,
    }
}

/// Whether the decoder accepts the bytes with the header and frame a layer kind needs.
pub open spec fn layer_png_decodes(bytes: Seq<u8>, kind: LayerKind) -> bool {
    match (png_header_of(bytes), png_frame_of(bytes)) {
        (Some(h), Some(f)) => {
            &&& atlas_png_color(kind) == Some(h.2)
            &&& h.3 == 8
            &&& !h.4
            &&& f.len() == h.0 * h.1 * (if h.2 == PngColor::Rgba { 4int } else { 1int })
        },
        _ => false,
    }
}

fn decode_failure(prefix: &str, message: String) -> (e: ReferenceError)
    ensures
        e matches ReferenceError::Invalid(m) && m@ == prefix@ + message@,
{
    let mut m = String::from_str(prefix);
    m.push_str(message.as_str());
    ReferenceError::Invalid(m)
}

/// Decodes the PNG of one atlas source layer to its packed raw pixels: the layer must be
/// eight-bit, not interlaced, RGBA for color, whitebox and normals and gray for fixed shadow
/// and coverage; depth never enters the PNG decoder. Returns the width, height and pixels.
pub fn decode_layer_png(bytes: &[u8], kind: LayerKind) -> (r: Result<(u32, u32, Vec<u8>), ReferenceError>)
    ensures
        atlas_png_color(kind) is None ==> (r matches Err(ReferenceError::Invalid(m)) && m@
            == "depth cannot enter the PNG decoder"@),
        r matches Ok(v) ==> {
            &&& atlas_png_color(kind) is Some
            &&& png_header_of(bytes@) == Some((v.0, v.1, atlas_png_color(kind)->0, 8u8, false))
            &&& png_frame_of(bytes@) == Some(v.2@)
            &&& v.2@.len() == v.0 * v.1 * (if atlas_png_color(kind) == Some(PngColor::Rgba) { 4int } else { 1int })
        },
        layer_png_decodes(bytes@, kind) ==> r is Ok,
{
    let expected = match kind {
        LayerKind::Color | LayerKind::Whitebox | LayerKind::ViewNormal => PngColor::Rgba,
        LayerKind::FixedShadow | LayerKind::Coverage => PngColor::Grayscale,
        LayerKind::LinearDepth => return Err(invalid("depth cannot enter the PNG decoder")),
    };
    let header = match read_png_header(bytes) {
        Ok(h) => h,
        Err(message) => return Err(decode_failure("atlas PNG decode failed: ", message)),
    };
    if header.bit_depth != 8 || header.color != expected || header.interlaced {
        return Err(invalid("atlas PNG color or interlace contract changed during decoding"));
    }
    let frame = match read_png_frame(bytes) {
        Ok(f) => f,
        Err(message) => return Err(decode_failure("atlas PNG row failed: ", message)),
    };
    let bpp: u128 = if expected == PngColor::Rgba { 4 } else { 1 };
    proof {
        assert(header.width * header.height <= u32::MAX * u32::MAX) by (nonlinear_arith)
            requires
                header.width <= u32::MAX,
                header.height <= u32::MAX,
        ;
    }
    if frame.len() as u128 != header.width as u128 * header.height as u128 * bpp {
        return Err(invalid("decoded PNG row violates the registered width"));
    }
    Ok((header.width, header.height, frame))
}


/// Whether the bytes of a file have the recorded length and lowercase SHA-256.
pub open spec fn hashed_ok(b: Seq<u8>, byte_length: u64, sha256: String) -> bool {
    b.len() == byte_length && hex_spec(sha256_spec(b)) == sha256@
}

/// Whether the header of a layer tile file declares the recorded grid: a depth magic and grid,
/// or an eight-bit PNG of the kind's color type.
pub open spec fn layer_header_ok(t: AtlasLayerTileRecord, b: Seq<u8>) -> bool {
    if t.kind is LinearDepth {
        &&& b.len() >= 16
        &&& b.subrange(0, 8) == DEPTH_MAGIC@
        &&& depth_value(b.subrange(8, 12)) == t.width_px
        &&& depth_value(b.subrange(12, 16)) == t.height_px
    } else {
        match png_header_of(b) {
            Some(h) => atlas_png_color(t.kind) == Some(h.2) && h.3 == 8 && h.0 == t.width_px && h.1 == t.height_px,
            None => false,
        }
    }
}

/// Total bytes of the first `n` layer tiles and then the first `m` ownership tiles.
pub open spec fn atlas_bytes(m: ReferenceAtlasManifest, n: int, k: int) -> int
    decreases (if n > 0 { n } else { 0 }) + (if k > 0 { k } else { 0 }),
{
    if k > 0 {
        atlas_bytes(m, n, k - 1) + m.ownership_tiles@[k - 1].byte_length
    } else if n > 0 {
        atlas_bytes(m, n - 1, 0) + m.layer_tiles@[n - 1].byte_length
    } else {
        0
    }
}

proof fn lemma_atlas_bytes_grow(m: ReferenceAtlasManifest, n: int, k: int, n2: int, k2: int)
    requires
        0 <= n <= n2,
        0 <= k <= k2,
        k == 0 || n == n2,
    ensures
        atlas_bytes(m, n, k) <= atlas_bytes(m, n2, k2),
    decreases n2 + k2,
{
    if k2 > k {
        lemma_atlas_bytes_grow(m, n, k, n2, k2 - 1);
    } else if n2 > n {
        lemma_atlas_bytes_grow(m, n, k, n2 - 1, k2);
    }
}

fn hashed_file(bytes: &[u8], byte_length: u64, sha256: &String, path: &String) -> (r: Result<(), ReferenceError>)
    ensures
        r is Ok <==> hashed_ok(bytes@, byte_length, *sha256),
        r matches Err(ReferenceError::Invalid(m)) ==> m@ == "atlas artifact "@ + path@ + " fails its hash or file contract"@,
{
    if bytes.len() as u64 != byte_length || !str_eq(sha256_hex(bytes).as_str(), sha256.as_str()) {
        let mut m = String::from_str("atlas artifact ");
        m.push_str(path.as_str());
        m.push_str(" fails its hash or file contract");
        return Err(ReferenceError::Invalid(m));
    }
    Ok(())
}

fn layer_header(t: &AtlasLayerTileRecord, bytes: &[u8]) -> (r: Result<(), ReferenceError>)
    ensures
        r is Ok <==> layer_header_ok(*t, bytes@),
{
    match t.kind {
        LayerKind::LinearDepth => {
            if bytes.len() < 16 {
                return Err(invalid("atlas depth header has the wrong magic"));
            }
            let mut header: Vec<u8> = Vec::new();
            let mut i: usize = 0;
            while i < 16
                invariant
                    i <= 16,
                    bytes@.len() >= 16,
                    header@ == bytes@.subrange(0, i as int),
                decreases 16 - i,
            {
                header.push(bytes[i]);
                i += 1;
                assert(header@ =~= bytes@.subrange(0, i as int));
            }
            match check_depth_header(header.as_slice(), t.width_px, t.height_px) {
                Ok(()) => {
                    proof {
                        assert(bytes@.subrange(0, 16).subrange(0, 8) =~= bytes@.subrange(0, 8));
                        assert(bytes@.subrange(0, 16).subrange(8, 12) =~= bytes@.subrange(8, 12));
                        assert(bytes@.subrange(0, 16).subrange(12, 16) =~= bytes@.subrange(12, 16));
                    }
                    Ok(())
                },
                Err(_) => {
                    proof {
                        assert(bytes@.subrange(0, 16).subrange(0, 8) =~= bytes@.subrange(0, 8));
                        assert(bytes@.subrange(0, 16).subrange(8, 12) =~= bytes@.subrange(8, 12));
                        assert(bytes@.subrange(0, 16).subrange(12, 16) =~= bytes@.subrange(12, 16));
                    }
                    Err(invalid("atlas layer tile header contradicts its manifest"))
                },
            }
        },
        _ => {
            let h = match read_png_header(bytes) {
                Ok(h) => h,
                Err(message) => return Err(decode_failure("atlas PNG header failed: ", message)),
            };
            let expected = match t.kind {
                LayerKind::FixedShadow | LayerKind::Coverage => PngColor::Grayscale,
                _ => PngColor::Rgba,
            };
            if h.bit_depth != 8 || h.color != expected {
                return Err(invalid("atlas PNG header has the wrong color contract"));
            }
            if h.width != t.width_px || h.height != t.height_px {
                return Err(invalid("atlas layer tile header contradicts its manifest"));
            }
            Ok(())
        },
    }
}

/// Validates an atlas against the exact bytes of its layer and ownership tile files, in
/// manifest order, and reports the digest of its canonical manifest JSON text and its size.
pub fn validate_atlas(
    manifest: &ReferenceAtlasManifest,
    layer_files: &Vec<Vec<u8>>,
    ownership_files: &Vec<Vec<u8>>,
    manifest_json: &str,
) -> (r: Result<AtlasReport, ReferenceError>)
    ensures
        r is Ok <==> atlas_files_ok(*manifest, layer_files@, ownership_files@),
        r matches Ok(report) ==> {
            &&& report.manifest_sha256@ == hex_spec(sha256_spec(manifest_json.spec_bytes()))
            &&& report.tile_count == manifest.ownership_tiles@.len()
            &&& report.total_bytes == atlas_bytes(*manifest, manifest.layer_tiles@.len() as int, manifest.ownership_tiles@.len() as int)
            &&& report.peak_row_buffer_bytes == 0
        },
{
    match validate_atlas_manifest(manifest) {
        Ok(()) => {},
        Err(e) => return Err(e),
    }
    if layer_files.len() != manifest.layer_tiles.len() || ownership_files.len() != manifest.ownership_tiles.len() {
        return Err(invalid("atlas files do not match their manifest records"));
    }
    let mut total: u64 = 0;
    let mut k: usize = 0;
    while k < layer_files.len()
        invariant
            k <= layer_files@.len() == manifest.layer_tiles@.len(),
            ownership_files@.len() == manifest.ownership_tiles@.len(),
            atlas_manifest_error(*manifest) is None,
            forall|j: int| 0 <= j < k ==> #[trigger] layer_file_ok(manifest.layer_tiles@[j], layer_files@[j]@),
            total == atlas_bytes(*manifest, k as int, 0),
        decreases layer_files@.len() - k,
    {
        let t = &manifest.layer_tiles[k];
        match hashed_file(layer_files[k].as_slice(), t.byte_length, &t.sha256, &t.path) {
            Ok(()) => {},
            Err(e) => {
                assert(!layer_file_ok(manifest.layer_tiles@[k as int], layer_files@[k as int]@));
                return Err(e);
            },
        }
        match layer_header(t, layer_files[k].as_slice()) {
            Ok(()) => {},
            Err(e) => {
                assert(!layer_file_ok(manifest.layer_tiles@[k as int], layer_files@[k as int]@));
                return Err(e);
            },
        }
        if total > u64::MAX - t.byte_length {
            assert(atlas_bytes(*manifest, k + 1, 0) > u64::MAX);
            return Err(invalid("atlas byte total overflowed"));
        }
        total = total + t.byte_length;
        k += 1;
    }
    let mut k: usize = 0;
    while k < ownership_files.len()
        invariant
            k <= ownership_files@.len() == manifest.ownership_tiles@.len(),
            layer_files@.len() == manifest.layer_tiles@.len(),
            atlas_manifest_error(*manifest) is None,
            forall|j: int| 0 <= j < layer_files@.len() ==> #[trigger] layer_file_ok(manifest.layer_tiles@[j], layer_files@[j]@),
            forall|j: int| 0 <= j < k ==> #[trigger] ownership_file_ok(*manifest, manifest.ownership_tiles@[j], ownership_files@[j]@),
            total == atlas_bytes(*manifest, layer_files@.len() as int, k as int),
        decreases ownership_files@.len() - k,
    {
        let t = &manifest.ownership_tiles[k];
        match hashed_file(ownership_files[k].as_slice(), t.byte_length, &t.sha256, &t.path) {
            Ok(()) => {},
            Err(e) => {
                assert(!ownership_file_ok(*manifest, manifest.ownership_tiles@[k as int], ownership_files@[k as int]@));
                return Err(e);
            },
        }
        if ownership_files[k].len() < 16 {
            assert(!ownership_file_ok(*manifest, manifest.ownership_tiles@[k as int], ownership_files@[k as int]@));
            return Err(invalid("atlas ownership tile is shorter than its header"));
        }
        match check_ownership_bytes(ownership_files[k].as_slice(), t, manifest) {
            Ok(()) => {},
            Err(e) => {
                assert(!ownership_file_ok(*manifest, manifest.ownership_tiles@[k as int], ownership_files@[k as int]@));
                return Err(e);
            },
        }
        if total > u64::MAX - t.byte_length {
            assert(atlas_bytes(*manifest, layer_files@.len() as int, k + 1) > u64::MAX);
            return Err(invalid("atlas byte total overflowed"));
        }
        total = total + t.byte_length;
        k += 1;
    }
    proof {
        let lt = layer_files@.len() as int;
        let ot = ownership_files@.len() as int;
        assert forall|n: int, k: int| 0 <= n <= lt && 0 <= k <= ot && (k == 0 || n == lt) implies #[trigger] atlas_bytes(
            *manifest,
            n,
            k,
        ) <= u64::MAX by {
            lemma_atlas_bytes_grow(*manifest, n, k, lt, ot);
        }
    }
    Ok(AtlasReport {
        manifest_sha256: sha256_hex(manifest_json.as_bytes()),
        tile_count: manifest.ownership_tiles.len(),
        total_bytes: total,
        peak_row_buffer_bytes: 0,
    })
}

/// A layer tile file matches its record: length, digest, and header grid.
pub open spec fn layer_file_ok(t: AtlasLayerTileRecord, b: Seq<u8>) -> bool {
    hashed_ok(b, t.byte_length, t.sha256) && layer_header_ok(t, b)
}

/// An ownership tile file matches its record and the manifest.
pub open spec fn ownership_file_ok(m: ReferenceAtlasManifest, t: OwnershipTileRecord, b: Seq<u8>) -> bool {
    hashed_ok(b, t.byte_length, t.sha256) && b.len() >= 16 && ownership_bytes_error(b, t, m) is None
}

/// The manifest validates, one file per record, every file matches its record, and the byte
/// total fits 64 bits.
pub open spec fn atlas_files_ok(m: ReferenceAtlasManifest, layers: Seq<Vec<u8>>, owners: Seq<Vec<u8>>) -> bool {
    &&& atlas_manifest_error(m) is None
    &&& layers.len() == m.layer_tiles@.len()
    &&& owners.len() == m.ownership_tiles@.len()
    &&& forall|j: int| 0 <= j < layers.len() ==> #[trigger] layer_file_ok(m.layer_tiles@[j], layers[j]@)
    &&& forall|j: int| 0 <= j < owners.len() ==> #[trigger] ownership_file_ok(m, m.ownership_tiles@[j], owners[j]@)
    &&& forall|n: int, k: int|
        0 <= n <= layers.len() && 0 <= k <= owners.len() && (k == 0 || n == layers.len()) ==> #[trigger] atlas_bytes(m, n, k)
            <= u64::MAX
}

/// Whether cell `a` comes before cell `b` in ownership order: by row, then by column.
pub open spec fn cell_before(a: TileSpec, b: TileSpec) -> bool {
    a.row < b.row || (a.row == b.row && a.column < b.column)
}

/// Sources with their manifest digests in ownership order.
pub open spec fn in_cell_order(s: Seq<(ReferenceManifest, String)>) -> bool {
    forall|i: int, j: int| #![trigger s[i], s[j]] 0 <= i < j < s.len() ==> !cell_before(s[j].0.tile, s[i].0.tile)
}

/// No two sources share a cell.
pub open spec fn cells_distinct(s: Seq<(ReferenceManifest, String)>) -> bool {
    forall|i: int, j: int|
        #![trigger s[i], s[j]]
        0 <= i < j < s.len() ==> s[i].0.tile.row != s[j].0.tile.row || s[i].0.tile.column != s[j].0.tile.column
}

/// Puts sources with their manifest digests in ownership order, by row and then by column.
/// Sources that share a cell, which a validated source set has none of, come in no promised
/// order among themselves.
pub fn order_sources(sources: Vec<(ReferenceManifest, String)>) -> (r: Vec<(ReferenceManifest, String)>)
    ensures
        r@.to_multiset() == sources@.to_multiset(),
        in_cell_order(r@),
{
    broadcast use vstd::seq_lib::group_to_multiset_ensures;
    let ghost original = sources@;
    let mut rest = sources;
    let mut out: Vec<(ReferenceManifest, String)> = Vec::new();
    proof {
        assert(out@.to_multiset() =~= Multiset::empty());
        assert(out@.to_multiset().add(rest@.to_multiset()) =~= original.to_multiset());
    }
    while rest.len() > 0
        invariant
            out@.to_multiset().add(rest@.to_multiset()) == original.to_multiset(),
            in_cell_order(out@),
        decreases rest@.len(),
    {
        let ghost before = rest@;
        let x = match rest.pop() {
            Some(x) => x,
            None => {
                assert(false);
                return out;
            },
        };
        proof {
            assert(before =~= rest@.push(x));
            vstd::seq_lib::to_multiset_build(rest@, x);
        }
        let mut p: usize = 0;
        while p < out.len() && !(x.0.tile.row < out[p].0.tile.row || (x.0.tile.row == out[p].0.tile.row
            && x.0.tile.column < out[p].0.tile.column))
            invariant
                p <= out@.len(),
                forall|k: int| 0 <= k < p ==> !cell_before(x.0.tile, (#[trigger] out@[k]).0.tile),
            decreases out@.len() - p,
        {
            p += 1;
        }
        let ghost shorter = out@;
        out.insert(p, x);
        proof {
            vstd::seq_lib::to_multiset_insert(shorter, p as int, x);
            assert(out@.to_multiset().add(rest@.to_multiset()) =~= original.to_multiset());
            assert forall|i: int, j: int| #![trigger out@[i], out@[j]] 0 <= i < j < out@.len() implies !cell_before(
                out@[j].0.tile,
                out@[i].0.tile,
            ) by {
                if j < p {
                    assert(out@[i] == shorter[i] && out@[j] == shorter[j]);
                } else if j == p {
                    assert(out@[i] == shorter[i]);
                } else if i == p {
                    assert(out@[j] == shorter[j - 1]);
                    assert(cell_before(x.0.tile, shorter[p as int].0.tile));
                    if j - 1 > p {
                        assert(!cell_before(shorter[j - 1].0.tile, shorter[p as int].0.tile));
                    }
                } else if i < p {
                    assert(out@[i] == shorter[i] && out@[j] == shorter[j - 1]);
                } else {
                    assert(out@[i] == shorter[i - 1] && out@[j] == shorter[j - 1]);
                }
            }
        }
    }
    proof {
        assert(rest@.to_multiset() =~= Multiset::empty());
        assert(out@.to_multiset() =~= original.to_multiset());
    }
    out
}

proof fn lemma_cells_distinct_transfer(x: Seq<(ReferenceManifest, String)>, y: Seq<(ReferenceManifest, String)>)
    requires
        x.to_multiset() == y.to_multiset(),
        cells_distinct(x),
    ensures
        cells_distinct(y),
{
    broadcast use vstd::seq_lib::group_to_multiset_ensures;
    assert(x.no_duplicates()) by {
        assert forall|i: int, j: int| 0 <= i < x.len() && 0 <= j < x.len() && i != j implies x[i] != x[j] by {
            if i < j {
                assert(x[i].0.tile.row != x[j].0.tile.row || x[i].0.tile.column != x[j].0.tile.column);
            } else {
                assert(x[j].0.tile.row != x[i].0.tile.row || x[j].0.tile.column != x[i].0.tile.column);
            }
        }
    }
    x.lemma_multiset_has_no_duplicates();
    y.lemma_multiset_has_no_duplicates_conv();
    assert forall|i: int, j: int| #![trigger y[i], y[j]] 0 <= i < j < y.len() implies y[i].0.tile.row != y[j].0.tile.row
        || y[i].0.tile.column != y[j].0.tile.column by {
        assert(y[i] != y[j]);
        assert(y.contains(y[i]) && y.contains(y[j]));
        assert(x.to_multiset().count(y[i]) > 0 && x.to_multiset().count(y[j]) > 0);
        let a = choose|a: int| 0 <= a < x.len() && x[a] == y[i];
        let b = choose|b: int| 0 <= b < x.len() && x[b] == y[j];
        assert(a != b);
        if a < b {
            assert(x[a].0.tile.row != x[b].0.tile.row || x[a].0.tile.column != x[b].0.tile.column);
        } else {
            assert(x[b].0.tile.row != x[a].0.tile.row || x[b].0.tile.column != x[a].0.tile.column);
        }
    }
}

proof fn lemma_cell_order_unique(a: Seq<(ReferenceManifest, String)>, b: Seq<(ReferenceManifest, String)>)
    requires
        a.to_multiset() == b.to_multiset(),
        in_cell_order(a),
        in_cell_order(b),
        cells_distinct(a),
    ensures
        a == b,
    decreases a.len(),
{
    broadcast use vstd::seq_lib::group_to_multiset_ensures;
    if a.len() == 0 {
        assert(b.len() == b.to_multiset().len());
        assert(a =~= b);
    } else {
        assert(b.len() == a.len()) by {
            assert(a.len() == a.to_multiset().len() && b.len() == b.to_multiset().len());
        }
        let x = a[0];
        let y = b[0];
        assert(b.contains(y));
        assert(a.to_multiset().count(y) > 0);
        let k = choose|k: int| 0 <= k < a.len() && a[k] == y;
        assert(a.contains(x));
        assert(b.to_multiset().count(x) > 0);
        let m = choose|m: int| 0 <= m < b.len() && b[m] == x;
        if k > 0 {
            assert(!cell_before(a[k].0.tile, a[0].0.tile));
            if m > 0 {
                assert(!cell_before(b[m].0.tile, b[0].0.tile));
            }
            assert(a[0].0.tile.row != a[k].0.tile.row || a[0].0.tile.column != a[k].0.tile.column);
            assert(false);
        }
        assert(x == y);
        vstd::seq_lib::to_multiset_remove(a, 0);
        vstd::seq_lib::to_multiset_remove(b, 0);
        assert(a.remove(0) =~= a.drop_first());
        assert(b.remove(0) =~= b.drop_first());
        assert(in_cell_order(a.drop_first())) by {
            assert forall|i: int, j: int| #![trigger a.drop_first()[i], a.drop_first()[j]] 0 <= i < j < a.drop_first().len() implies !cell_before(
                a.drop_first()[j].0.tile,
                a.drop_first()[i].0.tile,
            ) by {
                assert(a.drop_first()[i] == a[i + 1] && a.drop_first()[j] == a[j + 1]);
            }
        }
        assert(in_cell_order(b.drop_first())) by {
            assert forall|i: int, j: int| #![trigger b.drop_first()[i], b.drop_first()[j]] 0 <= i < j < b.drop_first().len() implies !cell_before(
                b.drop_first()[j].0.tile,
                b.drop_first()[i].0.tile,
            ) by {
                assert(b.drop_first()[i] == b[i + 1] && b.drop_first()[j] == b[j + 1]);
            }
        }
        assert(cells_distinct(a.drop_first())) by {
            assert forall|i: int, j: int| #![trigger a.drop_first()[i], a.drop_first()[j]] 0 <= i < j < a.drop_first().len() implies a.drop_first()[i].0.tile.row
                != a.drop_first()[j].0.tile.row || a.drop_first()[i].0.tile.column != a.drop_first()[j].0.tile.column by {
                assert(a.drop_first()[i] == a[i + 1] && a.drop_first()[j] == a[j + 1]);
            }
        }
        lemma_cell_order_unique(a.drop_first(), b.drop_first());
        assert forall|i: int| 0 <= i < a.len() implies a[i] == b[i] by {
            if i > 0 {
                assert(a[i] == a.drop_first()[i - 1] && b[i] == b.drop_first()[i - 1]);
            }
        }
        assert(a =~= b);
    }
}

/// Ownership order does not depend on the order sources are given in: two orderings of the
/// same sources, no two of which share a cell, are one sequence.
pub proof fn lemma_source_order_ignores_input_order(
    x: Seq<(ReferenceManifest, String)>,
    y: Seq<(ReferenceManifest, String)>,
    ordered_x: Seq<(ReferenceManifest, String)>,
    ordered_y: Seq<(ReferenceManifest, String)>,
)
    requires
        x.to_multiset() == y.to_multiset(),
        cells_distinct(x),
        ordered_x.to_multiset() == x.to_multiset() && in_cell_order(ordered_x),
        ordered_y.to_multiset() == y.to_multiset() && in_cell_order(ordered_y),
    ensures
        ordered_x == ordered_y,
{
    lemma_cells_distinct_transfer(x, ordered_x);
    lemma_cell_order_unique(ordered_x, ordered_y);
}

} // verus!
