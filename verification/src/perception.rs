//! Deterministic semantic evidence over a fixed review grid: the portable
//! artifact contract, per-cell accumulation, and cell classification.
//!
//! Perception produces semantic evidence only. Source pixels and point records
//! never cross into the canonical world or renderer.
use vstd::prelude::*;
use tiff::decoder::{Decoder as TiffDecoder, DecodingResult};
use tiff::ColorType as TiffColorType;
use crate::digest::{is_sha256, is_sha256_bytes};
use vstd::string::StringSliceAdditionalSpecFns;
use crate::text::{lemma_encoding_nonempty, lemma_str_order, lemma_str_total, str_eq, str_lt, str_lt_spec};

verus! {

/// Portable semantic-evidence schema.
pub const ARTIFACT_SCHEMA: &'static str = "isometric-perception-evidence/v1";
/// Accepted prototype region identifier.
pub const REGION_ID: &'static str = "stanford-hero-v1";
/// Lifecycle state of a compiled artifact.
pub const EVIDENCE_STATUS: &'static str = "compiled-prototype-evidence";
/// Canonical compiler implementation.
pub const EVIDENCE_COMPILER: &'static str = "rust-naip-lidar-consensus-v1";
/// Coordinate reference of the review grid.
pub const GRID_CRS: &'static str = "local integer millimeters derived from EPSG:26910";
/// Source identifier of the aerial imagery.
pub const NAIP_SOURCE_ID: &'static str = "naip-2024-hero";
/// Fixed local world origin in EPSG:26910.
pub const ORIGIN_EASTING_MM: i64 = 573_200_000;
/// Fixed local world origin in EPSG:26910.
pub const ORIGIN_NORTHING_MM: i64 = 4_142_200_000;
/// Review-cell edge length.
pub const CELL_SIZE_MM: i64 = 20_000;
/// First prototype review-cell easting relative to the world origin.
pub const GRID_MIN_X_MM: i64 = 43_583;
/// First prototype review-cell northing relative to the world origin.
pub const GRID_MIN_Y_MM: i64 = 86_784;
/// Number of prototype review-cell columns.
pub const GRID_COLUMNS: u16 = 31;
/// Number of prototype review-cell rows.
pub const GRID_ROWS: u16 = 31;
/// Number of review cells.
pub const GRID_CELLS: usize = 961;
/// Peak reusable point-cloud buffer.
pub const LIDAR_CHUNK_POINTS: u32 = 250_000;

/// Rejected policy metadata.
pub const POLICY_INVALID: &'static str = "evidence policy metadata is invalid";
/// Rejected provenance hashes.
pub const PROVENANCE_INVALID: &'static str = "evidence provenance hashes are invalid";
/// Rejected coverage accounting.
pub const ACCOUNTING_INVALID: &'static str = "evidence coverage accounting is invalid";
/// A cell address outside the grid.
pub const CELL_OUTSIDE: &'static str = "cell lies outside the prototype grid";
/// Invalid or unsorted cells.
pub const CELLS_INVALID: &'static str = "evidence cells are invalid or unsorted";
/// Unknown evidence that carries a material or height.
pub const UNKNOWN_INVENTS: &'static str = "unknown evidence invents material or height";
/// An eligible cell without imagery samples.
pub const CELL_UNCOVERED: &'static str = "eligible cell lacks NAIP coverage";

/// Fail-closed evidence error.
#[derive(Clone, Copy, Debug, Eq, PartialEq)]
pub enum PerceptionError {
    /// A semantic or policy invariant failed.
    Invalid(&'static str),
}

impl PerceptionError {
    /// Human-readable description.
    pub fn message(&self) -> (r: &'static str)
        ensures
            r@ == (match *self {
                PerceptionError::Invalid(m) => m@,
            }),
    {
        match self {
            PerceptionError::Invalid(message) => message,
        }
    }
}

/// One stable grid address.
#[derive(Clone, Copy, Debug, Eq, PartialEq, Hash, Structural)]
pub struct CellIndex {
    /// Zero-based column from west to east.
    pub column: u16,
    /// Zero-based row from south to north.
    pub row: u16,
}

/// Whether a cell address lies inside the prototype grid.
pub open spec fn in_grid(c: CellIndex) -> bool {
    c.column < GRID_COLUMNS && c.row < GRID_ROWS
}

/// Cell order: by column, then by row.
pub open spec fn cell_lt(a: CellIndex, b: CellIndex) -> bool {
    a.column < b.column || (a.column == b.column && a.row < b.row)
}

/// Row-major flat position of a cell.
pub open spec fn flat_index(c: CellIndex) -> int {
    c.row * GRID_COLUMNS + c.column
}

impl CellIndex {
    /// Creates a cell inside the fixed prototype grid.
    pub fn new(column: u16, row: u16) -> (r: Result<CellIndex, PerceptionError>)
        ensures
            r is Ok <==> (column < GRID_COLUMNS && row < GRID_ROWS),
            r matches Ok(c) ==> c.column == column && c.row == row,
            r is Err ==> r == Err::<CellIndex, PerceptionError>(PerceptionError::Invalid(CELL_OUTSIDE)),
    {
        if column >= GRID_COLUMNS || row >= GRID_ROWS {
            Err(PerceptionError::Invalid(CELL_OUTSIDE))
        } else {
            Ok(CellIndex { column, row })
        }
    }

    /// Row-major flat position.
    pub fn flat(self) -> (r: usize)
        requires
            in_grid(self),
        ensures
            r == flat_index(self),
            r < GRID_CELLS,
    {
        proof {
            assert(self.row * 31 + self.column < 961) by (nonlinear_arith)
                requires self.row < 31, self.column < 31;
        }
        self.row as usize * GRID_COLUMNS as usize + self.column as usize
    }
}

/// Whether `a` sorts strictly before `b`.
pub fn cell_before(a: CellIndex, b: CellIndex) -> (r: bool)
    ensures
        r == cell_lt(a, b),
{
    a.column < b.column || (a.column == b.column && a.row < b.row)
}

/// Semantic classes that may cross the perception-to-world boundary.
#[derive(Clone, Copy, Debug, Eq, PartialEq, Structural)]
pub enum EvidenceClass {
    /// Persistent low terrain or landscaping.
    Terrain,
    /// Persistent water.
    Water,
    /// Persistent canopy or woodland.
    Vegetation,
    /// Conflicting evidence that must remain explicit.
    Unknown,
}

/// One reviewed semantic cell.
#[derive(Clone, Debug, Eq, PartialEq)]
pub struct EvidenceCell {
    /// Stable grid address.
    pub index: CellIndex,
    /// Persistent semantic class.
    pub class: EvidenceClass,
    /// Validated material grammar identifier.
    pub material: Option<String>,
    /// Canopy height or zero for surfaces.
    pub height_mm: u32,
    /// Fused confidence in basis points.
    pub confidence_bp: u16,
    /// Contributing approved source records in sorted order.
    pub source_ids: Vec<String>,
    /// Accepted imagery samples after cell-level vector masking.
    pub naip_sample_count: u32,
    /// Fraction of accepted imagery samples with positive vegetation evidence.
    pub naip_green_fraction_bp: u16,
    /// Accepted point-cloud points used for persistent-class evidence.
    pub lidar_sample_count: u32,
    /// Fraction of all in-cell points classified as vegetation.
    pub lidar_vegetation_fraction_bp: u16,
    /// Fraction of all in-cell points classified as building.
    pub lidar_building_fraction_bp: u16,
    /// Unclassified low elevated returns excluded as transient candidates.
    pub transient_masked_points: u32,
}

/// Fixed portable grid description.
#[derive(Clone, Debug, Eq, PartialEq)]
pub struct GridMetadata {
    /// Horizontal coordinate reference system.
    pub crs: String,
    /// Absolute easting of the local world origin.
    pub origin_easting_mm: i64,
    /// Absolute northing of the local world origin.
    pub origin_northing_mm: i64,
    /// West edge of the first cell in local millimeters.
    pub min_x_mm: i64,
    /// South edge of the first cell in local millimeters.
    pub min_y_mm: i64,
    /// Cell edge length.
    pub cell_size_mm: i64,
    /// Number of columns.
    pub columns: u16,
    /// Number of rows.
    pub rows: u16,
}

/// The fixed prototype grid.
pub open spec fn grid_is_prototype(g: GridMetadata) -> bool {
    &&& g.crs@ == GRID_CRS@
    &&& g.origin_easting_mm == ORIGIN_EASTING_MM
    &&& g.origin_northing_mm == ORIGIN_NORTHING_MM
    &&& g.min_x_mm == GRID_MIN_X_MM
    &&& g.min_y_mm == GRID_MIN_Y_MM
    &&& g.cell_size_mm == CELL_SIZE_MM
    &&& g.columns == GRID_COLUMNS
    &&& g.rows == GRID_ROWS
}

impl GridMetadata {
    /// The fixed prototype grid description.
    pub fn prototype() -> (r: GridMetadata)
        ensures
            grid_is_prototype(r),
    {
        GridMetadata {
            crs: GRID_CRS.to_owned(),
            origin_easting_mm: ORIGIN_EASTING_MM,
            origin_northing_mm: ORIGIN_NORTHING_MM,
            min_x_mm: GRID_MIN_X_MM,
            min_y_mm: GRID_MIN_Y_MM,
            cell_size_mm: CELL_SIZE_MM,
            columns: GRID_COLUMNS,
            rows: GRID_ROWS,
        }
    }

    /// Whether this is the fixed prototype grid.
    pub fn is_prototype(&self) -> (r: bool)
        ensures
            r == grid_is_prototype(*self),
    {
        let expected = GRID_CRS.to_owned();
        self.crs == expected && self.origin_easting_mm == ORIGIN_EASTING_MM && self.origin_northing_mm
            == ORIGIN_NORTHING_MM && self.min_x_mm == GRID_MIN_X_MM && self.min_y_mm == GRID_MIN_Y_MM
            && self.cell_size_mm == CELL_SIZE_MM && self.columns == GRID_COLUMNS && self.rows == GRID_ROWS
    }
}

/// Portable frozen evidence consumed by the canonical world compiler.
#[derive(Clone, Debug, Eq, PartialEq)]
pub struct EvidenceArtifact {
    /// Schema identifier.
    pub schema: String,
    /// Accepted geographic region.
    pub region_id: String,
    /// Artifact lifecycle state.
    pub status: String,
    /// Canonical compiler implementation.
    pub compiler: String,
    /// Final artifact never retains source pixels.
    pub contains_source_pixels: bool,
    /// Final artifact cannot carry transient semantic classes.
    pub contains_transients: bool,
    /// Fixed grid metadata.
    pub grid: GridMetadata,
    /// Exact locked input hashes, keyed by source identifier in ascending order.
    pub source_sha256: Vec<(String, String)>,
    /// Number of cells excluded because vectors already own their semantics.
    pub vector_masked_cell_count: u16,
    /// Number of cells compiled from raster or point evidence.
    pub evidence_cell_count: u16,
    /// Total decoded imagery samples that landed inside the accepted grid.
    pub naip_sample_count: u64,
    /// Total streamed points that landed inside the accepted grid.
    pub lidar_sample_count: u64,
    /// Peak reusable point buffer, independent of total source size.
    pub lidar_chunk_points: u32,
    /// Stable semantic cells.
    pub cells: Vec<EvidenceCell>,
}

/// Schema, region, lifecycle, compiler, privacy flags, and grid are the fixed policy values.
pub open spec fn metadata_ok(a: EvidenceArtifact) -> bool {
    &&& a.schema@ == ARTIFACT_SCHEMA@
    &&& a.region_id@ == REGION_ID@
    &&& a.status@ == EVIDENCE_STATUS@
    &&& a.compiler@ == EVIDENCE_COMPILER@
    &&& !a.contains_source_pixels
    &&& !a.contains_transients
    &&& grid_is_prototype(a.grid)
}

/// Strictly ascending strings.
pub open spec fn strictly_sorted(ids: Seq<String>) -> bool {
    forall|i: int, j: int| 0 <= i < j < ids.len() ==> str_lt_spec(#[trigger] ids[i]@, #[trigger] ids[j]@)
}

/// Exactly five sources, in any order, with distinct nonempty identifiers (the keys of a map)
/// and lowercase SHA-256 digests.
pub open spec fn hashes_ok(h: Seq<(String, String)>) -> bool {
    &&& h.len() == 5
    &&& forall|i: int| 0 <= i < h.len() ==> #[trigger] h[i].0@.len() > 0 && is_sha256_bytes(vstd::utf8::encode_utf8(h[i].1@))
    &&& forall|i: int, j: int| 0 <= i < j < h.len() ==> #[trigger] h[i].0@ != #[trigger] h[j].0@
}

/// Masked and evidence cells partition the grid, and the point buffer is the fixed chunk.
pub open spec fn accounting_ok(a: EvidenceArtifact) -> bool {
    &&& a.vector_masked_cell_count + a.evidence_cell_count == GRID_CELLS
    &&& a.evidence_cell_count == a.cells@.len()
    &&& a.lidar_chunk_points == LIDAR_CHUNK_POINTS
}

/// The rejection message for cell `k`, if it breaks the cell contract.
pub open spec fn cell_error(cells: Seq<EvidenceCell>, k: int) -> Option<&'static str> {
    let c = cells[k];
    if !in_grid(c.index) {
        Some(CELL_OUTSIDE)
    } else if (k > 0 && !cell_lt(cells[k - 1].index, c.index)) || c.naip_sample_count == 0 || c.source_ids@.len() == 0
        || !strictly_sorted(c.source_ids@) || c.confidence_bp > 10_000 || c.naip_green_fraction_bp > 10_000
        || c.lidar_vegetation_fraction_bp > 10_000 || c.lidar_building_fraction_bp > 10_000 {
        Some(CELLS_INVALID)
    } else if c.class == EvidenceClass::Unknown && (c.material is Some || c.height_mm != 0) {
        Some(UNKNOWN_INVENTS)
    } else {
        None
    }
}

/// The full portable evidence contract.
pub open spec fn artifact_ok(a: EvidenceArtifact) -> bool {
    &&& metadata_ok(a)
    &&& hashes_ok(a.source_sha256@)
    &&& accounting_ok(a)
    &&& forall|k: int| 0 <= k < a.cells@.len() ==> #[trigger] cell_error(a.cells@, k) is None
}

fn strings_strictly_sorted(ids: &Vec<String>) -> (r: bool)
    ensures
        r == strictly_sorted(ids@),
{
    if ids.len() == 0 {
        return true;
    }
    let mut i: usize = 1;
    while i < ids.len()
        invariant
            1 <= i <= ids@.len(),
            forall|a: int, b: int| 0 <= a < b < i ==> str_lt_spec(#[trigger] ids@[a]@, #[trigger] ids@[b]@),
        decreases ids@.len() - i,
    {
        if !str_lt(ids[i - 1].as_str(), ids[i].as_str()) {
            return false;
        }
        proof {
            assert forall|a: int, b: int| 0 <= a < b < i + 1 implies str_lt_spec(#[trigger] ids@[a]@, #[trigger] ids@[b]@) by {
                if b == i && a < i - 1 {
                    lemma_str_order(ids@[a]@, ids@[i - 1]@, ids@[b]@);
                }
            }
        }
        i += 1;
    }
    true
}

fn hashes_valid(h: &Vec<(String, String)>) -> (r: bool)
    ensures
        r == hashes_ok(h@),
{
    if h.len() != 5 {
        return false;
    }
    let mut i: usize = 0;
    while i < h.len()
        invariant
            h@.len() == 5,
            i <= 5,
            forall|j: int| 0 <= j < i ==> #[trigger] h@[j].0@.len() > 0 && is_sha256_bytes(vstd::utf8::encode_utf8(h@[j].1@)),
            forall|a: int, b: int| 0 <= a < b < i ==> #[trigger] h@[a].0@ != #[trigger] h@[b].0@,
        decreases 5 - i,
    {
        let id = h[i].0.as_str();
        let digest = h[i].1.as_str();
        proof {
            lemma_encoding_nonempty(id@);
        }
        let id_len = id.as_bytes().len();
        if id_len == 0 {
            proof {
                assert(id.spec_bytes().len() == 0);
                assert(h@[i as int].0@.len() == 0);
            }
            return false;
        }
        if !is_sha256(digest) {
            proof {
                assert(id@ == h@[i as int].0@);
                assert(digest@ == h@[i as int].1@);
                assert(digest.spec_bytes() == vstd::utf8::encode_utf8(digest@));
                assert(!(h@[i as int].0@.len() > 0 && is_sha256_bytes(vstd::utf8::encode_utf8(h@[i as int].1@))));
            }
            return false;
        }
        let mut k: usize = 0;
        while k < i
            invariant
                k <= i < 5,
                h@.len() == 5,
                id@ == h@[i as int].0@,
                forall|a: int| 0 <= a < k ==> h@[a].0@ != h@[i as int].0@,
                forall|j: int| 0 <= j < i ==> #[trigger] h@[j].0@.len() > 0 && is_sha256_bytes(vstd::utf8::encode_utf8(h@[j].1@)),
                forall|a: int, b: int| 0 <= a < b < i ==> #[trigger] h@[a].0@ != #[trigger] h@[b].0@,
            decreases i - k,
        {
            if str_eq(h[k].0.as_str(), id) {
                return false;
            }
            k += 1;
        }
        proof {
            assert(id@ == h@[i as int].0@);
            assert(digest@ == h@[i as int].1@);
            assert(h@[i as int].0@.len() > 0 && is_sha256_bytes(vstd::utf8::encode_utf8(h@[i as int].1@)));
        }
        i += 1;
    }
    true
}

fn check_cell(cells: &Vec<EvidenceCell>, k: usize) -> (r: Result<(), PerceptionError>)
    requires
        k < cells@.len(),
    ensures
        r is Ok <==> cell_error(cells@, k as int) is None,
        r is Err ==> r == Err::<(), PerceptionError>(PerceptionError::Invalid(cell_error(cells@, k as int)->0)),
{
    let cell = &cells[k];
    if CellIndex::new(cell.index.column, cell.index.row).is_err() {
        return Err(PerceptionError::Invalid(CELL_OUTSIDE));
    }
    if (k > 0 && !cell_before(cells[k - 1].index, cell.index)) || cell.naip_sample_count == 0 || cell.source_ids.len() == 0
        || !strings_strictly_sorted(&cell.source_ids) || cell.confidence_bp > 10_000 || cell.naip_green_fraction_bp
        > 10_000 || cell.lidar_vegetation_fraction_bp > 10_000 || cell.lidar_building_fraction_bp > 10_000 {
        return Err(PerceptionError::Invalid(CELLS_INVALID));
    }
    if cell.class == EvidenceClass::Unknown && (cell.material.is_some() || cell.height_mm != 0) {
        return Err(PerceptionError::Invalid(UNKNOWN_INVENTS));
    }
    Ok(())
}

impl EvidenceArtifact {
    /// Validates the portable evidence contract; the first failing check names the error.
    pub fn validate(&self) -> (r: Result<(), PerceptionError>)
        ensures
            r is Ok <==> artifact_ok(*self),
            !metadata_ok(*self) ==> r == Err::<(), PerceptionError>(PerceptionError::Invalid(POLICY_INVALID)),
            metadata_ok(*self) && !hashes_ok(self.source_sha256@) ==> r == Err::<(), PerceptionError>(
                PerceptionError::Invalid(PROVENANCE_INVALID),
            ),
            metadata_ok(*self) && hashes_ok(self.source_sha256@) && !accounting_ok(*self) ==> r == Err::<
                (),
                PerceptionError,
            >(PerceptionError::Invalid(ACCOUNTING_INVALID)),
            metadata_ok(*self) && hashes_ok(self.source_sha256@) && accounting_ok(*self) && r is Err ==> exists|k: int|
                0 <= k < self.cells@.len() && (forall|j: int| 0 <= j < k ==> #[trigger] cell_error(self.cells@, j) is None)
                    && #[trigger] cell_error(self.cells@, k) is Some && r == Err::<(), PerceptionError>(
                    PerceptionError::Invalid(cell_error(self.cells@, k)->0),
                ),
    {
        let schema = ARTIFACT_SCHEMA.to_owned();
        let region = REGION_ID.to_owned();
        let status = EVIDENCE_STATUS.to_owned();
        let compiler = EVIDENCE_COMPILER.to_owned();
        if !(self.schema == schema) || !(self.region_id == region) || !(self.status == status) || !(self.compiler
            == compiler) || self.contains_source_pixels || self.contains_transients || !self.grid.is_prototype() {
            return Err(PerceptionError::Invalid(POLICY_INVALID));
        }
        if !hashes_valid(&self.source_sha256) {
            return Err(PerceptionError::Invalid(PROVENANCE_INVALID));
        }
        if self.vector_masked_cell_count as usize + self.evidence_cell_count as usize != GRID_CELLS
            || self.evidence_cell_count as usize != self.cells.len() || self.lidar_chunk_points != LIDAR_CHUNK_POINTS {
            return Err(PerceptionError::Invalid(ACCOUNTING_INVALID));
        }
        let mut k: usize = 0;
        while k < self.cells.len()
            invariant
                metadata_ok(*self),
                hashes_ok(self.source_sha256@),
                accounting_ok(*self),
                k <= self.cells@.len(),
                forall|j: int| 0 <= j < k ==> #[trigger] cell_error(self.cells@, j) is None,
            decreases self.cells@.len() - k,
        {
            match check_cell(&self.cells, k) {
                Ok(()) => {},
                Err(e) => {
                    proof {
                        assert(cell_error(self.cells@, k as int) is Some);
                    }
                    return Err(e);
                },
            }
            k += 1;
        }
        Ok(())
    }

    /// Finds one cell by stable address (binary search over the ascending cells).
    pub fn cell(&self, index: CellIndex) -> (r: Option<&EvidenceCell>)
        ensures
            r matches Some(c) ==> c.index == index && exists|k: int| 0 <= k < self.cells@.len() && self.cells@[k] == *c,
            (forall|i: int, j: int| 0 <= i < j < self.cells@.len() ==> cell_lt(#[trigger] self.cells@[i].index, #[trigger] self.cells@[j].index))
                ==> (r is Some <==> exists|k: int| 0 <= k < self.cells@.len() && #[trigger] self.cells@[k].index == index),
    {
        let mut lo: usize = 0;
        let mut hi: usize = self.cells.len();
        while lo < hi
            invariant
                lo <= hi <= self.cells@.len(),
                (forall|i: int, j: int| 0 <= i < j < self.cells@.len() ==> cell_lt(#[trigger] self.cells@[i].index, #[trigger] self.cells@[j].index))
                    ==> forall|k: int| 0 <= k < self.cells@.len() && #[trigger] self.cells@[k].index == index ==> lo <= k < hi,
            decreases hi - lo,
        {
            let mid = lo + (hi - lo) / 2;
            let candidate = self.cells[mid].index;
            if candidate == index {
                return Some(&self.cells[mid]);
            } else if cell_before(candidate, index) {
                lo = mid + 1;
            } else {
                hi = mid;
            }
        }
        None
    }
}

/// Per-cell evidence totals gathered from imagery samples and point records.
#[derive(Clone, Debug)]
pub struct CellAccumulator {
    /// Accepted imagery samples.
    pub naip_samples: u32,
    /// Samples with positive vegetation index.
    pub green_samples: u32,
    /// Dark low-infrared samples suggesting water.
    pub dark_water_samples: u32,
    /// Sum of red samples.
    pub red_sum: u64,
    /// Sum of green samples.
    pub green_sum: u64,
    /// Sum of blue samples.
    pub blue_sum: u64,
    /// Sum of near-infrared samples.
    pub nir_sum: u64,
    /// Points landing in the cell.
    pub lidar_samples: u32,
    /// Ground points.
    pub ground_samples: u32,
    /// Low-vegetation points.
    pub low_vegetation_samples: u32,
    /// Medium and high vegetation points.
    pub vegetation_samples: u32,
    /// Building points.
    pub building_samples: u32,
    /// Water points.
    pub water_samples: u32,
    /// Lowest ground elevation, or `i32::MAX` without ground.
    pub ground_min_mm: i32,
    /// Highest vegetation elevation, or `i32::MIN` without vegetation.
    pub highest_vegetation_mm: i32,
    /// Unclassified points by 500 mm elevation bin.
    pub unclassified_height_bins: [u32; 256],
    /// Contributing point-cloud sources, ascending and unique.
    pub lidar_source_ids: Vec<String>,
}

/// The empty accumulator.
pub open spec fn is_empty_accumulator(a: CellAccumulator) -> bool {
    &&& a.naip_samples == 0 && a.green_samples == 0 && a.dark_water_samples == 0
    &&& a.red_sum == 0 && a.green_sum == 0 && a.blue_sum == 0 && a.nir_sum == 0
    &&& a.lidar_samples == 0 && a.ground_samples == 0 && a.low_vegetation_samples == 0
    &&& a.vegetation_samples == 0 && a.building_samples == 0 && a.water_samples == 0
    &&& a.ground_min_mm == i32::MAX && a.highest_vegetation_mm == i32::MIN
    &&& forall|k: int| 0 <= k < 256 ==> #[trigger] a.unclassified_height_bins@[k] == 0
    &&& a.lidar_source_ids@.len() == 0
}

impl Default for CellAccumulator {
    fn default() -> (r: CellAccumulator)
        ensures
            is_empty_accumulator(r),
    {
        CellAccumulator {
            naip_samples: 0,
            green_samples: 0,
            dark_water_samples: 0,
            red_sum: 0,
            green_sum: 0,
            blue_sum: 0,
            nir_sum: 0,
            lidar_samples: 0,
            ground_samples: 0,
            low_vegetation_samples: 0,
            vegetation_samples: 0,
            building_samples: 0,
            water_samples: 0,
            ground_min_mm: i32::MAX,
            highest_vegetation_mm: i32::MIN,
            unclassified_height_bins: [0u32; 256],
            lidar_source_ids: Vec::new(),
        }
    }
}


/// Basis-point ratio, capped at 10 000, zero for an empty denominator.
pub open spec fn ratio_spec(numerator: int, denominator: int) -> int {
    if denominator == 0 {
        0
    } else if numerator * 10_000 / denominator > 10_000 {
        10_000
    } else {
        numerator * 10_000 / denominator
    }
}

/// Basis-point ratio, capped at 10 000, zero for an empty denominator.
pub fn ratio_bp(numerator: u32, denominator: u32) -> (r: u16)
    ensures
        r == ratio_spec(numerator as int, denominator as int),
{
    if denominator == 0 {
        return 0;
    }
    proof {
        assert(numerator * 10_000 <= u32::MAX as int * 10_000) by (nonlinear_arith)
            requires numerator <= u32::MAX;
    }
    let value = numerator as u64 * 10_000 / denominator as u64;
    if value > 10_000 {
        10_000
    } else {
        value as u16
    }
}

/// Elevation bin of 500 mm, clamped to the 256 bins.
pub open spec fn height_bin(height_mm: int) -> int {
    if height_mm < 0 {
        0
    } else if height_mm / 500 > 255 {
        255
    } else {
        height_mm / 500
    }
}

fn height_bin_exec(height_mm: i64) -> (r: usize)
    ensures
        r == height_bin(height_mm as int),
        r < 256,
{
    if height_mm < 0 {
        0
    } else if height_mm / 500 > 255 {
        255
    } else {
        (height_mm / 500) as usize
    }
}

/// Sum of `bins[a..b)`.
pub open spec fn bin_sum(bins: Seq<u32>, a: int, b: int) -> int
    decreases b - a,
{
    if b <= a {
        0
    } else {
        bin_sum(bins, a, b - 1) + bins[b - 1]
    }
}

/// Unclassified returns from 0.5 m through 4 m above the lowest ground, or zero without ground.
pub open spec fn transient_spec(acc: CellAccumulator) -> int {
    if acc.ground_min_mm == i32::MAX {
        0
    } else {
        bin_sum(
            acc.unclassified_height_bins@,
            height_bin(acc.ground_min_mm + 500),
            height_bin(acc.ground_min_mm + 4_000) + 1,
        )
    }
}

proof fn lemma_bin_sum_bound(bins: Seq<u32>, a: int, b: int)
    requires
        a <= b,
    ensures
        0 <= bin_sum(bins, a, b) <= u32::MAX * (b - a),
    decreases b - a,
{
    if a < b {
        lemma_bin_sum_bound(bins, a, b - 1);
    }
}

/// Low elevated unclassified returns that may be transient vehicles or people.
pub fn transient_candidates(acc: &CellAccumulator) -> (r: u32)
    requires
        transient_spec(*acc) <= u32::MAX,
    ensures
        r == transient_spec(*acc),
{
    if acc.ground_min_mm == i32::MAX {
        return 0;
    }
    let first = height_bin_exec(acc.ground_min_mm as i64 + 500);
    let last = height_bin_exec(acc.ground_min_mm as i64 + 4_000);
    let mut total: u64 = 0;
    let mut k: usize = first;
    while k <= last
        invariant
            first <= k <= last + 1,
            last < 256,
            first == height_bin(acc.ground_min_mm + 500),
            total == bin_sum(acc.unclassified_height_bins@, first as int, k as int),
            total <= u32::MAX * (k - first),
        decreases last + 1 - k,
    {
        total = total + acc.unclassified_height_bins[k] as u64;
        k += 1;
    }
    total as u32
}

/// The identifiers of a list, as a set of character sequences.
pub open spec fn id_set(ids: Seq<String>) -> Set<Seq<char>> {
    Set::new(|v: Seq<char>| exists|i: int| 0 <= i < ids.len() && #[trigger] ids[i]@ == v)
}

/// Insert an identifier into a strictly ascending list unless present.
pub fn insert_id(ids: &mut Vec<String>, id: &str)
    requires
        strictly_sorted(old(ids)@),
    ensures
        strictly_sorted(final(ids)@),
        id_set(final(ids)@) == id_set(old(ids)@).insert(id@),
{
    let ghost before = ids@;
    let mut p: usize = 0;
    while p < ids.len() && str_lt(ids[p].as_str(), id)
        invariant
            ids@ == before,
            p <= before.len(),
            forall|j: int| 0 <= j < p ==> str_lt_spec(#[trigger] before[j]@, id@),
        decreases before.len() - p,
    {
        p += 1;
    }
    if p < ids.len() && str_eq(ids[p].as_str(), id) {
        proof {
            assert(id_set(before).insert(id@) =~= id_set(before)) by {
                assert(before[p as int]@ == id@);
            }
        }
        return;
    }
    let owned = id.to_owned();
    ids.insert(p, owned);
    proof {
        let after = ids@;
        assert(after == before.insert(p as int, owned));
        if p < before.len() {
            assert(before[p as int]@ != id@);
            assert(!str_lt_spec(before[p as int]@, id@));
            lemma_str_total(before[p as int]@, id@);
        }
        assert forall|a: int, b: int| 0 <= a < b < after.len() implies str_lt_spec(#[trigger] after[a]@, #[trigger] after[b]@) by {
            if b < p {
            } else if b == p {
                assert(after[b]@ == id@);
            } else if a < p {
                lemma_str_order(before[a]@, id@, before[b - 1]@);
                if b - 1 > p {
                    lemma_str_order(id@, before[p as int]@, before[b - 1]@);
                }
                lemma_str_order(before[a]@, before[p as int]@, before[b - 1]@);
            } else if a == p {
                if b - 1 > p {
                    lemma_str_order(id@, before[p as int]@, before[b - 1]@);
                }
            } else {
            }
        }
        assert(id_set(after) =~= id_set(before).insert(id@)) by {
            assert forall|v: Seq<char>| id_set(after).contains(v) implies id_set(before).insert(id@).contains(v) by {
                let i = choose|i: int| 0 <= i < after.len() && #[trigger] after[i]@ == v;
                if i < p {
                    assert(before[i]@ == v);
                } else if i > p {
                    assert(before[i - 1]@ == v);
                }
            }
            assert forall|v: Seq<char>| id_set(before).insert(id@).contains(v) implies id_set(after).contains(v) by {
                if v == id@ {
                    assert(after[p as int]@ == v);
                } else {
                    let i = choose|i: int| 0 <= i < before.len() && #[trigger] before[i]@ == v;
                    if i < p {
                        assert(after[i]@ == v);
                    } else {
                        assert(after[i + 1]@ == v);
                    }
                }
            }
        }
    }
}

/// Basis-point ratios of one accumulator.
pub open spec fn green_bp(acc: CellAccumulator) -> int {
    ratio_spec(acc.green_samples as int, acc.naip_samples as int)
}

/// Dark-water imagery ratio.
pub open spec fn dark_water_bp(acc: CellAccumulator) -> int {
    ratio_spec(acc.dark_water_samples as int, acc.naip_samples as int)
}

/// Vegetation point ratio.
pub open spec fn vegetation_bp(acc: CellAccumulator) -> int {
    ratio_spec(acc.vegetation_samples as int, acc.lidar_samples as int)
}

/// Building point ratio.
pub open spec fn building_bp(acc: CellAccumulator) -> int {
    ratio_spec(acc.building_samples as int, acc.lidar_samples as int)
}

/// Water point ratio.
pub open spec fn water_bp(acc: CellAccumulator) -> int {
    ratio_spec(acc.water_samples as int, acc.lidar_samples as int)
}

/// Canopy height above the lowest ground, clamped to 3 m through 30 m; 12 m without both.
pub open spec fn canopy_height(acc: CellAccumulator) -> int {
    if acc.ground_min_mm == i32::MAX || acc.highest_vegetation_mm == i32::MIN {
        12_000
    } else {
        let d = acc.highest_vegetation_mm - acc.ground_min_mm;
        if d < 3_000 {
            3_000
        } else if d > 30_000 {
            30_000
        } else {
            d
        }
    }
}

/// Whether an optional material is exactly `name`.
pub open spec fn material_is(m: Option<String>, name: Seq<char>) -> bool {
    m matches Some(s) && s@ == name
}

/// Class, material, height, and confidence decided for one accumulator.
pub open spec fn decision_ok(c: EvidenceCell, acc: CellAccumulator) -> bool {
    if building_bp(acc) >= 7_000 {
        c.class == EvidenceClass::Unknown && c.material is None && c.height_mm == 0 && c.confidence_bp == 2_500
    } else if water_bp(acc) >= 2_500 || dark_water_bp(acc) >= 7_000 {
        c.class == EvidenceClass::Water && material_is(c.material, "water"@) && c.height_mm == 0 && c.confidence_bp == 8_000
    } else if vegetation_bp(acc) >= 800 && acc.vegetation_samples >= 20 {
        c.class == EvidenceClass::Vegetation && material_is(c.material, "canopy"@) && c.height_mm == canopy_height(acc)
            && c.confidence_bp == 8_500
    } else if green_bp(acc) >= 4_500 {
        c.class == EvidenceClass::Terrain && material_is(c.material, "grass"@) && c.height_mm == 0 && c.confidence_bp == 7_500
    } else {
        c.class == EvidenceClass::Terrain && material_is(c.material, "dry-grass"@) && c.height_mm == 0 && c.confidence_bp
            == 7_000
    }
}

/// Persistent-class point count, saturating at `u32::MAX`.
pub open spec fn persistent_points(acc: CellAccumulator) -> int {
    let total = acc.ground_samples + acc.low_vegetation_samples + acc.vegetation_samples + acc.building_samples
        + acc.water_samples;
    if total > u32::MAX { u32::MAX as int } else { total }
}

/// The evidence cell classified from one accumulator.
pub open spec fn classified(c: EvidenceCell, index: CellIndex, acc: CellAccumulator) -> bool {
    &&& c.index == index
    &&& decision_ok(c, acc)
    &&& strictly_sorted(c.source_ids@)
    &&& id_set(c.source_ids@) == id_set(acc.lidar_source_ids@).insert(NAIP_SOURCE_ID@)
    &&& c.naip_sample_count == acc.naip_samples
    &&& c.naip_green_fraction_bp == green_bp(acc)
    &&& c.lidar_sample_count == persistent_points(acc)
    &&& c.lidar_vegetation_fraction_bp == vegetation_bp(acc)
    &&& c.lidar_building_fraction_bp == building_bp(acc)
    &&& c.transient_masked_points == transient_spec(acc)
}

fn saturating_add_u32(a: u32, b: u32) -> (r: u32)
    ensures
        r == if a + b > u32::MAX { u32::MAX as int } else { a + b },
{
    if a > u32::MAX - b { u32::MAX } else { a + b }
}

/// Classifies one eligible cell from its accumulated imagery and point evidence.
pub fn classify_cell(index: CellIndex, acc: &CellAccumulator) -> (r: Result<EvidenceCell, PerceptionError>)
    requires
        transient_spec(*acc) <= u32::MAX,
    ensures
        r is Ok <==> acc.naip_samples != 0,
        r is Err ==> r == Err::<EvidenceCell, PerceptionError>(PerceptionError::Invalid(CELL_UNCOVERED)),
        r matches Ok(c) ==> classified(c, index, *acc),
{
    if acc.naip_samples == 0 {
        return Err(PerceptionError::Invalid(CELL_UNCOVERED));
    }
    let green = ratio_bp(acc.green_samples, acc.naip_samples);
    let dark_water = ratio_bp(acc.dark_water_samples, acc.naip_samples);
    let vegetation = ratio_bp(acc.vegetation_samples, acc.lidar_samples);
    let building = ratio_bp(acc.building_samples, acc.lidar_samples);
    let water = ratio_bp(acc.water_samples, acc.lidar_samples);
    let transient = transient_candidates(acc);
    let (class, material, height_mm, confidence_bp): (EvidenceClass, Option<String>, u32, u16) = if building >= 7_000 {
        (EvidenceClass::Unknown, None, 0, 2_500)
    } else if water >= 2_500 || dark_water >= 7_000 {
        (EvidenceClass::Water, Some("water".to_owned()), 0, 8_000)
    } else if vegetation >= 800 && acc.vegetation_samples >= 20 {
        let height: u32 = if acc.ground_min_mm == i32::MAX || acc.highest_vegetation_mm == i32::MIN {
            12_000
        } else {
            let d = acc.highest_vegetation_mm as i64 - acc.ground_min_mm as i64;
            if d < 3_000 {
                3_000
            } else if d > 30_000 {
                30_000
            } else {
                d as u32
            }
        };
        (EvidenceClass::Vegetation, Some("canopy".to_owned()), height, 8_500)
    } else if green >= 4_500 {
        (EvidenceClass::Terrain, Some("grass".to_owned()), 0, 7_500)
    } else {
        (EvidenceClass::Terrain, Some("dry-grass".to_owned()), 0, 7_000)
    };
    let mut source_ids: Vec<String> = Vec::new();
    source_ids.push(NAIP_SOURCE_ID.to_owned());
    proof {
        assert(id_set(source_ids@) =~= Set::<Seq<char>>::empty().insert(NAIP_SOURCE_ID@)) by {
            assert(source_ids@[0]@ == NAIP_SOURCE_ID@);
        }
    }
    let mut k: usize = 0;
    while k < acc.lidar_source_ids.len()
        invariant
            k <= acc.lidar_source_ids@.len(),
            strictly_sorted(source_ids@),
            id_set(source_ids@) == id_set(acc.lidar_source_ids@.subrange(0, k as int)).insert(NAIP_SOURCE_ID@),
        decreases acc.lidar_source_ids@.len() - k,
    {
        let ghost prefix = acc.lidar_source_ids@.subrange(0, k as int);
        insert_id(&mut source_ids, acc.lidar_source_ids[k].as_str());
        proof {
            let next = acc.lidar_source_ids@.subrange(0, k + 1);
            assert(id_set(next) =~= id_set(prefix).insert(acc.lidar_source_ids@[k as int]@)) by {
                assert forall|v: Seq<char>| id_set(next).contains(v) implies id_set(prefix).insert(acc.lidar_source_ids@[k as int]@).contains(v) by {
                    let i = choose|i: int| 0 <= i < next.len() && #[trigger] next[i]@ == v;
                    if i < k {
                        assert(prefix[i]@ == v);
                    }
                }
                assert forall|v: Seq<char>| id_set(prefix).insert(acc.lidar_source_ids@[k as int]@).contains(v) implies id_set(next).contains(v) by {
                    if v == acc.lidar_source_ids@[k as int]@ {
                        assert(next[k as int]@ == v);
                    } else {
                        let i = choose|i: int| 0 <= i < prefix.len() && #[trigger] prefix[i]@ == v;
                        assert(next[i]@ == v);
                    }
                }
            }
            assert(id_set(source_ids@) =~= id_set(next).insert(NAIP_SOURCE_ID@));
        }
        k += 1;
    }
    proof {
        assert(acc.lidar_source_ids@.subrange(0, acc.lidar_source_ids@.len() as int) =~= acc.lidar_source_ids@);
    }
    let total = saturating_add_u32(
        saturating_add_u32(
            saturating_add_u32(saturating_add_u32(acc.ground_samples, acc.low_vegetation_samples), acc.vegetation_samples),
            acc.building_samples,
        ),
        acc.water_samples,
    );
    Ok(EvidenceCell {
        index,
        class,
        material,
        height_mm,
        confidence_bp,
        source_ids,
        naip_sample_count: acc.naip_samples,
        naip_green_fraction_bp: green,
        lidar_sample_count: total,
        lidar_vegetation_fraction_bp: vegetation,
        lidar_building_fraction_bp: building,
        transient_masked_points: transient,
    })
}


/// The vegetation index of a sample is at least 0.1.
pub open spec fn ndvi_positive(red: u8, nir: u8) -> bool {
    nir + red > 0 && (nir - red) * 10_000 >= (nir + red) * 1_000
}

/// A dark sample with low near-infrared, suggesting water.
pub open spec fn dark_water(red: u8, green: u8, blue: u8, nir: u8) -> bool {
    nir < 55 && red + green + blue < 180
}

/// Count one imagery sample into a cell.
pub fn add_naip_sample(acc: &mut CellAccumulator, red: u8, green: u8, blue: u8, nir: u8)
    requires
        old(acc).naip_samples < u32::MAX,
        old(acc).green_samples < u32::MAX,
        old(acc).dark_water_samples < u32::MAX,
        old(acc).red_sum <= u64::MAX - 255,
        old(acc).green_sum <= u64::MAX - 255,
        old(acc).blue_sum <= u64::MAX - 255,
        old(acc).nir_sum <= u64::MAX - 255,
    ensures
        final(acc).naip_samples == old(acc).naip_samples + 1,
        final(acc).green_samples == old(acc).green_samples + if ndvi_positive(red, nir) { 1int } else { 0int },
        final(acc).dark_water_samples == old(acc).dark_water_samples + if dark_water(red, green, blue, nir) { 1int } else { 0int },
        final(acc).red_sum == old(acc).red_sum + red,
        final(acc).green_sum == old(acc).green_sum + green,
        final(acc).blue_sum == old(acc).blue_sum + blue,
        final(acc).nir_sum == old(acc).nir_sum + nir,
        final(acc).lidar_samples == old(acc).lidar_samples,
        final(acc).ground_samples == old(acc).ground_samples,
        final(acc).low_vegetation_samples == old(acc).low_vegetation_samples,
        final(acc).vegetation_samples == old(acc).vegetation_samples,
        final(acc).building_samples == old(acc).building_samples,
        final(acc).water_samples == old(acc).water_samples,
        final(acc).ground_min_mm == old(acc).ground_min_mm,
        final(acc).highest_vegetation_mm == old(acc).highest_vegetation_mm,
        final(acc).unclassified_height_bins == old(acc).unclassified_height_bins,
        final(acc).lidar_source_ids == old(acc).lidar_source_ids,
{
    acc.naip_samples = acc.naip_samples + 1;
    acc.red_sum = acc.red_sum + red as u64;
    acc.green_sum = acc.green_sum + green as u64;
    acc.blue_sum = acc.blue_sum + blue as u64;
    acc.nir_sum = acc.nir_sum + nir as u64;
    let numerator = nir as i32 - red as i32;
    let denominator = nir as i32 + red as i32;
    if denominator > 0 && numerator * 10_000 >= denominator * 1_000 {
        acc.green_samples = acc.green_samples + 1;
    }
    let rgb_total: u16 = red as u16 + green as u16 + blue as u16;
    if nir < 55 && rgb_total < 180 {
        acc.dark_water_samples = acc.dark_water_samples + 1;
    }
}

/// Count one classified point record into a cell (ASPRS classes: 1 unclassified,
/// 2 ground, 3 low vegetation, 4-5 vegetation, 6 building, 9 water).
pub fn add_lidar_point(acc: &mut CellAccumulator, source_id: &str, classification: u8, height_mm: i32)
    requires
        old(acc).lidar_samples < u32::MAX,
        old(acc).ground_samples < u32::MAX,
        old(acc).low_vegetation_samples < u32::MAX,
        old(acc).vegetation_samples < u32::MAX,
        old(acc).building_samples < u32::MAX,
        old(acc).water_samples < u32::MAX,
        forall|k: int| 0 <= k < 256 ==> #[trigger] old(acc).unclassified_height_bins@[k] < u32::MAX,
        strictly_sorted(old(acc).lidar_source_ids@),
    ensures
        final(acc).lidar_samples == old(acc).lidar_samples + 1,
        strictly_sorted(final(acc).lidar_source_ids@),
        id_set(final(acc).lidar_source_ids@) == id_set(old(acc).lidar_source_ids@).insert(source_id@),
        final(acc).ground_samples == old(acc).ground_samples + if classification == 2 { 1int } else { 0int },
        final(acc).ground_min_mm == if classification == 2 && height_mm < old(acc).ground_min_mm {
            height_mm
        } else {
            old(acc).ground_min_mm
        },
        final(acc).low_vegetation_samples == old(acc).low_vegetation_samples + if classification == 3 { 1int } else { 0int },
        final(acc).vegetation_samples == old(acc).vegetation_samples + if classification == 4 || classification == 5 {
            1int
        } else {
            0int
        },
        final(acc).highest_vegetation_mm == if (classification == 4 || classification == 5) && height_mm
            > old(acc).highest_vegetation_mm {
            height_mm
        } else {
            old(acc).highest_vegetation_mm
        },
        final(acc).building_samples == old(acc).building_samples + if classification == 6 { 1int } else { 0int },
        final(acc).water_samples == old(acc).water_samples + if classification == 9 { 1int } else { 0int },
        classification == 1 ==> final(acc).unclassified_height_bins@ == old(acc).unclassified_height_bins@.update(
            height_bin(height_mm as int),
            (old(acc).unclassified_height_bins@[height_bin(height_mm as int)] + 1) as u32,
        ),
        classification != 1 ==> final(acc).unclassified_height_bins == old(acc).unclassified_height_bins,
        final(acc).naip_samples == old(acc).naip_samples,
        final(acc).green_samples == old(acc).green_samples,
        final(acc).dark_water_samples == old(acc).dark_water_samples,
        final(acc).red_sum == old(acc).red_sum,
        final(acc).green_sum == old(acc).green_sum,
        final(acc).blue_sum == old(acc).blue_sum,
        final(acc).nir_sum == old(acc).nir_sum,
{
    acc.lidar_samples = acc.lidar_samples + 1;
    insert_id(&mut acc.lidar_source_ids, source_id);
    if classification == 2 {
        acc.ground_samples = acc.ground_samples + 1;
        if height_mm < acc.ground_min_mm {
            acc.ground_min_mm = height_mm;
        }
    } else if classification == 3 {
        acc.low_vegetation_samples = acc.low_vegetation_samples + 1;
    } else if classification == 4 || classification == 5 {
        acc.vegetation_samples = acc.vegetation_samples + 1;
        if height_mm > acc.highest_vegetation_mm {
            acc.highest_vegetation_mm = height_mm;
        }
    } else if classification == 6 {
        acc.building_samples = acc.building_samples + 1;
    } else if classification == 9 {
        acc.water_samples = acc.water_samples + 1;
    } else if classification == 1 {
        let bin = height_bin_exec(height_mm as i64);
        let count = acc.unclassified_height_bins[bin];
        acc.unclassified_height_bins[bin] = count + 1;
    }
}

/// Floor division by the cell size.
fn floor_div_cell(a: i128) -> (r: i128)
    requires
        -0x1_0000_0000_0000_0000_0000 <= a <= 0x1_0000_0000_0000_0000_0000,
    ensures
        r == (a as int) / (CELL_SIZE_MM as int),
{
    let q = a / 20_000;
    let m = a % 20_000;
    if m < 0 {
        q - 1
    } else {
        q
    }
}

/// The review cell containing an absolute position in rounded EPSG:26910 millimeters.
pub open spec fn cell_at(easting_mm: int, northing_mm: int) -> Option<CellIndex> {
    let column = (easting_mm - ORIGIN_EASTING_MM - GRID_MIN_X_MM) / (CELL_SIZE_MM as int);
    let row = (northing_mm - ORIGIN_NORTHING_MM - GRID_MIN_Y_MM) / (CELL_SIZE_MM as int);
    if 0 <= column < GRID_COLUMNS && 0 <= row < GRID_ROWS {
        Some(CellIndex { column: column as u16, row: row as u16 })
    } else {
        None
    }
}

/// The review cell containing an absolute position in rounded EPSG:26910 millimeters.
pub fn cell_for_absolute_mm(easting_mm: i64, northing_mm: i64) -> (r: Option<CellIndex>)
    ensures
        r == cell_at(easting_mm as int, northing_mm as int),
{
    let column = floor_div_cell(easting_mm as i128 - ORIGIN_EASTING_MM as i128 - GRID_MIN_X_MM as i128);
    let row = floor_div_cell(northing_mm as i128 - ORIGIN_NORTHING_MM as i128 - GRID_MIN_Y_MM as i128);
    if 0 <= column && column < GRID_COLUMNS as i128 && 0 <= row && row < GRID_ROWS as i128 {
        Some(CellIndex { column: column as u16, row: row as u16 })
    } else {
        None
    }
}

/// The source set is incomplete.
pub const SOURCE_SET_INCOMPLETE: &'static str = "perception source set is incomplete";
/// Point-cloud inputs are not uniquely sorted.
pub const LIDAR_UNSORTED: &'static str = "LiDAR inputs must be uniquely sorted";
/// Source hashes do not cover exactly the inputs.
pub const HASHES_INCOMPLETE: &'static str = "perception source hashes are incomplete";

fn contains_id(ids: &Vec<String>, id: &str) -> (r: bool)
    ensures
        r == id_set(ids@).contains(id@),
{
    let mut i: usize = 0;
    while i < ids.len()
        invariant
            i <= ids@.len(),
            forall|j: int| 0 <= j < i ==> #[trigger] ids@[j]@ != id@,
        decreases ids@.len() - i,
    {
        if str_eq(ids[i].as_str(), id) {
            proof {
                assert(ids@[i as int]@ == id@);
            }
            return true;
        }
        i += 1;
    }
    false
}

/// Checks the compile inputs: four uniquely sorted point-cloud sources, a
/// nonempty proper subset of cells, and hashes for exactly those sources plus
/// the imagery (`hash_ids` are the keys of the hash map).
pub fn validate_source_set(lidar_ids: &Vec<String>, hash_ids: &Vec<String>, eligible_count: usize) -> (r: Result<
    (),
    PerceptionError,
>)
    ensures
        r is Ok <==> (lidar_ids@.len() == 4 && 0 < eligible_count < GRID_CELLS && strictly_sorted(lidar_ids@)
            && id_set(hash_ids@) == id_set(lidar_ids@).insert(NAIP_SOURCE_ID@)),
        !(lidar_ids@.len() == 4 && 0 < eligible_count < GRID_CELLS) ==> r == Err::<(), PerceptionError>(
            PerceptionError::Invalid(SOURCE_SET_INCOMPLETE),
        ),
        lidar_ids@.len() == 4 && 0 < eligible_count < GRID_CELLS && !strictly_sorted(lidar_ids@) ==> r == Err::<
            (),
            PerceptionError,
        >(PerceptionError::Invalid(LIDAR_UNSORTED)),
        lidar_ids@.len() == 4 && 0 < eligible_count < GRID_CELLS && strictly_sorted(lidar_ids@) && id_set(hash_ids@)
            != id_set(lidar_ids@).insert(NAIP_SOURCE_ID@) ==> r == Err::<(), PerceptionError>(
            PerceptionError::Invalid(HASHES_INCOMPLETE),
        ),
{
    if lidar_ids.len() != 4 || eligible_count == 0 || eligible_count >= GRID_CELLS {
        return Err(PerceptionError::Invalid(SOURCE_SET_INCOMPLETE));
    }
    if !strings_strictly_sorted(lidar_ids) {
        return Err(PerceptionError::Invalid(LIDAR_UNSORTED));
    }
    let ghost expected = id_set(lidar_ids@).insert(NAIP_SOURCE_ID@);
    let mut i: usize = 0;
    while i < hash_ids.len()
        invariant
            lidar_ids@.len() == 4 && 0 < eligible_count < GRID_CELLS && strictly_sorted(lidar_ids@),
            expected == id_set(lidar_ids@).insert(NAIP_SOURCE_ID@),
            i <= hash_ids@.len(),
            forall|j: int| 0 <= j < i ==> expected.contains(#[trigger] hash_ids@[j]@),
        decreases hash_ids@.len() - i,
    {
        let key = hash_ids[i].as_str();
        if !str_eq(key, NAIP_SOURCE_ID) && !contains_id(lidar_ids, key) {
            proof {
                assert(!expected.contains(hash_ids@[i as int]@));
                assert(id_set(hash_ids@).contains(hash_ids@[i as int]@));
            }
            return Err(PerceptionError::Invalid(HASHES_INCOMPLETE));
        }
        i += 1;
    }
    if !contains_id(hash_ids, NAIP_SOURCE_ID) {
        return Err(PerceptionError::Invalid(HASHES_INCOMPLETE));
    }
    let mut i: usize = 0;
    while i < lidar_ids.len()
        invariant
            lidar_ids@.len() == 4 && 0 < eligible_count < GRID_CELLS && strictly_sorted(lidar_ids@),
            expected == id_set(lidar_ids@).insert(NAIP_SOURCE_ID@),
            i <= lidar_ids@.len(),
            forall|j: int| 0 <= j < i ==> id_set(hash_ids@).contains(#[trigger] lidar_ids@[j]@),
        decreases lidar_ids@.len() - i,
    {
        if !contains_id(hash_ids, lidar_ids[i].as_str()) {
            proof {
                assert(id_set(lidar_ids@).contains(lidar_ids@[i as int]@));
                assert(expected.contains(lidar_ids@[i as int]@));
            }
            return Err(PerceptionError::Invalid(HASHES_INCOMPLETE));
        }
        i += 1;
    }
    proof {
        assert(id_set(hash_ids@) =~= expected) by {
            assert forall|v: Seq<char>| id_set(hash_ids@).contains(v) implies expected.contains(v) by {
                let j = choose|j: int| 0 <= j < hash_ids@.len() && #[trigger] hash_ids@[j]@ == v;
                assert(expected.contains(hash_ids@[j]@));
            }
            assert forall|v: Seq<char>| expected.contains(v) implies id_set(hash_ids@).contains(v) by {
                if v != NAIP_SOURCE_ID@ {
                    let j = choose|j: int| 0 <= j < lidar_ids@.len() && #[trigger] lidar_ids@[j]@ == v;
                    assert(id_set(hash_ids@).contains(lidar_ids@[j]@));
                }
            }
        }
    }
    Ok(())
}

/// Eligible cells: ascending, unique, and inside the grid.
pub open spec fn eligible_ok(eligible: Seq<CellIndex>) -> bool {
    &&& forall|k: int| 0 <= k < eligible.len() ==> in_grid(#[trigger] eligible[k])
    &&& forall|i: int, j: int| 0 <= i < j < eligible.len() ==> cell_lt(#[trigger] eligible[i], #[trigger] eligible[j])
}

/// Classify every eligible cell, in ascending cell order.
pub fn classify_cells(accumulators: &Vec<CellAccumulator>, eligible: &Vec<CellIndex>) -> (r: Result<
    Vec<EvidenceCell>,
    PerceptionError,
>)
    requires
        accumulators@.len() == GRID_CELLS,
        eligible_ok(eligible@),
        forall|k: int| 0 <= k < eligible@.len() ==> transient_spec(accumulators@[flat_index(#[trigger] eligible@[k])]) <= u32::MAX,
    ensures
        r is Ok <==> forall|k: int| 0 <= k < eligible@.len() ==> accumulators@[flat_index(#[trigger] eligible@[k])].naip_samples != 0,
        r is Err ==> r == Err::<Vec<EvidenceCell>, PerceptionError>(PerceptionError::Invalid(CELL_UNCOVERED)),
        r matches Ok(cells) ==> cells@.len() == eligible@.len() && forall|k: int|
            0 <= k < cells@.len() ==> classified(#[trigger] cells@[k], eligible@[k], accumulators@[flat_index(eligible@[k])]),
{
    let mut cells: Vec<EvidenceCell> = Vec::new();
    let mut k: usize = 0;
    while k < eligible.len()
        invariant
            accumulators@.len() == GRID_CELLS,
            eligible_ok(eligible@),
            forall|q: int| 0 <= q < eligible@.len() ==> transient_spec(accumulators@[flat_index(#[trigger] eligible@[q])]) <= u32::MAX,
            k <= eligible@.len(),
            cells@.len() == k,
            forall|q: int| 0 <= q < k ==> accumulators@[flat_index(#[trigger] eligible@[q])].naip_samples != 0,
            forall|q: int| 0 <= q < k ==> classified(#[trigger] cells@[q], eligible@[q], accumulators@[flat_index(eligible@[q])]),
        decreases eligible@.len() - k,
    {
        let index = eligible[k];
        proof {
            assert(in_grid(eligible@[k as int]));
        }
        let position = index.flat();
        match classify_cell(index, &accumulators[position]) {
            Ok(cell) => cells.push(cell),
            Err(e) => return Err(e),
        }
        k += 1;
    }
    Ok(cells)
}

/// Assemble and validate the portable artifact from classified cells.
pub fn evidence_artifact(cells: Vec<EvidenceCell>, source_sha256: Vec<(String, String)>, naip_sample_count: u64, lidar_sample_count: u64) -> (r: Result<
    EvidenceArtifact,
    PerceptionError,
>)
    requires
        cells@.len() <= GRID_CELLS,
    ensures
        r is Ok <==> (hashes_ok(source_sha256@) && forall|k: int| 0 <= k < cells@.len() ==> #[trigger] cell_error(cells@, k) is None),
        !hashes_ok(source_sha256@) ==> r == Err::<EvidenceArtifact, PerceptionError>(PerceptionError::Invalid(PROVENANCE_INVALID)),
        r matches Ok(a) ==> {
            &&& artifact_ok(a)
            &&& a.cells@ == cells@
            &&& a.source_sha256@ == source_sha256@
            &&& a.evidence_cell_count == cells@.len()
            &&& a.vector_masked_cell_count == GRID_CELLS - cells@.len()
            &&& a.naip_sample_count == naip_sample_count
            &&& a.lidar_sample_count == lidar_sample_count
        },
{
    let count = cells.len();
    let artifact = EvidenceArtifact {
        schema: ARTIFACT_SCHEMA.to_owned(),
        region_id: REGION_ID.to_owned(),
        status: EVIDENCE_STATUS.to_owned(),
        compiler: EVIDENCE_COMPILER.to_owned(),
        contains_source_pixels: false,
        contains_transients: false,
        grid: GridMetadata::prototype(),
        source_sha256,
        vector_masked_cell_count: (GRID_CELLS - count) as u16,
        evidence_cell_count: count as u16,
        naip_sample_count,
        lidar_sample_count,
        lidar_chunk_points: LIDAR_CHUNK_POINTS,
        cells,
    };
    match artifact.validate() {
        Ok(()) => Ok(artifact),
        Err(e) => Err(e),
    }
}


/// A TIFF color type and its bits per sample.
#[derive(Clone, Copy, Debug, Eq, PartialEq, Structural)]
pub enum TiffColor {
    /// Gray.
    Gray(u8),
    /// Red, green and blue.
    Rgb(u8),
    /// A palette index.
    Palette(u8),
    /// Gray and alpha.
    GrayAlpha(u8),
    /// Red, green, blue and alpha.
    Rgba(u8),
    /// Cyan, magenta, yellow and black.
    Cmyk(u8),
    /// Luma and chroma.
    YCbCr(u8),
}

/// Samples per pixel of a TIFF color type.
pub open spec fn tiff_samples(c: TiffColor) -> int {
    match c {
        TiffColor::Gray(_) | TiffColor::Palette(_) => 1,
        TiffColor::GrayAlpha(_) => 2,
        TiffColor::Rgb(_) | TiffColor::YCbCr(_) => 3,
        TiffColor::Rgba(_) | TiffColor::Cmyk(_) => 4,
    }
}

/// Bits per sample of a TIFF color type.
pub open spec fn tiff_bits(c: TiffColor) -> int {
    match c {
        TiffColor::Gray(b) | TiffColor::Palette(b) | TiffColor::GrayAlpha(b) | TiffColor::Rgb(b) | TiffColor::YCbCr(b)
        | TiffColor::Rgba(b) | TiffColor::Cmyk(b) => b as int,
    }
}

/// The first image's dimensions and color type that the TIFF decoder reads from `bytes`, or
/// `None` where it refuses them.
pub uninterp spec fn tiff_header_of(bytes: Seq<u8>) -> Option<(u32, u32, TiffColor)>;

/// The first image's samples that the TIFF decoder reads from `bytes`, `Some(None)` where they
/// decode as other than unsigned bytes, or `None` where it refuses the bytes.
pub uninterp spec fn tiff_samples_of(bytes: Seq<u8>) -> Option<Option<Seq<u8>>>;

/// Calls `tiff::decoder::Decoder::new` on the bytes, then `dimensions` and `colortype`, copying
/// them. The contract claims only that the result is a function of the bytes, named.
#[verifier::external_body]
fn read_tiff_header(bytes: &[u8]) -> (r: Result<(u32, u32, TiffColor), ()>)
    ensures
        r matches Ok(v) ==> tiff_header_of(bytes@) == Some(v),
        r is Err ==> tiff_header_of(bytes@) is None,
{
    let mut d = TiffDecoder::new(std::io::Cursor::new(bytes)).map_err(|_| ())?;
    let (width, height) = d.dimensions().map_err(|_| ())?;
    let color = match d.colortype().map_err(|_| ())? {
        TiffColorType::Gray(b) => TiffColor::Gray(b), TiffColorType::RGB(b) => TiffColor::Rgb(b),
        TiffColorType::Palette(b) => TiffColor::Palette(b), TiffColorType::GrayA(b) => TiffColor::GrayAlpha(b),
        TiffColorType::RGBA(b) => TiffColor::Rgba(b), TiffColorType::CMYK(b) => TiffColor::Cmyk(b),
        TiffColorType::YCbCr(b) => TiffColor::YCbCr(b),
    };
    Ok((width, height, color))
}

/// Calls `tiff::decoder::Decoder::new` on the bytes and then `read_image`, keeping the samples of
/// a `DecodingResult::U8` result. The contract claims only that the result is a function of the
/// bytes, named.
#[verifier::external_body]
fn read_tiff_samples(bytes: &[u8]) -> (r: Result<Option<Vec<u8>>, ()>)
    ensures
        r matches Ok(v) ==> tiff_samples_of(bytes@) == Some(match v {
            Some(s) => Some(s@),
            None => None,
        }),
        r is Err ==> tiff_samples_of(bytes@) is None,
{
    let mut d = TiffDecoder::new(std::io::Cursor::new(bytes)).map_err(|_| ())?;
    match d.read_image() { Ok(DecodingResult::U8(v)) => Ok(Some(v)), Ok(_) => Ok(None), Err(_) => Err(()) }
}

/// Decoded four-band imagery: row-major red, green, blue and near-infrared bytes.
#[derive(Clone, Debug, Eq, PartialEq)]
pub struct NaipImage {
    /// Pixel width.
    pub width: u32,
    /// Pixel height.
    pub height: u32,
    /// Four bytes per pixel.
    pub samples: Vec<u8>,
}

/// Decodes NAIP imagery from TIFF bytes: it must be four-band eight-bit imagery whose samples
/// decode as bytes and cover the whole grid.
pub fn decode_naip(tiff: &[u8]) -> (r: Result<NaipImage, PerceptionError>)
    ensures
        r is Ok <==> (tiff_header_of(tiff@) matches Some(h) && tiff_samples_of(tiff@) matches Some(s) && naip_ok(h, s)),
        r matches Ok(img) ==> (tiff_header_of(tiff@) matches Some(h) && h.0 == img.width && h.1 == img.height
            && tiff_samples_of(tiff@) == Some(Some(img.samples@))),
        tiff_header_of(tiff@) is None ==> r == Err::<NaipImage, PerceptionError>(
            PerceptionError::Invalid("NAIP TIFF could not be decoded"),
        ),
        (tiff_header_of(tiff@) matches Some(h) && !(tiff_samples(h.2) == 4 && tiff_bits(h.2) == 8)) ==> r == Err::<
            NaipImage,
            PerceptionError,
        >(PerceptionError::Invalid("NAIP must be four-band U8 imagery")),
{
    let (width, height, color) = match read_tiff_header(tiff) {
        Ok(v) => v,
        Err(()) => return Err(PerceptionError::Invalid("NAIP TIFF could not be decoded")),
    };
    let four_band = match color {
        TiffColor::Rgba(b) => b == 8,
        TiffColor::Cmyk(b) => b == 8,
        _ => false,
    };
    if !four_band {
        return Err(PerceptionError::Invalid("NAIP must be four-band U8 imagery"));
    }
    let samples = match read_tiff_samples(tiff) {
        Ok(Some(s)) => s,
        Ok(None) => return Err(PerceptionError::Invalid("NAIP decoder did not return U8 samples")),
        Err(()) => return Err(PerceptionError::Invalid("NAIP TIFF could not be decoded")),
    };
    proof {
        assert(width * height <= u32::MAX * u32::MAX) by (nonlinear_arith)
            requires
                width <= u32::MAX,
                height <= u32::MAX,
        ;
    }
    if samples.len() as u128 != width as u128 * height as u128 * 4 {
        return Err(PerceptionError::Invalid("NAIP sample length is inconsistent"));
    }
    Ok(NaipImage { width, height, samples })
}

/// Whether decoded imagery is four-band eight-bit and its byte samples cover its grid.
pub open spec fn naip_ok(h: (u32, u32, TiffColor), s: Option<Seq<u8>>) -> bool {
    &&& tiff_samples(h.2) == 4 && tiff_bits(h.2) == 8
    &&& s matches Some(v) && v.len() == h.0 * h.1 * 4
}

proof fn lemma_cells_ascending_upto(cells: Seq<EvidenceCell>, n: int)
    requires
        0 <= n <= cells.len(),
        forall|k: int| 0 <= k < cells.len() ==> #[trigger] cell_error(cells, k) is None,
    ensures
        forall|i: int, j: int| 0 <= i < j < n ==> cell_lt(#[trigger] cells[i].index, #[trigger] cells[j].index),
    decreases n,
{
    if n > 1 {
        lemma_cells_ascending_upto(cells, n - 1);
        assert(cell_error(cells, n - 1) is None);
        assert(cell_lt(cells[n - 2].index, cells[n - 1].index));
        assert forall|i: int, j: int| 0 <= i < j < n implies cell_lt(#[trigger] cells[i].index, #[trigger] cells[j].index) by {
            if j == n - 1 && i < n - 2 {
                assert(cell_lt(cells[i].index, cells[n - 2].index));
            }
        }
    }
}

/// A valid artifact lists its cells in strictly ascending address order throughout, not only
/// between neighbors, so a cell lookup finds every listed address.
pub proof fn lemma_valid_cells_ascending(a: EvidenceArtifact)
    requires
        artifact_ok(a),
    ensures
        forall|i: int, j: int| 0 <= i < j < a.cells@.len() ==> cell_lt(#[trigger] a.cells@[i].index, #[trigger] a.cells@[j].index),
{
    lemma_cells_ascending_upto(a.cells@, a.cells@.len() as int);
}

/// How a classified cell is decided, threshold by threshold: at least 70% building points makes
/// it unknown; otherwise at least 25% water points or 70% dark-water imagery makes it water;
/// otherwise at least 8% vegetation points from at least 20 points makes it canopy; otherwise at
/// least 45% green imagery makes it grass; and anything else is dry grass.
pub proof fn lemma_cell_classes_follow_thresholds(c: EvidenceCell, index: CellIndex, acc: CellAccumulator)
    requires
        classified(c, index, acc),
    ensures
        building_bp(acc) >= 7_000 ==> c.class == EvidenceClass::Unknown && c.material is None && c.height_mm == 0
            && c.confidence_bp == 2_500,
        building_bp(acc) < 7_000 && (water_bp(acc) >= 2_500 || dark_water_bp(acc) >= 7_000) ==> c.class
            == EvidenceClass::Water && (c.material matches Some(m) && m@ == "water"@) && c.height_mm == 0
            && c.confidence_bp == 8_000,
        building_bp(acc) < 7_000 && water_bp(acc) < 2_500 && dark_water_bp(acc) < 7_000 && vegetation_bp(acc) >= 800
            && acc.vegetation_samples >= 20 ==> c.class == EvidenceClass::Vegetation && (c.material matches Some(m)
            && m@ == "canopy"@) && c.confidence_bp == 8_500,
        building_bp(acc) < 7_000 && water_bp(acc) < 2_500 && dark_water_bp(acc) < 7_000 && !(vegetation_bp(acc) >= 800
            && acc.vegetation_samples >= 20) && green_bp(acc) >= 4_500 ==> c.class == EvidenceClass::Terrain && (
        c.material matches Some(m) && m@ == "grass"@) && c.height_mm == 0 && c.confidence_bp == 7_500,
        building_bp(acc) < 7_000 && water_bp(acc) < 2_500 && dark_water_bp(acc) < 7_000 && !(vegetation_bp(acc) >= 800
            && acc.vegetation_samples >= 20) && green_bp(acc) < 4_500 ==> c.class == EvidenceClass::Terrain && (
        c.material matches Some(m) && m@ == "dry-grass"@) && c.height_mm == 0 && c.confidence_bp == 7_000,
{
}

/// The evidence ratios in basis points: the share of LiDAR points of each class among all LiDAR
/// points, and of green or dark-water imagery samples among all imagery samples, capped at
/// 10 000 and zero without samples.
pub proof fn lemma_evidence_ratios(acc: CellAccumulator)
    ensures
        acc.lidar_samples > 0 && acc.water_samples <= acc.lidar_samples ==> water_bp(acc) == acc.water_samples * 10_000
            / acc.lidar_samples as int,
        acc.lidar_samples > 0 && acc.building_samples <= acc.lidar_samples ==> building_bp(acc) == acc.building_samples
            * 10_000 / acc.lidar_samples as int,
        acc.lidar_samples > 0 && acc.vegetation_samples <= acc.lidar_samples ==> vegetation_bp(acc)
            == acc.vegetation_samples * 10_000 / acc.lidar_samples as int,
        acc.naip_samples > 0 && acc.dark_water_samples <= acc.naip_samples ==> dark_water_bp(acc)
            == acc.dark_water_samples * 10_000 / acc.naip_samples as int,
        acc.naip_samples > 0 && acc.green_samples <= acc.naip_samples ==> green_bp(acc) == acc.green_samples * 10_000
            / acc.naip_samples as int,
        acc.lidar_samples == 0 ==> water_bp(acc) == 0 && building_bp(acc) == 0 && vegetation_bp(acc) == 0,
        acc.naip_samples == 0 ==> dark_water_bp(acc) == 0 && green_bp(acc) == 0,
{
    assert forall|n: int, d: int| 0 <= n <= d && d > 0 implies #[trigger] (n * 10_000 / d) <= 10_000 by {
        assert(n * 10_000 <= d * 10_000) by (nonlinear_arith)
            requires
                0 <= n <= d,
        ;
        vstd::arithmetic::div_mod::lemma_div_is_ordered(n * 10_000, d * 10_000, d);
        vstd::arithmetic::div_mod::lemma_div_multiples_vanish(10_000, d);
        assert(d * 10_000 == 10_000 * d) by (nonlinear_arith);
    }
}

/// Heights fall into half-meter bins from the datum: bin `b` holds heights from `500 b` up to
/// but not including `500 (b + 1)` millimeters; negative heights go to bin 0 and heights of
/// 127.5 m or more to bin 255.
pub proof fn lemma_height_bins(height_mm: int)
    ensures
        height_mm < 0 ==> height_bin(height_mm) == 0,
        0 <= height_mm < 128_000 ==> height_bin(height_mm) * 500 <= height_mm < (height_bin(height_mm) + 1) * 500,
        height_mm >= 128_000 ==> height_bin(height_mm) == 255,
{
}

} // verus!
