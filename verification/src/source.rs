//! Source-lock contract, bounded retry decisions, and response checks for the
//! content-addressed acquisition of approved prototype sources.
use vstd::prelude::*;
use vstd::utf8::encode_utf8;
use crate::digest::{is_sha256, is_sha256_bytes};
use crate::text::{
    bytes_contain, bytes_start_with, decimal, decimal_spec, has_infix, has_prefix, lemma_encoding_nonempty, str_eq,
    str_lt, str_lt_spec,
};

verus! {

/// Source-lock schema identifier.
pub const LOCK_SCHEMA: &'static str = "isometric-source-lock/v1";
/// Accepted region of the source lock.
pub const LOCK_REGION: &'static str = "stanford-hero-v1";
/// Production attempts per remote artifact.
pub const HTTP_MAX_ATTEMPTS: u8 = 3;
/// Production backoff before the second attempt, doubled for each later one.
pub const HTTP_RETRY_BACKOFF_MS: u64 = 250;
/// Production connect deadline.
pub const HTTP_CONNECT_TIMEOUT_MS: u64 = 30_000;
/// Production response deadline; it stays active while the body is read, so it
/// equals the body deadline and a large valid body gets the whole window.
pub const HTTP_RESPONSE_TIMEOUT_MS: u64 = 300_000;
/// Production body deadline.
pub const HTTP_BODY_TIMEOUT_MS: u64 = 300_000;

/// A source lock used by the acquisition pipeline.
#[derive(Clone, Debug, Eq, PartialEq)]
pub struct SourceLock {
    /// Schema identifier.
    pub schema: String,
    /// Stable geographic region identifier.
    pub region_id: String,
    /// Locked source artifacts.
    pub sources: Vec<SourceRecord>,
    /// Whether Google-derived content is permitted.
    pub google_content_permitted: bool,
}

/// One approved immutable source artifact.
#[derive(Clone, Debug, Eq, PartialEq)]
pub struct SourceRecord {
    /// Stable source identifier.
    pub id: String,
    /// Semantic source family.
    pub kind: String,
    /// Compiler role of this artifact.
    pub role: String,
    /// Upstream release, snapshot, or item identifier.
    pub release: String,
    /// Date or timestamp represented by the source.
    pub source_date: String,
    /// UTC date on which the artifact was acquired.
    pub acquired_at: String,
    /// Retrieval contract.
    pub acquisition: Acquisition,
    /// Exact expected byte length.
    pub size_bytes: u64,
    /// Exact expected SHA-256 in lowercase hexadecimal.
    pub sha256: String,
    /// License identifier or public-domain statement.
    pub license: String,
    /// Required public attribution.
    pub attribution: String,
    /// Human-readable upstream metadata URL.
    pub metadata_url: String,
    /// Whether the source-rights record approved acquisition.
    pub approved: bool,
    /// Whether untransformed source bytes may enter final render output.
    pub raw_content_in_final_output: bool,
}

/// Supported deterministic artifact acquisition methods.
#[derive(Clone, Debug, Eq, PartialEq)]
pub enum Acquisition {
    /// Retrieve an exact response over HTTPS.
    Https {
        /// Full request URL including its locked query.
        url: String,
        /// Optional immutable entity tag required for guarded range continuation.
        etag: Option<String>,
        /// Stable output filename.
        filename: String,
    },
    /// Verify and import a repository-local artifact.
    Local {
        /// Path relative to the source lock.
        path: String,
        /// Stable output filename.
        filename: String,
    },
}

/// Result of synchronizing one artifact.
#[derive(Clone, Debug, Eq, PartialEq)]
pub struct SyncedArtifact {
    /// Source record identifier.
    pub id: String,
    /// Content-addressed cache path.
    pub path: String,
    /// Whether an already verified cache entry was reused.
    pub reused: bool,
    /// Acquisition attempts made in this invocation, or zero for a cache hit.
    pub attempts: u8,
}

/// Fail-closed source acquisition error.
#[derive(Clone, Debug, Eq, PartialEq)]
pub enum SourceError {
    /// The lock or a record violates the contract.
    Invalid(String),
    /// One approved source could not be acquired safely.
    Acquisition {
        /// Stable source identifier, never its possibly sensitive URL.
        source_id: String,
        /// Bounded acquisition stage that failed.
        stage: &'static str,
        /// Attempts made before returning the failure.
        attempts: u8,
        /// Sanitized upstream or stream failure.
        detail: String,
    },
}

/// The UTF-8 bytes of a string view.
pub open spec fn bytes_of(s: Seq<char>) -> Seq<u8> {
    encode_utf8(s)
}

/// A message naming one source: `source <id><suffix>`.
pub open spec fn about(id: Seq<char>, suffix: Seq<char>) -> Seq<char> {
    "source "@ + id + suffix
}

fn message_about(id: &str, suffix: &str) -> (m: String)
    ensures
        m@ == about(id@, suffix@),
{
    let mut m = "source ".to_owned();
    m.push_str(id);
    m.push_str(suffix);
    m
}

/// An entity tag is a quoted run of at least three visible ASCII bytes.
pub open spec fn etag_ok(e: Seq<u8>) -> bool {
    &&& e.len() >= 3
    &&& e[0] == 0x22
    &&& e[e.len() - 1] == 0x22
    &&& forall|i: int| 0 <= i < e.len() ==> 0x21 <= #[trigger] e[i] <= 0x7e
}

/// A `..` segment of a `/`-separated path starts at `i`.
pub open spec fn dotdot_at(p: Seq<u8>, i: int) -> bool {
    &&& 0 <= i && i + 2 <= p.len()
    &&& p[i] == 0x2e && p[i + 1] == 0x2e
    &&& (i == 0 || p[i - 1] == 0x2f)
    &&& (i + 2 == p.len() || p[i + 2] == 0x2f)
}

/// A local path is unsafe when absolute or when one segment is `..`.
pub open spec fn path_unsafe(p: Seq<u8>) -> bool {
    (p.len() > 0 && p[0] == 0x2f) || exists|i: int| #[trigger] dotdot_at(p, i)
}

/// A filename is unsafe when empty or when it holds `/` or `\\`.
pub open spec fn filename_unsafe(f: Seq<u8>) -> bool {
    f.len() == 0 || exists|i: int| 0 <= i < f.len() && (#[trigger] f[i] == 0x2f || f[i] == 0x5c)
}

/// The filename of an acquisition.
pub open spec fn acquisition_filename(a: Acquisition) -> Seq<char> {
    match a {
        Acquisition::Https { filename, .. } => filename@,
        Acquisition::Local { filename, .. } => filename@,
    }
}

/// The rejection message for a record's acquisition, if any.
pub open spec fn acquisition_error(s: SourceRecord) -> Option<Seq<char>> {
    let id = s.id@;
    let method_error = match s.acquisition {
        Acquisition::Https { url, etag, .. } => if !has_prefix(bytes_of(url@), bytes_of("https://"@)) {
            Some(about(id, " must use HTTPS"@))
        } else if has_infix(bytes_of(url@), bytes_of("google."@)) || has_infix(bytes_of(url@), bytes_of("googleapis."@)) {
            Some(about(id, " attempts prohibited Google retrieval"@))
        } else if etag matches Some(e) && !etag_ok(bytes_of(e@)) {
            Some(about(id, " has an invalid HTTPS entity tag"@))
        } else {
            None
        },
        Acquisition::Local { path, .. } => if path_unsafe(bytes_of(path@)) {
            Some(about(id, " has an unsafe local path"@))
        } else {
            None
        },
    };
    if method_error is Some {
        method_error
    } else if filename_unsafe(bytes_of(acquisition_filename(s.acquisition))) {
        Some(about(id, " has an unsafe filename"@))
    } else {
        None
    }
}

/// The rejection message for record `s` after a record with id `prev`, if any.
pub open spec fn record_error(s: SourceRecord, prev: Option<Seq<char>>) -> Option<Seq<char>> {
    let id = s.id@;
    if !s.approved {
        Some(about(id, " is not approved"@))
    } else if s.raw_content_in_final_output {
        Some(about(id, " permits raw content in final output"@))
    } else if id.len() == 0 || s.kind@.len() == 0 || s.role@.len() == 0 {
        Some("source id, kind, and role must be non-empty"@)
    } else if prev matches Some(p) && !str_lt_spec(p, id) {
        Some("source records must be uniquely sorted by id"@)
    } else if s.size_bytes == 0 {
        Some(about(id, " has an invalid byte length"@))
    } else if !is_sha256_bytes(bytes_of(s.sha256@)) {
        Some(about(id, " has an invalid SHA-256"@))
    } else if s.release@.len() == 0 || s.source_date@.len() == 0 || s.acquired_at@.len() == 0 || s.license@.len() == 0
        || s.attribution@.len() == 0 || s.metadata_url@.len() == 0 {
        Some(about(id, " lacks release, date, license, attribution, or metadata"@))
    } else {
        acquisition_error(s)
    }
}

/// The first rejection among the first `n` records.
pub open spec fn first_record_error(sources: Seq<SourceRecord>, n: int) -> Option<Seq<char>>
    decreases n,
{
    if n <= 0 {
        None
    } else {
        let earlier = first_record_error(sources, n - 1);
        if earlier is Some {
            earlier
        } else {
            record_error(sources[n - 1], if n - 1 > 0 { Some(sources[n - 2].id@) } else { None })
        }
    }
}

/// The rejection message of a lock, if any.
pub open spec fn lock_error(lock: SourceLock) -> Option<Seq<char>> {
    if lock.schema@ != LOCK_SCHEMA@ {
        Some("source lock schema must be isometric-source-lock/v1"@)
    } else if lock.region_id@ != LOCK_REGION@ {
        Some("source lock region must be stanford-hero-v1"@)
    } else if lock.sources@.len() == 0 {
        Some("source lock must contain at least one approved artifact"@)
    } else {
        first_record_error(lock.sources@, lock.sources@.len() as int)
    }
}

fn nonempty(s: &String) -> (r: bool)
    ensures
        r == (s@.len() > 0),
{
    let b = s.as_str().as_bytes();
    proof {
        lemma_encoding_nonempty(s@);
    }
    b.len() > 0
}

fn etag_valid(etag: &str) -> (r: bool)
    ensures
        r == etag_ok(bytes_of(etag@)),
{
    let b = etag.as_bytes();
    if b.len() < 3 || b[0] != 0x22 || b[b.len() - 1] != 0x22 {
        return false;
    }
    let mut i: usize = 0;
    while i < b.len()
        invariant
            b@ == bytes_of(etag@),
            i <= b@.len(),
            forall|j: int| 0 <= j < i ==> 0x21 <= #[trigger] b@[j] <= 0x7e,
        decreases b@.len() - i,
    {
        if b[i] < 0x21 || b[i] > 0x7e {
            return false;
        }
        i += 1;
    }
    true
}

fn path_is_unsafe(path: &str) -> (r: bool)
    ensures
        r == path_unsafe(bytes_of(path@)),
{
    let p = path.as_bytes();
    if p.len() > 0 && p[0] == 0x2f {
        return true;
    }
    if p.len() < 2 {
        proof {
            assert forall|i: int| !#[trigger] dotdot_at(p@, i) by {}
        }
        return false;
    }
    let mut i: usize = 0;
    while i < p.len() - 1
        invariant
            p@ == bytes_of(path@),
            p@.len() >= 2,
            i + 1 <= p@.len(),
            forall|j: int| 0 <= j < i ==> !#[trigger] dotdot_at(p@, j),
        decreases p@.len() - i,
    {
        if p[i] == 0x2e && p[i + 1] == 0x2e && (i == 0 || p[i - 1] == 0x2f) && (i + 2 == p.len() || p[i + 2] == 0x2f) {
            proof {
                assert(dotdot_at(p@, i as int));
            }
            return true;
        }
        i += 1;
    }
    proof {
        assert forall|j: int| !#[trigger] dotdot_at(p@, j) by {
            if 0 <= j < i {
            }
        }
    }
    false
}

fn filename_is_unsafe(filename: &str) -> (r: bool)
    ensures
        r == filename_unsafe(bytes_of(filename@)),
{
    let f = filename.as_bytes();
    if f.len() == 0 {
        return true;
    }
    let mut i: usize = 0;
    while i < f.len()
        invariant
            f@ == bytes_of(filename@),
            i <= f@.len(),
            forall|j: int| 0 <= j < i ==> !(#[trigger] f@[j] == 0x2f || f@[j] == 0x5c),
        decreases f@.len() - i,
    {
        if f[i] == 0x2f || f[i] == 0x5c {
            return true;
        }
        i += 1;
    }
    false
}

/// Checks one record's retrieval method, path safety, and filename.
pub fn validate_acquisition(source: &SourceRecord) -> (r: Result<(), SourceError>)
    ensures
        r is Ok <==> acquisition_error(*source) is None,
        r matches Err(e) ==> e matches SourceError::Invalid(m) && m@ == acquisition_error(*source)->0,
{
    let id = source.id.as_str();
    let filename = match &source.acquisition {
        Acquisition::Https { url, etag, filename } => {
            if !bytes_start_with(url.as_str().as_bytes(), "https://".as_bytes()) {
                return Err(SourceError::Invalid(message_about(id, " must use HTTPS")));
            }
            if bytes_contain(url.as_str().as_bytes(), "google.".as_bytes()) || bytes_contain(
                url.as_str().as_bytes(),
                "googleapis.".as_bytes(),
            ) {
                return Err(SourceError::Invalid(message_about(id, " attempts prohibited Google retrieval")));
            }
            match etag {
                Some(e) => {
                    if !etag_valid(e.as_str()) {
                        return Err(SourceError::Invalid(message_about(id, " has an invalid HTTPS entity tag")));
                    }
                },
                None => {},
            }
            filename
        },
        Acquisition::Local { path, filename } => {
            if path_is_unsafe(path.as_str()) {
                return Err(SourceError::Invalid(message_about(id, " has an unsafe local path")));
            }
            filename
        },
    };
    if filename_is_unsafe(filename.as_str()) {
        return Err(SourceError::Invalid(message_about(id, " has an unsafe filename")));
    }
    Ok(())
}

fn check_record(source: &SourceRecord, previous: Option<&String>) -> (r: Result<(), SourceError>)
    ensures
        r is Ok <==> record_error(*source, match previous { Some(p) => Some(p@), None => None }) is None,
        r matches Err(e) ==> e matches SourceError::Invalid(m) && m@ == record_error(
            *source,
            match previous { Some(p) => Some(p@), None => None },
        )->0,
{
    let id = source.id.as_str();
    if !source.approved {
        return Err(SourceError::Invalid(message_about(id, " is not approved")));
    }
    if source.raw_content_in_final_output {
        return Err(SourceError::Invalid(message_about(id, " permits raw content in final output")));
    }
    if !nonempty(&source.id) || !nonempty(&source.kind) || !nonempty(&source.role) {
        return Err(SourceError::Invalid("source id, kind, and role must be non-empty".to_owned()));
    }
    match previous {
        Some(p) => {
            if !str_lt(p.as_str(), id) {
                return Err(SourceError::Invalid("source records must be uniquely sorted by id".to_owned()));
            }
        },
        None => {},
    }
    if source.size_bytes == 0 {
        return Err(SourceError::Invalid(message_about(id, " has an invalid byte length")));
    }
    if !is_sha256(source.sha256.as_str()) {
        return Err(SourceError::Invalid(message_about(id, " has an invalid SHA-256")));
    }
    if !nonempty(&source.release) || !nonempty(&source.source_date) || !nonempty(&source.acquired_at) || !nonempty(
        &source.license,
    ) || !nonempty(&source.attribution) || !nonempty(&source.metadata_url) {
        return Err(SourceError::Invalid(message_about(id, " lacks release, date, license, attribution, or metadata")));
    }
    validate_acquisition(source)
}

/// Validates a source lock: schema, region, at least one record, and every record in order.
pub fn validate_lock(lock: &SourceLock) -> (r: Result<(), SourceError>)
    ensures
        r is Ok <==> lock_error(*lock) is None,
        r matches Err(e) ==> e matches SourceError::Invalid(m) && m@ == lock_error(*lock)->0,
{
    let schema = LOCK_SCHEMA.to_owned();
    if !(lock.schema == schema) {
        return Err(SourceError::Invalid("source lock schema must be isometric-source-lock/v1".to_owned()));
    }
    let region = LOCK_REGION.to_owned();
    if !(lock.region_id == region) {
        return Err(SourceError::Invalid("source lock region must be stanford-hero-v1".to_owned()));
    }
    if lock.sources.len() == 0 {
        return Err(SourceError::Invalid("source lock must contain at least one approved artifact".to_owned()));
    }
    let mut k: usize = 0;
    while k < lock.sources.len()
        invariant
            lock.schema@ == LOCK_SCHEMA@,
            lock.region_id@ == LOCK_REGION@,
            lock.sources@.len() > 0,
            k <= lock.sources@.len(),
            first_record_error(lock.sources@, k as int) is None,
        decreases lock.sources@.len() - k,
    {
        let previous = if k > 0 { Some(&lock.sources[k - 1].id) } else { None };
        match check_record(&lock.sources[k], previous) {
            Ok(()) => {},
            Err(e) => {
                proof {
                    assert(first_record_error(lock.sources@, k + 1) == record_error(
                        lock.sources@[k as int],
                        if k > 0 { Some(lock.sources@[k - 1].id@) } else { None },
                    ));
                    assert(forall|n: int| k + 1 <= n <= lock.sources@.len() ==> #[trigger] first_record_error(lock.sources@, n) == first_record_error(lock.sources@, k + 1)) by {
                        lemma_first_error_sticky(lock.sources@, k + 1, lock.sources@.len() as int);
                    }
                }
                return Err(e);
            },
        }
        k += 1;
    }
    Ok(())
}

proof fn lemma_first_error_sticky(sources: Seq<SourceRecord>, k: int, n: int)
    requires
        1 <= k <= n,
        first_record_error(sources, k) is Some,
    ensures
        forall|m: int| k <= m <= n ==> #[trigger] first_record_error(sources, m) == first_record_error(sources, k),
    decreases n - k,
{
    if k < n {
        lemma_first_error_sticky(sources, k, n - 1);
        assert(first_record_error(sources, n) == first_record_error(sources, n - 1));
    }
}

/// Whether a lock has a record with this id.
pub open spec fn lock_has(lock: SourceLock, id: Seq<char>) -> bool {
    exists|k: int| 0 <= k < lock.sources@.len() && #[trigger] lock.sources@[k].id@ == id
}

/// Requested ids are distinct.
pub open spec fn distinct_ids(ids: Seq<String>) -> bool {
    forall|i: int, j: int| 0 <= i < j < ids.len() ==> #[trigger] ids[i]@ != #[trigger] ids[j]@
}

/// Record `k` is selected: every record when nothing is requested, else exactly the requested ones.
pub open spec fn selected(lock: SourceLock, ids: Seq<String>, k: int) -> bool {
    ids.len() == 0 || exists|i: int| 0 <= i < ids.len() && #[trigger] ids[i]@ == lock.sources@[k].id@
}

/// The rejection of a selection.
pub const SELECTION_INVALID: &'static str = "selected source IDs must be unique and present in the lock";

/// Positions of the selected records, in lock order; requested ids must be unique and present.
pub fn select_sources(lock: &SourceLock, ids: &Vec<String>) -> (r: Result<Vec<usize>, SourceError>)
    ensures
        r is Ok <==> (distinct_ids(ids@) && forall|i: int| 0 <= i < ids@.len() ==> lock_has(*lock, #[trigger] ids@[i]@)),
        r matches Err(e) ==> e matches SourceError::Invalid(m) && m@ == SELECTION_INVALID@,
        r matches Ok(positions) ==> {
            &&& forall|a: int, b: int| 0 <= a < b < positions@.len() ==> #[trigger] positions@[a] < #[trigger] positions@[b]
            &&& forall|a: int| 0 <= a < positions@.len() ==> #[trigger] positions@[a] < lock.sources@.len()
            &&& forall|k: int| 0 <= k < lock.sources@.len() ==> (positions@.contains(k as usize) <==> selected(*lock, ids@, k))
        },
{
    let mut i: usize = 0;
    while i < ids.len()
        invariant
            i <= ids@.len(),
            distinct_ids(ids@.subrange(0, i as int)),
            forall|q: int| 0 <= q < i ==> lock_has(*lock, #[trigger] ids@[q]@),
        decreases ids@.len() - i,
    {
        let mut j: usize = 0;
        while j < i
            invariant
                i < ids@.len(),
                j <= i,
                forall|q: int| 0 <= q < j ==> #[trigger] ids@[q]@ != ids@[i as int]@,
            decreases i - j,
        {
            if str_eq(ids[j].as_str(), ids[i].as_str()) {
                proof {
                    assert(!distinct_ids(ids@));
                }
                return Err(SourceError::Invalid(SELECTION_INVALID.to_owned()));
            }
            j += 1;
        }
        let mut found = false;
        let mut k: usize = 0;
        while k < lock.sources.len()
            invariant
                i < ids@.len(),
                k <= lock.sources@.len(),
                found ==> lock_has(*lock, ids@[i as int]@),
                !found ==> forall|q: int| 0 <= q < k ==> #[trigger] lock.sources@[q].id@ != ids@[i as int]@,
            decreases lock.sources@.len() - k,
        {
            if str_eq(lock.sources[k].id.as_str(), ids[i].as_str()) {
                found = true;
            }
            k += 1;
        }
        if !found {
            proof {
                assert(!lock_has(*lock, ids@[i as int]@));
            }
            return Err(SourceError::Invalid(SELECTION_INVALID.to_owned()));
        }
        proof {
            assert forall|a: int, b: int| 0 <= a < b < i + 1 implies #[trigger] ids@.subrange(0, i + 1)[a]@ != #[trigger] ids@.subrange(0, i + 1)[b]@ by {
                if b < i {
                    assert(ids@.subrange(0, i as int)[a] == ids@[a]);
                    assert(ids@.subrange(0, i as int)[b] == ids@[b]);
                }
            }
        }
        i += 1;
    }
    proof {
        assert(ids@.subrange(0, ids@.len() as int) =~= ids@);
    }
    let mut positions: Vec<usize> = Vec::new();
    let mut k: usize = 0;
    while k < lock.sources.len()
        invariant
            k <= lock.sources@.len(),
            forall|a: int, b: int| 0 <= a < b < positions@.len() ==> #[trigger] positions@[a] < #[trigger] positions@[b],
            forall|a: int| 0 <= a < positions@.len() ==> #[trigger] positions@[a] < k,
            forall|q: int| 0 <= q < k ==> (positions@.contains(q as usize) <==> selected(*lock, ids@, q)),
        decreases lock.sources@.len() - k,
    {
        let mut take = ids.len() == 0;
        let mut i: usize = 0;
        while i < ids.len()
            invariant
                k < lock.sources@.len(),
                i <= ids@.len(),
                take == (ids@.len() == 0 || exists|q: int| 0 <= q < i && #[trigger] ids@[q]@ == lock.sources@[k as int].id@),
            decreases ids@.len() - i,
        {
            if str_eq(ids[i].as_str(), lock.sources[k].id.as_str()) {
                take = true;
            }
            i += 1;
        }
        let ghost before = positions@;
        if take {
            positions.push(k);
        }
        proof {
            assert forall|q: int| 0 <= q < k + 1 implies (positions@.contains(q as usize) <==> selected(*lock, ids@, q)) by {
                if q < k {
                    if positions@.contains(q as usize) {
                        let w = choose|w: int| 0 <= w < positions@.len() && positions@[w] == q as usize;
                        if w < before.len() {
                            assert(before[w] == q as usize);
                        }
                    }
                    if before.contains(q as usize) {
                        let w = choose|w: int| 0 <= w < before.len() && before[w] == q as usize;
                        assert(positions@[w] == q as usize);
                    }
                } else {
                    if !take {
                        if positions@.contains(q as usize) {
                            let w = choose|w: int| 0 <= w < positions@.len() && positions@[w] == q as usize;
                            assert(positions@[w] < k);
                        }
                    } else {
                        assert(positions@[before.len() as int] == k);
                    }
                }
            }
        }
        k += 1;
    }
    Ok(positions)
}

/// Bounded retry and deadline settings, in milliseconds.
#[derive(Clone, Copy, Debug, Eq, PartialEq, Structural)]
pub struct RetryPolicy {
    /// Attempts per artifact.
    pub max_attempts: u8,
    /// Backoff before the second attempt, doubled for each later one.
    pub backoff_ms: u64,
    /// Connect deadline.
    pub connect_timeout_ms: u64,
    /// Response deadline, active while the body is read.
    pub response_timeout_ms: u64,
    /// Body deadline.
    pub body_timeout_ms: u64,
}

impl RetryPolicy {
    /// The production policy: three attempts, 250 ms doubling backoff, 30 s connect,
    /// and one shared 300 s receive window for headers and body.
    pub fn production() -> (r: RetryPolicy)
        ensures
            r.max_attempts == HTTP_MAX_ATTEMPTS,
            r.backoff_ms == HTTP_RETRY_BACKOFF_MS,
            r.connect_timeout_ms == HTTP_CONNECT_TIMEOUT_MS,
            r.response_timeout_ms == HTTP_RESPONSE_TIMEOUT_MS,
            r.body_timeout_ms == HTTP_BODY_TIMEOUT_MS,
            r.response_timeout_ms == r.body_timeout_ms,
    {
        RetryPolicy {
            max_attempts: HTTP_MAX_ATTEMPTS,
            backoff_ms: HTTP_RETRY_BACKOFF_MS,
            connect_timeout_ms: HTTP_CONNECT_TIMEOUT_MS,
            response_timeout_ms: HTTP_RESPONSE_TIMEOUT_MS,
            body_timeout_ms: HTTP_BODY_TIMEOUT_MS,
        }
    }
}

/// What to do after one failed remote attempt.
#[derive(Clone, Copy, Debug, Eq, PartialEq, Structural)]
pub enum RetryStep {
    /// The partial file already holds the locked length: accept it.
    Complete,
    /// Stop and report the failure with this attempt count.
    Fail,
    /// Wait and try again, discarding the partial file unless a locked entity tag allows resuming.
    Retry {
        /// Whether to remove the partial file first.
        discard_partial: bool,
        /// Backoff before the next attempt.
        backoff_ms: u64,
    },
}

/// `2^k`.
pub open spec fn doubling(k: nat) -> nat
    decreases k,
{
    if k == 0 { 1 } else { 2 * doubling((k - 1) as nat) }
}

/// The retry decision after a failed attempt.
pub open spec fn retry_step_spec(policy: RetryPolicy, attempt: int, retryable: bool, partial_complete: bool, has_etag: bool) -> RetryStep {
    if partial_complete {
        RetryStep::Complete
    } else if !retryable || attempt == policy.max_attempts {
        RetryStep::Fail
    } else {
        let wait = policy.backoff_ms * doubling((attempt - 1) as nat);
        RetryStep::Retry {
            discard_partial: !has_etag,
            backoff_ms: if wait > u64::MAX { u64::MAX } else { wait as u64 },
        }
    }
}

/// Decide what follows a failed attempt `attempt` (counted from one).
pub fn after_failed_attempt(policy: RetryPolicy, attempt: u8, retryable: bool, partial_complete: bool, has_etag: bool) -> (r: RetryStep)
    requires
        1 <= attempt <= policy.max_attempts <= 32,
    ensures
        r == retry_step_spec(policy, attempt as int, retryable, partial_complete, has_etag),
{
    if partial_complete {
        return RetryStep::Complete;
    }
    if !retryable || attempt == policy.max_attempts {
        return RetryStep::Fail;
    }
    let mut multiplier: u64 = 1;
    let mut k: u8 = 1;
    while k < attempt
        invariant
            1 <= k <= attempt <= 32,
            multiplier == doubling((k - 1) as nat),
            multiplier <= 0x1_0000_0000,
        decreases attempt - k,
    {
        proof {
            assert(doubling(k as nat) == 2 * doubling((k - 1) as nat));
            lemma_doubling_bound(k as nat);
        }
        assert(multiplier * 2 <= 0x1_0000_0000);
        multiplier = multiplier * 2;
        k += 1;
    }
    let backoff = if multiplier > 0 && policy.backoff_ms > u64::MAX / multiplier {
        proof {
            assert(policy.backoff_ms * multiplier > u64::MAX) by (nonlinear_arith)
                requires policy.backoff_ms > u64::MAX / multiplier, multiplier > 0;
        }
        u64::MAX
    } else {
        proof {
            lemma_doubling_positive((attempt - 1) as nat);
            assert(policy.backoff_ms * multiplier <= u64::MAX) by (nonlinear_arith)
                requires policy.backoff_ms <= u64::MAX / multiplier, multiplier > 0;
        }
        policy.backoff_ms * multiplier
    };
    RetryStep::Retry { discard_partial: !has_etag, backoff_ms: backoff }
}

proof fn lemma_doubling_mono(k: nat, m: nat)
    requires
        k <= m,
    ensures
        doubling(k) <= doubling(m),
    decreases m - k,
{
    if k < m {
        lemma_doubling_mono(k, (m - 1) as nat);
        lemma_doubling_positive((m - 1) as nat);
    }
}

proof fn lemma_doubling_bound(k: nat)
    requires
        k <= 32,
    ensures
        doubling(k) <= 0x1_0000_0000,
        doubling(k) >= 1,
{
    reveal_with_fuel(doubling, 33);
    assert(doubling(32) == 0x1_0000_0000);
    lemma_doubling_mono(k, 32);
    lemma_doubling_positive(k);
}

proof fn lemma_doubling_positive(k: nat)
    ensures
        doubling(k) >= 1,
    decreases k,
{
    if k > 0 {
        lemma_doubling_positive((k - 1) as nat);
    }
}

/// HTTP statuses worth retrying: timeouts, rate limits, and transient server errors.
pub open spec fn retryable_status_spec(code: u16) -> bool {
    code == 408 || code == 425 || code == 429 || code == 500 || code == 502 || code == 503 || code == 504
}

/// Whether an HTTP status is worth retrying.
pub fn retryable_status(code: u16) -> (r: bool)
    ensures
        r == retryable_status_spec(code),
{
    code == 408 || code == 425 || code == 429 || code == 500 || code == 502 || code == 503 || code == 504
}

/// One failed remote attempt.
#[derive(Clone, Debug, Eq, PartialEq)]
pub struct AttemptFailure {
    /// Bounded acquisition stage that failed.
    pub stage: &'static str,
    /// Sanitized detail.
    pub detail: String,
    /// Whether another attempt may succeed.
    pub retryable: bool,
}

/// The `Content-Range` a resumed response must carry.
pub open spec fn expected_range(offset: nat, size: nat) -> Seq<char> {
    "bytes "@ + decimal_spec(offset) + "-"@ + decimal_spec((size - 1) as nat) + "/"@ + decimal_spec(size)
}

/// Whether an optional header equals `expected`.
pub open spec fn header_is(h: Option<&str>, expected: Seq<char>) -> bool {
    h matches Some(v) && v@ == expected
}

/// Checks response headers against the locked entity tag and the resume offset.
pub fn check_response(
    status: u16,
    response_etag: Option<&str>,
    content_range: Option<&str>,
    locked_etag: Option<&str>,
    offset: u64,
    size_bytes: u64,
) -> (r: Result<(), AttemptFailure>)
    requires
        offset <= size_bytes,
    ensures
        r matches Err(f) ==> !f.retryable,
        (locked_etag matches Some(e) && !header_is(response_etag, e@)) ==> (r matches Err(f) && f.stage == "response entity tag"
            && f.detail@ == "response does not match the locked entity tag"@),
        !(locked_etag matches Some(e) && !header_is(response_etag, e@)) ==> {
            if offset == 0 {
                if status == 200 {
                    r is Ok
                } else {
                    r matches Err(f) && f.stage == "response status" && f.detail@ == "expected HTTP 200, received "@
                        + decimal_spec(status as nat)
                }
            } else if status != 206 {
                r matches Err(f) && f.stage == "range response status" && f.detail@ == "expected HTTP 206, received "@
                    + decimal_spec(status as nat)
            } else if !header_is(content_range, expected_range(offset as nat, size_bytes as nat)) {
                r matches Err(f) && f.stage == "range response bounds" && f.detail@
                    == "response does not match the locked continuation bounds"@
            } else {
                r is Ok
            }
        },
{
    match locked_etag {
        Some(expected) => {
            let matches = match response_etag {
                Some(actual) => str_eq(actual, expected),
                None => false,
            };
            if !matches {
                return Err(
                    AttemptFailure {
                        stage: "response entity tag",
                        detail: "response does not match the locked entity tag".to_owned(),
                        retryable: false,
                    },
                );
            }
        },
        None => {},
    }
    if offset == 0 {
        if status != 200 {
            let mut detail = "expected HTTP 200, received ".to_owned();
            let code = decimal(status as u64);
            detail.push_str(code.as_str());
            return Err(AttemptFailure { stage: "response status", detail, retryable: false });
        }
        return Ok(());
    }
    if status != 206 {
        let mut detail = "expected HTTP 206, received ".to_owned();
        let code = decimal(status as u64);
        detail.push_str(code.as_str());
        return Err(AttemptFailure { stage: "range response status", detail, retryable: false });
    }
    let mut range = "bytes ".to_owned();
    let start = decimal(offset);
    range.push_str(start.as_str());
    range.push_str("-");
    let end = decimal(size_bytes - 1);
    range.push_str(end.as_str());
    range.push_str("/");
    let total = decimal(size_bytes);
    range.push_str(total.as_str());
    let matches = match content_range {
        Some(actual) => str_eq(actual, range.as_str()),
        None => false,
    };
    if !matches {
        return Err(
            AttemptFailure {
                stage: "range response bounds",
                detail: "response does not match the locked continuation bounds".to_owned(),
                retryable: false,
            },
        );
    }
    Ok(())
}

/// Add one received chunk to the running byte count, failing once it passes the locked length.
pub fn account_chunk(copied: u64, count: u64, expected_bytes: u64) -> (r: Result<u64, String>)
    ensures
        copied + count > u64::MAX ==> (r matches Err(m) && m@ == "source byte count overflowed"@),
        copied + count <= u64::MAX && copied + count > expected_bytes ==> (r matches Err(m) && m@
            == "source exceeded locked length of "@ + decimal_spec(expected_bytes as nat) + " bytes"@),
        copied + count <= expected_bytes ==> r == Ok::<u64, String>((copied + count) as u64),
{
    if copied > u64::MAX - count {
        return Err("source byte count overflowed".to_owned());
    }
    let total = copied + count;
    if total > expected_bytes {
        let mut message = "source exceeded locked length of ".to_owned();
        let limit = decimal(expected_bytes);
        message.push_str(limit.as_str());
        message.push_str(" bytes");
        return Err(message);
    }
    Ok(total)
}

/// Check that a finished stream delivered exactly the locked length.
pub fn finish_copy(copied: u64, expected_bytes: u64) -> (r: Result<(), String>)
    ensures
        r is Ok <==> copied == expected_bytes,
        r matches Err(m) ==> m@ == "source length "@ + decimal_spec(copied as nat) + " does not match locked length "@
            + decimal_spec(expected_bytes as nat),
{
    if copied != expected_bytes {
        let mut message = "source length ".to_owned();
        let actual = decimal(copied);
        message.push_str(actual.as_str());
        message.push_str(" does not match locked length ");
        let limit = decimal(expected_bytes);
        message.push_str(limit.as_str());
        return Err(message);
    }
    Ok(())
}

} // verus!
