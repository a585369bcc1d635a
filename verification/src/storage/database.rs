//! Rows of the database and how values are laid out in its columns.

use crate::bytes::{from_le32, le32, le32_round_trip, push_le32, read_le32};
use crate::float32::Float32;
use crate::indexer::subprocess::RegionBBox;
use crate::text::{decimal, decimal_u64};
use vstd::prelude::*;

verus! {

/// A row of the `files` table.
#[derive(Clone, Debug)]
pub struct FileRecord {
    pub id: i64,
    pub path: String,
    pub filename: String,
    pub file_type: String,
    pub file_size: Option<i64>,
    pub modified_at: Option<i64>,
    pub page_count: i64,
    pub is_excluded: i64,
    pub indexed_at: Option<i64>,
    pub created_at: i64,
    /// Consecutive attempts to index the file that ended in the death of the
    /// worker process.
    pub crash_attempts: i64,
    /// Why the file is excluded.
    pub exclusion_reason: Option<String>,
    /// SHA-1 of the file's bytes, in hexadecimal, at the last successful index.
    pub content_sha1: Option<String>,
}

/// A row of the `pages` table.
#[derive(Clone, Debug)]
pub struct PageRecord {
    pub id: i64,
    pub file_id: i64,
    pub page_num: i64,
    pub width_px: Option<i64>,
    pub height_px: Option<i64>,
    pub thumb_path: Option<String>,
}

/// A region with the page that it belongs to.
#[derive(Clone, Copy, PartialEq, Eq, Structural, Debug)]
pub struct RegionHit {
    pub region_id: i64,
    pub page_id: i64,
    pub file_id: i64,
    pub page_num: i64,
}

/// A region to be inserted.
#[derive(Debug)]
pub struct NewRegion {
    /// `"full"` or `"tile"`.
    pub kind: &'static str,
    /// The position of a tile, row by row; zero for the whole page.
    pub idx: i64,
    pub bbox: RegionBBox,
    pub phash: u64,
    pub vector: Vec<Float32>,
}

/// A page to be inserted, with its regions.
#[derive(Debug)]
pub struct NewPage {
    pub page_num: i64,
    pub width_px: i64,
    pub height_px: i64,
    /// The thumbnail, below the directory of thumbnails.
    pub thumb_path: String,
    pub regions: Vec<NewRegion>,
}

/// Summary counts for the status page.
#[derive(Clone, Copy, PartialEq, Eq, Structural, Debug)]
pub struct IndexStats {
    pub total_files: i64,
    pub indexed_files: i64,
    pub excluded_files: i64,
    pub failed_files: i64,
    pub total_pages: i64,
}

/// The row of the `app_license` table.
#[derive(Clone, Debug)]
pub struct LicenseRow {
    pub id: i64,
    pub install_fingerprint: String,
    pub install_started_at: i64,
    pub license_key: Option<String>,
    pub last_status: String,
    pub last_message: Option<String>,
    pub expires_at: Option<i64>,
    pub customer: Option<String>,
    pub validated_at: Option<i64>,
    pub updated_at: i64,
}

// ── Vector blobs ────────────────────────────────────────────────────────────

/// The bytes of a vector: four for each component, lowest first.
pub open spec fn blob_of(v: Seq<Float32>) -> Seq<u8>
    decreases v.len(),
{
    if v.len() == 0 {
        Seq::empty()
    } else {
        blob_of(v.drop_last()) + le32(v.last().bits)
    }
}

/// The vector that some bytes hold: as many components as there are whole groups
/// of four bytes.
pub open spec fn vector_of(b: Seq<u8>) -> Seq<Float32> {
    Seq::new(
        b.len() / 4,
        |i: int| Float32 { bits: from_le32(b.subrange(4 * i, 4 * i + 4)) as u32 },
    )
}

/// The bytes of a vector.
pub fn vector_to_blob(v: &Vec<Float32>) -> (r: Vec<u8>)
    ensures
        r@ == blob_of(v@),
{
    let mut out: Vec<u8> = Vec::new();
    let mut i: usize = 0;
    assert(v@.take(0) =~= Seq::empty());
    while i < v.len()
        invariant
            i <= v@.len(),
            out@ == blob_of(v@.take(i as int)),
        decreases v@.len() - i,
    {
        assert(v@.take(i + 1).drop_last() =~= v@.take(i as int));
        push_le32(&mut out, v[i].bits);
        i = i + 1;
    }
    assert(v@.take(i as int) =~= v@);
    out
}

/// The vector that some bytes hold. Bytes left over at the end are ignored.
pub fn blob_to_vector(b: &[u8]) -> (r: Vec<Float32>)
    ensures
        r@ == vector_of(b@),
{
    let mut out: Vec<Float32> = Vec::new();
    let n: usize = b.len() / 4;
    let mut i: usize = 0;
    while i < n
        invariant
            i <= n,
            n == b@.len() / 4,
            b.len() == b@.len(),
            out@.len() == i,
            forall|j: int| 0 <= j < i ==> #[trigger] out@[j] == vector_of(b@)[j],
        decreases n - i,
    {
        let bits: u32 = read_le32(b, 4 * i);
        out.push(Float32 { bits });
        i = i + 1;
    }
    assert(out@ =~= vector_of(b@));
    out
}

proof fn lemma_blob(v: Seq<Float32>, i: int)
    requires
        0 <= i < v.len(),
    ensures
        blob_of(v).len() == 4 * v.len(),
        blob_of(v).subrange(4 * i, 4 * i + 4) == le32(v[i].bits),
    decreases v.len(),
{
    lemma_blob_len(v);
    lemma_blob_len(v.drop_last());
    if i < v.len() - 1 {
        lemma_blob(v.drop_last(), i);
        assert(blob_of(v).subrange(4 * i, 4 * i + 4) =~= blob_of(v.drop_last()).subrange(
            4 * i,
            4 * i + 4,
        ));
    } else {
        assert(blob_of(v).subrange(4 * i, 4 * i + 4) =~= le32(v[i].bits));
    }
}

proof fn lemma_blob_len(v: Seq<Float32>)
    ensures
        blob_of(v).len() == 4 * v.len(),
    decreases v.len(),
{
    if v.len() > 0 {
        lemma_blob_len(v.drop_last());
    }
}

/// A vector is read back as it was written, bit for bit, even where up to three
/// bytes of a write that was cut short follow.
pub proof fn blob_round_trip(v: Seq<Float32>, rest: Seq<u8>)
    requires
        rest.len() < 4,
    ensures
        vector_of(blob_of(v) + rest) == v,
{
    lemma_blob_len(v);
    let b = blob_of(v) + rest;
    assert forall|i: int| 0 <= i < v.len() implies vector_of(b)[i] == v[i] by {
        lemma_blob(v, i);
        assert(b.subrange(4 * i, 4 * i + 4) =~= blob_of(v).subrange(4 * i, 4 * i + 4));
        le32_round_trip(v[i].bits);
    }
    assert(vector_of(b) =~= v);
}

// ── Statements ──────────────────────────────────────────────────────────────

/// The most values that are bound to one statement.
pub const SQL_BIND_CHUNK: usize = 16_000;

/// The placeholders of `n` bound values: `?1, ?2` and so on.
pub open spec fn placeholder_list(n: nat) -> Seq<char>
    decreases n,
{
    if n == 0 {
        Seq::empty()
    } else if n == 1 {
        "?"@ + decimal(1)
    } else {
        placeholder_list((n - 1) as nat) + ", "@ + "?"@ + decimal(n as int)
    }
}

/// The placeholders of `n` bound values.
pub fn placeholders(n: usize) -> (r: String)
    ensures
        r@ == placeholder_list(n as nat),
{
    let mut out = String::new();
    let mut i: usize = 0;
    assert(out@ =~= placeholder_list(0));
    while i < n
        invariant
            i <= n,
            out@ == placeholder_list(i as nat),
        decreases n - i,
    {
        let ghost before = out@;
        if i > 0 {
            out.append(", ");
        }
        out.append("?");
        let d = decimal_u64(i as u64 + 1);
        out.append(d.as_str());
        proof {
            if i == 0 {
                assert(out@ =~= "?"@ + decimal(1));
            } else {
                assert(out@ =~= before + ", "@ + "?"@ + decimal(i + 1));
            }
        }
        i = i + 1;
    }
    out
}

// ── File rows ───────────────────────────────────────────────────────────────

/// What is written when a file is met again.
#[derive(Debug)]
pub enum FileWrite {
    /// Insert a row for the file.
    Insert,
    /// Update its row. The name, type, size and time are those found now; this is
    /// what becomes of the rest.
    Update { id: i64, crash_attempts: i64, is_excluded: i64, exclusion_reason: Option<String> },
}

/// Whether a file is newer than its row says.
pub open spec fn is_newer(stored: Option<i64>, found: Option<i64>) -> bool {
    stored is Some && found is Some && found->Some_0 > stored->Some_0
}

/// Whether a file is newer than its row says.
pub fn newer(stored: Option<i64>, found: Option<i64>) -> (r: bool)
    ensures
        r == is_newer(stored, found),
{
    match stored {
        Some(s) => match found {
            Some(f) => f > s,
            None => false,
        },
        None => false,
    }
}

/// What is written when a file is met that was modified at `modified_at`. A file
/// that was edited since its row was written starts afresh: its crashes are
/// forgotten and it is no longer excluded.
pub fn upsert_file(existing: Option<&FileRecord>, modified_at: Option<i64>) -> (r: FileWrite)
    ensures
        match existing {
            None => r is Insert,
            Some(rec) => {
                &&& r is Update
                &&& r->id == rec.id
                &&& if is_newer(rec.modified_at, modified_at) {
                    r->crash_attempts == 0 && r->is_excluded == 0 && r->exclusion_reason is None
                } else {
                    r->crash_attempts == rec.crash_attempts && r->is_excluded == rec.is_excluded
                        && r->exclusion_reason == rec.exclusion_reason
                }
            },
        },
{
    match existing {
        None => FileWrite::Insert,
        Some(rec) => {
            if newer(rec.modified_at, modified_at) {
                FileWrite::Update {
                    id: rec.id,
                    crash_attempts: 0,
                    is_excluded: 0,
                    exclusion_reason: None,
                }
            } else {
                let exclusion_reason = match &rec.exclusion_reason {
                    Some(reason) => Some(reason.clone()),
                    None => None,
                };
                FileWrite::Update {
                    id: rec.id,
                    crash_attempts: rec.crash_attempts,
                    is_excluded: rec.is_excluded,
                    exclusion_reason,
                }
            }
        },
    }
}

// ── Counts ──────────────────────────────────────────────────────────────────

/// How many pages have been read and how many have not, of `total` pages with
/// `done` recorded texts.
pub fn ocr_progress(done: i64, total: i64) -> (r: (i64, i64))
    requires
        i64::MIN <= total - done <= i64::MAX,
    ensures
        r.0 == done,
        r.1 == if total >= done {
            total - done
        } else {
            0
        },
{
    let left: i64 = total - done;
    (
        done,
        if left > 0 {
            left
        } else {
            0
        },
    )
}

// ── License row ─────────────────────────────────────────────────────────────

/// The license row at the start of the program: a row without a fingerprint takes
/// the one of this machine, and a row without a start begins its trial now.
pub fn get_or_init_license_row(
    existing: Option<LicenseRow>,
    install_fingerprint: String,
    now: i64,
) -> (r: LicenseRow)
    ensures
        match existing {
            None => {
                &&& r.id == 1
                &&& r.install_fingerprint == install_fingerprint
                &&& r.install_started_at == now
                &&& r.last_status@ == "trial"@
                &&& r.updated_at == now
                &&& r.license_key is None
                &&& r.last_message is None
                &&& r.expires_at is None
                &&& r.customer is None
                &&& r.validated_at is None
            },
            Some(row) => r == (LicenseRow {
                install_fingerprint: if row.install_fingerprint@.len() == 0 {
                    install_fingerprint
                } else {
                    row.install_fingerprint
                },
                install_started_at: if row.install_started_at <= 0 {
                    now
                } else {
                    row.install_started_at
                },
                updated_at: if row.install_started_at <= 0 {
                    now
                } else {
                    row.updated_at
                },
                ..row
            }),
        },
{
    match existing {
        None => LicenseRow {
            id: 1,
            install_fingerprint,
            install_started_at: now,
            license_key: None,
            last_status: "trial".to_owned(),
            last_message: None,
            expires_at: None,
            customer: None,
            validated_at: None,
            updated_at: now,
        },
        Some(row) => {
            let fresh: bool = row.install_started_at <= 0;
            let install_fingerprint = if row.install_fingerprint.as_str().is_empty() {
                install_fingerprint
            } else {
                row.install_fingerprint
            };
            LicenseRow {
                install_fingerprint,
                install_started_at: if fresh {
                    now
                } else {
                    row.install_started_at
                },
                updated_at: if fresh {
                    now
                } else {
                    row.updated_at
                },
                id: row.id,
                license_key: row.license_key,
                last_status: row.last_status,
                last_message: row.last_message,
                expires_at: row.expires_at,
                customer: row.customer,
                validated_at: row.validated_at,
            }
        },
    }
}

// ── Laws of the columns ─────────────────────────────────────────────────────

/// A vector is stored as four bytes for each component, which make up its bits, the
/// lowest first.
pub proof fn blobs_hold_the_bits(v: &Vec<Float32>, r: Vec<u8>)
    requires
        call_ensures(vector_to_blob, (v,), r),
    ensures
        r@.len() == 4 * v@.len(),
        forall|i: int|
            0 <= i < v@.len() ==> (#[trigger] v@[i]).bits == r@[4 * i] + 256 * r@[4 * i + 1] + 65_536
                * r@[4 * i + 2] + 16_777_216 * r@[4 * i + 3],
{
    lemma_blob_len(v@);
    assert forall|i: int| 0 <= i < v@.len() implies (#[trigger] v@[i]).bits == r@[4 * i] + 256 * r@[4
        * i + 1] + 65_536 * r@[4 * i + 2] + 16_777_216 * r@[4 * i + 3] by {
        lemma_blob(v@, i);
        le32_round_trip(v@[i].bits);
        let s = r@.subrange(4 * i, 4 * i + 4);
        assert(s[0] == r@[4 * i] && s[1] == r@[4 * i + 1] && s[2] == r@[4 * i + 2] && s[3] == r@[4 * i
            + 3]);
    }
}

/// It is read back from them in the same way, without the bytes that are left over.
pub proof fn bits_are_read_from_blobs(b: &[u8], r: Vec<Float32>)
    requires
        call_ensures(blob_to_vector, (b,), r),
    ensures
        4 * r@.len() <= b@.len() < 4 * r@.len() + 4,
        forall|i: int|
            0 <= i < r@.len() ==> (#[trigger] r@[i]).bits == b@[4 * i] + 256 * b@[4 * i + 1] + 65_536
                * b@[4 * i + 2] + 16_777_216 * b@[4 * i + 3],
{
    assert forall|i: int| 0 <= i < r@.len() implies (#[trigger] r@[i]).bits == b@[4 * i] + 256 * b@[4
        * i + 1] + 65_536 * b@[4 * i + 2] + 16_777_216 * b@[4 * i + 3] by {
        let s = b@.subrange(4 * i, 4 * i + 4);
        assert(s[0] == b@[4 * i] && s[1] == b@[4 * i + 1] && s[2] == b@[4 * i + 2] && s[3] == b@[4 * i
            + 3]);
    }
}

/// The placeholders are numbered from one and parted by a comma and a blank: one value
/// more adds the next number at the end.
pub proof fn placeholders_are_numbered(n: usize, r: String, longer: String)
    requires
        n < usize::MAX,
        call_ensures(placeholders, (n,), r),
        call_ensures(placeholders, ((n + 1) as usize,), longer),
    ensures
        n == 0 ==> r@.len() == 0 && longer@ == seq!['?'] + decimal(1),
        n > 0 ==> longer@ == r@ + seq![',', ' ', '?'] + decimal(n + 1),
{
    reveal_strlit("?");
    reveal_strlit(", ");
    assert("?"@ =~= seq!['?']);
    assert(", "@ =~= seq![',', ' ']);
    if n > 0 {
        assert(longer@ == placeholder_list((n + 1) as nat));
        assert(((n + 1) - 1) as nat == n as nat);
        assert(r@ + ", "@ + "?"@ =~= r@ + seq![',', ' ', '?']);
    }
}

/// A file that was edited since its row was written is taken as new: its crashes are
/// forgotten and it is no longer excluded. Where a time is missing, or is not later, all
/// of that stays.
pub proof fn edited_files_start_afresh(
    row: &FileRecord,
    modified_at: Option<i64>,
    r: FileWrite,
    later: bool,
)
    requires
        call_ensures(upsert_file, (Some(row), modified_at), r),
        call_ensures(newer, (row.modified_at, modified_at), later),
    ensures
        r is Update,
        r->id == row.id,
        row.modified_at is Some && modified_at is Some && modified_at->Some_0
            > row.modified_at->Some_0 ==> later && r->crash_attempts == 0 && r->is_excluded == 0
            && r->exclusion_reason is None,
        row.modified_at is None || modified_at is None || modified_at->Some_0
            <= row.modified_at->Some_0 ==> !later && r->crash_attempts == row.crash_attempts
            && r->is_excluded == row.is_excluded && r->exclusion_reason == row.exclusion_reason,
{
}

} // verus!
