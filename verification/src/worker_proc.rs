//! The worker process: what it answers to each request, how a page is cut into
//! regions, and when a request has taken too long.

use crate::embedder::phash::{compute_phash, may_hash};
use crate::embedder::pixels::{crop, is_crop, lemma_crop_shows, shows_from, PixelImage};
use crate::error::AppError;
use crate::float32::{copy_vector, Float32};
use crate::indexer::subprocess::{
    PageData, ProcessResponse, RegionBBox, RegionData, RegionKind, WorkerRequest, WorkerResponse,
};
use crate::text::{decimal, decimal_u64};
use vstd::prelude::*;

verus! {

/// The most crops that go through the encoder at once.
pub const ENCODE_BATCH_CHUNK: usize = 32;

/// Seconds that a whole file may take.
pub const INDEX_DEADLINE_SECS: u64 = 600;

/// Seconds that the text of one page may take.
pub const OCR_DEADLINE_SECS: u64 = 120;

/// Positions of a tile along each axis.
pub const TILE_POSITIONS: u32 = 3;

/// The long edge, in pixels, of a page that is rendered to be read.
pub const OCR_RENDER_PX: i32 = 1280;

// ── Watchdog ────────────────────────────────────────────────────────────────

/// The moment at which the request in hand will have taken too long.
#[derive(Clone, Copy, PartialEq, Eq, Structural, Debug)]
pub struct Watchdog {
    /// Seconds since the Unix epoch; zero while no request is in hand.
    pub deadline: u64,
}

impl Watchdog {
    /// Whether the request in hand has taken too long at `now`.
    pub open spec fn overdue(self, now: u64) -> bool {
        self.deadline != 0 && now > self.deadline
    }

    /// A request begins at `now` and may take `seconds`.
    pub fn watchdog_arm(&mut self, now: u64, seconds: u64)
        requires
            now + seconds <= u64::MAX,
        ensures
            final(self).deadline == now + seconds,
    {
        self.deadline = now + seconds;
    }

    /// The request is done.
    pub fn watchdog_disarm(&mut self)
        ensures
            final(self).deadline == 0,
    {
        self.deadline = 0;
    }

    /// Whether the process has to end itself at `now`, so that it can be replaced.
    pub fn expired(&self, now: u64) -> (r: bool)
        ensures
            r == self.overdue(now),
    {
        self.deadline != 0 && now > self.deadline
    }
}

// ── Requests ────────────────────────────────────────────────────────────────

/// What a worker is doing.
#[derive(Clone, Copy, PartialEq, Eq, Structural, Debug)]
pub enum WorkerPhase {
    Idle,
    LoadingVision,
    Indexing,
    LoadingOcr,
    Reading,
}

/// What a worker does next.
#[derive(Debug)]
pub enum WorkerAction {
    /// Start the vision encoder.
    LoadVision,
    /// Render and embed the file.
    RunIndex,
    /// Start the text recognition.
    LoadOcr,
    /// Read the page.
    RunOcr,
    /// Answer, and wait for the next request.
    Respond(WorkerResponse),
}

/// The state of a worker between two events.
#[derive(Clone, Copy, PartialEq, Eq, Structural, Debug)]
pub struct WorkerState {
    pub phase: WorkerPhase,
    /// The encoder and the recognition start when first needed, and then stay.
    pub vision_ready: bool,
    pub ocr_ready: bool,
    pub watchdog: Watchdog,
}

/// The answer to an indexing request: a failure in the ordinary sense is an
/// answer too.
pub fn handle_one(outcome: Result<Option<Vec<PageData>>, String>) -> (r: ProcessResponse)
    ensures
        match outcome {
            Ok(Some(pages)) => r == (ProcessResponse::Indexed { pages }),
            Ok(None) => r is Excluded && r->reason@ == "imposition rule (XMP egExtFL:files)"@,
            Err(e) => r is Error && r->msg == e,
        },
{
    match outcome {
        Ok(Some(pages)) => ProcessResponse::Indexed { pages },
        Ok(None) => ProcessResponse::Excluded {
            reason: "imposition rule (XMP egExtFL:files)".to_owned(),
        },
        Err(e) => ProcessResponse::Error { msg: e },
    }
}

impl WorkerState {
    /// A deadline runs exactly while a request is in hand, and work is done only
    /// by what has been started.
    pub open spec fn wf(self) -> bool {
        &&& self.phase == WorkerPhase::Idle <==> self.watchdog.deadline == 0
        &&& self.phase == WorkerPhase::Indexing ==> self.vision_ready
        &&& self.phase == WorkerPhase::Reading ==> self.ocr_ready
        &&& self.phase == WorkerPhase::LoadingVision ==> !self.vision_ready
        &&& self.phase == WorkerPhase::LoadingOcr ==> !self.ocr_ready
    }

    /// A worker that has started and waits for its first request.
    pub fn new() -> (r: WorkerState)
        ensures
            r.wf(),
            r.phase == WorkerPhase::Idle,
            !r.vision_ready,
            !r.ocr_ready,
    {
        WorkerState {
            phase: WorkerPhase::Idle,
            vision_ready: false,
            ocr_ready: false,
            watchdog: Watchdog { deadline: 0 },
        }
    }

    /// A request arrives at `now`: its deadline begins to run.
    pub fn on_request(&mut self, req: &WorkerRequest, now: u64) -> (r: WorkerAction)
        requires
            old(self).wf(),
            old(self).phase == WorkerPhase::Idle,
            now + 600 <= u64::MAX,
        ensures
            final(self).wf(),
            final(self).vision_ready == old(self).vision_ready,
            final(self).ocr_ready == old(self).ocr_ready,
            match req {
                WorkerRequest::Index(_) => {
                    &&& final(self).watchdog.deadline == now + INDEX_DEADLINE_SECS
                    &&& if old(self).vision_ready {
                        final(self).phase == WorkerPhase::Indexing && r is RunIndex
                    } else {
                        final(self).phase == WorkerPhase::LoadingVision && r is LoadVision
                    }
                },
                WorkerRequest::OcrPage { .. } => {
                    &&& final(self).watchdog.deadline == now + OCR_DEADLINE_SECS
                    &&& if old(self).ocr_ready {
                        final(self).phase == WorkerPhase::Reading && r is RunOcr
                    } else {
                        final(self).phase == WorkerPhase::LoadingOcr && r is LoadOcr
                    }
                },
            },
    {
        match req {
            WorkerRequest::Index(_) => {
                self.watchdog.watchdog_arm(now, INDEX_DEADLINE_SECS);
                if self.vision_ready {
                    self.phase = WorkerPhase::Indexing;
                    WorkerAction::RunIndex
                } else {
                    self.phase = WorkerPhase::LoadingVision;
                    WorkerAction::LoadVision
                }
            },
            WorkerRequest::OcrPage { .. } => {
                self.watchdog.watchdog_arm(now, OCR_DEADLINE_SECS);
                if self.ocr_ready {
                    self.phase = WorkerPhase::Reading;
                    WorkerAction::RunOcr
                } else {
                    self.phase = WorkerPhase::LoadingOcr;
                    WorkerAction::LoadOcr
                }
            },
        }
    }

    /// The encoder has started, or could not: then the file fails, and the next
    /// one tries again.
    pub fn on_vision_loaded(&mut self, outcome: Result<(), String>) -> (r: WorkerAction)
        requires
            old(self).wf(),
            old(self).phase == WorkerPhase::LoadingVision,
        ensures
            final(self).wf(),
            final(self).ocr_ready == old(self).ocr_ready,
            match outcome {
                Ok(_) => {
                    &&& r is RunIndex
                    &&& final(self).phase == WorkerPhase::Indexing
                    &&& final(self).watchdog == old(self).watchdog
                },
                Err(e) => {
                    &&& final(self).phase == WorkerPhase::Idle
                    &&& !final(self).vision_ready
                    &&& r is Respond
                    &&& r->Respond_0 is Index
                    &&& r->Respond_0->Index_0 is Error
                    &&& r->Respond_0->Index_0->msg@ == "vision session init failed: "@ + e@
                },
            },
    {
        match outcome {
            Ok(_) => {
                self.vision_ready = true;
                self.phase = WorkerPhase::Indexing;
                WorkerAction::RunIndex
            },
            Err(e) => {
                self.watchdog.watchdog_disarm();
                self.phase = WorkerPhase::Idle;
                let mut msg = "vision session init failed: ".to_owned();
                msg.append(e.as_str());
                WorkerAction::Respond(WorkerResponse::Index(ProcessResponse::Error { msg }))
            },
        }
    }

    /// The text recognition has started, or could not: then the page has no text.
    pub fn on_ocr_loaded(&mut self, loaded: bool) -> (r: WorkerAction)
        requires
            old(self).wf(),
            old(self).phase == WorkerPhase::LoadingOcr,
        ensures
            final(self).wf(),
            final(self).vision_ready == old(self).vision_ready,
            if loaded {
                &&& r is RunOcr
                &&& final(self).phase == WorkerPhase::Reading
                &&& final(self).watchdog == old(self).watchdog
            } else {
                &&& final(self).phase == WorkerPhase::Idle
                &&& !final(self).ocr_ready
                &&& r is Respond
                &&& r->Respond_0 is OcrPage
                &&& r->Respond_0->text@ == Seq::<char>::empty()
            },
    {
        if loaded {
            self.ocr_ready = true;
            self.phase = WorkerPhase::Reading;
            WorkerAction::RunOcr
        } else {
            self.watchdog.watchdog_disarm();
            self.phase = WorkerPhase::Idle;
            WorkerAction::Respond(WorkerResponse::OcrPage { text: String::new() })
        }
    }

    /// The file has been processed, or could not be: the answer says which.
    pub fn on_processed(&mut self, outcome: Result<Option<Vec<PageData>>, String>) -> (r:
        WorkerResponse)
        requires
            old(self).wf(),
            old(self).phase == WorkerPhase::Indexing,
        ensures
            final(self).wf(),
            final(self).phase == WorkerPhase::Idle,
            final(self).vision_ready == old(self).vision_ready,
            final(self).ocr_ready == old(self).ocr_ready,
            r is Index,
            match outcome {
                Ok(Some(pages)) => r->Index_0 == (ProcessResponse::Indexed { pages }),
                Ok(None) => r->Index_0 is Excluded && r->Index_0->reason@
                    == "imposition rule (XMP egExtFL:files)"@,
                Err(e) => r->Index_0 is Error && r->Index_0->msg == e,
            },
    {
        self.watchdog.watchdog_disarm();
        self.phase = WorkerPhase::Idle;
        WorkerResponse::Index(handle_one(outcome))
    }

    /// The page has been read, or could not be: then it has no text.
    pub fn on_read(&mut self, text: Option<String>) -> (r: WorkerResponse)
        requires
            old(self).wf(),
            old(self).phase == WorkerPhase::Reading,
        ensures
            final(self).wf(),
            final(self).phase == WorkerPhase::Idle,
            final(self).vision_ready == old(self).vision_ready,
            final(self).ocr_ready == old(self).ocr_ready,
            r is OcrPage,
            match text {
                Some(t) => r->text == t,
                None => r->text@ == Seq::<char>::empty(),
            },
    {
        self.watchdog.watchdog_disarm();
        self.phase = WorkerPhase::Idle;
        match text {
            Some(t) => WorkerResponse::OcrPage { text: t },
            None => WorkerResponse::OcrPage { text: String::new() },
        }
    }
}

/// A worker that waits for a request is never ended for taking too long, however
/// long it waits.
pub proof fn idle_worker_never_expires(s: WorkerState, now: u64)
    requires
        s.wf(),
        s.phase == WorkerPhase::Idle,
    ensures
        !s.watchdog.overdue(now),
{
}

/// A worker with a request in hand is ended once its deadline has passed.
pub proof fn hung_worker_expires(s: WorkerState, now: u64)
    requires
        s.wf(),
        s.phase != WorkerPhase::Idle,
        now > s.watchdog.deadline,
    ensures
        s.watchdog.overdue(now),
{
}

// ── Regions of a page ───────────────────────────────────────────────────────

/// What a region is and where it lies.
#[derive(Clone, Copy, PartialEq, Eq, Structural, Debug)]
pub struct RegionMeta {
    pub kind: RegionKind,
    pub index: u32,
    pub bbox: RegionBBox,
}

/// The region that is the whole page.
pub open spec fn full_region() -> RegionMeta {
    RegionMeta {
        kind: RegionKind::Full,
        index: 0,
        bbox: RegionBBox { x: 0, y: 0, w: 4, h: 4 },
    }
}

/// Tile `k`, row by row: half the page wide and high, in steps of a quarter.
pub open spec fn tile_region(k: int) -> RegionMeta {
    RegionMeta {
        kind: RegionKind::Tile,
        index: k as u32,
        bbox: RegionBBox { x: (k % 3) as u32, y: (k / 3) as u32, w: 2, h: 2 },
    }
}

/// The regions of a page: the page itself, and its nine tiles where tiles are
/// enabled and the page has pixels.
pub open spec fn page_regions(width: u32, height: u32, tiles_enabled: bool) -> Seq<RegionMeta> {
    if tiles_enabled && width > 0 && height > 0 {
        seq![full_region()] + Seq::new(9, |k: int| tile_region(k))
    } else {
        seq![full_region()]
    }
}

/// Where a tile at position `pos` begins along an axis of `len` pixels.
pub open spec fn tile_start(len: int, pos: int) -> int {
    pos * len / 4
}

/// Where it ends: the far edge is rounded to the nearest pixel, halves up, so that
/// the last tile reaches the border.
pub open spec fn tile_end(len: int, pos: int) -> int {
    ((pos + 2) * len + 2) / 4
}

/// How long it is: at least one pixel.
pub open spec fn tile_len(len: int, pos: int) -> int {
    if tile_end(len, pos) - tile_start(len, pos) >= 1 {
        tile_end(len, pos) - tile_start(len, pos)
    } else {
        1
    }
}

/// Whether `out` shows the region `m` of a page.
pub open spec fn shows_region(out: PixelImage, page: PixelImage, m: RegionMeta) -> bool {
    match m.kind {
        RegionKind::Full => is_crop(out, page, 0, 0, page.width as int, page.height as int),
        RegionKind::Tile => is_crop(
            out,
            page,
            tile_start(page.width as int, m.bbox.x as int),
            tile_start(page.height as int, m.bbox.y as int),
            tile_len(page.width as int, m.bbox.x as int),
            tile_len(page.height as int, m.bbox.y as int),
        ),
    }
}

/// The start and the length, in pixels, of a tile at position `pos` along an axis
/// of `len` pixels.
pub fn tile_span(len: u32, pos: u32) -> (r: (u32, u32))
    requires
        pos < TILE_POSITIONS,
    ensures
        r.0 == tile_start(len as int, pos as int),
        r.1 == tile_len(len as int, pos as int),
{
    let l: u64 = len as u64;
    let p: u64 = pos as u64;
    assert(p * l <= 2 * l) by (nonlinear_arith)
        requires
            p <= 2,
            l >= 0,
    ;
    assert((p + 2) * l <= 4 * l) by (nonlinear_arith)
        requires
            p <= 2,
            l >= 0,
    ;
    assert((p + 2) * l == p * l + 2 * l) by (nonlinear_arith);
    let start: u64 = p * l / 4;
    let end: u64 = ((p + 2) * l + 2) / 4;
    let size: u64 = if end >= start + 1 {
        end - start
    } else {
        1
    };
    (start as u32, size as u32)
}

/// A page as it was rendered.
#[derive(Debug)]
pub struct RenderedPage {
    pub page_num: i32,
    pub width_px: u32,
    pub height_px: u32,
    pub image: PixelImage,
}

/// The crops of the pages of a file, page after page, with what each shows and
/// its hash.
#[derive(Debug)]
pub struct CropBatch {
    pub crops: Vec<PixelImage>,
    pub metas: Vec<RegionMeta>,
    pub phashes: Vec<u64>,
}

/// The regions of one page.
pub open spec fn regions_of(p: RenderedPage, tiles_enabled: bool) -> Seq<RegionMeta> {
    page_regions(p.image.width, p.image.height, tiles_enabled)
}

/// Where the regions of page `i` begin among those of all pages.
pub open spec fn offset_of(pages: Seq<RenderedPage>, tiles_enabled: bool, i: int) -> int
    decreases i,
{
    if i <= 0 {
        0
    } else {
        offset_of(pages, tiles_enabled, i - 1) + regions_of(pages[i - 1], tiles_enabled).len()
    }
}

impl CropBatch {
    /// At the place of region `k` of page `i` stands a crop that shows it, with a hash
    /// of this crop.
    pub open spec fn holds(self, pages: Seq<RenderedPage>, tiles_enabled: bool, i: int, k: int) -> bool {
        let at = offset_of(pages, tiles_enabled, i) + k;
        &&& self.metas@[at] == regions_of(pages[i], tiles_enabled)[k]
        &&& shows_region(self.crops@[at], pages[i].image, self.metas@[at])
        &&& may_hash(self.crops@[at], self.phashes@[at])
    }

    /// The crops are those of the first `n` pages, each at its place.
    pub open spec fn covers(self, pages: Seq<RenderedPage>, tiles_enabled: bool, n: int) -> bool {
        &&& self.crops@.len() == offset_of(pages, tiles_enabled, n)
        &&& self.metas@.len() == self.crops@.len()
        &&& self.phashes@.len() == self.crops@.len()
        &&& forall|i: int, k: int|
            0 <= i < n && 0 <= k < regions_of(pages[i], tiles_enabled).len()
                ==> #[trigger] self.holds(pages, tiles_enabled, i, k)
    }
}

proof fn lemma_offsets(pages: Seq<RenderedPage>, tiles_enabled: bool, i: int, j: int)
    requires
        0 <= i <= j,
    ensures
        0 <= offset_of(pages, tiles_enabled, i) <= offset_of(pages, tiles_enabled, j),
    decreases j,
{
    if i < j {
        lemma_offsets(pages, tiles_enabled, i, j - 1);
    } else if i > 0 {
        lemma_offsets(pages, tiles_enabled, i - 1, i - 1);
    }
}

fn crop_region(page: &PixelImage, m: RegionMeta) -> (r: PixelImage)
    requires
        page.wf(),
        m.kind == RegionKind::Tile ==> m.bbox.x < TILE_POSITIONS && m.bbox.y < TILE_POSITIONS,
    ensures
        shows_region(r, *page, m),
{
    match m.kind {
        RegionKind::Full => crop(page, 0, 0, page.width, page.height),
        RegionKind::Tile => {
            let (x, w) = tile_span(page.width, m.bbox.x);
            let (y, h) = tile_span(page.height, m.bbox.y);
            crop(page, x, y, w, h)
        },
    }
}

/// The regions of a page of the given size.
pub fn plan_regions(width: u32, height: u32, tiles_enabled: bool) -> (r: Vec<RegionMeta>)
    ensures
        r@ == page_regions(width, height, tiles_enabled),
{
    let mut out: Vec<RegionMeta> = Vec::new();
    out.push(
        RegionMeta {
            kind: RegionKind::Full,
            index: 0,
            bbox: RegionBBox { x: 0, y: 0, w: 4, h: 4 },
        },
    );
    if tiles_enabled && width > 0 && height > 0 {
        let mut k: u32 = 0;
        while k < TILE_POSITIONS * TILE_POSITIONS
            invariant
                k <= 9,
                out@ =~= seq![full_region()] + Seq::new(k as nat, |i: int| tile_region(i)),
            decreases 9 - k,
        {
            out.push(
                RegionMeta {
                    kind: RegionKind::Tile,
                    index: k,
                    bbox: RegionBBox { x: k % TILE_POSITIONS, y: k / TILE_POSITIONS, w: 2, h: 2 },
                },
            );
            k = k + 1;
        }
    }
    assert(out@ =~= page_regions(width, height, tiles_enabled));
    out
}

/// Cuts every page into its regions and hashes them. The crops stand in the
/// order in which the encoder is to return their vectors.
pub fn expand_pages(pages: &Vec<RenderedPage>, tiles_enabled: bool) -> (r: CropBatch)
    requires
        forall|i: int| 0 <= i < pages@.len() ==> (#[trigger] pages@[i]).image.wf(),
    ensures
        r.covers(pages@, tiles_enabled, pages@.len() as int),
{
    let mut batch = CropBatch { crops: Vec::new(), metas: Vec::new(), phashes: Vec::new() };
    let mut i: usize = 0;
    while i < pages.len()
        invariant
            i <= pages@.len(),
            forall|i: int| 0 <= i < pages@.len() ==> (#[trigger] pages@[i]).image.wf(),
            batch.covers(pages@, tiles_enabled, i as int),
        decreases pages@.len() - i,
    {
        let page = &pages[i];
        let regions = plan_regions(page.image.width, page.image.height, tiles_enabled);
        let ghost base = offset_of(pages@, tiles_enabled, i as int);
        let mut k: usize = 0;
        while k < regions.len()
            invariant
                i < pages@.len(),
                *page == pages@[i as int],
                page.image.wf(),
                regions@ == regions_of(pages@[i as int], tiles_enabled),
                base == offset_of(pages@, tiles_enabled, i as int),
                k <= regions@.len(),
                batch.crops@.len() == base + k,
                batch.metas@.len() == base + k,
                batch.phashes@.len() == base + k,
                forall|a: int, b: int|
                    0 <= a < i && 0 <= b < regions_of(pages@[a], tiles_enabled).len()
                        ==> #[trigger] batch.holds(pages@, tiles_enabled, a, b),
                forall|b: int|
                    0 <= b < k ==> #[trigger] batch.holds(pages@, tiles_enabled, i as int, b),
            decreases regions@.len() - k,
        {
            let m: RegionMeta = regions[k];
            let ghost before = batch;
            assert(m == page_regions(page.image.width, page.image.height, tiles_enabled)[k as int]);
            let c = crop_region(&page.image, m);
            let hash: u64 = compute_phash(&c);
            batch.crops.push(c);
            batch.metas.push(m);
            batch.phashes.push(hash);
            proof {
                assert forall|a: int, b: int|
                    0 <= a < i && 0 <= b < regions_of(
                        pages@[a],
                        tiles_enabled,
                    ).len() implies #[trigger] batch.holds(pages@, tiles_enabled, a, b) by {
                    assert(before.holds(pages@, tiles_enabled, a, b));
                    lemma_offsets(pages@, tiles_enabled, a + 1, i as int);
                    lemma_offsets(pages@, tiles_enabled, a, a);
                }
                assert forall|b: int| 0 <= b < k + 1 implies #[trigger] batch.holds(
                    pages@,
                    tiles_enabled,
                    i as int,
                    b,
                ) by {
                    lemma_offsets(pages@, tiles_enabled, i as int, i as int);
                    if b < k {
                        assert(before.holds(pages@, tiles_enabled, i as int, b));
                    }
                }
            }
            k = k + 1;
        }
        proof {
            assert forall|a: int, b: int|
                0 <= a < i + 1 && 0 <= b < regions_of(
                    pages@[a],
                    tiles_enabled,
                ).len() implies #[trigger] batch.holds(pages@, tiles_enabled, a, b) by {}
        }
        i = i + 1;
    }
    batch
}

/// Region `k` of a page, as the parts that make it up say.
pub open spec fn is_region(r: RegionData, m: RegionMeta, phash: u64, vector: Seq<Float32>) -> bool {
    &&& r.kind == m.kind
    &&& r.index == m.index
    &&& r.bbox == m.bbox
    &&& r.phash == phash
    &&& r.vector@ == vector
}

/// Whether `out` is page `i` with its regions.
pub open spec fn is_page(
    out: PageData,
    pages: Seq<RenderedPage>,
    thumbs: Seq<String>,
    batch: CropBatch,
    vectors: Seq<Vec<Float32>>,
    tiles_enabled: bool,
    i: int,
) -> bool {
    &&& out.page_num == pages[i].page_num
    &&& out.width_px == pages[i].width_px
    &&& out.height_px == pages[i].height_px
    &&& out.thumb_relative_path@ == thumbs[i]@
    &&& out.regions@.len() == regions_of(pages[i], tiles_enabled).len()
    &&& forall|k: int|
        #![trigger out.regions@[k]]
        0 <= k < out.regions@.len() ==> is_region(
            out.regions@[k],
            regions_of(pages[i], tiles_enabled)[k],
            batch.phashes@[offset_of(pages, tiles_enabled, i) + k],
            vectors[offset_of(pages, tiles_enabled, i) + k]@,
        )
}

/// Puts the vectors that the encoder returned for the crops of a file back to
/// the pages that the crops were cut from. The encoder has to return one vector
/// for each crop.
pub fn assemble_pages(
    pages: &Vec<RenderedPage>,
    thumbs: &Vec<String>,
    batch: &CropBatch,
    vectors: &Vec<Vec<Float32>>,
    tiles_enabled: bool,
) -> (r: Result<Vec<PageData>, AppError>)
    requires
        batch.covers(pages@, tiles_enabled, pages@.len() as int),
        thumbs@.len() == pages@.len(),
    ensures
        r is Ok <==> vectors@.len() == batch.crops@.len(),
        r is Ok ==> r->Ok_0@.len() == pages@.len() && forall|i: int|
            0 <= i < pages@.len() ==> is_page(
                #[trigger] r->Ok_0@[i],
                pages@,
                thumbs@,
                *batch,
                vectors@,
                tiles_enabled,
                i,
            ),
        r is Err ==> r->Err_0 is Other && r->Err_0->Other_0@
            == "Encoder batch size mismatch: expected "@ + decimal(batch.crops@.len() as int)
            + ", got "@ + decimal(vectors@.len() as int),
{
    if vectors.len() != batch.crops.len() {
        let mut msg = "Encoder batch size mismatch: expected ".to_owned();
        let want = decimal_u64(batch.crops.len() as u64);
        let got = decimal_u64(vectors.len() as u64);
        msg.append(want.as_str());
        msg.append(", got ");
        msg.append(got.as_str());
        return Err(AppError::Other(msg));
    }
    let mut out: Vec<PageData> = Vec::new();
    let mut at: usize = 0;
    let mut i: usize = 0;
    while i < pages.len()
        invariant
            i <= pages@.len(),
            batch.covers(pages@, tiles_enabled, pages@.len() as int),
            thumbs@.len() == pages@.len(),
            vectors@.len() == batch.crops@.len(),
            at == offset_of(pages@, tiles_enabled, i as int),
            out@.len() == i,
            forall|j: int|
                0 <= j < i ==> is_page(
                    #[trigger] out@[j],
                    pages@,
                    thumbs@,
                    *batch,
                    vectors@,
                    tiles_enabled,
                    j,
                ),
        decreases pages@.len() - i,
    {
        let page = &pages[i];
        let n: usize = if tiles_enabled && page.image.width > 0 && page.image.height > 0 {
            10
        } else {
            1
        };
        proof {
            assert(n == regions_of(pages@[i as int], tiles_enabled).len());
            assert(offset_of(pages@, tiles_enabled, i + 1) == at + n);
            lemma_offsets(pages@, tiles_enabled, i + 1, pages@.len() as int);
            assert(batch.crops.len() == batch.crops@.len());
        }
        let mut regions: Vec<RegionData> = Vec::new();
        let mut k: usize = 0;
        while k < n
            invariant
                i < pages@.len(),
                k <= n,
                n == regions_of(pages@[i as int], tiles_enabled).len(),
                at == offset_of(pages@, tiles_enabled, i as int),
                batch.covers(pages@, tiles_enabled, pages@.len() as int),
                vectors@.len() == batch.crops@.len(),
                at + n <= batch.crops.len(),
                regions@.len() == k,
                forall|b: int|
                    #![trigger regions@[b]]
                    0 <= b < k ==> is_region(
                        regions@[b],
                        regions_of(pages@[i as int], tiles_enabled)[b],
                        batch.phashes@[at + b],
                        vectors@[at + b]@,
                    ),
            decreases n - k,
        {
            assert(batch.holds(pages@, tiles_enabled, i as int, k as int));
            let m: RegionMeta = batch.metas[at + k];
            regions.push(
                RegionData {
                    kind: m.kind,
                    index: m.index,
                    bbox: m.bbox,
                    phash: batch.phashes[at + k],
                    vector: copy_vector(&vectors[at + k]),
                },
            );
            k = k + 1;
        }
        out.push(
            PageData {
                page_num: page.page_num,
                width_px: page.width_px,
                height_px: page.height_px,
                thumb_relative_path: thumbs[i].clone(),
                regions,
            },
        );
        at = at + n;
        i = i + 1;
    }
    Ok(out)
}

proof fn lemma_tile_ends(len: int)
    ensures
        tile_start(len, 0) == 0,
        tile_start(len, 1) == len / 4,
        tile_start(len, 2) == 2 * len / 4,
        tile_end(len, 0) == (2 * len + 2) / 4,
        tile_end(len, 1) == (3 * len + 2) / 4,
        tile_end(len, 2) == (4 * len + 2) / 4,
{
    assert(0 * len == 0 && 1 * len == len && (0 + 2) * len == 2 * len && (1 + 2) * len == 3 * len
        && (2 + 2) * len == 4 * len) by (nonlinear_arith);
}

/// Along an axis of `len` pixels, a stretch of at most a quarter lies within one
/// of the three tile positions, wherever it begins.
pub proof fn tile_axis_coverage(len: int, a: int, size: int) -> (pos: int)
    requires
        0 <= a,
        0 < size,
        a + size <= len,
        4 * size <= len,
    ensures
        0 <= pos < 3,
        tile_start(len, pos) <= a,
        a + size <= tile_start(len, pos) + tile_len(len, pos),
{
    lemma_tile_ends(len);
    if 4 * a < len {
        0
    } else if 4 * a < 2 * len {
        1
    } else {
        2
    }
}

/// Any part of a page at most a quarter of it wide and at most a quarter of it
/// high is fully contained in at least one tile.
pub proof fn tiles_cover_small_regions(
    width: int,
    height: int,
    x: int,
    y: int,
    w: int,
    h: int,
) -> (k: int)
    requires
        0 <= x,
        0 <= y,
        0 < w,
        0 < h,
        x + w <= width,
        y + h <= height,
        4 * w <= width,
        4 * h <= height,
    ensures
        0 <= k < 9,
        ({
            let b = tile_region(k).bbox;
            &&& tile_start(width, b.x as int) <= x
            &&& x + w <= tile_start(width, b.x as int) + tile_len(width, b.x as int)
            &&& tile_start(height, b.y as int) <= y
            &&& y + h <= tile_start(height, b.y as int) + tile_len(height, b.y as int)
        }),
{
    let col = tile_axis_coverage(width, x, w);
    let row = tile_axis_coverage(height, y, h);
    assert((row * 3 + col) % 3 == col && (row * 3 + col) / 3 == row);
    row * 3 + col
}

/// Every tile lies within the page, and the last of a row or column reaches its
/// border.
pub proof fn tiles_stay_inside(len: int, pos: int)
    requires
        len > 0,
        0 <= pos < 3,
    ensures
        0 <= tile_start(len, pos),
        tile_start(len, pos) + tile_len(len, pos) <= len,
        tile_start(len, 2) + tile_len(len, 2) == len,
{
    lemma_tile_ends(len);
    assert(pos == 0 || pos == 1 || pos == 2);
}

/// A page gives one region, or ten where tiles are enabled and it has pixels; the
/// whole page always comes first.
pub proof fn region_count(width: u32, height: u32, tiles_enabled: bool)
    ensures
        page_regions(width, height, tiles_enabled)[0] == full_region(),
        page_regions(width, height, tiles_enabled).len() == if tiles_enabled && width > 0 && height
            > 0 {
            10nat
        } else {
            1nat
        },
{
}

// ── Laws of the crops ───────────────────────────────────────────────────────

proof fn lemma_ten_each(pages: Seq<RenderedPage>, p: int)
    requires
        0 <= p <= pages.len(),
        forall|q: int|
            0 <= q < pages.len() ==> (#[trigger] pages[q]).image.width > 0 && pages[q].image.height > 0,
    ensures
        offset_of(pages, true, p) == 10 * p,
    decreases p,
{
    if p > 0 {
        lemma_ten_each(pages, p - 1);
        assert(pages[p - 1].image.width > 0);
    }
}

proof fn lemma_one_each(pages: Seq<RenderedPage>, p: int)
    requires
        0 <= p <= pages.len(),
    ensures
        offset_of(pages, false, p) == p,
    decreases p,
{
    if p > 0 {
        lemma_one_each(pages, p - 1);
    }
}

proof fn lemma_tile_shows(out: PixelImage, page: PixelImage, k: int)
    requires
        page.wf(),
        page.width > 0,
        page.height > 0,
        0 <= k < 9,
        shows_region(out, page, tile_region(k)),
    ensures
        out.width == tile_len(page.width as int, k % 3),
        out.height == tile_len(page.height as int, k / 3),
        shows_from(
            out,
            page,
            tile_start(page.width as int, k % 3),
            tile_start(page.height as int, k / 3),
        ),
{
    let (w, h) = (page.width as int, page.height as int);
    tiles_stay_inside(w, k % 3);
    tiles_stay_inside(h, k / 3);
    lemma_crop_shows(
        out,
        page,
        tile_start(w, k % 3),
        tile_start(h, k / 3),
        tile_len(w, k % 3),
        tile_len(h, k / 3),
    );
}

/// With tiles, a page with pixels gives ten crops: first the page itself, pixel by
/// pixel, and then nine tiles, row by row. Where a tile begins and ends is where its
/// place in quarters of the page says, to less than a pixel; it shows what the page
/// shows there, and its hash is one of this very crop.
pub proof fn crops_are_the_page_and_its_tiles(
    pages: &Vec<RenderedPage>,
    r: CropBatch,
    p: int,
    k: int,
)
    requires
        forall|q: int|
            0 <= q < pages@.len() ==> (#[trigger] pages@[q]).image.width > 0
                && pages@[q].image.height > 0 && pages@[q].image.data@.len()
                == pages@[q].image.height * (pages@[q].image.width * 4),
        call_ensures(expand_pages, (pages, true), r),
        0 <= p < pages@.len(),
        0 <= k < 9,
    ensures
        r.crops@.len() == 10 * pages@.len(),
        r.metas@.len() == 10 * pages@.len(),
        r.phashes@.len() == 10 * pages@.len(),
        ({
            let page = pages@[p].image;
            let whole = r.crops@[10 * p];
            &&& whole.width == page.width
            &&& whole.height == page.height
            &&& shows_from(whole, page, 0, 0)
            &&& r.metas@[10 * p].kind == RegionKind::Full
            &&& r.metas@[10 * p].bbox == (RegionBBox { x: 0, y: 0, w: 4, h: 4 })
            &&& may_hash(whole, r.phashes@[10 * p])
        }),
        ({
            let page = pages@[p].image;
            let at = 10 * p + 1 + k;
            let tile = r.crops@[at];
            let place = r.metas@[at].bbox;
            &&& r.metas@[at].kind == RegionKind::Tile
            &&& r.metas@[at].index == k
            &&& place == (RegionBBox { x: (k % 3) as u32, y: (k / 3) as u32, w: 2, h: 2 })
            &&& may_hash(tile, r.phashes@[at])
            &&& exists|x: int, y: int| #[trigger]
                shows_from(tile, page, x, y) && x == (k % 3) * page.width / 4 && y == (k / 3)
                    * page.height / 4 && -2 <= 4 * (x + tile.width) - (k % 3 + 2) * page.width <= 2
                    && -2 <= 4 * (y + tile.height) - (k / 3 + 2) * page.height <= 2
        }),
{
    assert forall|q: int| 0 <= q < pages@.len() implies (#[trigger] pages@[q]).image.wf() by {}
    lemma_ten_each(pages@, pages@.len() as int);
    lemma_ten_each(pages@, p);
    let page = pages@[p].image;
    assert(page.width > 0);
    assert(r.holds(pages@, true, p, 0));
    assert(r.holds(pages@, true, p, k + 1));
    assert(regions_of(pages@[p], true)[k + 1] == tile_region(k));
    let whole = r.crops@[10 * p];
    lemma_crop_shows(whole, page, 0, 0, page.width as int, page.height as int);
    let at = 10 * p + 1 + k;
    lemma_tile_shows(r.crops@[at], page, k);
    let (w, h) = (page.width as int, page.height as int);
    lemma_tile_ends(w);
    lemma_tile_ends(h);
    tiles_stay_inside(w, k % 3);
    tiles_stay_inside(h, k / 3);
    let (a, b) = (k % 3, k / 3);
    assert(a == 0 || a == 1 || a == 2);
    assert(b == 0 || b == 1 || b == 2);
    let x = tile_start(w, a);
    let y = tile_start(h, b);
    assert(shows_from(r.crops@[at], page, x, y));
}

/// Without tiles a page gives one crop, which is the page, pixel by pixel.
pub proof fn without_tiles_the_page_is_the_crop(pages: &Vec<RenderedPage>, r: CropBatch, p: int)
    requires
        forall|q: int|
            0 <= q < pages@.len() ==> (#[trigger] pages@[q]).image.data@.len()
                == pages@[q].image.height * (pages@[q].image.width * 4),
        call_ensures(expand_pages, (pages, false), r),
        0 <= p < pages@.len(),
    ensures
        r.crops@.len() == pages@.len(),
        r.crops@[p].width == pages@[p].image.width,
        r.crops@[p].height == pages@[p].image.height,
        shows_from(r.crops@[p], pages@[p].image, 0, 0),
        r.metas@[p].kind == RegionKind::Full,
        may_hash(r.crops@[p], r.phashes@[p]),
{
    assert forall|q: int| 0 <= q < pages@.len() implies (#[trigger] pages@[q]).image.wf() by {}
    lemma_one_each(pages@, pages@.len() as int);
    lemma_one_each(pages@, p);
    assert(r.holds(pages@, false, p, 0));
    let page = pages@[p].image;
    lemma_crop_shows(r.crops@[p], page, 0, 0, page.width as int, page.height as int);
}

/// Every part of a page that is at most a quarter of it wide and high is shown as a
/// whole, pixel by pixel, by one of the tiles cut from that page: by crop `c`, which
/// begins in column `x0` of row `y0` of the page.
pub proof fn every_small_part_is_in_a_crop(
    pages: &Vec<RenderedPage>,
    r: CropBatch,
    p: int,
    x: int,
    y: int,
    w: int,
    h: int,
) -> (found: (int, int, int))
    requires
        forall|q: int|
            0 <= q < pages@.len() ==> (#[trigger] pages@[q]).image.width > 0
                && pages@[q].image.height > 0 && pages@[q].image.data@.len()
                == pages@[q].image.height * (pages@[q].image.width * 4),
        call_ensures(expand_pages, (pages, true), r),
        0 <= p < pages@.len(),
        0 <= x,
        0 <= y,
        0 < w,
        0 < h,
        x + w <= pages@[p].image.width,
        y + h <= pages@[p].image.height,
        4 * w <= pages@[p].image.width,
        4 * h <= pages@[p].image.height,
    ensures
        ({
            let (c, x0, y0) = found;
            let tile = r.crops@[c];
            &&& 10 * p < c < 10 * p + 10
            &&& r.metas@[c].kind == RegionKind::Tile
            &&& x0 <= x && x + w <= x0 + tile.width
            &&& y0 <= y && y + h <= y0 + tile.height
            &&& shows_from(tile, pages@[p].image, x0, y0)
        }),
{
    assert forall|q: int| 0 <= q < pages@.len() implies (#[trigger] pages@[q]).image.wf() by {}
    lemma_ten_each(pages@, pages@.len() as int);
    lemma_ten_each(pages@, p);
    let page = pages@[p].image;
    let k = tiles_cover_small_regions(page.width as int, page.height as int, x, y, w, h);
    assert(r.holds(pages@, true, p, k + 1));
    assert(regions_of(pages@[p], true)[k + 1] == tile_region(k));
    lemma_tile_shows(r.crops@[10 * p + 1 + k], page, k);
    (
        10 * p + 1 + k,
        tile_start(page.width as int, k % 3),
        tile_start(page.height as int, k / 3),
    )
}

/// The vectors go back to where their crops were cut: region `k` of page `p` has the
/// vector and the hash of the `k`-th crop of that page, and says which part of the page
/// it is.
pub proof fn vectors_return_to_their_regions(
    pages: &Vec<RenderedPage>,
    batch: CropBatch,
    thumbs: &Vec<String>,
    vectors: &Vec<Vec<Float32>>,
    r: Result<Vec<PageData>, AppError>,
    p: int,
    k: int,
)
    requires
        forall|q: int|
            0 <= q < pages@.len() ==> (#[trigger] pages@[q]).image.width > 0
                && pages@[q].image.height > 0 && pages@[q].image.data@.len()
                == pages@[q].image.height * (pages@[q].image.width * 4),
        call_ensures(expand_pages, (pages, true), batch),
        thumbs@.len() == pages@.len(),
        call_ensures(assemble_pages, (pages, thumbs, &batch, vectors, true), r),
        0 <= p < pages@.len(),
        0 <= k < 10,
    ensures
        r is Ok <==> vectors@.len() == 10 * pages@.len(),
        r is Ok ==> {
            let out = r->Ok_0@[p];
            let region = out.regions@[k];
            &&& r->Ok_0@.len() == pages@.len()
            &&& out.page_num == pages@[p].page_num
            &&& out.width_px == pages@[p].width_px
            &&& out.height_px == pages@[p].height_px
            &&& out.thumb_relative_path@ == thumbs@[p]@
            &&& out.regions@.len() == 10
            &&& region.vector@ == vectors@[10 * p + k]@
            &&& region.phash == batch.phashes@[10 * p + k]
            &&& k == 0 ==> region.kind == RegionKind::Full && region.index == 0 && region.bbox == (
            RegionBBox { x: 0, y: 0, w: 4, h: 4 })
            &&& k > 0 ==> region.kind == RegionKind::Tile && region.index == k - 1 && region.bbox
                == (RegionBBox { x: ((k - 1) % 3) as u32, y: ((k - 1) / 3) as u32, w: 2, h: 2 })
        },
{
    assert forall|q: int| 0 <= q < pages@.len() implies (#[trigger] pages@[q]).image.wf() by {}
    lemma_ten_each(pages@, pages@.len() as int);
    lemma_ten_each(pages@, p);
    assert(pages@[p].image.width > 0);
    if r is Ok {
        let out = r->Ok_0@[p];
        assert(is_page(out, pages@, thumbs@, batch, vectors@, true, p));
        assert(is_region(
            out.regions@[k],
            regions_of(pages@[p], true)[k],
            batch.phashes@[10 * p + k],
            vectors@[10 * p + k]@,
        ));
        if k > 0 {
            assert(regions_of(pages@[p], true)[k] == tile_region(k - 1));
        }
    }
}

// ── Laws of the worker ──────────────────────────────────────────────────────

/// A file may take ten minutes and a page that is read two: at that time, and not
/// before, the request that began at `began` has taken too long.
pub proof fn requests_have_their_deadlines(
    s: &mut WorkerState,
    req: &WorkerRequest,
    began: u64,
    action: WorkerAction,
)
    requires
        old(s).wf(),
        old(s).phase == WorkerPhase::Idle,
        began + 600 <= u64::MAX,
        call_ensures(WorkerState::on_request, (s, req, began), action),
    ensures
        req is Index ==> final(s).watchdog.deadline == began + 600,
        req is OcrPage ==> final(s).watchdog.deadline == began + 120,
        action is RunIndex ==> req is Index && old(s).vision_ready,
        action is LoadVision ==> req is Index && !old(s).vision_ready,
        action is RunOcr ==> req is OcrPage && old(s).ocr_ready,
        action is LoadOcr ==> req is OcrPage && !old(s).ocr_ready,
        !(action is Respond),
{
}

/// A request has taken too long where there is one and its deadline lies before now.
pub proof fn deadlines_pass(w: &Watchdog, now: u64, r: bool)
    requires
        call_ensures(Watchdog::expired, (w, now), r),
    ensures
        r <==> w.deadline > 0 && w.deadline < now,
{
}

/// A tile begins at the quarter of the axis that it stands at, rounded down, and ends at
/// the half of the axis further on, to the nearest pixel and halves up. It has at least
/// one pixel and ends within the axis, and the last one ends with it.
pub proof fn tiles_span_half_an_axis(len: u32, pos: u32, r: (u32, u32))
    requires
        pos < 3,
        call_ensures(tile_span, (len, pos), r),
    ensures
        4 * r.0 <= pos * len < 4 * r.0 + 4,
        r.1 >= 1,
        len > 0 ==> r.0 + r.1 <= len,
        len > 1 ==> 4 * (r.0 + r.1) <= (pos + 2) * len + 2 < 4 * (r.0 + r.1) + 4,
        len > 0 && pos == 2 ==> r.0 + r.1 == len,
{
    let l = len as int;
    if pos == 0 {
        assert(pos * l == 0 && (pos + 2) * l == 2 * l) by (nonlinear_arith)
            requires
                pos == 0,
        ;
    } else if pos == 1 {
        assert(pos * l == l && (pos + 2) * l == 3 * l) by (nonlinear_arith)
            requires
                pos == 1,
        ;
    } else {
        assert(pos * l == 2 * l && (pos + 2) * l == 4 * l) by (nonlinear_arith)
            requires
                pos == 2,
        ;
    }
}

/// A page with pixels has ten regions where tiles are enabled: itself, and a tile at each
/// of the nine places that lie a quarter of the page apart. Any other has itself alone.
pub proof fn regions_lie_a_quarter_apart(
    width: u32,
    height: u32,
    tiles_enabled: bool,
    r: Vec<RegionMeta>,
)
    requires
        call_ensures(plan_regions, (width, height, tiles_enabled), r),
    ensures
        r@.len() == if tiles_enabled && width > 0 && height > 0 {
            10int
        } else {
            1
        },
        r@[0].kind is Full,
        r@[0].index == 0,
        r@[0].bbox == (RegionBBox { x: 0, y: 0, w: 4, h: 4 }),
        r@.len() == 10 ==> forall|x: int, y: int|
            0 <= x < 3 && 0 <= y < 3 ==> {
                let m = #[trigger] r@[1 + 3 * y + x];
                &&& m.kind is Tile
                &&& m.index == 3 * y + x
                &&& m.bbox == (RegionBBox { x: x as u32, y: y as u32, w: 2, h: 2 })
            },
{
    if tiles_enabled && width > 0 && height > 0 {
        assert forall|x: int, y: int| 0 <= x < 3 && 0 <= y < 3 implies {
            let m = #[trigger] r@[1 + 3 * y + x];
            &&& m.kind is Tile
            &&& m.index == 3 * y + x
            &&& m.bbox == (RegionBBox { x: x as u32, y: y as u32, w: 2, h: 2 })
        } by {
            assert(r@[1 + 3 * y + x] == tile_region(3 * y + x));
            assert((3 * y + x) % 3 == x && (3 * y + x) / 3 == y);
        }
    }
}

} // verus!
