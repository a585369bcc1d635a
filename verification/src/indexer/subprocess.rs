//! What passes between the indexer and its worker processes.
//!
//! Both ways a message is a frame: the length of the payload as four
//! little-endian bytes, then the payload. The first frame is a [`WorkerInit`];
//! after it every [`WorkerRequest`] is answered by one [`WorkerResponse`].

use crate::bytes::{from_le32, le32, le32_round_trip, push_le32, read_le32};
use crate::error::AppError;
use crate::float32::Float32;
use crate::text::{decimal, decimal_u64};
use vstd::prelude::*;

verus! {

/// What a worker is told once, at its start.
#[derive(Debug)]
pub struct WorkerInit {
    pub model_path: String,
    pub thumbnails_dir: String,
    /// Models for text recognition, loaded when first needed.
    pub ocr_det_path: String,
    pub ocr_rec_path: String,
    /// Tells the log lines of the workers apart.
    pub worker_idx: usize,
    /// Whether each page also gives its nine overlapping tiles.
    pub tiles_enabled: bool,
}

/// One unit of work for a worker.
#[derive(Debug)]
pub enum WorkerRequest {
    /// Render, embed and hash a whole file.
    Index(ProcessRequest),
    /// Render one page large enough to read, and extract its text.
    OcrPage { file_path: String, page_num: i64 },
}

/// The answer to a [`WorkerRequest`].
#[derive(Debug)]
pub enum WorkerResponse {
    Index(ProcessResponse),
    /// The text of the page; empty where it has none or could not be read.
    OcrPage { text: String },
}

/// A file to be processed.
#[derive(Debug)]
pub struct ProcessRequest {
    pub file_path: String,
    /// The row of the file, by which its thumbnails are named.
    pub file_id: i64,
}

/// What came of processing a file.
#[derive(Debug)]
pub enum ProcessResponse {
    /// The file is an imposition layout.
    Excluded { reason: String },
    /// One entry for each rendered page.
    Indexed { pages: Vec<PageData> },
    /// The file could not be processed.
    Error { msg: String },
}

/// A rendered page.
#[derive(Debug)]
pub struct PageData {
    pub page_num: i32,
    pub width_px: u32,
    pub height_px: u32,
    /// The thumbnail, below the directory of thumbnails.
    pub thumb_relative_path: String,
    /// The whole page, and then its tiles where tiles are enabled.
    pub regions: Vec<RegionData>,
}

/// A part of a page with its own hash and vector.
#[derive(Debug)]
pub struct RegionData {
    pub kind: RegionKind,
    /// The position of a tile, row by row; zero for the whole page.
    pub index: u32,
    pub bbox: RegionBBox,
    pub phash: u64,
    pub vector: Vec<Float32>,
}

#[derive(Clone, Copy, PartialEq, Eq, Structural, Debug)]
pub enum RegionKind {
    /// The whole page.
    Full,
    /// One of the nine overlapping tiles.
    Tile,
}

impl RegionKind {
    /// The name of this kind in the `regions.kind` column.
    pub open spec fn sql_name(self) -> Seq<char> {
        match self {
            RegionKind::Full => "full"@,
            RegionKind::Tile => "tile"@,
        }
    }

    /// The name of this kind in the `regions.kind` column.
    pub fn as_sql(self) -> (r: &'static str)
        ensures
            r@ == self.sql_name(),
    {
        match self {
            RegionKind::Full => "full",
            RegionKind::Tile => "tile",
        }
    }
}

/// The place of a region, in quarters of the page's width and height: the whole
/// page is `(0, 0, 4, 4)`.
#[derive(Clone, Copy, PartialEq, Eq, Structural, Debug)]
pub struct RegionBBox {
    pub x: u32,
    pub y: u32,
    pub w: u32,
    pub h: u32,
}

/// The frame that carries a payload.
pub open spec fn frame(payload: Seq<u8>) -> Seq<u8> {
    le32(payload.len() as u32) + payload
}

/// The frame that carries `payload`. A payload whose length does not fit in four
/// bytes cannot be sent.
pub fn write_frame(payload: &Vec<u8>) -> (r: Result<Vec<u8>, AppError>)
    ensures
        r is Ok <==> payload@.len() <= u32::MAX,
        r is Ok ==> r->Ok_0@ == frame(payload@),
        r is Err ==> r->Err_0 is Other && r->Err_0->Other_0@ == "subprocess frame too large: "@
            + decimal(payload@.len() as int) + " bytes"@,
{
    if payload.len() > 0xffff_ffff {
        let mut msg = "subprocess frame too large: ".to_owned();
        let n = decimal_u64(payload.len() as u64);
        msg.append(n.as_str());
        msg.append(" bytes");
        return Err(AppError::Other(msg));
    }
    let mut out: Vec<u8> = Vec::new();
    push_le32(&mut out, payload.len() as u32);
    assert(out@ =~= le32(payload@.len() as u32));
    out.extend_from_slice(payload.as_slice());
    assert(out@ =~= frame(payload@));
    Ok(out)
}

/// What the first bytes of a frame say, `header` being what could be read of
/// them before the peer closed the pipe: nothing at all is a clean end, and less
/// than four bytes is a broken frame.
pub open spec fn frame_length(header: Seq<u8>) -> Result<Option<int>, ()> {
    if header.len() == 0 {
        Ok(None)
    } else if header.len() < 4 {
        Err(())
    } else {
        Ok(Some(from_le32(header)))
    }
}

/// The length of the payload that follows `header`: `None` where the peer has
/// closed the pipe between frames, an error where it did so within one.
pub fn read_frame(header: &Vec<u8>) -> (r: Result<Option<u32>, AppError>)
    ensures
        match r {
            Ok(Some(n)) => frame_length(header@) == Ok::<Option<int>, ()>(Some(n as int)),
            Ok(None) => frame_length(header@) == Ok::<Option<int>, ()>(None),
            Err(e) => frame_length(header@) is Err && e is Other && e->Other_0@
                == "subprocess frame cut short"@,
        },
{
    if header.len() == 0 {
        Ok(None)
    } else if header.len() < 4 {
        Err(AppError::Other("subprocess frame cut short".to_owned()))
    } else {
        let n: u32 = read_le32(header.as_slice(), 0);
        assert(from_le32(header@.subrange(0, 4)) == from_le32(header@));
        Ok(Some(n))
    }
}

/// What is read back from a frame is what was written: its header gives the
/// length of the payload, and that many bytes after it are the payload, whatever
/// follows.
pub proof fn frame_round_trip(payload: Seq<u8>, rest: Seq<u8>)
    requires
        payload.len() <= u32::MAX,
    ensures
        ({
            let stream = frame(payload) + rest;
            &&& frame_length(stream.take(4)) == Ok::<Option<int>, ()>(Some(payload.len() as int))
            &&& stream.subrange(4, 4 + payload.len() as int) == payload
            &&& stream.skip(4 + payload.len() as int) == rest
        }),
{
    let stream = frame(payload) + rest;
    le32_round_trip(payload.len() as u32);
    assert(stream.take(4) =~= le32(payload.len() as u32));
    assert(stream.subrange(4, 4 + payload.len() as int) =~= payload);
    assert(stream.skip(4 + payload.len() as int) =~= rest);
}

/// The outcome of an indexing request, from the answer of the worker: `None`
/// where it closed the pipe. Any error means that the worker has to be replaced.
pub fn expect_index(resp: Option<WorkerResponse>) -> (r: Result<ProcessResponse, AppError>)
    ensures
        match resp {
            Some(WorkerResponse::Index(p)) => r == Ok::<ProcessResponse, AppError>(p),
            Some(WorkerResponse::OcrPage { .. }) => r is Err && r->Err_0 is Other
                && r->Err_0->Other_0@ == "worker returned mismatched response type"@,
            None => r is Err && r->Err_0 is Other && r->Err_0->Other_0@
                == "worker subprocess closed pipe without responding"@,
        },
{
    match resp {
        Some(WorkerResponse::Index(p)) => Ok(p),
        Some(WorkerResponse::OcrPage { .. }) => Err(
            AppError::Other("worker returned mismatched response type".to_owned()),
        ),
        None => Err(AppError::Other("worker subprocess closed pipe without responding".to_owned())),
    }
}

/// The text of a page, from the answer of the worker: `None` where it closed the
/// pipe. Any error means that the worker has to be replaced.
pub fn expect_text(resp: Option<WorkerResponse>) -> (r: Result<String, AppError>)
    ensures
        match resp {
            Some(WorkerResponse::OcrPage { text }) => r == Ok::<String, AppError>(text),
            Some(WorkerResponse::Index(_)) => r is Err && r->Err_0 is Other && r->Err_0->Other_0@
                == "worker returned mismatched response type"@,
            None => r is Err && r->Err_0 is Other && r->Err_0->Other_0@
                == "worker subprocess closed pipe without responding"@,
        },
{
    match resp {
        Some(WorkerResponse::OcrPage { text }) => Ok(text),
        Some(WorkerResponse::Index(_)) => Err(
            AppError::Other("worker returned mismatched response type".to_owned()),
        ),
        None => Err(AppError::Other("worker subprocess closed pipe without responding".to_owned())),
    }
}

/// A frame is four bytes that make up the length of the payload, each counting 256 times
/// as much as the one before it, and then the payload.
pub proof fn frames_begin_with_their_length(payload: &Vec<u8>, r: Result<Vec<u8>, AppError>)
    requires
        call_ensures(write_frame, (payload,), r),
    ensures
        r is Ok <==> payload@.len() < 0x1_0000_0000,
        r is Ok ==> {
            let f = r->Ok_0@;
            &&& f.len() == payload@.len() + 4
            &&& f[0] + 256 * f[1] + 65_536 * f[2] + 16_777_216 * f[3] == payload@.len()
            &&& forall|i: int| 0 <= i < payload@.len() ==> #[trigger] f[i + 4] == payload@[i]
        },
{
    if r is Ok {
        le32_round_trip(payload@.len() as u32);
        let f = r->Ok_0@;
        let head = le32(payload@.len() as u32);
        assert(f[0] == head[0] && f[1] == head[1] && f[2] == head[2] && f[3] == head[3]);
    }
}

/// A header is read in the same way. None at all is the end of the stream, and one that
/// is too short is an error.
pub proof fn headers_say_how_much_follows(header: &Vec<u8>, r: Result<Option<u32>, AppError>)
    requires
        call_ensures(read_frame, (header,), r),
    ensures
        header@.len() == 0 <==> r == Ok::<Option<u32>, AppError>(None),
        0 < header@.len() < 4 <==> r is Err,
        r is Ok && r->Ok_0 is Some ==> r->Ok_0->Some_0 == header@[0] + 256 * header@[1] + 65_536
            * header@[2] + 16_777_216 * header@[3],
{
}

} // verus!
