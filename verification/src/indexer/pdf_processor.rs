//! Pages as they come from the renderer.

use crate::embedder::pixels::PixelImage;
use crate::worker_proc::RenderedPage;
use vstd::prelude::*;

verus! {

/// The long edge, in pixels, at which a page is rendered to be indexed.
pub const RENDER_TARGET_PX: i32 = 640;

/// What came of rendering a file.
#[derive(Debug)]
pub struct ProcessedFile {
    pub pages: Vec<RenderedPage>,
    /// Whether the file is an imposition layout.
    pub excluded: bool,
    pub exclusion_reason: Option<String>,
    pub page_count: i32,
}

impl ProcessedFile {
    /// A file that is kept out of the index: none of its pages is rendered.
    pub fn excluded(reason: String) -> (r: ProcessedFile)
        ensures
            r.pages@.len() == 0,
            r.excluded,
            r.exclusion_reason == Some(reason),
            r.page_count == 0,
    {
        ProcessedFile {
            pages: Vec::new(),
            excluded: true,
            exclusion_reason: Some(reason),
            page_count: 0,
        }
    }

    /// A file whose pages have been rendered.
    pub fn rendered(pages: Vec<RenderedPage>, page_count: i32) -> (r: ProcessedFile)
        ensures
            r.pages == pages,
            !r.excluded,
            r.exclusion_reason is None,
            r.page_count == page_count,
    {
        ProcessedFile { pages, excluded: false, exclusion_reason: None, page_count }
    }
}

/// The position of a page in its document, from its number, which begins with one:
/// a smaller number means the first page, and only the lowest sixteen bits count.
pub fn page_index(page_num: i64) -> (r: u16)
    requires
        page_num > i64::MIN,
    ensures
        r == if page_num <= 1 {
            0
        } else {
            (page_num - 1) % 65536
        },
{
    if page_num <= 1 {
        0
    } else {
        ((page_num - 1) % 65536) as u16
    }
}

/// Whether `out` holds the pixels of `bytes`, which has blue before red.
pub open spec fn is_swapped(out: Seq<u8>, bytes: Seq<u8>) -> bool {
    &&& out.len() % 4 == 0
    &&& out.len() <= bytes.len()
    &&& forall|p: int|
        #![trigger out[4 * p]]
        0 <= p && 4 * p < out.len() ==> {
            &&& out[4 * p] == bytes[4 * p + 2]
            &&& out[4 * p + 1] == bytes[4 * p + 1]
            &&& out[4 * p + 2] == bytes[4 * p]
            &&& out[4 * p + 3] == bytes[4 * p + 3]
        }
}

/// The image that the renderer has drawn: its bytes are blue, green, red and alpha
/// of each pixel.
pub fn bgra_to_rgba(bytes: &[u8], width: u32, height: u32) -> (r: PixelImage)
    requires
        height * (width * 4) <= bytes@.len(),
    ensures
        r.wf(),
        r.width == width,
        r.height == height,
        is_swapped(r.data@, bytes@),
{
    let mut data: Vec<u8> = Vec::new();
    assert(bytes.len() == bytes@.len());
    assert((width as int * height as int) * 4 == height * (width * 4)) by (nonlinear_arith);
    assert(0 <= width as int * height as int) by (nonlinear_arith)
        requires
            width >= 0,
            height >= 0,
    ;
    let n: usize = (width as usize) * (height as usize);
    let mut p: usize = 0;
    while p < n
        invariant
            p <= n,
            4 * n <= bytes.len(),
            data@.len() == 4 * p,
            forall|q: int|
                #![trigger data@[4 * q]]
                0 <= q < p ==> {
                    &&& data@[4 * q] == bytes@[4 * q + 2]
                    &&& data@[4 * q + 1] == bytes@[4 * q + 1]
                    &&& data@[4 * q + 2] == bytes@[4 * q]
                    &&& data@[4 * q + 3] == bytes@[4 * q + 3]
                },
        decreases n - p,
    {
        let ghost before = data@;
        data.push(bytes[4 * p + 2]);
        data.push(bytes[4 * p + 1]);
        data.push(bytes[4 * p]);
        data.push(bytes[4 * p + 3]);
        proof {
            assert forall|q: int|
                #![trigger data@[4 * q]]
                0 <= q < p + 1 implies {
                &&& data@[4 * q] == bytes@[4 * q + 2]
                &&& data@[4 * q + 1] == bytes@[4 * q + 1]
                &&& data@[4 * q + 2] == bytes@[4 * q]
                &&& data@[4 * q + 3] == bytes@[4 * q + 3]
            } by {
                if q < p {
                    assert(before[4 * q] == bytes@[4 * q + 2]);
                }
            }
        }
        p = p + 1;
    }
    assert((4 * n) % 4 == 0);
    assert forall|q: int|
        #![trigger data@[4 * q]]
        0 <= q && 4 * q < data@.len() implies {
        &&& data@[4 * q] == bytes@[4 * q + 2]
        &&& data@[4 * q + 1] == bytes@[4 * q + 1]
        &&& data@[4 * q + 2] == bytes@[4 * q]
        &&& data@[4 * q + 3] == bytes@[4 * q + 3]
    } by {
        assert(q < n);
    }
    PixelImage { width, height, data }
}

/// Red and blue change places in every pixel; green and alpha stay.
pub proof fn red_and_blue_change_places(
    bytes: &[u8],
    width: u32,
    height: u32,
    r: PixelImage,
    p: int,
)
    requires
        height * (width * 4) <= bytes@.len(),
        call_ensures(bgra_to_rgba, (bytes, width, height), r),
        0 <= p < width * height,
    ensures
        r.width == width,
        r.height == height,
        r.data@.len() == 4 * (width * height),
        r.data@[4 * p] == bytes@[4 * p + 2],
        r.data@[4 * p + 1] == bytes@[4 * p + 1],
        r.data@[4 * p + 2] == bytes@[4 * p],
        r.data@[4 * p + 3] == bytes@[4 * p + 3],
{
    assert(height * (width * 4) == 4 * (width * height)) by (nonlinear_arith);
    assert(width * height * 4 == 4 * (width * height)) by (nonlinear_arith);
    assert(r.data@.len() == 4 * (width * height));
    assert(0 <= 4 * p < r.data@.len());
    let byte = r.data@[4 * p];
}

} // verus!
