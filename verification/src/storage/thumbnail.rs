//! Where thumbnails are kept and what they are called.

use crate::embedder::pixels::{held, rgba_of, to_pixels, PixelImage};
use crate::error::AppError;
use crate::paths::{join, joined};
use crate::text::{decimal, decimal_i64};
use vstd::prelude::*;

verus! {

/// The long edge of a thumbnail, in pixels.
pub const THUMB_SIZE: u32 = 256;

/// The long edge of a preview, in pixels.
pub const PREVIEW_SIZE: u32 = 512;

/// The thumbnails below a directory.
#[derive(Debug)]
pub struct ThumbnailStore {
    root: String,
}

/// The name of the thumbnail of a page, with the given extension.
pub open spec fn thumbnail_name(file_id: i64, page_num: i64, ext: Seq<char>) -> Seq<char> {
    decimal(file_id as int) + "_"@ + decimal(page_num as int) + "."@ + ext
}

fn name_with(file_id: i64, page_num: i64, ext: &str) -> (r: String)
    ensures
        r@ == thumbnail_name(file_id, page_num, ext@),
{
    let mut name = decimal_i64(file_id);
    name.append("_");
    let page = decimal_i64(page_num);
    name.append(page.as_str());
    name.append(".");
    name.append(ext);
    name
}

/// The name under which the thumbnail of a page is saved: the same at every index
/// of the file, so that a new thumbnail takes the place of the old.
pub fn relative_path(file_id: i64, page_num: i64) -> (r: String)
    ensures
        r@ == thumbnail_name(file_id, page_num, "webp"@),
{
    name_with(file_id, page_num, "webp")
}

/// The name that the thumbnail had when thumbnails were JPEG files; such a file is
/// removed.
pub fn legacy_path(file_id: i64, page_num: i64) -> (r: String)
    ensures
        r@ == thumbnail_name(file_id, page_num, "jpg"@),
{
    name_with(file_id, page_num, "jpg")
}

impl ThumbnailStore {
    /// The directory of the thumbnails.
    pub closed spec fn dir(self) -> Seq<char> {
        self.root@
    }

    /// A store below `dir`.
    pub fn new(dir: String) -> (r: ThumbnailStore)
        ensures
            r.dir() == dir@,
    {
        ThumbnailStore { root: dir }
    }

    /// The path of a thumbnail, from its name.
    pub fn abs_path(&self, relative: &str) -> (r: String)
        ensures
            r@ == joined(self.dir(), relative@),
    {
        join(self.root.as_str(), relative)
    }
}

/// Whether an image is no larger than a thumbnail may be, and so is kept as it is.
pub fn fits(width: u32, height: u32, max_size: u32) -> (r: bool)
    ensures
        r == (width <= max_size && height <= max_size),
{
    width <= max_size && height <= max_size
}

/// What `image::load_from_memory` makes of some bytes: width, height and samples, or
/// why it cannot.
pub uninterp spec fn loaded_image(data: Seq<u8>) -> Result<(u32, u32, Seq<u32>), Seq<char>>;

/// `image::load_from_memory`: the outcome depends on the bytes alone.
#[verifier::external_body]
pub(crate) fn load_from_memory(data: &[u8]) -> (r: Result<image::DynamicImage, String>)
    ensures
        match r {
            Ok(img) => loaded_image(data@) == Ok::<(u32, u32, Seq<u32>), Seq<char>>(held(img)),
            Err(e) => loaded_image(data@) == Err::<(u32, u32, Seq<u32>), Seq<char>>(e@),
        },
{
    image::load_from_memory(data).map_err(|e| e.to_string())
}

/// The image that some bytes hold.
pub fn decode_image_bytes(data: &[u8]) -> (r: Result<PixelImage, AppError>)
    ensures
        match loaded_image(data@) {
            Ok((w, h, samples)) => r is Ok && r->Ok_0.wf() && (
                r->Ok_0.width,
                r->Ok_0.height,
                r->Ok_0.data@,
            ) == (w, h, rgba_of(w, h, samples)),
            Err(e) => r is Err && r->Err_0 is Image && r->Err_0->Image_0@ == e,
        },
{
    match load_from_memory(data) {
        Ok(img) => Ok(to_pixels(&img)),
        Err(e) => Err(AppError::Image(e)),
    }
}

/// A thumbnail is called by the number of its file and the number of its page, with an
/// underscore between them.
pub proof fn thumbnails_are_called_by_their_page(
    file_id: i64,
    page_num: i64,
    r: String,
    legacy: String,
)
    requires
        call_ensures(relative_path, (file_id, page_num), r),
        call_ensures(legacy_path, (file_id, page_num), legacy),
    ensures
        r@ == decimal(file_id as int) + seq!['_'] + decimal(page_num as int) + seq![
            '.',
            'w',
            'e',
            'b',
            'p',
        ],
        legacy@ == decimal(file_id as int) + seq!['_'] + decimal(page_num as int) + seq![
            '.',
            'j',
            'p',
            'g',
        ],
{
    reveal_strlit("_");
    reveal_strlit(".");
    reveal_strlit("webp");
    reveal_strlit("jpg");
    assert("_"@ =~= seq!['_']);
    let start = decimal(file_id as int) + seq!['_'] + decimal(page_num as int);
    assert(start + "."@ + "webp"@ =~= start + seq!['.', 'w', 'e', 'b', 'p']);
    assert(start + "."@ + "jpg"@ =~= start + seq!['.', 'j', 'p', 'g']);
}

} // verus!
