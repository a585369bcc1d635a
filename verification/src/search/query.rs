//! Making an uploaded image ready to be searched for.

use crate::embedder::pixels::{held, image_size, rgba_of, to_pixels, PixelImage};
use crate::error::AppError;
use crate::text::{decimal, decimal_u64};
use image::imageops::FilterType;
use image::{DynamicImage, ImageReader};
use std::io::Cursor;
use vstd::prelude::*;

verus! {

/// A query with more pixels than this is refused before it is decoded.
pub const MAX_QUERY_PIXELS: u64 = 60_000_000;

/// The long edge to which a query is scaled down.
pub const QUERY_LONG_EDGE_PX: u32 = 1600;

/// What the `image` crate reads from the header of some bytes: width and height,
/// or why it cannot.
pub uninterp spec fn image_header(data: Seq<u8>) -> Result<(u32, u32), Seq<char>>;

/// What the `image` crate decodes from some bytes: width, height and samples, or why
/// it cannot.
pub uninterp spec fn image_decoded(data: Seq<u8>) -> Result<(u32, u32, Seq<u32>), Seq<char>>;

/// What the `image` crate makes of an image that is scaled, by triangles, to fit
/// into a square of the given edge: width, height and samples.
pub uninterp spec fn fitted(width: u32, height: u32, samples: Seq<u32>, edge: u32) -> (
    u32,
    u32,
    Seq<u32>,
);

/// `image::ImageReader::into_dimensions` on bytes whose format is guessed: the
/// outcome depends on the bytes alone.
#[verifier::external_body]
fn read_header(data: &[u8]) -> (r: Result<(u32, u32), String>)
    ensures
        match r {
            Ok(d) => image_header(data@) == Ok::<(u32, u32), Seq<char>>(d),
            Err(e) => image_header(data@) == Err::<(u32, u32), Seq<char>>(e@),
        },
{
    let reader = ImageReader::new(Cursor::new(data)).with_guessed_format().map_err(|e| e.to_string())?;
    reader.into_dimensions().map_err(|e| e.to_string())
}

/// `image::ImageReader::decode` without limits on bytes whose format is guessed: the
/// outcome depends on the bytes alone.
#[verifier::external_body]
fn decode_image(data: &[u8]) -> (r: Result<DynamicImage, String>)
    ensures
        match r {
            Ok(img) => image_decoded(data@) == Ok::<(u32, u32, Seq<u32>), Seq<char>>(held(img)),
            Err(e) => image_decoded(data@) == Err::<(u32, u32, Seq<u32>), Seq<char>>(e@),
        },
{
    let mut reader = ImageReader::new(Cursor::new(data)).with_guessed_format().map_err(|e| e.to_string())?;
    reader.no_limits();
    reader.decode().map_err(|e| e.to_string())
}

/// Whether an image has `edge` pixels along the longer edge of one of the size `w` by
/// `h`, and at least one and no more than that along the other.
pub open spec fn fits_edge(size: (u32, u32), w: u32, h: u32, edge: u32) -> bool {
    &&& 1 <= size.0 <= edge
    &&& 1 <= size.1 <= edge
    &&& if w >= h {
        size.0 == edge
    } else {
        size.1 == edge
    }
}

/// `image::DynamicImage::resize` with the triangle filter, in the colour type of the
/// image: the outcome depends on the image and the edge alone. The longer edge comes to
/// `edge`, and the other keeps the proportions as well as it can.
#[verifier::external_body]
fn resize_to_fit(img: DynamicImage, edge: u32) -> (r: DynamicImage)
    requires
        edge > 0,
        held(img).0 > 0 || held(img).1 > 0,
    ensures
        held(r) == fitted(held(img).0, held(img).1, held(img).2, edge),
        fits_edge((held(r).0, held(r).1), held(img).0, held(img).1, edge),
{
    img.resize(edge, edge, FilterType::Triangle)
}

/// Why a query of the given size is refused.
pub open spec fn too_large_message(w: u32, h: u32) -> Seq<char> {
    "Query image is too large ("@ + decimal(w as int) + "\u{d7}"@ + decimal(h as int)
        + " \u{2248} "@ + decimal((w * h) / 1_000_000)
        + " MP; limit 60 MP). Please downscale before uploading."@
}

/// Whether a query may be decoded, by what its header says.
pub fn check_header(header: Result<(u32, u32), String>) -> (r: Result<(), AppError>)
    ensures
        match header {
            Err(e) => r is Err && r->Err_0 is InvalidRequest && r->Err_0->InvalidRequest_0@
                == "Cannot read image header: "@ + e@,
            Ok((w, h)) => if w * h > MAX_QUERY_PIXELS {
                r is Err && r->Err_0 is InvalidRequest && r->Err_0->InvalidRequest_0@
                    == too_large_message(w, h)
            } else {
                r is Ok
            },
        },
{
    match header {
        Err(e) => {
            let mut msg = "Cannot read image header: ".to_owned();
            msg.append(e.as_str());
            Err(AppError::InvalidRequest(msg))
        },
        Ok((w, h)) => {
            assert(w * h <= 0xffff_ffff * 0xffff_ffff) by (nonlinear_arith)
                requires
                    w <= 0xffff_ffff,
                    h <= 0xffff_ffff,
            ;
            let pixels: u64 = (w as u64) * (h as u64);
            if pixels > MAX_QUERY_PIXELS {
                let mut msg = "Query image is too large (".to_owned();
                let ws = decimal_u64(w as u64);
                let hs = decimal_u64(h as u64);
                let mp = decimal_u64(pixels / 1_000_000);
                msg.append(ws.as_str());
                msg.append("\u{d7}");
                msg.append(hs.as_str());
                msg.append(" \u{2248} ");
                msg.append(mp.as_str());
                msg.append(" MP; limit 60 MP). Please downscale before uploading.");
                return Err(AppError::InvalidRequest(msg));
            }
            Ok(())
        },
    }
}

/// Whether an image is larger than a query has to be.
pub open spec fn is_oversized(width: u32, height: u32) -> bool {
    width > QUERY_LONG_EDGE_PX || height > QUERY_LONG_EDGE_PX
}

/// Whether an image is to be scaled down.
pub fn needs_downscale(width: u32, height: u32) -> (r: bool)
    ensures
        r == is_oversized(width, height),
{
    width > QUERY_LONG_EDGE_PX || height > QUERY_LONG_EDGE_PX
}

/// The query that some bytes hold, ready to be searched for: refused where it is
/// no image or has too many pixels, and scaled down where it is large.
pub fn prepare_query(data: &[u8]) -> (r: Result<PixelImage, AppError>)
    ensures
        match image_header(data@) {
            Err(e) => r is Err && r->Err_0 is InvalidRequest && r->Err_0->InvalidRequest_0@
                == "Cannot read image header: "@ + e,
            Ok((w, h)) => if w * h > MAX_QUERY_PIXELS {
                r is Err && r->Err_0 is InvalidRequest && r->Err_0->InvalidRequest_0@
                    == too_large_message(w, h)
            } else {
                match image_decoded(data@) {
                    Err(e) => r is Err && r->Err_0 is InvalidRequest && r->Err_0->InvalidRequest_0@
                        == "Image decode failed: "@ + e,
                    Ok((dw, dh, samples)) => {
                        let (qw, qh, qs) = if is_oversized(dw, dh) {
                            fitted(dw, dh, samples, QUERY_LONG_EDGE_PX)
                        } else {
                            (dw, dh, samples)
                        };
                        &&& r is Ok
                        &&& r->Ok_0.wf()
                        &&& (r->Ok_0.width, r->Ok_0.height, r->Ok_0.data@) == (
                            qw,
                            qh,
                            rgba_of(qw, qh, qs),
                        )
                        &&& is_oversized(dw, dh) ==> fits_edge((qw, qh), dw, dh, QUERY_LONG_EDGE_PX)
                    },
                }
            },
        },
        r is Ok ==> !is_oversized(r->Ok_0.width, r->Ok_0.height),
{
    match check_header(read_header(data)) {
        Err(e) => return Err(e),
        Ok(_) => {},
    }
    match decode_image(data) {
        Err(e) => {
            let mut msg = "Image decode failed: ".to_owned();
            msg.append(e.as_str());
            Err(AppError::InvalidRequest(msg))
        },
        Ok(img) => {
            let (w, h): (u32, u32) = image_size(&img);
            if needs_downscale(w, h) {
                Ok(to_pixels(&resize_to_fit(img, QUERY_LONG_EDGE_PX)))
            } else {
                Ok(to_pixels(&img))
            }
        },
    }
}

// ── Laws of the query ───────────────────────────────────────────────────────

/// An image is scaled down where one of its edges has more than 1600 pixels.
pub proof fn long_edges_are_scaled_down(width: u32, height: u32, r: bool)
    requires
        call_ensures(needs_downscale, (width, height), r),
    ensures
        r <==> width > 1600 || height > 1600,
{
}

/// An image of up to sixty million pixels by its header is taken, if it can be decoded.
/// One that is no larger than 1600 pixels either way keeps its size; the longer edge of
/// any other becomes 1600 pixels.
pub proof fn queries_fit_into_a_square(
    data: &[u8],
    w: u32,
    h: u32,
    r: Result<PixelImage, AppError>,
)
    requires
        call_ensures(prepare_query, (data,), r),
        image_header(data@) == Ok::<(u32, u32), Seq<char>>((w, h)),
    ensures
        r is Ok <==> w * h <= 60_000_000 && image_decoded(data@) is Ok,
        r is Err ==> r->Err_0 is InvalidRequest,
        r is Ok ==> {
            let (dw, dh, samples) = image_decoded(data@)->Ok_0;
            &&& r->Ok_0.width <= 1600 && r->Ok_0.height <= 1600
            &&& dw <= 1600 && dh <= 1600 ==> r->Ok_0.width == dw && r->Ok_0.height == dh
                && r->Ok_0.data@ == rgba_of(dw, dh, samples)
            &&& dw > 1600 && dw >= dh ==> r->Ok_0.width == 1600 && r->Ok_0.height >= 1
            &&& dh > 1600 && dh > dw ==> r->Ok_0.height == 1600 && r->Ok_0.width >= 1
        },
{
}

} // verus!
