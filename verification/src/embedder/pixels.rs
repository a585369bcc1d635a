//! Images as plain pixels, four bytes each: red, green, blue and alpha.

use image::GenericImageView;
use vstd::prelude::*;
use vstd::slice::slice_subrange;

verus! {

/// An image, row by row from the top.
#[derive(Clone, Debug)]
pub struct PixelImage {
    pub width: u32,
    pub height: u32,
    /// Red, green, blue and alpha of each pixel.
    pub data: Vec<u8>,
}

impl PixelImage {
    /// The data holds four bytes for each pixel.
    pub open spec fn wf(self) -> bool {
        self.data@.len() == self.height * self.stride()
    }

    /// The number of bytes in a row.
    pub open spec fn stride(self) -> int {
        self.width * 4
    }

    /// The bytes of row `y`.
    pub open spec fn row(self, y: int) -> Seq<u8> {
        self.data@.subrange(y * self.stride(), y * self.stride() + self.stride())
    }
}

/// The smaller of two numbers.
pub open spec fn least(a: int, b: int) -> int {
    if a <= b {
        a
    } else {
        b
    }
}

/// Whether `out` is the part of `img` from `(x, y)` on, `w` pixels wide and `h`
/// high, as far as that lies within the image.
pub open spec fn is_crop(out: PixelImage, img: PixelImage, x: int, y: int, w: int, h: int) -> bool {
    let cx = least(x, img.width as int);
    let cy = least(y, img.height as int);
    &&& out.wf()
    &&& out.width == least(w, img.width - cx)
    &&& out.height == least(h, img.height - cy)
    &&& forall|j: int|
        0 <= j < out.height ==> #[trigger] out.row(j) == img.row(cy + j).subrange(
            cx * 4,
            cx * 4 + out.width * 4,
        )
}

fn min_u32(a: u32, b: u32) -> (r: u32)
    ensures
        r == least(a as int, b as int),
{
    if a <= b {
        a
    } else {
        b
    }
}

proof fn lemma_row_bound(y: int, h: int, stride: int)
    requires
        0 <= y < h,
        0 <= stride,
    ensures
        0 <= y * stride,
        y * stride + stride <= h * stride,
        (y + 1) * stride == y * stride + stride,
{
    assert(0 <= y * stride) by (nonlinear_arith)
        requires
            0 <= y,
            0 <= stride,
    ;
    assert(y * stride + stride == (y + 1) * stride) by (nonlinear_arith);
    assert((y + 1) * stride <= h * stride) by (nonlinear_arith)
        requires
            y + 1 <= h,
            0 <= stride,
    ;
}

/// The part of an image from `(x, y)` on, `w` pixels wide and `h` high, as far as
/// that lies within the image.
pub fn crop(img: &PixelImage, x: u32, y: u32, w: u32, h: u32) -> (r: PixelImage)
    requires
        img.wf(),
    ensures
        is_crop(r, *img, x as int, y as int, w as int, h as int),
{
    let cx: u32 = min_u32(x, img.width);
    let cy: u32 = min_u32(y, img.height);
    let cw: u32 = min_u32(w, img.width - cx);
    let ch: u32 = min_u32(h, img.height - cy);
    let ghost s = img.stride();
    let ghost t = cw * 4;
    let mut out: Vec<u8> = Vec::new();
    let mut j: u32 = 0;
    assert(0 == 0 * t) by (nonlinear_arith);
    while j < ch
        invariant
            j <= ch,
            img.wf(),
            cx <= img.width,
            cy <= img.height,
            cw <= img.width - cx,
            ch <= img.height - cy,
            s == img.stride(),
            t == cw * 4,
            out@.len() == j * t,
            forall|k: int|
                0 <= k < j ==> #[trigger] out@.subrange(k * t, k * t + t) == img.row(
                    cy + k,
                ).subrange(cx * 4, cx * 4 + t),
        decreases ch - j,
    {
        proof {
            lemma_row_bound(cy + j, img.height as int, s);
            lemma_row_bound(j as int, ch as int, t);
            assert(img.data.len() == img.data@.len());
            assert(img.width as int <= s);
        }
        let start: usize = row_start(img, cy + j);
        let from: usize = start + (cx as usize) * 4;
        let part = slice_subrange(img.data.as_slice(), from, from + (cw as usize) * 4);
        let ghost before = out@;
        out.extend_from_slice(part);
        proof {
            assert(out@ =~= before + part@);
            assert(part@ =~= img.row(cy + j).subrange(cx * 4, cx * 4 + t));
            assert forall|k: int| 0 <= k < j + 1 implies #[trigger] out@.subrange(k * t, k * t + t)
                == img.row(cy + k).subrange(cx * 4, cx * 4 + t) by {
                if k < j {
                    lemma_row_bound(k, j as int, t);
                    assert(out@.subrange(k * t, k * t + t) =~= before.subrange(k * t, k * t + t));
                } else {
                    assert(out@.subrange(k * t, k * t + t) =~= part@);
                }
            }
        }
        j = j + 1;
    }
    let r = PixelImage { width: cw, height: ch, data: out };
    assert(r.stride() == t);
    assert(r.wf());
    assert forall|k: int| 0 <= k < r.height implies #[trigger] r.row(k) == img.row(
        cy + k,
    ).subrange(cx * 4, cx * 4 + r.width * 4) by {
        assert(out@.subrange(k * t, k * t + t) == img.row(cy + k).subrange(cx * 4, cx * 4 + t));
    }
    r
}

fn row_start(img: &PixelImage, y: u32) -> (r: usize)
    requires
        img.wf(),
        y < img.height,
    ensures
        r == y * img.stride(),
{
    proof {
        lemma_row_bound(y as int, img.height as int, img.stride());
        assert(img.data.len() == img.data@.len());
        assert(y * img.width <= y * (img.width * 4)) by (nonlinear_arith)
            requires
                0 <= y,
                0 <= img.width,
        ;
        assert((y * img.width) * 4 == y * (img.width * 4)) by (nonlinear_arith);
    }
    (y as usize) * (img.width as usize) * 4
}

/// Two crops of one image by one rectangle are the same image.
pub proof fn crop_is_unique(
    a: PixelImage,
    b: PixelImage,
    img: PixelImage,
    x: int,
    y: int,
    w: int,
    h: int,
)
    requires
        is_crop(a, img, x, y, w, h),
        is_crop(b, img, x, y, w, h),
    ensures
        a.width == b.width,
        a.height == b.height,
        a.data@ == b.data@,
{
    let t = a.stride();
    assert forall|i: int| 0 <= i < a.data@.len() implies a.data@[i] == b.data@[i] by {
        assert(t > 0) by (nonlinear_arith)
            requires
                0 <= i < a.height * t,
                a.height >= 0,
                t >= 0,
        ;
        let j = i / t;
        let k = i % t;
        assert(i == j * t + k && 0 <= k < t && 0 <= j < a.height) by (nonlinear_arith)
            requires
                j == i / t,
                k == i % t,
                t > 0,
                0 <= i < a.height * t,
        ;
        lemma_row_bound(j, a.height as int, t);
        assert(a.row(j) == b.row(j));
        assert(a.row(j)[k] == a.data@[i]);
        assert(b.row(j)[k] == b.data@[i]);
    }
    assert(a.data@ =~= b.data@);
}

/// Component `c` (red, green, blue or alpha) of the pixel in column `x` of row `y`.
pub open spec fn pixel(img: PixelImage, x: int, y: int, c: int) -> u8 {
    img.data@[(y * img.width + x) * 4 + c]
}

/// Whether every pixel of `out` is the pixel of `img` that stands `x` columns further
/// right and `y` rows further down.
pub open spec fn shows_from(out: PixelImage, img: PixelImage, x: int, y: int) -> bool {
    &&& 0 <= x && x + out.width <= img.width
    &&& 0 <= y && y + out.height <= img.height
    &&& out.data@.len() == out.height * (out.width * 4)
    &&& forall|i: int, j: int, c: int|
        0 <= i < out.width && 0 <= j < out.height && 0 <= c < 4 ==> #[trigger] pixel(out, i, j, c)
            == pixel(img, x + i, y + j, c)
}

/// A crop that is asked for within an image has the size asked for, and each of its
/// pixels is the pixel of the image at its place.
pub proof fn crop_shows_its_place(img: &PixelImage, x: u32, y: u32, w: u32, h: u32, r: PixelImage)
    requires
        img.data@.len() == img.height * (img.width * 4),
        call_ensures(crop, (img, x, y, w, h), r),
        x + w <= img.width,
        y + h <= img.height,
    ensures
        r.width == w,
        r.height == h,
        shows_from(r, *img, x as int, y as int),
{
    lemma_crop_shows(r, *img, x as int, y as int, w as int, h as int);
}

/// A crop that would reach over the border ends at the border.
pub proof fn crop_ends_at_the_border(img: &PixelImage, x: u32, y: u32, w: u32, h: u32, r: PixelImage)
    requires
        call_ensures(crop, (img, x, y, w, h), r),
        x <= img.width,
        y <= img.height,
    ensures
        x + w > img.width ==> x + r.width == img.width,
        y + h > img.height ==> y + r.height == img.height,
        x + w <= img.width ==> r.width == w,
        y + h <= img.height ==> r.height == h,
{
}

/// The pixels of a crop within an image.
pub proof fn lemma_crop_shows(out: PixelImage, img: PixelImage, x: int, y: int, w: int, h: int)
    requires
        img.wf(),
        is_crop(out, img, x, y, w, h),
        0 <= x,
        0 <= y,
        0 <= w,
        0 <= h,
        x + w <= img.width,
        y + h <= img.height,
    ensures
        out.width == w,
        out.height == h,
        shows_from(out, img, x, y),
{
    assert forall|i: int, j: int, c: int|
        0 <= i < out.width && 0 <= j < out.height && 0 <= c < 4 implies #[trigger] pixel(out, i, j, c)
        == pixel(img, x + i, y + j, c) by {
        let k = 4 * i + c;
        let s = img.stride();
        let t = out.stride();
        lemma_row_bound(j, out.height as int, t);
        lemma_row_bound(y + j, img.height as int, s);
        assert(out.row(j) == img.row(y + j).subrange(x * 4, x * 4 + out.width * 4));
        assert(out.row(j)[k] == out.data@[j * t + k]);
        assert(img.row(y + j).subrange(x * 4, x * 4 + out.width * 4)[k] == img.data@[(y + j) * s
            + x * 4 + k]);
        assert((j * out.width + i) * 4 + c == j * t + k) by (nonlinear_arith)
            requires
                t == out.width * 4,
                k == 4 * i + c,
        ;
        let yy = y + j;
        let ww = img.width as int;
        assert((yy * ww + (x + i)) * 4 + c == yy * s + x * 4 + k) by (nonlinear_arith)
            requires
                s == ww * 4,
                k == 4 * i + c,
        ;
    }
}

// ── Images of the `image` crate ─────────────────────────────────────────────

/// An image of the `image` crate, in whichever colour type it was stored.
#[verifier::external_type_specification]
#[verifier::external_body]
pub struct StoredImage(image::DynamicImage);

/// What an image of the `image` crate holds: its width, its height, and its colour
/// type and samples as numbers.
pub uninterp spec fn held(img: image::DynamicImage) -> (u32, u32, Seq<u32>);

/// The red, green, blue and alpha, in eight bits each, of the pixels of an image that
/// holds the given samples.
pub uninterp spec fn rgba_of(width: u32, height: u32, samples: Seq<u32>) -> Seq<u8>;

/// `image::GenericImageView::dimensions` of an image: its width and height.
#[verifier::external_body]
pub(crate) fn image_size(img: &image::DynamicImage) -> (r: (u32, u32))
    ensures
        r == (held(*img).0, held(*img).1),
{
    img.dimensions()
}

/// `image::DynamicImage::to_rgba8`: the size stays, each pixel has four bytes, and they
/// depend on what the image holds alone.
#[verifier::external_body]
pub(crate) fn to_pixels(img: &image::DynamicImage) -> (r: PixelImage)
    ensures
        r.wf(),
        r.width == held(*img).0,
        r.height == held(*img).1,
        r.data@ == rgba_of(held(*img).0, held(*img).1, held(*img).2),
{
    let out = img.to_rgba8();
    PixelImage { width: out.width(), height: out.height(), data: out.into_raw() }
}

} // verus!
