//! The opaque resampling primitive: downscaling through the `image` crate's
//! Lanczos filter, behind a trusted wrapper, together with the byte-level
//! view of a pixel buffer that the wrapper works on.

use vstd::prelude::*;

use crate::pixel::Image;
use crate::pixel::Rgba;

verus! {

/// What the Lanczos resampler returns for a raw RGBA buffer of `w * h`
/// pixels resized to `nw * nh`: a function of its arguments alone, left
/// unspecified here.
pub uninterp spec fn lanczos_resized(bytes: Seq<u8>, w: int, h: int, nw: int, nh: int) -> Seq<u8>;

/// The 4-bytes-per-pixel flattening of a pixel buffer, channel order RGBA.
pub open spec fn bytes_of_pixels(data: Seq<Rgba>) -> Seq<u8> {
    Seq::new(
        4 * data.len(),
        |i: int|
            if i % 4 == 0 {
                data[i / 4].r
            } else if i % 4 == 1 {
                data[i / 4].g
            } else if i % 4 == 2 {
                data[i / 4].b
            } else {
                data[i / 4].a
            },
    )
}

/// The pixel buffer read back from a 4-bytes-per-pixel RGBA flattening.
pub open spec fn pixels_of_bytes(bytes: Seq<u8>) -> Seq<Rgba> {
    Seq::new(
        bytes.len() / 4,
        |i: int|
            Rgba {
                r: bytes[4 * i],
                g: bytes[4 * i + 1],
                b: bytes[4 * i + 2],
                a: bytes[4 * i + 3],
            },
    )
}

/// Relies on `image::imageops::resize` with `FilterType::Lanczos3`: the
/// result is a buffer of exactly `nw * nh` RGBA pixels and depends only on
/// the source buffer and the four dimensions.
#[verifier::external_body]
fn lanczos_resize_raw(raw: Vec<u8>, w: usize, h: usize, nw: usize, nh: usize) -> (r: Vec<u8>)
    requires
        raw@.len() == 4 * (w * h),
        1 <= w <= u32::MAX,
        1 <= h <= u32::MAX,
        1 <= nw <= u32::MAX,
        1 <= nh <= u32::MAX,
        4 * (nw * nh) <= usize::MAX,
    ensures
        r@ == lanczos_resized(raw@, w as int, h as int, nw as int, nh as int),
        r@.len() == 4 * (nw * nh),
{
    let buf = image::ImageBuffer::<image::Rgba<u8>, Vec<u8>>::from_raw(w as u32, h as u32, raw)
        .expect("buffer length matches the dimensions");
    let out = image::imageops::resize(&buf, nw as u32, nh as u32, image::imageops::FilterType::Lanczos3);
    out.into_raw()
}

/// Flatten a pixel buffer into raw RGBA bytes.
fn flatten_pixels(data: &Vec<Rgba>) -> (raw: Vec<u8>)
    requires
        4 * data@.len() <= usize::MAX,
    ensures
        raw@ == bytes_of_pixels(data@),
{
    let mut raw: Vec<u8> = Vec::new();
    let mut k: usize = 0;
    while k < data.len()
        invariant
            k <= data@.len(),
            4 * data@.len() <= usize::MAX,
            raw@.len() == 4 * k,
            forall|i: int|
                0 <= i < k ==> raw@[4 * i] == data@[i].r && raw@[4 * i + 1] == data@[i].g
                    && raw@[4 * i + 2] == data@[i].b && raw@[4 * i + 3] == (#[trigger] data@[i]).a,
        decreases data@.len() - k,
    {
        let p = data[k];
        raw.push(p.r);
        raw.push(p.g);
        raw.push(p.b);
        raw.push(p.a);
        k = k + 1;
    }
    proof {
        assert forall|i: int| 0 <= i < raw@.len() implies raw@[i] == bytes_of_pixels(data@)[i] by {
            vstd::arithmetic::div_mod::lemma_fundamental_div_mod(i, 4);
            assert(0 <= i / 4 < data@.len());
        }
        assert(raw@ =~= bytes_of_pixels(data@));
    }
    raw
}

/// Read a pixel buffer back from raw RGBA bytes.
fn unflatten_pixels(raw: &Vec<u8>, n: usize) -> (data: Vec<Rgba>)
    requires
        raw@.len() == 4 * n,
        4 * n <= usize::MAX,
    ensures
        data@ == pixels_of_bytes(raw@),
        data@.len() == n,
{
    let mut data: Vec<Rgba> = Vec::new();
    let mut k: usize = 0;
    while k < n
        invariant
            k <= n,
            raw@.len() == 4 * n,
            4 * n <= usize::MAX,
            data@.len() == k,
            forall|i: int|
                0 <= i < k ==> #[trigger] data@[i] == (Rgba {
                    r: raw@[4 * i],
                    g: raw@[4 * i + 1],
                    b: raw@[4 * i + 2],
                    a: raw@[4 * i + 3],
                }),
        decreases n - k,
    {
        let p = Rgba {
            r: raw[4 * k],
            g: raw[4 * k + 1],
            b: raw[4 * k + 2],
            a: raw[4 * k + 3],
        };
        data.push(p);
        k = k + 1;
    }
    proof {
        assert(data@ =~= pixels_of_bytes(raw@));
    }
    data
}

/// Resize an image to `nw * nh` pixels with the Lanczos resampler.
pub fn resize_image(img: &Image, nw: usize, nh: usize) -> (r: Image)
    requires
        img.wf(),
        1 <= img.width <= u32::MAX,
        1 <= img.height <= u32::MAX,
        1 <= nw <= u32::MAX,
        1 <= nh <= u32::MAX,
        4 * (img.width * img.height) <= usize::MAX,
        4 * (nw * nh) <= usize::MAX,
    ensures
        r.wf(),
        r.width == nw,
        r.height == nh,
        r.data@ == pixels_of_bytes(
            lanczos_resized(
                bytes_of_pixels(img.data@),
                img.width as int,
                img.height as int,
                nw as int,
                nh as int,
            ),
        ),
{
    let raw = flatten_pixels(&img.data);
    let out_raw = lanczos_resize_raw(raw, img.width, img.height, nw, nh);
    let data = unflatten_pixels(&out_raw, nw * nh);
    Image { width: nw, height: nh, data }
}

} // verus!
