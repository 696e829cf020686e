//! What the `image` and `imageproc` crates compute, on plain pixel grids.
use crate::raster::{GrayImage, Raster, RgbImage, Rgba16Image, RgbaImage};
use vstd::prelude::*;

verus! {

/// Whether `image` can resample a `w` by `h` image to `nw` by `nh` pixels of `channels` bytes: its
/// single-precision arithmetic tells the new pixels apart, and its buffers, the one between its
/// two passes among them (four channels of four bytes, `w` by `nh`), can be allocated.
pub open spec fn resizable(w: int, h: int, nw: int, nh: int, channels: int) -> bool {
    &&& nw <= 0x80_0000
    &&& nh <= 0x80_0000
    &&& w * nh * 16 <= isize::MAX
    &&& nw * nh * channels <= isize::MAX
    &&& w * h * channels <= isize::MAX
}

/// The pixels of a `w` by `h` gray image resampled to `nw` by `nh` by its nearest pixels.
pub uninterp spec fn nearest_resized(pixels: Seq<u8>, w: int, h: int, nw: int, nh: int) -> Seq<u8>;

/// `image::imageops::resize` with `FilterType::Nearest` on a gray image: a `nw` by `nh` image,
/// whose pixels depend on the pixels and the two sizes alone. Which pixel is the nearest one
/// follows from the crate's floating point and is left unsaid.
#[verifier::external_body]
pub(crate) fn resize_nearest(img: &GrayImage, nw: u32, nh: u32) -> (out: GrayImage)
    requires
        img.wf(),
        resizable(img.width as int, img.height as int, nw as int, nh as int, 1),
    ensures
        out.wf(),
        out.width == nw,
        out.height == nh,
        out.pixels@ == nearest_resized(
            img.pixels@,
            img.width as int,
            img.height as int,
            nw as int,
            nh as int,
        ),
{
    let buf = image::GrayImage::from_raw(img.width, img.height, img.pixels.clone()).unwrap();
    let out = image::imageops::resize(&buf, nw, nh, image::imageops::FilterType::Nearest);
    Raster { width: out.width(), height: out.height(), pixels: out.into_raw() }
}

/// The pixels of a `w` by `h` color image resampled to `nw` by `nh` by linear weights.
pub uninterp spec fn triangle_resized(
    pixels: Seq<[u8; 3]>,
    w: int,
    h: int,
    nw: int,
    nh: int,
) -> Seq<[u8; 3]>;

/// `image::imageops::resize` with `FilterType::Triangle` on a color image: a `nw` by `nh` image,
/// whose pixels depend on the pixels and the two sizes alone. The weights are the crate's
/// floating point and are left unsaid.
#[verifier::external_body]
pub(crate) fn resize_triangle(img: &RgbImage, nw: u32, nh: u32) -> (out: RgbImage)
    requires
        img.wf(),
        resizable(img.width as int, img.height as int, nw as int, nh as int, 3),
    ensures
        out.wf(),
        out.width == nw,
        out.height == nh,
        out.pixels@ == triangle_resized(
            img.pixels@,
            img.width as int,
            img.height as int,
            nw as int,
            nh as int,
        ),
{
    let buf = image::RgbImage::from_raw(img.width, img.height, img.pixels.concat()).unwrap();
    let out = image::imageops::resize(&buf, nw, nh, image::imageops::FilterType::Triangle);
    let pixels = out.pixels().map(|p| p.0).collect();
    Raster { width: out.width(), height: out.height(), pixels }
}

/// The borders that `imageproc` traces in a `w` by `h` bitmap, each as its points in order.
pub uninterp spec fn traced_contours(pixels: Seq<u8>, w: int, h: int) -> Seq<Seq<(i32, i32)>>;

/// `imageproc::contours::find_contours` with `i32` coordinates: the points of each border, in the
/// order in which the crate traces them, a function of the bitmap alone. All points of a border
/// lie within the foreground, the pixels that are not zero. Which borders come in which order is
/// left unsaid.
#[verifier::external_body]
pub(crate) fn find_contours(bitmap: &GrayImage) -> (contours: Vec<Vec<(i32, i32)>>)
    requires
        bitmap.wf(),
        bitmap.width * bitmap.height < i32::MAX,
        bitmap.width * bitmap.height * 4 <= isize::MAX,
        bitmap.width <= i32::MAX,
        bitmap.height <= i32::MAX,
    ensures
        contours@.map_values(|c: Vec<(i32, i32)>| c@) == traced_contours(
            bitmap.pixels@,
            bitmap.width as int,
            bitmap.height as int,
        ),
        forall|k: int, i: int|
            0 <= k < contours@.len() && 0 <= i < contours@[k]@.len() ==> {
                let p = #[trigger] contours@[k]@[i];
                bitmap.has(p.0 as int, p.1 as int) && bitmap.at(p.0 as int, p.1 as int) != 0
            },
{
    let buf = image::GrayImage::from_raw(bitmap.width, bitmap.height, bitmap.pixels.clone());
    imageproc::contours::find_contours::<i32>(&buf.unwrap())
        .into_iter()
        .map(|c| c.points.into_iter().map(|p| (p.x, p.y)).collect())
        .collect()
}

/// Whether column `i` of row `j` lies under a `w` by `h` image put at column `x` of row `y`.
pub open spec fn covered(x: int, y: int, w: int, h: int, i: int, j: int) -> bool {
    x <= i < x + w && y <= j < y + h
}

/// What `image` makes of an 8-bit pixel `top` laid over `bottom` where `top` is neither fully
/// transparent nor fully opaque.
pub uninterp spec fn blended8(bottom: [u8; 4], top: [u8; 4]) -> [u8; 4];

/// `image::imageops::overlay` on 8-bit images, with `top` inside `bottom`: a pixel under a fully
/// opaque pixel of `top` becomes that pixel, one under a fully transparent pixel stays, one under
/// any other becomes the crate's blend of the two, and pixels beside `top` stay. The blend is the
/// crate's floating point, left unsaid but for its depending on the two pixels alone.
#[verifier::external_body]
pub(crate) fn overlay(bottom: &mut RgbaImage, top: &RgbaImage, x: u32, y: u32)
    requires
        old(bottom).wf(),
        top.wf(),
        x + top.width <= old(bottom).width,
        y + top.height <= old(bottom).height,
    ensures
        final(bottom).wf(),
        final(bottom).width == old(bottom).width,
        final(bottom).height == old(bottom).height,
        forall|i: int, j: int|
            old(bottom).has(i, j) ==> #[trigger] final(bottom).at(i, j) == if covered(
                x as int,
                y as int,
                top.width as int,
                top.height as int,
                i,
                j,
            ) {
                let above = top.at(i - x, j - y);
                if above@[3] == 0 {
                    old(bottom).at(i, j)
                } else if above@[3] == 255 {
                    above
                } else {
                    blended8(old(bottom).at(i, j), above)
                }
            } else {
                old(bottom).at(i, j)
            },
{
    let (w, h) = (bottom.width, bottom.height);
    let mut under = image::RgbaImage::from_raw(w, h, bottom.pixels.concat()).unwrap();
    let over = image::RgbaImage::from_raw(top.width, top.height, top.pixels.concat()).unwrap();
    image::imageops::overlay(&mut under, &over, i64::from(x), i64::from(y));
    bottom.pixels = under.pixels().map(|p| p.0).collect();
}

/// What `image` makes of a 16-bit pixel `top` laid over `bottom` where `top` is neither fully
/// transparent nor fully opaque.
pub uninterp spec fn blended16(bottom: [u16; 4], top: [u16; 4]) -> [u16; 4];

/// `image::imageops::overlay` on 16-bit images, with `top` inside `bottom`; it claims what
/// [`overlay`] claims, full opacity being 65535.
#[verifier::external_body]
pub(crate) fn overlay16(bottom: &mut Rgba16Image, top: &Rgba16Image, x: u32, y: u32)
    requires
        old(bottom).wf(),
        top.wf(),
        x + top.width <= old(bottom).width,
        y + top.height <= old(bottom).height,
    ensures
        final(bottom).wf(),
        final(bottom).width == old(bottom).width,
        final(bottom).height == old(bottom).height,
        forall|i: int, j: int|
            old(bottom).has(i, j) ==> #[trigger] final(bottom).at(i, j) == if covered(
                x as int,
                y as int,
                top.width as int,
                top.height as int,
                i,
                j,
            ) {
                let above = top.at(i - x, j - y);
                if above@[3] == 0 {
                    old(bottom).at(i, j)
                } else if above@[3] == 0xffff {
                    above
                } else {
                    blended16(old(bottom).at(i, j), above)
                }
            } else {
                old(bottom).at(i, j)
            },
{
    let (w, h) = (bottom.width, bottom.height);
    let mut under =
        image::ImageBuffer::<image::Rgba<u16>, _>::from_raw(w, h, bottom.pixels.concat()).unwrap();
    let over =
        image::ImageBuffer::<image::Rgba<u16>, _>::from_raw(top.width, top.height, top.pixels.concat())
            .unwrap();
    image::imageops::overlay(&mut under, &over, i64::from(x), i64::from(y));
    bottom.pixels = under.pixels().map(|p| p.0).collect();
}

} // verus!
