//! What the networks are shown: images on white, resized and laid out channel by channel.
use crate::grid::lemma_index;
use crate::imaging::{find_contours, resizable, resize_triangle, traced_contours, triangle_resized};
use crate::raster::{crop, is_crop, GrayImage, Raster, RgbImage, RgbaImage};
use vstd::prelude::*;

verus! {

/// A channel of value `c` and opacity `a` over white, rounded to the nearest integer.
pub open spec fn over_white(c: int, a: int) -> int {
    (c * a + 255 * (255 - a) + 127) / 255
}

/// A channel of value `c` and opacity `a` over white.
pub fn blend_white(c: u8, a: u8) -> (r: u8)
    ensures
        r == over_white(c as int, a as int),
{
    proof {
        assert(0 <= c * a <= 255 * a) by (nonlinear_arith)
            requires
                0 <= c <= 255,
                0 <= a,
        ;
    }
    let sum: u32 = c as u32 * a as u32 + 255 * (255 - a as u32) + 127;
    (sum / 255) as u8
}

/// Whether `out` shows `img` on a white background.
pub open spec fn is_on_white(img: RgbaImage, out: RgbImage) -> bool {
    &&& out.wf()
    &&& out.width == img.width
    &&& out.height == img.height
    &&& forall|p: int, c: int|
        0 <= p < img.pixels@.len() && 0 <= c < 3 ==> #[trigger] out.pixels@[p]@[c] == over_white(
            img.pixels@[p]@[c] as int,
            img.pixels@[p]@[3] as int,
        )
}

/// Flatten a transparent cutout onto a white background, so that the networks see the kind of
/// input they were trained on.
pub fn composite_over_white(cutout: &RgbaImage) -> (out: RgbImage)
    requires
        cutout.wf(),
    ensures
        is_on_white(*cutout, out),
{
    let mut pixels: Vec<[u8; 3]> = Vec::new();
    let mut i: usize = 0;
    while i < cutout.pixels.len()
        invariant
            i <= cutout.pixels@.len(),
            pixels@.len() == i,
            forall|p: int, c: int|
                0 <= p < i && 0 <= c < 3 ==> #[trigger] pixels@[p]@[c] == over_white(
                    cutout.pixels@[p]@[c] as int,
                    cutout.pixels@[p]@[3] as int,
                ),
        decreases cutout.pixels@.len() - i,
    {
        let px = cutout.pixels[i];
        let a: u8 = px[3];
        pixels.push([blend_white(px[0], a), blend_white(px[1], a), blend_white(px[2], a)]);
        i = i + 1;
    }
    Raster { width: cutout.width, height: cutout.height, pixels }
}

/// The channel that stands in plane `c`: red, green and blue in this order, or the other way
/// round.
pub open spec fn channel_in(c: int, bgr: bool) -> int {
    if bgr {
        2 - c
    } else {
        c
    }
}

/// Whether `data` holds three planes, each the values of one channel row by row.
pub open spec fn is_planar(data: Seq<u8>, pixels: Seq<[u8; 3]>, bgr: bool) -> bool {
    &&& data.len() == 3 * pixels.len()
    &&& forall|c: int, p: int|
        0 <= c < 3 && 0 <= p < pixels.len() ==> data[c * pixels.len() + p] == #[trigger] pixels[p]@[channel_in(
            c,
            bgr,
        )]
}

/// The channels of an image one after another, blue first or red first.
pub fn planes(img: &RgbImage, bgr: bool) -> (data: Vec<u8>)
    ensures
        is_planar(data@, img.pixels@, bgr),
{
    let n: usize = img.pixels.len();
    let mut data: Vec<u8> = Vec::new();
    let mut c: usize = 0;
    while c < 3
        invariant
            c <= 3,
            n == img.pixels@.len(),
            data@.len() == c * n,
            forall|k: int, p: int|
                0 <= k < c && 0 <= p < n ==> data@[k * n + p] == #[trigger] img.pixels@[p]@[channel_in(
                    k,
                    bgr,
                )],
        decreases 3 - c,
    {
        let mut i: usize = 0;
        while i < n
            invariant
                c < 3,
                i <= n == img.pixels@.len(),
                data@.len() == c * n + i,
                forall|k: int, p: int|
                    0 <= k < c && 0 <= p < n ==> data@[k * n + p] == #[trigger] img.pixels@[p]@[channel_in(
                        k,
                        bgr,
                    )],
                forall|p: int|
                    0 <= p < i ==> data@[c * n + p] == #[trigger] img.pixels@[p]@[channel_in(
                        c as int,
                        bgr,
                    )],
            decreases n - i,
        {
            let ghost before = data@;
            data.push(img.pixels[i][if bgr { 2 - c } else { c }]);
            proof {
                assert forall|k: int, p: int| 0 <= k < c && 0 <= p < n implies data@[k * n + p]
                    == #[trigger] img.pixels@[p]@[channel_in(k, bgr)] by {
                    assert(k * n + p < c * n) by (nonlinear_arith)
                        requires
                            0 <= k < c,
                            0 <= p < n,
                    ;
                    assert(0 <= k * n) by (nonlinear_arith)
                        requires
                            0 <= k,
                            0 <= n,
                    ;
                    assert(before[k * n + p] == img.pixels@[p]@[channel_in(k, bgr)]);
                }
                assert forall|p: int| 0 <= p < i + 1 implies data@[c * n + p]
                    == #[trigger] img.pixels@[p]@[channel_in(c as int, bgr)] by {
                    assert(0 <= c * n) by (nonlinear_arith)
                        requires
                            0 <= c,
                            0 <= n,
                    ;
                    if p < i {
                        assert(before[c * n + p] == img.pixels@[p]@[channel_in(c as int, bgr)]);
                    }
                }
            }
            i = i + 1;
        }
        proof {
            assert((c + 1) * n == c * n + n) by (nonlinear_arith);
        }
        c = c + 1;
    }
    data
}

/// The bytes of the text detector's input: the cutout on white, resized to `rw` by `rh`, blue
/// plane first.
pub fn detector_input(cutout: &RgbaImage, rw: u32, rh: u32) -> (data: Vec<u8>)
    requires
        cutout.wf(),
        resizable(cutout.width as int, cutout.height as int, rw as int, rh as int, 3),
    ensures
        exists|white: RgbImage| #[trigger]
            is_on_white(*cutout, white) && is_planar(
                data@,
                triangle_resized(
                    white.pixels@,
                    white.width as int,
                    white.height as int,
                    rw as int,
                    rh as int,
                ),
                true,
            ),
{
    let white = composite_over_white(cutout);
    let resized = resize_triangle(&white, rw, rh);
    assert(is_on_white(*cutout, white));
    planes(&resized, true)
}

/// The size of the textline orientation classifier's input.
pub const ORIENT_W: u32 = 160;

/// The size of the textline orientation classifier's input.
pub const ORIENT_H: u32 = 80;

/// The bytes of the textline orientation classifier's input: the line resized to the size that
/// the classifier takes, red plane first.
pub fn orient_input(line: &RgbImage) -> (data: Vec<u8>)
    requires
        line.wf(),
        resizable(line.width as int, line.height as int, ORIENT_W as int, ORIENT_H as int, 3),
    ensures
        is_planar(
            data@,
            triangle_resized(
                line.pixels@,
                line.width as int,
                line.height as int,
                ORIENT_W as int,
                ORIENT_H as int,
            ),
            false,
        ),
{
    let resized = resize_triangle(line, ORIENT_W, ORIENT_H);
    planes(&resized, false)
}

/// Whether `out` is the square of side `side` in the middle of `img`, a spare row or column
/// being left over at the bottom or right.
pub open spec fn is_center(img: RgbImage, side: int, out: RgbImage) -> bool {
    is_crop(img, (img.width - side) / 2, (img.height - side) / 2, side, side, out)
}

/// The square of side `side` in the middle of `img`.
pub fn center_crop(img: &RgbImage, side: u32) -> (out: RgbImage)
    requires
        img.wf(),
        side <= img.width,
        side <= img.height,
    ensures
        is_center(*img, side as int, out),
{
    crop(img, (img.width - side) / 2, (img.height - side) / 2, side, side)
}

/// Resize to `rw` by `rh`, then center-crop a `side` by `side` square.
pub fn resize_center_crop(img: &RgbImage, rw: u32, rh: u32, side: u32) -> (out: RgbImage)
    requires
        img.wf(),
        resizable(img.width as int, img.height as int, rw as int, rh as int, 3),
        side <= rw,
        side <= rh,
    ensures
        exists|resized: RgbImage|
            {
                &&& resized.width == rw && resized.height == rh
                &&& resized.pixels@ == triangle_resized(
                    img.pixels@,
                    img.width as int,
                    img.height as int,
                    rw as int,
                    rh as int,
                )
                &&& #[trigger] is_center(resized, side as int, out)
            },
{
    let resized = resize_triangle(img, rw, rh);
    center_crop(&resized, side)
}

/// The side of the document orientation classifier's square input.
pub const DOC_ORI_CROP: u32 = 224;

/// The longest side at which an object is turned before it is classified: orientation is coarse,
/// so that full resolution is wasted work.
pub const DOC_ORI_PRESCALE: u32 = 768;

/// Whether an image is larger than is needed to tell its orientation.
pub open spec fn oversized(img: RgbaImage) -> bool {
    img.width > DOC_ORI_PRESCALE || img.height > DOC_ORI_PRESCALE
}

/// The cutout on white, resized to `nw` by `nh` if it is larger than is needed.
pub fn doc_view(cutout: &RgbaImage, nw: u32, nh: u32) -> (view: RgbImage)
    requires
        cutout.wf(),
        resizable(cutout.width as int, cutout.height as int, nw as int, nh as int, 3),
    ensures
        view.wf(),
        !oversized(*cutout) ==> is_on_white(*cutout, view),
        oversized(*cutout) ==> view.width == nw && view.height == nh && exists|white: RgbImage|
            #[trigger] is_on_white(*cutout, white) && view.pixels@ == triangle_resized(
                white.pixels@,
                white.width as int,
                white.height as int,
                nw as int,
                nh as int,
            ),
{
    let white = composite_over_white(cutout);
    if cutout.width > DOC_ORI_PRESCALE || cutout.height > DOC_ORI_PRESCALE {
        let view = resize_triangle(&white, nw, nh);
        assert(is_on_white(*cutout, white));
        view
    } else {
        white
    }
}

/// The bytes of the document orientation classifier's input: the image resized to `rw` by `rh`,
/// the square in its middle, red plane first.
pub fn doc_orient_input(img: &RgbImage, rw: u32, rh: u32) -> (data: Vec<u8>)
    requires
        img.wf(),
        resizable(img.width as int, img.height as int, rw as int, rh as int, 3),
        DOC_ORI_CROP <= rw,
        DOC_ORI_CROP <= rh,
    ensures
        exists|resized: RgbImage, square: RgbImage|
            {
                &&& resized.width == rw && resized.height == rh
                &&& resized.pixels@ == triangle_resized(
                    img.pixels@,
                    img.width as int,
                    img.height as int,
                    rw as int,
                    rh as int,
                )
                &&& #[trigger] is_center(resized, DOC_ORI_CROP as int, square)
                &&& is_planar(data@, square.pixels@, false)
            },
{
    let square = resize_center_crop(img, rw, rh, DOC_ORI_CROP);
    let data = planes(&square, false);
    data
}

/// The contours of at least three points, in their order.
pub open spec fn outlines(contours: Seq<Seq<(i32, i32)>>) -> Seq<Seq<(i32, i32)>> {
    contours.filter(|c: Seq<(i32, i32)>| c.len() >= 3)
}

/// What a list of point lists holds.
pub open spec fn point_lists(contours: Seq<Vec<(i32, i32)>>) -> Seq<Seq<(i32, i32)>> {
    contours.map_values(|c: Vec<(i32, i32)>| c@)
}

/// The contours that can enclose an area: those of at least three points.
pub fn keep_outlines(contours: Vec<Vec<(i32, i32)>>) -> (kept: Vec<Vec<(i32, i32)>>)
    ensures
        point_lists(kept@) == outlines(point_lists(contours@)),
        forall|k: int|
            0 <= k < kept@.len() ==> exists|j: int|
                0 <= j < contours@.len() && #[trigger] contours@[j]@ == (#[trigger] kept@[k])@,
{
    let mut kept: Vec<Vec<(i32, i32)>> = Vec::new();
    let mut i: usize = 0;
    proof {
        reveal(Seq::filter);
    }
    assert(point_lists(kept@) =~= outlines(point_lists(contours@.subrange(0, 0))));
    while i < contours.len()
        invariant
            i <= contours@.len(),
            point_lists(kept@) == outlines(point_lists(contours@.subrange(0, i as int))),
            forall|k: int|
                0 <= k < kept@.len() ==> exists|j: int|
                    0 <= j < contours@.len() && #[trigger] contours@[j]@ == (#[trigger] kept@[k])@,
        decreases contours@.len() - i,
    {
        let ghost before = point_lists(contours@.subrange(0, i as int));
        let ghost now = point_lists(contours@.subrange(0, i + 1));
        proof {
            reveal(Seq::filter);
            assert(now.drop_last() =~= before);
            assert(now.last() == contours@[i as int]@);
        }
        if contours[i].len() >= 3 {
            let ghost held = kept@;
            let c = copied(&contours[i]);
            kept.push(c);
            assert(point_lists(kept@) =~= point_lists(held).push(contours@[i as int]@));
            assert forall|k: int| 0 <= k < kept@.len() implies exists|j: int|
                0 <= j < contours@.len() && #[trigger] contours@[j]@ == (#[trigger] kept@[k])@ by {
                if k < held.len() {
                    assert(kept@[k] == held[k]);
                } else {
                    assert(contours@[i as int]@ == kept@[k]@);
                }
            }
        }
        i = i + 1;
    }
    assert(contours@.subrange(0, i as int) =~= contours@);
    kept
}

fn copied(points: &Vec<(i32, i32)>) -> (r: Vec<(i32, i32)>)
    ensures
        r@ == points@,
{
    let mut r: Vec<(i32, i32)> = Vec::new();
    let mut i: usize = 0;
    while i < points.len()
        invariant
            i <= points@.len(),
            r@ == points@.subrange(0, i as int),
        decreases points@.len() - i,
    {
        r.push(points[i]);
        i = i + 1;
        assert(r@ =~= points@.subrange(0, i as int));
    }
    assert(points@.subrange(0, i as int) =~= points@);
    r
}

/// The bytes of a bitmap: 255 where it is set and 0 elsewhere.
pub open spec fn bitmap_bytes(hot: Seq<bool>) -> Seq<u8> {
    hot.map_values(|b: bool| if b { 255u8 } else { 0 })
}

/// The outlines of the text regions of a `w` by `h` probability map, given where it is above the
/// threshold. Their points all lie where it is.
pub fn text_contours(hot: &Vec<bool>, w: u32, h: u32) -> (contours: Vec<Vec<(i32, i32)>>)
    requires
        hot@.len() == w * h,
        w * h < i32::MAX,
        w * h * 4 <= isize::MAX,
        w <= i32::MAX,
        h <= i32::MAX,
    ensures
        point_lists(contours@) == outlines(
            traced_contours(bitmap_bytes(hot@), w as int, h as int),
        ),
        forall|k: int, i: int|
            0 <= k < contours@.len() && 0 <= i < contours@[k]@.len() ==> {
                let p = #[trigger] contours@[k]@[i];
                0 <= p.0 < w && 0 <= p.1 < h && hot@[p.1 * w + p.0]
            },
{
    let mut pixels: Vec<u8> = Vec::new();
    let mut i: usize = 0;
    while i < hot.len()
        invariant
            i <= hot@.len(),
            pixels@ == bitmap_bytes(hot@.subrange(0, i as int)),
        decreases hot@.len() - i,
    {
        pixels.push(if hot[i] { 255 } else { 0 });
        i = i + 1;
        assert(pixels@ =~= bitmap_bytes(hot@.subrange(0, i as int)));
    }
    assert(hot@.subrange(0, i as int) =~= hot@);
    let bitmap: GrayImage = Raster { width: w, height: h, pixels };
    let traced = find_contours(&bitmap);
    let ghost all = traced@;
    let contours = keep_outlines(traced);
    proof {
        assert forall|k: int, i: int|
            0 <= k < contours@.len() && 0 <= i < contours@[k]@.len() implies {
            let p = #[trigger] contours@[k]@[i];
            0 <= p.0 < w && 0 <= p.1 < h && hot@[p.1 * w + p.0]
        } by {
            let j = choose|j: int|
                0 <= j < all.len() && #[trigger] all[j]@ == (#[trigger] contours@[k])@;
            let p = all[j]@[i];
            assert(bitmap.has(p.0 as int, p.1 as int) && bitmap.at(p.0 as int, p.1 as int) != 0);
            lemma_index(w as int, h as int, p.0 as int, p.1 as int);
        }
    }
    contours
}

} // verus!
