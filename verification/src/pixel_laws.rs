//! What becomes of each pixel of an image.
use crate::components::{belongs, bounds_of, Object};
use crate::debug_overlay::{is_canvas, tinted};
use crate::finish::{
    is_padded, is_padded16, is_tight, is_tight16, is_trim, set_places, visible, visible16,
};
use crate::grid::{col, lemma_coords, lemma_index, row};
use crate::imaging::{blended16, blended8};
use crate::pipeline::is_cut;
use crate::preprocess::{
    bitmap_bytes, is_center, is_on_white, is_planar, outlines, over_white, oversized, point_lists,
};
use crate::raster::{is_crop, is_turned, GrayImage, Raster, RgbImage, Rgba16Image, RgbaImage};
use vstd::prelude::*;

verus! {

/// The pixels of an image stand row by row: the one in column `x` of row `y` has `y` whole rows and
/// `x` pixels before it.
pub proof fn law_pixels_stand_row_by_row<P>(img: Raster<P>, x: int, y: int)
    ensures
        img.at(x, y) == img.pixels@[img.width * y + x],
        img.has(x, y) <==> 0 <= x < img.width && 0 <= y < img.height,
        img.wf() <==> img.pixels@.len() == img.height * img.width,
{
    assert(img.width * y == y * img.width) by (nonlinear_arith);
    assert(img.width * img.height == img.height * img.width) by (nonlinear_arith);
}

/// A crop shows each pixel of its window, moved by the place of the window, and has its size.
pub proof fn law_crop_moves_pixels<P>(
    img: Raster<P>,
    x: int,
    y: int,
    w: int,
    h: int,
    out: Raster<P>,
    px: int,
    py: int,
)
    requires
        is_crop(img, x, y, w, h, out),
        x <= px < x + w,
        y <= py < y + h,
    ensures
        out.wf(),
        out.width == w,
        out.height == h,
        out.at(px - x, py - y) == img.at(px, py),
{
    assert(out.has(px - x, py - y));
}

/// Where each pixel goes when an image is turned clockwise: by one quarter-turn the left column
/// becomes the top row, by two the image is upside-down, by three the top row becomes the left
/// column, from the bottom up.
pub proof fn law_turns_are_clockwise<P>(
    img: Raster<P>,
    turns: int,
    out: Raster<P>,
    x: int,
    y: int,
)
    requires
        0 <= turns,
        is_turned(img, turns, out),
        0 <= x < img.width,
        0 <= y < img.height,
    ensures
        out.wf(),
        turns % 4 == 0 ==> out.width == img.width && out.height == img.height && out.at(x, y)
            == img.at(x, y),
        turns % 4 == 1 ==> out.width == img.height && out.height == img.width && out.at(
            img.height - 1 - y,
            x,
        ) == img.at(x, y),
        turns % 4 == 2 ==> out.width == img.width && out.height == img.height && out.at(
            img.width - 1 - x,
            img.height - 1 - y,
        ) == img.at(x, y),
        turns % 4 == 3 ==> out.width == img.height && out.height == img.width && out.at(
            y,
            img.width - 1 - x,
        ) == img.at(x, y),
{
    let t = turns % 4;
    if t == 0 {
        assert(out.has(x, y));
    } else if t == 1 {
        assert(out.has(img.height - 1 - y, x));
    } else if t == 2 {
        assert(out.has(img.width - 1 - x, img.height - 1 - y));
    } else {
        assert(out.has(y, img.width - 1 - x));
    }
}

/// Whether `out` is the part of `img` at column `x0` of row `y0`, holds every pixel that `shown`
/// tells, and has one on each of its four sides.
pub open spec fn hugs<P>(
    img: Raster<P>,
    out: Raster<P>,
    shown: spec_fn(P) -> bool,
    x0: int,
    y0: int,
) -> bool {
    &&& 0 <= x0 && x0 + out.width <= img.width
    &&& 0 <= y0 && y0 + out.height <= img.height
    &&& forall|i: int, j: int|
        0 <= i < out.width && 0 <= j < out.height ==> #[trigger] out.at(i, j) == img.at(
            x0 + i,
            y0 + j,
        )
    &&& forall|x: int, y: int|
        0 <= x < img.width && 0 <= y < img.height && shown(#[trigger] img.at(x, y)) ==> x0 <= x < x0
            + out.width && y0 <= y < y0 + out.height
    &&& exists|j: int| 0 <= j < out.height && shown(#[trigger] out.at(0, j))
    &&& exists|j: int| 0 <= j < out.height && shown(#[trigger] out.at(out.width - 1, j))
    &&& exists|i: int| 0 <= i < out.width && shown(#[trigger] out.at(i, 0))
    &&& exists|i: int| 0 <= i < out.width && shown(#[trigger] out.at(i, out.height - 1))
}

proof fn lemma_trim_hugs<P>(
    img: Raster<P>,
    keep: Seq<bool>,
    out: Raster<P>,
    shown: spec_fn(P) -> bool,
)
    requires
        img.wf(),
        keep.len() == img.pixels@.len(),
        forall|p: int| 0 <= p < keep.len() ==> #[trigger] keep[p] == shown(img.pixels@[p]),
        is_trim(img, keep, out),
    ensures
        exists|x0: int, y0: int| hugs(img, out, shown, x0, y0),
{
    let (w, h) = (img.width as int, img.height as int);
    let places = set_places(keep);
    let b = choose|b: Object| #[trigger]
        bounds_of(b, w, places) && is_crop(
            img,
            b.min_x as int,
            b.min_y as int,
            b.max_x - b.min_x + 1,
            b.max_y - b.min_y + 1,
            out,
        );
    let (x0, y0) = (b.min_x as int, b.min_y as int);
    let left = choose|q: int| #[trigger] places.contains(q) && col(w, q) == b.min_x;
    let right = choose|q: int| #[trigger] places.contains(q) && col(w, q) == b.max_x;
    let top = choose|q: int| #[trigger] places.contains(q) && row(w, q) == b.min_y;
    let bottom = choose|q: int| #[trigger] places.contains(q) && row(w, q) == b.max_y;
    assert forall|q: int| #[trigger] places.contains(q) implies {
        &&& 0 < w
        &&& 0 <= col(w, q) < w
        &&& 0 <= row(w, q) < h
        &&& out.has(col(w, q) - x0, row(w, q) - y0)
        &&& shown(out.at(col(w, q) - x0, row(w, q) - y0))
    } by {
        assert(0 < w) by (nonlinear_arith)
            requires
                0 <= w,
                0 <= q < w * h,
        ;
        lemma_coords(w, h, q);
        let (i, j) = (col(w, q) - x0, row(w, q) - y0);
        assert(out.has(i, j));
        assert(out.at(i, j) == img.at(x0 + i, y0 + j));
        assert(keep[q]);
    }
    assert(places.contains(left) && places.contains(right));
    assert(places.contains(top) && places.contains(bottom));
    assert(shown(out.at(0, row(w, left) - y0)));
    assert(shown(out.at(out.width - 1, row(w, right) - y0)));
    assert(shown(out.at(col(w, top) - x0, 0)));
    assert(shown(out.at(col(w, bottom) - x0, out.height - 1)));
    assert forall|x: int, y: int|
        0 <= x < img.width && 0 <= y < img.height && shown(#[trigger] img.at(x, y)) implies x0 <= x
        < x0 + out.width && y0 <= y < y0 + out.height by {
        lemma_index(w, h, x, y);
        assert(keep[y * w + x]);
        assert(places.contains(y * w + x));
    }
    assert forall|i: int, j: int| 0 <= i < out.width && 0 <= j < out.height implies
        #[trigger] out.at(i, j) == img.at(x0 + i, y0 + j) by {
        assert(out.has(i, j));
    }
    assert(hugs(img, out, shown, x0, y0));
}

/// Whether an 8-bit pixel is not fully transparent.
pub open spec fn seen() -> spec_fn([u8; 4]) -> bool {
    |p: [u8; 4]| p@[3] > 0
}

/// Whether a 16-bit pixel is not fully transparent.
pub open spec fn seen16() -> spec_fn([u16; 4]) -> bool {
    |p: [u16; 4]| p@[3] > 0
}

/// Trimming keeps every pixel that is not fully transparent and leaves no side without one.
pub proof fn law_trim_hugs_the_visible(img: RgbaImage, out: RgbaImage)
    requires
        img.wf(),
        is_trim(img, visible(img), out),
    ensures
        exists|x0: int, y0: int| hugs(img, out, seen(), x0, y0),
{
    lemma_trim_hugs(img, visible(img), out, seen());
}

/// As [`law_trim_hugs_the_visible`], with 16 bits per channel.
pub proof fn law_trim_hugs_the_visible16(img: Rgba16Image, out: Rgba16Image)
    requires
        img.wf(),
        is_trim(img, visible16(img), out),
    ensures
        exists|x0: int, y0: int| hugs(img, out, seen16(), x0, y0),
{
    lemma_trim_hugs(img, visible16(img), out, seen16());
}

/// An image is cut to its visible pixels where it has any, and stays as it is where it has none.
pub proof fn law_tight_images(img: RgbaImage, out: RgbaImage, p: int)
    requires
        img.wf(),
        is_tight(img, out),
    ensures
        0 <= p < img.pixels@.len() && img.pixels@[p]@[3] > 0 ==> exists|x0: int, y0: int|
            hugs(img, out, seen(), x0, y0),
        (forall|q: int| 0 <= q < img.pixels@.len() ==> (#[trigger] img.pixels@[q])@[3] == 0) ==> out
            == img,
{
    if 0 <= p < img.pixels@.len() && img.pixels@[p]@[3] > 0 {
        law_trim_hugs_the_visible(img, out);
    }
}

/// As [`law_tight_images`], with 16 bits per channel.
pub proof fn law_tight_images16(img: Rgba16Image, out: Rgba16Image, p: int)
    requires
        img.wf(),
        is_tight16(img, out),
    ensures
        0 <= p < img.pixels@.len() && img.pixels@[p]@[3] > 0 ==> exists|x0: int, y0: int|
            hugs(img, out, seen16(), x0, y0),
        (forall|q: int| 0 <= q < img.pixels@.len() ==> (#[trigger] img.pixels@[q])@[3] == 0) ==> out
            == img,
{
    if 0 <= p < img.pixels@.len() && img.pixels@[p]@[3] > 0 {
        law_trim_hugs_the_visible16(img, out);
    }
}

/// Padding adds as many transparent columns on the left and right, and rows on the top and bottom,
/// as are asked for; a fully opaque pixel keeps its color, and a fully transparent one becomes part
/// of the border.
pub proof fn law_padding_surrounds(
    img: RgbaImage,
    pad_x: int,
    pad_y: int,
    out: RgbaImage,
    x: int,
    y: int,
)
    requires
        0 <= pad_x,
        0 <= pad_y,
        is_padded(img, pad_x, pad_y, out),
    ensures
        out.wf(),
        out.width == pad_x + img.width + pad_x,
        out.height == pad_y + img.height + pad_y,
        0 <= x < img.width && 0 <= y < img.height && img.at(x, y)@[3] == 255 ==> out.at(
            x + pad_x,
            y + pad_y,
        ) == img.at(x, y),
        0 <= x < img.width && 0 <= y < img.height && img.at(x, y)@[3] == 0 && pad_x + pad_y > 0
            ==> out.at(x + pad_x, y + pad_y) == [0u8, 0, 0, 0],
        0 <= x < img.width && 0 <= y < img.height && 0 < img.at(x, y)@[3] < 255 && pad_x + pad_y > 0
            ==> out.at(x + pad_x, y + pad_y) == blended8([0u8, 0, 0, 0], img.at(x, y)),
        0 <= x < img.width && 0 <= y < img.height && pad_x + pad_y == 0 ==> out.at(x, y) == img.at(
            x,
            y,
        ),
        0 <= x < out.width && 0 <= y < out.height && (x < pad_x || x >= pad_x + img.width || y
            < pad_y || y >= pad_y + img.height) ==> out.at(x, y) == [0u8, 0, 0, 0],
{
    if 0 <= x < img.width && 0 <= y < img.height {
        assert(out.has(x + pad_x, y + pad_y));
    }
    if 0 <= x < out.width && 0 <= y < out.height {
        assert(out.has(x, y));
    }
}

/// As [`law_padding_surrounds`], with 16 bits per channel.
pub proof fn law_padding_surrounds16(
    img: Rgba16Image,
    pad_x: int,
    pad_y: int,
    out: Rgba16Image,
    x: int,
    y: int,
)
    requires
        0 <= pad_x,
        0 <= pad_y,
        is_padded16(img, pad_x, pad_y, out),
    ensures
        out.wf(),
        out.width == pad_x + img.width + pad_x,
        out.height == pad_y + img.height + pad_y,
        0 <= x < img.width && 0 <= y < img.height && img.at(x, y)@[3] == 65535 ==> out.at(
            x + pad_x,
            y + pad_y,
        ) == img.at(x, y),
        0 <= x < img.width && 0 <= y < img.height && img.at(x, y)@[3] == 0 && pad_x + pad_y > 0
            ==> out.at(x + pad_x, y + pad_y) == [0u16, 0, 0, 0],
        0 <= x < img.width && 0 <= y < img.height && 0 < img.at(x, y)@[3] < 65535 && pad_x + pad_y
            > 0 ==> out.at(x + pad_x, y + pad_y) == blended16([0u16, 0, 0, 0], img.at(x, y)),
        0 <= x < img.width && 0 <= y < img.height && pad_x + pad_y == 0 ==> out.at(x, y) == img.at(
            x,
            y,
        ),
        0 <= x < out.width && 0 <= y < out.height && (x < pad_x || x >= pad_x + img.width || y
            < pad_y || y >= pad_y + img.height) ==> out.at(x, y) == [0u16, 0, 0, 0],
{
    if 0 <= x < img.width && 0 <= y < img.height {
        assert(out.has(x + pad_x, y + pad_y));
    }
    if 0 <= x < out.width && 0 <= y < out.height {
        assert(out.has(x, y));
    }
}

/// Over white, the nearest integer to the mix of the color and white in proportion to the opacity:
/// it misses it by less than a half.
pub proof fn law_white_mix_is_nearest(c: int, a: int)
    requires
        0 <= c <= 255,
        0 <= a <= 255,
    ensures
        -255 < 2 * (255 * over_white(c, a) - (c * a + 255 * (255 - a))) < 255,
        0 <= over_white(c, a) <= 255,
{
    assert(0 <= c * a <= 255 * a) by (nonlinear_arith)
        requires
            0 <= c <= 255,
            0 <= a,
    ;
}

/// On white, each of the three colors of each pixel is mixed with white by the opacity of that
/// pixel, and the size stays.
pub proof fn law_each_pixel_is_put_on_white(img: RgbaImage, out: RgbImage, p: int, c: int)
    requires
        img.wf(),
        is_on_white(img, out),
        0 <= p < img.pixels@.len(),
        0 <= c < 3,
    ensures
        out.wf(),
        out.width == img.width,
        out.height == img.height,
        ({
            let (v, a) = (img.pixels@[p]@[c] as int, img.pixels@[p]@[3] as int);
            -255 < 2 * (255 * out.pixels@[p]@[c] - (v * a + 255 * (255 - a))) < 255
        }),
{
    law_white_mix_is_nearest(img.pixels@[p]@[c] as int, img.pixels@[p]@[3] as int);
    assert(out.pixels@[p]@[c] == over_white(
        img.pixels@[p]@[c] as int,
        img.pixels@[p]@[3] as int,
    ));
}

/// Planes hold one channel each, pixel by pixel: red, green and blue, or blue, green and red.
pub proof fn law_planes_hold_channels(
    data: Seq<u8>,
    pixels: Seq<[u8; 3]>,
    bgr: bool,
    p: int,
)
    requires
        is_planar(data, pixels, bgr),
        0 <= p < pixels.len(),
    ensures
        data.len() == pixels.len() + pixels.len() + pixels.len(),
        !bgr ==> data[p] == pixels[p]@[0] && data[pixels.len() + p] == pixels[p]@[1]
            && data[pixels.len() + pixels.len() + p] == pixels[p]@[2],
        bgr ==> data[p] == pixels[p]@[2] && data[pixels.len() + p] == pixels[p]@[1]
            && data[pixels.len() + pixels.len() + p] == pixels[p]@[0],
{
    let n = pixels.len() as int;
    assert(data[0 * n + p] == pixels[p]@[crate::preprocess::channel_in(0, bgr)]);
    assert(data[1 * n + p] == pixels[p]@[crate::preprocess::channel_in(1, bgr)]);
    assert(data[2 * n + p] == pixels[p]@[crate::preprocess::channel_in(2, bgr)]);
    assert(2 * n + p == n + n + p);
}

/// The square in the middle leaves as many columns on the left as on the right, and as many rows
/// above as below, or one more on the right and below.
pub proof fn law_center_is_in_the_middle(img: RgbImage, side: int, out: RgbImage, i: int, j: int)
    requires
        is_center(img, side, out),
        0 <= side <= img.width,
        side <= img.height,
        0 <= i < side,
        0 <= j < side,
    ensures
        out.wf(),
        out.width == side,
        out.height == side,
        exists|left: int, above: int|
            {
                &&& 0 <= left
                &&& 0 <= img.width - side - left - left <= 1
                &&& 0 <= above
                &&& 0 <= img.height - side - above - above <= 1
                &&& out.at(i, j) == #[trigger] img.at(left + i, above + j)
            },
{
    let (left, above) = ((img.width - side) / 2, (img.height - side) / 2);
    assert(out.has(i, j));
    assert(out.at(i, j) == img.at(left + i, above + j));
}

/// An object is scaled down for classification exactly where one of its sides is over 768 pixels.
pub proof fn law_oversized(img: RgbaImage)
    ensures
        oversized(img) <==> !(img.width <= 768 && img.height <= 768),
{
}

/// A contour is dropped exactly where it has fewer than three points; the others keep their order.
pub proof fn law_short_contours_are_dropped(contours: Seq<Seq<(i32, i32)>>, next: Seq<(i32, i32)>)
    ensures
        outlines(Seq::empty()).len() == 0,
        next.len() < 3 ==> outlines(contours.push(next)) == outlines(contours),
        next.len() >= 3 ==> outlines(contours.push(next)) == outlines(contours).push(next),
{
    reveal(Seq::filter);
    assert(contours.push(next).drop_last() =~= contours);
    assert(contours.push(next).last() == next);
}

/// A list of point lists is taken list by list.
pub proof fn law_point_lists(contours: Seq<Vec<(i32, i32)>>, i: int)
    requires
        0 <= i < contours.len(),
    ensures
        point_lists(contours).len() == contours.len(),
        point_lists(contours)[i] == contours[i]@,
{
}

/// A bitmap is fully set where it is hot and zero elsewhere.
pub proof fn law_bitmaps(hot: Seq<bool>, p: int)
    requires
        0 <= p < hot.len(),
    ensures
        bitmap_bytes(hot).len() == hot.len(),
        hot[p] ==> bitmap_bytes(hot)[p] == 255,
        !hot[p] ==> bitmap_bytes(hot)[p] == 0,
{
}

/// What is cut out for an object: within its box a pixel that carries its label is set in the mask
/// and keeps its color, fully opaque, in the cutout; every other pixel is cleared in both.
pub proof fn law_cut_by_label(
    src: RgbaImage,
    labels: Seq<usize>,
    obj: Object,
    cutout: RgbaImage,
    mask: GrayImage,
    x: int,
    y: int,
)
    requires
        is_cut(src, labels, obj, cutout, mask),
        obj.min_x <= x <= obj.max_x,
        obj.min_y <= y <= obj.max_y,
    ensures
        cutout.width == obj.max_x + 1 - obj.min_x && mask.width == cutout.width,
        cutout.height == obj.max_y + 1 - obj.min_y && mask.height == cutout.height,
        labels[y * src.width + x] == obj.label ==> {
            let px = cutout.at(x - obj.min_x, y - obj.min_y);
            &&& px@[0] == src.at(x, y)@[0]
            &&& px@[1] == src.at(x, y)@[1]
            &&& px@[2] == src.at(x, y)@[2]
            &&& px@[3] == 255
            &&& mask.at(x - obj.min_x, y - obj.min_y) == 255
        },
        labels[y * src.width + x] != obj.label ==> {
            let px = cutout.at(x - obj.min_x, y - obj.min_y);
            &&& px@[0] == 0 && px@[1] == 0 && px@[2] == 0 && px@[3] == 0
            &&& mask.at(x - obj.min_x, y - obj.min_y) == 0
        },
{
    assert(cutout.has(x - obj.min_x, y - obj.min_y));
    assert(mask.has(x - obj.min_x, y - obj.min_y));
}

/// A pixel of a label map belongs to an object exactly where it carries its label.
pub proof fn law_belongs_by_label(labels: Seq<usize>, w: int, obj: Object, x: int, y: int)
    ensures
        belongs(labels, w, obj, x, y) <==> labels[w * y + x] == obj.label,
{
    assert(w * y == y * w) by (nonlinear_arith);
}

/// A tint is the nearest integer to three fifths of the color and two fifths of the tint.
pub proof fn law_tint_is_nearest(c: int, t: int)
    ensures
        -5 < 2 * (5 * tinted(c, t) - (3 * c + 2 * t)) < 5,
{
}

/// On the debug canvas a pixel that the mask leaves out is the cutout's on white, and one that the
/// mask sets is three fifths of that and two fifths of a green of 200.
pub proof fn law_canvas_pixels(
    cutout: RgbaImage,
    mask: GrayImage,
    out: RgbImage,
    x: int,
    y: int,
    c: int,
)
    requires
        is_canvas(cutout, mask, out),
        0 <= x < out.width,
        0 <= y < out.height,
        0 <= c < 3,
    ensures
        out.wf(),
        out.width == cutout.width,
        out.height == cutout.height,
        ({
            let white = over_white(cutout.at(x, y)@[c] as int, cutout.at(x, y)@[3] as int);
            let set = x < mask.width && y < mask.height && mask.at(x, y) > 0;
            &&& !set ==> out.at(x, y)@[c] == white
            &&& set && c == 1 ==> -5 < 2 * (5 * out.at(x, y)@[c] - (3 * white + 400)) < 5
            &&& set && c != 1 ==> -5 < 2 * (5 * out.at(x, y)@[c] - 3 * white) < 5
        }),
{
    assert(out.has(x, y));
    let v = out.at(x, y)@[c];
}

} // verus!
