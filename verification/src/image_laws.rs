//! What holds of turning, trimming, padding and flattening images.
use crate::angle::{holes_below, is_hole_root};
use crate::components::{belongs, bounds_of, describes, Object};
use crate::finish::{is_padded, is_trim, set_places, visible};
use crate::grid::{col, lemma_coords, lemma_index, row};
use crate::imaging::covered;
use crate::laws::pixels_of;
use crate::preprocess::{is_on_white, over_white};
use crate::raster::{is_crop, is_turned, turned_from, Raster, RgbImage, RgbaImage};
use vstd::prelude::*;

verus! {

/// Images that agree at every place have the same pixels.
proof fn lemma_same_pixels<P>(a: Raster<P>, b: Raster<P>)
    requires
        a.wf(),
        b.wf(),
        a.width == b.width,
        a.height == b.height,
        forall|i: int, j: int| a.has(i, j) ==> #[trigger] a.at(i, j) == b.at(i, j),
    ensures
        a.pixels@ == b.pixels@,
{
    assert forall|p: int| 0 <= p < a.pixels@.len() implies a.pixels@[p] == b.pixels@[p] by {
        lemma_coords(a.width as int, a.height as int, p);
        let (x, y) = (col(a.width as int, p), row(a.width as int, p));
        assert(a.has(x, y));
        assert(a.at(x, y) == b.at(x, y));
    }
    assert(a.pixels@ =~= b.pixels@);
}

/// Turning by `a` and then by `b` quarter-turns is turning by `a + b`.
pub proof fn law_turns_add<P>(
    img: Raster<P>,
    a: int,
    b: int,
    once: Raster<P>,
    twice: Raster<P>,
    both: Raster<P>,
)
    requires
        0 <= a,
        0 <= b,
        is_turned(img, a, once),
        is_turned(once, b, twice),
        is_turned(img, a + b, both),
    ensures
        twice.width == both.width,
        twice.height == both.height,
        twice.pixels@ == both.pixels@,
{
    assert forall|i: int, j: int| twice.has(i, j) implies #[trigger] twice.at(i, j) == both.at(i, j) by {
        let mid = turned_from(b, once.width as int, once.height as int, i, j);
        assert(once.has(mid.0, mid.1));
        assert(once.at(mid.0, mid.1) == {
            let from = turned_from(a, img.width as int, img.height as int, mid.0, mid.1);
            img.at(from.0, from.1)
        });
        assert(both.has(i, j));
        let (r, s) = (a % 4, b % 4);
        assert((a + b) % 4 == (r + s) % 4);
    }
    lemma_same_pixels(twice, both);
}

/// An image that is turned by `cls` quarter-turns is brought upright by `(4 - cls) % 4` more.
pub proof fn law_upright<P>(img: Raster<P>, cls: int, turned: Raster<P>, upright: Raster<P>)
    requires
        img.wf(),
        0 <= cls < 4,
        is_turned(img, cls, turned),
        is_turned(turned, (4 - cls) % 4, upright),
    ensures
        upright.width == img.width,
        upright.height == img.height,
        upright.pixels@ == img.pixels@,
{
    let whole = cls + (4 - cls) % 4;
    assert(whole == 0 || whole == 4);
    assert(is_turned(img, whole, img));
    law_turns_add(img, cls, (4 - cls) % 4, turned, upright, img);
}

/// Asking for larger holes never counts more of them.
pub proof fn law_fewer_larger_holes(bg: Seq<bool>, w: int, h: int, least: int, more: int, upto: int)
    requires
        least <= more,
    ensures
        holes_below(bg, w, h, more, upto) <= holes_below(bg, w, h, least, upto),
    decreases upto,
{
    if upto > 0 {
        law_fewer_larger_holes(bg, w, h, least, more, upto - 1);
        if is_hole_root(bg, w, h, more, upto - 1) {
            assert(is_hole_root(bg, w, h, least, upto - 1));
        }
    }
}

/// On white, a fully opaque pixel keeps its color and a fully transparent one is white.
pub proof fn law_white_shows_opaque(img: RgbaImage, out: RgbImage, p: int, c: int)
    requires
        img.wf(),
        is_on_white(img, out),
        0 <= p < img.pixels@.len(),
        0 <= c < 3,
    ensures
        img.pixels@[p]@[3] == 255 ==> out.pixels@[p]@[c] == img.pixels@[p]@[c],
        img.pixels@[p]@[3] == 0 ==> out.pixels@[p]@[c] == 255,
{
    let v = img.pixels@[p]@[c] as int;
    let a = img.pixels@[p]@[3] as int;
    assert(out.pixels@[p]@[c] == over_white(v, a));
}

/// Padding keeps an image that is fully opaque: it is found again inside the border.
pub proof fn law_padding_keeps_opaque(img: RgbaImage, pad_x: int, pad_y: int, out: RgbaImage)
    requires
        img.wf(),
        0 <= pad_x,
        0 <= pad_y,
        is_padded(img, pad_x, pad_y, out),
        forall|i: int, j: int| img.has(i, j) ==> (#[trigger] img.at(i, j))@[3] == 255,
    ensures
        is_crop(out, pad_x, pad_y, img.width as int, img.height as int, img),
{
    assert forall|i: int, j: int| img.has(i, j) implies #[trigger] img.at(i, j) == out.at(
        pad_x + i,
        pad_y + j,
    ) by {
        assert(out.has(pad_x + i, pad_y + j));
        assert(covered(
            pad_x,
            pad_y,
            img.width as int,
            img.height as int,
            pad_x + i,
            pad_y + j,
        ));
        assert(out.at(pad_x + i, pad_y + j) == img.at(i, j));
    }
}

/// An image with a visible pixel on each of its four sides is trimmed to itself.
proof fn lemma_trims_to_itself(
    img: RgbaImage,
    left: (int, int),
    right: (int, int),
    top: (int, int),
    bottom: (int, int),
)
    requires
        img.wf(),
        img.has(left.0, left.1) && left.0 == 0 && img.at(left.0, left.1)@[3] != 0,
        img.has(right.0, right.1) && right.0 == img.width - 1 && img.at(right.0, right.1)@[3] != 0,
        img.has(top.0, top.1) && top.1 == 0 && img.at(top.0, top.1)@[3] != 0,
        img.has(bottom.0, bottom.1) && bottom.1 == img.height - 1 && img.at(
            bottom.0,
            bottom.1,
        )@[3] != 0,
    ensures
        is_trim(img, visible(img), img),
{
    let (w, h) = (img.width as int, img.height as int);
    let places = set_places(visible(img));
    let b = Object {
        label: 0,
        area: 0,
        min_x: 0,
        min_y: 0,
        max_x: (w - 1) as usize,
        max_y: (h - 1) as usize,
    };
    lemma_index(w, h, left.0, left.1);
    lemma_index(w, h, right.0, right.1);
    lemma_index(w, h, top.0, top.1);
    lemma_index(w, h, bottom.0, bottom.1);
    assert(places.contains(left.1 * w + left.0));
    assert(places.contains(right.1 * w + right.0));
    assert(places.contains(top.1 * w + top.0));
    assert(places.contains(bottom.1 * w + bottom.0));
    assert forall|q: int| #[trigger] places.contains(q) implies {
        &&& 0 <= col(w, q) <= b.max_x
        &&& 0 <= row(w, q) <= b.max_y
    } by {
        lemma_coords(w, h, q);
    }
    assert(bounds_of(b, w, places));
    assert(is_crop(img, 0, 0, w, h, img));
}

/// Trimming an image once more changes nothing.
pub proof fn law_trim_is_idempotent(img: RgbaImage, out: RgbaImage)
    requires
        img.wf(),
        is_trim(img, visible(img), out),
    ensures
        is_trim(out, visible(out), out),
{
    let (w, h) = (img.width as int, img.height as int);
    let places = set_places(visible(img));
    let b = choose|b: Object| #[trigger]
        bounds_of(b, w, places) && is_crop(
            img,
            b.min_x as int,
            b.min_y as int,
            b.max_x - b.min_x + 1,
            b.max_y - b.min_y + 1,
            out,
        );
    let left = choose|q: int| #[trigger] places.contains(q) && col(w, q) == b.min_x;
    let right = choose|q: int| #[trigger] places.contains(q) && col(w, q) == b.max_x;
    let top = choose|q: int| #[trigger] places.contains(q) && row(w, q) == b.min_y;
    let bottom = choose|q: int| #[trigger] places.contains(q) && row(w, q) == b.max_y;
    assert forall|q: int| #[trigger] places.contains(q) implies {
        let (x, y) = (col(w, q) - b.min_x, row(w, q) - b.min_y);
        out.has(x, y) && out.at(x, y)@[3] != 0
    } by {
        lemma_coords(w, h, q);
        let (x, y) = (col(w, q) - b.min_x, row(w, q) - b.min_y);
        assert(out.has(x, y));
        assert(out.at(x, y) == img.at(b.min_x + x, b.min_y + y));
    }
    lemma_trims_to_itself(
        out,
        (col(w, left) - b.min_x, row(w, left) - b.min_y),
        (col(w, right) - b.min_x, row(w, right) - b.min_y),
        (col(w, top) - b.min_x, row(w, top) - b.min_y),
        (col(w, bottom) - b.min_x, row(w, bottom) - b.min_y),
    );
}

/// The cutout of an object that bounds the pixels of its label is tight: trimming it changes
/// nothing.
pub proof fn law_cutout_is_tight(labels: Seq<usize>, w: int, h: int, obj: Object, cutout: RgbaImage)
    requires
        labels.len() == w * h,
        0 <= w,
        0 <= h,
        describes(obj, w, pixels_of(labels, obj.label)),
        cutout.wf(),
        cutout.width == obj.max_x - obj.min_x + 1,
        cutout.height == obj.max_y - obj.min_y + 1,
        forall|i: int, j: int|
            cutout.has(i, j) && belongs(labels, w, obj, obj.min_x + i, obj.min_y + j) ==> (
            #[trigger] cutout.at(i, j))@[3] == 255,
    ensures
        is_trim(cutout, visible(cutout), cutout),
{
    let own = pixels_of(labels, obj.label);
    let left = choose|q: int| #[trigger] own.contains(q) && col(w, q) == obj.min_x;
    let right = choose|q: int| #[trigger] own.contains(q) && col(w, q) == obj.max_x;
    let top = choose|q: int| #[trigger] own.contains(q) && row(w, q) == obj.min_y;
    let bottom = choose|q: int| #[trigger] own.contains(q) && row(w, q) == obj.max_y;
    assert forall|q: int| #[trigger] own.contains(q) implies {
        let (x, y) = (col(w, q) - obj.min_x, row(w, q) - obj.min_y);
        cutout.has(x, y) && cutout.at(x, y)@[3] != 0
    } by {
        assert(0 < w) by (nonlinear_arith)
            requires
                0 <= w,
                0 <= q < w * h,
        ;
        lemma_coords(w, h, q);
        let (x, y) = (col(w, q) - obj.min_x, row(w, q) - obj.min_y);
        assert(cutout.has(x, y));
        assert(belongs(labels, w, obj, obj.min_x + x, obj.min_y + y));
        assert(cutout.at(x, y)@[3] == 255);
    }
    lemma_trims_to_itself(
        cutout,
        (col(w, left) - obj.min_x, row(w, left) - obj.min_y),
        (col(w, right) - obj.min_x, row(w, right) - obj.min_y),
        (col(w, top) - obj.min_x, row(w, top) - obj.min_y),
        (col(w, bottom) - obj.min_x, row(w, bottom) - obj.min_y),
    );
}

} // verus!
