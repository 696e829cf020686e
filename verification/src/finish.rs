//! The last steps on a cutout: trimming, padding and quarter-turns.
use crate::components::{bounds_of, include_pixel, measures, Object};
use crate::grid::{col, lemma_coords, lemma_index, lemma_next_row, row};
use crate::imaging::{blended16, blended8, covered, overlay, overlay16};
use crate::raster::{crop, filled, is_crop, is_turned, turn, Raster, Rgba16Image, RgbaImage};
use vstd::prelude::*;

verus! {

/// The places of the set entries.
pub open spec fn set_places(keep: Seq<bool>) -> Set<int> {
    Set::new(|p: int| 0 <= p < keep.len() && keep[p])
}

/// Whether `out` is the smallest crop of `img` that shows every pixel set in `keep`.
pub open spec fn is_trim<P>(img: Raster<P>, keep: Seq<bool>, out: Raster<P>) -> bool {
    exists|b: Object| #[trigger]
        bounds_of(b, img.width as int, set_places(keep)) && is_crop(
            img,
            b.min_x as int,
            b.min_y as int,
            b.max_x - b.min_x + 1,
            b.max_y - b.min_y + 1,
            out,
        )
}

/// The smallest crop of `img` that shows every pixel set in `keep`, if any is set.
fn trim<P: Copy>(img: &Raster<P>, keep: &Vec<bool>) -> (r: Option<Raster<P>>)
    requires
        img.wf(),
        keep@.len() == img.pixels@.len(),
    ensures
        r is None <==> forall|p: int| 0 <= p < keep@.len() ==> !#[trigger] keep@[p],
        r matches Some(out) ==> is_trim(*img, keep@, out),
{
    let total: usize = keep.len();
    let w: usize = img.width as usize;
    let h: usize = img.height as usize;
    let ghost mut seen = Set::<int>::empty();
    let mut found = Object { label: 0, area: 0, min_x: 0, min_y: 0, max_x: 0, max_y: 0 };
    let mut y: usize = 0;
    assert(0 * w == 0) by (nonlinear_arith);
    while y < h
        invariant
            total == keep@.len() == w * h,
            y <= h,
            found.area <= y * w,
            measures(found, w as int, seen),
            forall|p: int| #[trigger]
                seen.contains(p) <==> 0 <= p < y * w && p < keep@.len() && keep@[p],
        decreases h - y,
    {
        let mut x: usize = 0;
        while x < w
            invariant
                total == keep@.len() == w * h,
                y < h,
                x <= w,
                found.area <= y * w + x,
                measures(found, w as int, seen),
                forall|p: int| #[trigger]
                    seen.contains(p) <==> 0 <= p < y * w + x && p < keep@.len() && keep@[p],
            decreases w - x,
        {
            proof {
                lemma_index(w as int, h as int, x as int, y as int);
            }
            let at: usize = y * w + x;
            if keep[at] {
                found = include_pixel(found, x, y, Ghost(w as int), Ghost(seen));
                proof {
                    seen = seen.insert(at as int);
                }
            }
            x = x + 1;
        }
        proof {
            lemma_next_row(w as int, y as int);
        }
        y = y + 1;
    }
    assert(h * w == w * h) by (nonlinear_arith);
    assert(seen =~= set_places(keep@));
    if found.area == 0 {
        proof {
            seen.lemma_len0_is_empty();
            assert forall|p: int| 0 <= p < keep@.len() implies !#[trigger] keep@[p] by {
                assert(!seen.contains(p));
            }
        }
        return None;
    }
    proof {
        let q = choose|q: int| #[trigger] seen.contains(q) && col(w as int, q) == found.max_x;
        lemma_coords(w as int, h as int, q);
        assert(keep@[q]);
        let q = choose|q: int| #[trigger] seen.contains(q) && row(w as int, q) == found.max_y;
        lemma_coords(w as int, h as int, q);
    }
    let out = crop(
        img,
        found.min_x as u32,
        found.min_y as u32,
        (found.max_x - found.min_x + 1) as u32,
        (found.max_y - found.min_y + 1) as u32,
    );
    assert(bounds_of(found, img.width as int, set_places(keep@)));
    Some(out)
}

/// The pixels of an 8-bit image that are not fully transparent.
pub open spec fn visible(img: RgbaImage) -> Seq<bool> {
    img.pixels@.map_values(|p: [u8; 4]| p@[3] != 0)
}

/// Crop an image to its visible pixels; `None` where there are none.
pub fn trim_transparent(img: &RgbaImage) -> (r: Option<RgbaImage>)
    requires
        img.wf(),
    ensures
        r is None <==> forall|p: int| 0 <= p < img.pixels@.len() ==> (#[trigger] img.pixels@[p])@[3] == 0,
        r matches Some(out) ==> is_trim(*img, visible(*img), out),
{
    let mut keep: Vec<bool> = Vec::new();
    let mut i: usize = 0;
    while i < img.pixels.len()
        invariant
            i <= img.pixels@.len(),
            keep@.len() == i,
            forall|p: int| 0 <= p < i ==> #[trigger] keep@[p] == (img.pixels@[p]@[3] != 0),
        decreases img.pixels@.len() - i,
    {
        keep.push(img.pixels[i][3] != 0);
        i = i + 1;
    }
    assert(keep@ =~= visible(*img));
    let r = trim(img, &keep);
    proof {
        if r is None {
            assert forall|p: int| 0 <= p < img.pixels@.len() implies (
            #[trigger] img.pixels@[p])@[3] == 0 by {
                assert(!keep@[p]);
            }
        } else {
            let p = choose|p: int| 0 <= p < keep@.len() && #[trigger] keep@[p];
            assert(img.pixels@[p]@[3] != 0);
        }
    }
    r
}

/// The pixels of a 16-bit image that are not fully transparent.
pub open spec fn visible16(img: Rgba16Image) -> Seq<bool> {
    img.pixels@.map_values(|p: [u16; 4]| p@[3] != 0)
}

/// As [`trim_transparent`], with 16 bits per channel.
pub fn trim_transparent16(img: &Rgba16Image) -> (r: Option<Rgba16Image>)
    requires
        img.wf(),
    ensures
        r is None <==> forall|p: int| 0 <= p < img.pixels@.len() ==> (#[trigger] img.pixels@[p])@[3] == 0,
        r matches Some(out) ==> is_trim(*img, visible16(*img), out),
{
    let mut keep: Vec<bool> = Vec::new();
    let mut i: usize = 0;
    while i < img.pixels.len()
        invariant
            i <= img.pixels@.len(),
            keep@.len() == i,
            forall|p: int| 0 <= p < i ==> #[trigger] keep@[p] == (img.pixels@[p]@[3] != 0),
        decreases img.pixels@.len() - i,
    {
        keep.push(img.pixels[i][3] != 0);
        i = i + 1;
    }
    assert(keep@ =~= visible16(*img));
    let r = trim(img, &keep);
    proof {
        if r is None {
            assert forall|p: int| 0 <= p < img.pixels@.len() implies (
            #[trigger] img.pixels@[p])@[3] == 0 by {
                assert(!keep@[p]);
            }
        } else {
            let p = choose|p: int| 0 <= p < keep@.len() && #[trigger] keep@[p];
            assert(img.pixels@[p]@[3] != 0);
        }
    }
    r
}

/// Whether an image of `w` by `h` pixels can be padded by `pad_x` columns on the left and right
/// and `pad_y` rows on the top and bottom.
pub open spec fn paddable(w: int, h: int, pad_x: int, pad_y: int) -> bool {
    &&& w + 2 * pad_x <= u32::MAX
    &&& h + 2 * pad_y <= u32::MAX
    &&& (w + 2 * pad_x) * (h + 2 * pad_y) <= usize::MAX
}

/// Whether `out` is `img` within a fully transparent border of `pad_x` columns on the left and
/// right and `pad_y` rows on the top and bottom. Where it is padded at all, a pixel that is
/// neither fully opaque nor fully transparent is blended with transparency, and one that is fully
/// transparent loses its color.
pub open spec fn is_padded(img: RgbaImage, pad_x: int, pad_y: int, out: RgbaImage) -> bool {
    &&& out.wf()
    &&& out.width == img.width + 2 * pad_x
    &&& out.height == img.height + 2 * pad_y
    &&& forall|i: int, j: int|
        out.has(i, j) ==> #[trigger] out.at(i, j) == if covered(
            pad_x,
            pad_y,
            img.width as int,
            img.height as int,
            i,
            j,
        ) {
            let px = img.at(i - pad_x, j - pad_y);
            if px@[3] == 255 || (pad_x == 0 && pad_y == 0) {
                px
            } else if px@[3] == 0 {
                [0u8, 0, 0, 0]
            } else {
                blended8([0u8, 0, 0, 0], px)
            }
        } else {
            [0u8, 0, 0, 0]
        }
}

/// Surround an image with a transparent border.
pub fn pad_rgba(img: &RgbaImage, pad_x: u32, pad_y: u32) -> (out: RgbaImage)
    requires
        img.wf(),
        paddable(img.width as int, img.height as int, pad_x as int, pad_y as int),
    ensures
        is_padded(*img, pad_x as int, pad_y as int, out),
{
    if pad_x == 0 && pad_y == 0 {
        return crop(img, 0, 0, img.width, img.height);
    }
    let mut out = filled(img.width + 2 * pad_x, img.height + 2 * pad_y, [0u8, 0, 0, 0]);
    let ghost blank = out;
    overlay(&mut out, img, pad_x, pad_y);
    proof {
        assert forall|i: int, j: int| blank.has(i, j) implies #[trigger] blank.at(i, j) == [
            0u8,
            0,
            0,
            0,
        ] by {
            lemma_index(blank.width as int, blank.height as int, i, j);
        }
    }
    out
}

/// As [`is_padded`], with 16 bits per channel.
pub open spec fn is_padded16(img: Rgba16Image, pad_x: int, pad_y: int, out: Rgba16Image) -> bool {
    &&& out.wf()
    &&& out.width == img.width + 2 * pad_x
    &&& out.height == img.height + 2 * pad_y
    &&& forall|i: int, j: int|
        out.has(i, j) ==> #[trigger] out.at(i, j) == if covered(
            pad_x,
            pad_y,
            img.width as int,
            img.height as int,
            i,
            j,
        ) {
            let px = img.at(i - pad_x, j - pad_y);
            if px@[3] == 0xffff || (pad_x == 0 && pad_y == 0) {
                px
            } else if px@[3] == 0 {
                [0u16, 0, 0, 0]
            } else {
                blended16([0u16, 0, 0, 0], px)
            }
        } else {
            [0u16, 0, 0, 0]
        }
}

/// As [`pad_rgba`], with 16 bits per channel.
pub fn pad_rgba16(img: &Rgba16Image, pad_x: u32, pad_y: u32) -> (out: Rgba16Image)
    requires
        img.wf(),
        paddable(img.width as int, img.height as int, pad_x as int, pad_y as int),
    ensures
        is_padded16(*img, pad_x as int, pad_y as int, out),
{
    if pad_x == 0 && pad_y == 0 {
        return crop(img, 0, 0, img.width, img.height);
    }
    let mut out = filled(img.width + 2 * pad_x, img.height + 2 * pad_y, [0u16, 0, 0, 0]);
    let ghost blank = out;
    overlay16(&mut out, img, pad_x, pad_y);
    proof {
        assert forall|i: int, j: int| blank.has(i, j) implies #[trigger] blank.at(i, j) == [
            0u16,
            0,
            0,
            0,
        ] by {
            lemma_index(blank.width as int, blank.height as int, i, j);
        }
    }
    out
}

/// Rotate an image by `turns` quarter-turns clockwise, the orientation correction the classifier
/// asked for. `turns % 4 == 0` is a no-op.
pub fn apply_quarter_turns<P: Copy>(img: &Raster<P>, turns: u8) -> (out: Raster<P>)
    requires
        img.wf(),
    ensures
        is_turned(*img, turns as int, out),
{
    turn(img, turns)
}

/// Whether `out` is `img` cut to its visible pixels, or `img` itself where it has none.
pub open spec fn is_tight(img: RgbaImage, out: RgbaImage) -> bool {
    if forall|p: int| 0 <= p < img.pixels@.len() ==> (#[trigger] img.pixels@[p])@[3] == 0 {
        out == img
    } else {
        is_trim(img, visible(img), out)
    }
}

/// An image cut to its visible pixels; one without any stays as it is.
pub fn tight(img: RgbaImage) -> (out: RgbaImage)
    requires
        img.wf(),
    ensures
        is_tight(img, out),
        out.wf(),
{
    match trim_transparent(&img) {
        Some(out) => out,
        None => img,
    }
}

/// As [`is_tight`], with 16 bits per channel.
pub open spec fn is_tight16(img: Rgba16Image, out: Rgba16Image) -> bool {
    if forall|p: int| 0 <= p < img.pixels@.len() ==> (#[trigger] img.pixels@[p])@[3] == 0 {
        out == img
    } else {
        is_trim(img, visible16(img), out)
    }
}

/// As [`tight`], with 16 bits per channel.
pub fn tight16(img: Rgba16Image) -> (out: Rgba16Image)
    requires
        img.wf(),
    ensures
        is_tight16(img, out),
        out.wf(),
{
    match trim_transparent16(&img) {
        Some(out) => out,
        None => img,
    }
}

/// The last steps on a cutout that was cut to its visible pixels: pad it, then turn it upright.
pub fn finish_alpha(img: &RgbaImage, pad_x: u32, pad_y: u32, turns: u8) -> (out: RgbaImage)
    requires
        img.wf(),
        paddable(img.width as int, img.height as int, pad_x as int, pad_y as int),
    ensures
        exists|padded: RgbaImage| #[trigger]
            is_padded(*img, pad_x as int, pad_y as int, padded) && is_turned(
                padded,
                turns as int,
                out,
            ),
{
    let padded = pad_rgba(img, pad_x, pad_y);
    let out = apply_quarter_turns(&padded, turns);
    assert(is_padded(*img, pad_x as int, pad_y as int, padded));
    out
}

/// As [`finish_alpha`], with 16 bits per channel.
pub fn finish_alpha16(img: &Rgba16Image, pad_x: u32, pad_y: u32, turns: u8) -> (out: Rgba16Image)
    requires
        img.wf(),
        paddable(img.width as int, img.height as int, pad_x as int, pad_y as int),
    ensures
        exists|padded: Rgba16Image| #[trigger]
            is_padded16(*img, pad_x as int, pad_y as int, padded) && is_turned(
                padded,
                turns as int,
                out,
            ),
{
    let padded = pad_rgba16(img, pad_x, pad_y);
    let out = apply_quarter_turns(&padded, turns);
    assert(is_padded16(*img, pad_x as int, pad_y as int, padded));
    out
}

} // verus!
