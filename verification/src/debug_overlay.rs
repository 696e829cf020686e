//! Diagnostic rendering: the canvas that the detector's geometry is drawn on.
use crate::grid::{col, lemma_index, lemma_next_row, row};
use crate::paths::{suffixed_parts, suffixed_path, FilePath};
use crate::preprocess::{composite_over_white, is_on_white, over_white};
use crate::raster::{GrayImage, Raster, RgbImage, RgbaImage};
use vstd::prelude::*;

verus! {

/// Which candidate angle was chosen for an object.
#[derive(Debug, Clone, Copy, PartialEq, Eq, Structural)]
pub enum AngleSource {
    /// The text lines' angle.
    Text,
    /// The mask's angle.
    Mask,
    /// There was no candidate.
    Unknown,
}

/// Path for an object's debug overlay, e.g. `out_0.png` -> `out_0.debug.png`.
pub fn debug_image_path(path: &FilePath) -> (out: FilePath)
    ensures
        out@ == suffixed_parts(path@, ".debug"@),
{
    suffixed_path(path, ".debug")
}

/// A channel of value `c` tinted with `t`: three parts to two, rounded to the nearest integer.
pub open spec fn tinted(c: int, t: int) -> int {
    (3 * c + 2 * t + 2) / 5
}

/// The green that a mask is tinted with.
pub open spec fn tint(channel: int) -> int {
    if channel == 1 {
        200
    } else {
        0
    }
}

/// Whether column `x` of row `y` lies in `mask` and is set there.
pub open spec fn masked(mask: GrayImage, x: int, y: int) -> bool {
    mask.has(x, y) && mask.at(x, y) != 0
}

/// Whether `out` shows `cutout` on white with the pixels of `mask` tinted green.
pub open spec fn is_canvas(cutout: RgbaImage, mask: GrayImage, out: RgbImage) -> bool {
    &&& out.wf()
    &&& out.width == cutout.width
    &&& out.height == cutout.height
    &&& forall|x: int, y: int, c: int|
        out.has(x, y) && 0 <= c < 3 ==> #[trigger] out.at(x, y)@[c] == {
            let white = over_white(cutout.at(x, y)@[c] as int, cutout.at(x, y)@[3] as int);
            if masked(mask, x, y) {
                tinted(white, tint(c))
            } else {
                white
            }
        }
}

fn tint_channel(c: u8, t: u8) -> (r: u8)
    ensures
        r == tinted(c as int, t as int),
{
    ((3 * c as u32 + 2 * t as u32 + 2) / 5) as u8
}

/// The canvas of the debug overlay: the cutout (the exact pixels the detector saw, on white) with
/// the fine mask tinted green, so that the rectangle fits can be judged against the real shape.
/// The mask shares the cutout's coordinate frame.
pub fn debug_canvas(cutout: &RgbaImage, mask: &GrayImage) -> (out: RgbImage)
    requires
        cutout.wf(),
        mask.wf(),
    ensures
        is_canvas(*cutout, *mask, out),
{
    let white = composite_over_white(cutout);
    let (w, h) = (white.width, white.height);
    let total: usize = white.pixels.len();
    let in_mask: usize = mask.pixels.len();
    let mut pixels: Vec<[u8; 3]> = Vec::new();
    let mut y: u32 = 0;
    assert(0 * w == 0) by (nonlinear_arith);
    while y < h
        invariant
            cutout.wf(),
            mask.wf(),
            is_on_white(*cutout, white),
            w == white.width,
            h == white.height,
            total == white.pixels@.len(),
            in_mask == mask.pixels@.len(),
            y <= h,
            pixels@.len() == y * w,
            forall|p: int, c: int|
                0 <= p < y * w && 0 <= c < 3 ==> #[trigger] pixels@[p]@[c] == if masked(
                    *mask,
                    col(w as int, p),
                    row(w as int, p),
                ) {
                    tinted(white.pixels@[p]@[c] as int, tint(c))
                } else {
                    white.pixels@[p]@[c] as int
                },
        decreases h - y,
    {
        let mut x: u32 = 0;
        while x < w
            invariant
                cutout.wf(),
                mask.wf(),
                is_on_white(*cutout, white),
                w == white.width,
                h == white.height,
                total == white.pixels@.len(),
                in_mask == mask.pixels@.len(),
                y < h,
                x <= w,
                pixels@.len() == y * w + x,
                forall|p: int, c: int|
                    0 <= p < y * w + x && 0 <= c < 3 ==> #[trigger] pixels@[p]@[c] == if masked(
                        *mask,
                        col(w as int, p),
                        row(w as int, p),
                    ) {
                        tinted(white.pixels@[p]@[c] as int, tint(c))
                    } else {
                        white.pixels@[p]@[c] as int
                    },
            decreases w - x,
        {
            proof {
                lemma_index(w as int, h as int, x as int, y as int);
            }
            let px = white.pixels[y as usize * w as usize + x as usize];
            let mut set = false;
            if x < mask.width && y < mask.height {
                proof {
                    lemma_index(mask.width as int, mask.height as int, x as int, y as int);
                }
                set = mask.pixels[y as usize * mask.width as usize + x as usize] != 0;
            }
            if set {
                pixels.push([tint_channel(px[0], 0), tint_channel(px[1], 200), tint_channel(px[2], 0)]);
            } else {
                pixels.push(px);
            }
            x = x + 1;
        }
        proof {
            lemma_next_row(w as int, y as int);
        }
        y = y + 1;
    }
    let out = Raster { width: w, height: h, pixels };
    proof {
        assert(h * w == w * h) by (nonlinear_arith);
        assert forall|x: int, y: int, c: int| out.has(x, y) && 0 <= c < 3 implies #[trigger] out.at(
            x,
            y,
        )@[c] == {
            let white = over_white(cutout.at(x, y)@[c] as int, cutout.at(x, y)@[3] as int);
            if masked(*mask, x, y) {
                tinted(white, tint(c))
            } else {
                white
            }
        } by {
            lemma_index(w as int, h as int, x, y);
            assert(white.pixels@[y * w + x]@[c] == over_white(
                cutout.at(x, y)@[c] as int,
                cutout.at(x, y)@[3] as int,
            ));
        }
    }
    out
}

} // verus!
