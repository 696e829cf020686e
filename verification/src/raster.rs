//! Images as plain pixel grids: the pixels row by row, whatever a pixel is.
use crate::grid::{col, lemma_index, lemma_next_row, row};
use vstd::prelude::*;

verus! {

/// A `width` by `height` image of pixels of type `P`, row by row from the top left.
#[derive(Clone, Debug, PartialEq, Eq)]
pub struct Raster<P> {
    pub width: u32,
    pub height: u32,
    pub pixels: Vec<P>,
}

/// One 8-bit luminance per pixel.
pub type GrayImage = Raster<u8>;

/// Red, green and blue, 8 bits each.
pub type RgbImage = Raster<[u8; 3]>;

/// Red, green, blue and alpha, 8 bits each.
pub type RgbaImage = Raster<[u8; 4]>;

/// Red, green, blue and alpha, 16 bits each.
pub type Rgba16Image = Raster<[u16; 4]>;

impl<P> Raster<P> {
    /// Whether there is one pixel for each place of the grid.
    pub open spec fn wf(&self) -> bool {
        self.pixels@.len() == self.width * self.height
    }

    /// The pixel in column `x` of row `y`.
    pub open spec fn at(&self, x: int, y: int) -> P {
        self.pixels@[y * self.width + x]
    }

    /// Whether column `x` of row `y` lies in the image.
    pub open spec fn has(&self, x: int, y: int) -> bool {
        0 <= x < self.width && 0 <= y < self.height
    }
}

/// Whether `out` shows the `w` by `h` pixels of `img` whose top left is column `x` of row `y`.
pub open spec fn is_crop<P>(img: Raster<P>, x: int, y: int, w: int, h: int, out: Raster<P>) -> bool {
    &&& out.wf()
    &&& out.width == w
    &&& out.height == h
    &&& forall|i: int, j: int| out.has(i, j) ==> #[trigger] out.at(i, j) == img.at(x + i, y + j)
}

/// Where the pixel in column `i` of row `j` of a `w` by `h` image turned clockwise by `turns`
/// quarter-turns comes from.
pub open spec fn turned_from(turns: int, w: int, h: int, i: int, j: int) -> (int, int) {
    let t = turns % 4;
    if t == 1 {
        (j, h - 1 - i)
    } else if t == 2 {
        (w - 1 - i, h - 1 - j)
    } else if t == 3 {
        (w - 1 - j, i)
    } else {
        (i, j)
    }
}

/// Whether `out` is `img` turned clockwise by `turns` quarter-turns.
pub open spec fn is_turned<P>(img: Raster<P>, turns: int, out: Raster<P>) -> bool {
    &&& out.wf()
    &&& turns % 2 == 0 ==> out.width == img.width && out.height == img.height
    &&& turns % 2 != 0 ==> out.width == img.height && out.height == img.width
    &&& forall|i: int, j: int|
        out.has(i, j) ==> #[trigger] out.at(i, j) == {
            let from = turned_from(turns, img.width as int, img.height as int, i, j);
            img.at(from.0, from.1)
        }
}

/// The `w` by `h` pixels of `img` whose top left is column `x` of row `y`.
pub fn crop<P: Copy>(img: &Raster<P>, x: u32, y: u32, w: u32, h: u32) -> (out: Raster<P>)
    requires
        img.wf(),
        x + w <= img.width,
        y + h <= img.height,
    ensures
        is_crop(*img, x as int, y as int, w as int, h as int, out),
{
    let mut pixels: Vec<P> = Vec::new();
    let total: usize = img.pixels.len();
    let mut j: u32 = 0;
    assert(0 * w == 0) by (nonlinear_arith);
    while j < h
        invariant
            img.wf(),
            total == img.pixels@.len(),
            x + w <= img.width,
            y + h <= img.height,
            j <= h,
            pixels@.len() == j * w,
            forall|k: int|
                0 <= k < pixels@.len() ==> #[trigger] pixels@[k] == img.at(
                    x + col(w as int, k),
                    y + row(w as int, k),
                ),
        decreases h - j,
    {
        let mut i: u32 = 0;
        while i < w
            invariant
                img.wf(),
                total == img.pixels@.len(),
                x + w <= img.width,
                y + h <= img.height,
                j < h,
                i <= w,
                pixels@.len() == j * w + i,
                forall|k: int|
                    0 <= k < pixels@.len() ==> #[trigger] pixels@[k] == img.at(
                        x + col(w as int, k),
                        y + row(w as int, k),
                    ),
            decreases w - i,
        {
            proof {
                lemma_index(img.width as int, img.height as int, x + i, y + j);
                lemma_index(w as int, h as int, i as int, j as int);
            }
            let from: usize = (y + j) as usize * img.width as usize + (x + i) as usize;
            pixels.push(img.pixels[from]);
            i = i + 1;
        }
        proof {
            lemma_next_row(w as int, j as int);
        }
        j = j + 1;
    }
    let out = Raster { width: w, height: h, pixels };
    proof {
        assert(h * w == w * h) by (nonlinear_arith);
        assert forall|i: int, j: int| out.has(i, j) implies #[trigger] out.at(i, j) == img.at(
            x + i,
            y + j,
        ) by {
            lemma_index(w as int, h as int, i, j);
        }
    }
    out
}

/// `img` turned clockwise by `turns` quarter-turns.
pub fn turn<P: Copy>(img: &Raster<P>, turns: u8) -> (out: Raster<P>)
    requires
        img.wf(),
    ensures
        is_turned(*img, turns as int, out),
{
    let t: u8 = turns % 4;
    let w: u32 = if t % 2 == 0 { img.width } else { img.height };
    let h: u32 = if t % 2 == 0 { img.height } else { img.width };
    let mut pixels: Vec<P> = Vec::new();
    let total: usize = img.pixels.len();
    let mut j: u32 = 0;
    assert(0 * w == 0) by (nonlinear_arith);
    while j < h
        invariant
            img.wf(),
            total == img.pixels@.len(),
            t == turns % 4,
            w == if t % 2 == 0 { img.width } else { img.height },
            h == if t % 2 == 0 { img.height } else { img.width },
            j <= h,
            pixels@.len() == j * w,
            forall|k: int| 0 <= k < pixels@.len() ==> #[trigger] pixels@[k] == {
                let from = turned_from(turns as int, img.width as int, img.height as int, col(w as int, k), row(w as int, k));
                img.at(from.0, from.1)
            },
        decreases h - j,
    {
        let mut i: u32 = 0;
        while i < w
            invariant
                img.wf(),
                total == img.pixels@.len(),
                t == turns % 4,
                w == if t % 2 == 0 { img.width } else { img.height },
                h == if t % 2 == 0 { img.height } else { img.width },
                j < h,
                i <= w,
                pixels@.len() == j * w + i,
                forall|k: int| 0 <= k < pixels@.len() ==> #[trigger] pixels@[k] == {
                    let from = turned_from(turns as int, img.width as int, img.height as int, col(w as int, k), row(w as int, k));
                    img.at(from.0, from.1)
                },
            decreases w - i,
        {
            let (x, y): (u32, u32) = if t == 1 {
                (j, img.height - 1 - i)
            } else if t == 2 {
                (img.width - 1 - i, img.height - 1 - j)
            } else if t == 3 {
                (img.width - 1 - j, i)
            } else {
                (i, j)
            };
            proof {
                lemma_index(img.width as int, img.height as int, x as int, y as int);
                lemma_index(w as int, h as int, i as int, j as int);
            }
            let from: usize = y as usize * img.width as usize + x as usize;
            pixels.push(img.pixels[from]);
            i = i + 1;
        }
        proof {
            lemma_next_row(w as int, j as int);
        }
        j = j + 1;
    }
    let out = Raster { width: w, height: h, pixels };
    proof {
        assert(h * w == w * h) by (nonlinear_arith);
        assert forall|i: int, j: int| out.has(i, j) implies #[trigger] out.at(i, j) == {
            let from = turned_from(turns as int, img.width as int, img.height as int, i, j);
            img.at(from.0, from.1)
        } by {
            lemma_index(w as int, h as int, i, j);
        }
    }
    out
}

/// A `w` by `h` image of the one pixel `p`.
pub fn filled<P: Copy>(w: u32, h: u32, p: P) -> (out: Raster<P>)
    requires
        w * h <= usize::MAX,
    ensures
        out.wf(),
        out.width == w,
        out.height == h,
        forall|k: int| 0 <= k < w * h ==> #[trigger] out.pixels@[k] == p,
{
    let n: usize = w as usize * h as usize;
    let mut pixels: Vec<P> = Vec::new();
    let mut k: usize = 0;
    while k < n
        invariant
            k <= n,
            pixels@.len() == k,
            forall|i: int| 0 <= i < k ==> #[trigger] pixels@[i] == p,
        decreases n - k,
    {
        pixels.push(p);
        k = k + 1;
    }
    Raster { width: w, height: h, pixels }
}

} // verus!
