//! Connected-component labelling and per-object cropping.
use crate::graph::{
    closed_under, lemma_below_finite, lemma_closed_holds_reach, lemma_reach_back,
    lemma_reach_edge, lemma_reach_self, lemma_reach_step, lemma_root,
    lemma_root_of_root, lemma_same_root, piece, reachable, root_of, symmetric,
};
use crate::grid::{col, joined8, lemma_coords, lemma_index, lemma_next_row, row};
use crate::raster::{Raster, Rgba16Image, RgbaImage};
use crate::ranking::{largest_first, ranked};
use vstd::prelude::*;

verus! {

/// A labelled connected component: its bounding box and pixel count.
#[derive(Clone, Copy, Debug, PartialEq, Eq, Structural)]
pub struct Object {
    pub label: usize,
    pub area: usize,
    pub min_x: usize,
    pub min_y: usize,
    pub max_x: usize,
    pub max_y: usize,
}

/// Whether the box is the smallest that holds every pixel of `pixels`, a set that is not empty.
pub open spec fn bounds_of(obj: Object, w: int, pixels: Set<int>) -> bool {
    &&& forall|q: int| #[trigger] pixels.contains(q) ==> obj.min_x <= col(w, q) <= obj.max_x
    &&& forall|q: int| #[trigger] pixels.contains(q) ==> obj.min_y <= row(w, q) <= obj.max_y
    &&& exists|q: int| #[trigger] pixels.contains(q) && col(w, q) == obj.min_x
    &&& exists|q: int| #[trigger] pixels.contains(q) && col(w, q) == obj.max_x
    &&& exists|q: int| #[trigger] pixels.contains(q) && row(w, q) == obj.min_y
    &&& exists|q: int| #[trigger] pixels.contains(q) && row(w, q) == obj.max_y
}

/// Whether `obj` gives the count and the bounding box of `pixels`.
pub open spec fn describes(obj: Object, w: int, pixels: Set<int>) -> bool {
    &&& obj.area == pixels.len()
    &&& bounds_of(obj, w, pixels)
}

/// Whether `objects` describes each region of `regions` once, largest first, the label of an
/// object being the position of its region counted from one.
pub open spec fn lists_regions(objects: Seq<Object>, w: int, regions: Seq<Set<int>>) -> bool {
    &&& objects.len() == regions.len()
    &&& ranked(objects)
    &&& forall|i: int|
        0 <= i < objects.len() ==> 1 <= #[trigger] objects[i].label <= regions.len() && describes(
            objects[i],
            w,
            regions[objects[i].label - 1],
        )
    &&& forall|i: int, j: int|
        0 <= i < j < objects.len() ==> objects[i].label != objects[j].label
}

/// Whether `r` is the first pixel of an 8-connected region of at least `min_area` pixels.
pub open spec fn is_kept_root(on: Seq<bool>, w: int, n: int, min_area: int, r: int) -> bool {
    let adj = joined8(on, w, n);
    on[r] && root_of(adj, r) == r && piece(adj, n, r).len() >= min_area
}

/// The first pixels, below `upto`, of the 8-connected regions of at least `min_area` pixels.
pub open spec fn kept_roots(
    on: Seq<bool>,
    w: int,
    n: int,
    min_area: int,
    upto: int,
) -> Seq<int>
    decreases upto,
{
    if upto <= 0 {
        Seq::empty()
    } else {
        let earlier = kept_roots(on, w, n, min_area, upto - 1);
        if is_kept_root(on, w, n, min_area, upto - 1) {
            earlier.push(upto - 1)
        } else {
            earlier
        }
    }
}

/// The 8-connected regions of at least `min_area` pixels, in the order of their first pixels.
pub open spec fn kept_regions(on: Seq<bool>, w: int, n: int, min_area: int) -> Seq<Set<int>> {
    kept_roots(on, w, n, min_area, n).map_values(|r: int| piece(joined8(on, w, n), n, r))
}

/// The label of the pixels of a region that is too small to be kept. No object has it.
pub const DISCARDED: usize = usize::MAX;

/// Whether `labels` tells the pixels of each kept region apart from all others: background has
/// the label zero, the kept regions are numbered from one in the order of their first pixels, and
/// what belongs to a region that is too small has a label that no kept region has.
pub open spec fn labels_components(
    labels: Seq<usize>,
    on: Seq<bool>,
    w: int,
    n: int,
    min_area: int,
) -> bool {
    let regions = kept_regions(on, w, n, min_area);
    &&& labels.len() == on.len()
    &&& forall|p: int| 0 <= p < on.len() ==> (#[trigger] labels[p] == 0 <==> !(p < n && on[p]))
    &&& forall|p: int, k: int|
        0 <= p < n && 0 <= k < regions.len() ==> (#[trigger] labels[p] == k + 1
            <==> #[trigger] regions[k].contains(p))
    &&& forall|p: int|
        0 <= p < n && on[p] && !in_kept(on, w, n, min_area, p) ==> #[trigger] labels[p] == DISCARDED
}

/// Whether the region of pixel `p` has at least `min_area` pixels.
pub open spec fn in_kept(fg: Seq<bool>, w: int, n: int, min_area: int, p: int) -> bool {
    fg[p] && piece(joined8(fg, w, n), n, p).len() >= min_area
}

/// The label of a foreground pixel: one more than the number of kept regions that start before
/// its own region does, if that is kept.
spec fn label_of(on: Seq<bool>, w: int, n: int, min_area: int, p: int) -> int {
    let r = root_of(joined8(on, w, n), p);
    if is_kept_root(on, w, n, min_area, r) {
        kept_roots(on, w, n, min_area, r).len() as int + 1
    } else {
        DISCARDED as int
    }
}

/// Whether the objects, numbered from one, describe the regions of `regions` in turn.
pub open spec fn numbers_regions(objects: Seq<Object>, w: int, regions: Seq<Set<int>>) -> bool {
    &&& objects.len() == regions.len()
    &&& forall|k: int|
        0 <= k < objects.len() ==> #[trigger] objects[k].label == k + 1 && describes(
            objects[k],
            w,
            regions[k],
        )
}

/// Whether the objects, numbered from one, describe the pieces of the nodes of `roots` in turn.
spec fn numbers_pieces(
    objects: Seq<Object>,
    w: int,
    adj: spec_fn(int, int) -> bool,
    n: int,
    roots: Seq<int>,
) -> bool {
    &&& objects.len() == roots.len()
    &&& forall|k: int|
        0 <= k < objects.len() ==> #[trigger] objects[k].label == k + 1 && describes(
            objects[k],
            w,
            piece(adj, n, roots[k]),
        )
}

proof fn lemma_joined8_symmetric(on: Seq<bool>, w: int, n: int)
    ensures
        symmetric(joined8(on, w, n)),
{
}

/// Whether `obj` counts the pixels of `pixels` and, where there are any, bounds them.
pub open spec fn measures(obj: Object, w: int, pixels: Set<int>) -> bool {
    &&& pixels.finite()
    &&& obj.area == pixels.len()
    &&& obj.area > 0 ==> bounds_of(obj, w, pixels)
}

/// The object with one more pixel counted in, in column `x` of row `y`.
pub(crate) fn include_pixel(
    obj: Object,
    x: usize,
    y: usize,
    Ghost(w): Ghost<int>,
    Ghost(pixels): Ghost<Set<int>>,
) -> (r: Object)
    requires
        obj.area < usize::MAX,
        measures(obj, w, pixels),
        !pixels.contains(y * w + x),
        col(w, y * w + x) == x,
        row(w, y * w + x) == y,
    ensures
        r.label == obj.label,
        measures(r, w, pixels.insert(y * w + x)),
{
    let ghost p = y * w + x;
    let ghost more = pixels.insert(p);
    if obj.area == 0 {
        let r = Object { label: obj.label, area: 1, min_x: x, min_y: y, max_x: x, max_y: y };
        proof {
            pixels.lemma_len0_is_empty();
            assert(more.contains(p));
        }
        return r;
    }
    let r = Object {
        label: obj.label,
        area: obj.area + 1,
        min_x: if x < obj.min_x { x } else { obj.min_x },
        min_y: if y < obj.min_y { y } else { obj.min_y },
        max_x: if x > obj.max_x { x } else { obj.max_x },
        max_y: if y > obj.max_y { y } else { obj.max_y },
    };
    proof {
        assert(more.contains(p));
        let left = choose|q: int| #[trigger] pixels.contains(q) && col(w, q) == obj.min_x;
        let right = choose|q: int| #[trigger] pixels.contains(q) && col(w, q) == obj.max_x;
        let top = choose|q: int| #[trigger] pixels.contains(q) && row(w, q) == obj.min_y;
        let bottom = choose|q: int| #[trigger] pixels.contains(q) && row(w, q) == obj.max_y;
        assert(more.contains(left) && more.contains(right));
        assert(more.contains(top) && more.contains(bottom));
    }
    r
}

/// The state of a flood from `s`: `found` are the pixels that hold the new label, `done` those
/// whose neighbours were looked at, `pending` those that wait for it.
spec fn flooding(
    on: Seq<bool>,
    w: int,
    h: int,
    before: Seq<usize>,
    labels: Seq<usize>,
    label: usize,
    s: int,
    found: Set<int>,
    done: Set<int>,
    pending: Seq<int>,
) -> bool {
    &&& labels.len() == before.len() == on.len()
    &&& forall|q: int|
        0 <= q < on.len() ==> #[trigger] labels[q] == if found.contains(q) {
            label
        } else {
            before[q]
        }
    &&& found.contains(s)
    &&& forall|q: int| #[trigger]
        found.contains(q) ==> 0 <= q < w * h && on[q] && before[q] == 0 && reachable(
            joined8(on, w, w * h),
            s,
            q,
        )
    &&& forall|i: int|
        0 <= i < pending.len() ==> found.contains(#[trigger] pending[i]) && !done.contains(
            pending[i],
        )
    &&& forall|i: int, j: int| 0 <= i < j < pending.len() ==> pending[i] != pending[j]
    &&& forall|q: int| #[trigger]
        found.contains(q) ==> done.contains(q) || pending.contains(q)
    &&& done.subset_of(found)
}

/// Whether the coordinates on the stack are those of the pixels of `pending`.
spec fn stands_for(stack: Seq<(usize, usize)>, w: int, h: int, pending: Seq<int>) -> bool {
    &&& stack.len() == pending.len()
    &&& forall|i: int|
        0 <= i < pending.len() ==> {
            &&& (#[trigger] stack[i]).0 < w
            &&& stack[i].1 < h
            &&& pending[i] == stack[i].1 * w + stack[i].0
        }
}

/// Whether every edge from `done` leads into `found`.
spec fn closed_from(adj: spec_fn(int, int) -> bool, done: Set<int>, found: Set<int>) -> bool {
    forall|a: int, b: int| done.contains(a) && #[trigger] adj(a, b) ==> found.contains(b)
}

/// Whether `members` lists the pixels of `pixels`.
spec fn holds(members: Seq<usize>, pixels: Set<int>) -> bool {
    &&& forall|i: int| 0 <= i < members.len() ==> pixels.contains(#[trigger] members[i] as int)
    &&& forall|q: int| #[trigger] pixels.contains(q) ==> members.contains(q as usize)
}

/// Gives `label` to every pixel of the 8-connected region of the pixel in column `sx` of row
/// `sy`, measures that region and lists its pixels.
fn label_region(
    fg: &[bool],
    w: usize,
    h: usize,
    labels: &mut Vec<usize>,
    label: usize,
    sx: usize,
    sy: usize,
) -> (r: (Object, Vec<usize>))
    requires
        w * h <= fg@.len(),
        old(labels)@.len() == fg@.len(),
        sx < w,
        sy < h,
        label > 0,
        fg@[sy * w + sx],
        old(labels)@[sy * w + sx] == 0,
        forall|p: int, q: int| #[trigger]
            joined8(fg@, w as int, w * h)(p, q) ==> (old(labels)@[p] == 0 <==> old(labels)@[q]
                == 0),
    ensures
        final(labels)@.len() == old(labels)@.len(),
        forall|q: int|
            0 <= q < fg@.len() ==> #[trigger] final(labels)@[q] == if q < w * h && reachable(
                joined8(fg@, w as int, w * h),
                sy * w + sx,
                q,
            ) {
                label
            } else {
                old(labels)@[q]
            },
        r.0.label == label,
        describes(r.0, w as int, piece(joined8(fg@, w as int, w * h), w * h, sy * w + sx)),
        holds(r.1@, piece(joined8(fg@, w as int, w * h), w * h, sy * w + sx)),
{
    let ghost n = w * h;
    let ghost adj = joined8(fg@, w as int, n);
    let ghost s = sy * w + sx;
    let ghost before = labels@;
    let total: usize = fg.len();
    proof {
        lemma_index(w as int, h as int, sx as int, sy as int);
        lemma_reach_self(adj, s);
    }
    let mut obj = Object { label, area: 0, min_x: sx, min_y: sy, max_x: sx, max_y: sy };
    let mut members: Vec<usize> = Vec::new();
    let mut stack: Vec<(usize, usize)> = Vec::new();
    labels.set(sy * w + sx, label);
    stack.push((sx, sy));
    let ghost mut found = set![s];
    let ghost mut done = Set::<int>::empty();
    let ghost mut pending = seq![s];
    assert(pending[0] == s);
    while stack.len() > 0
        invariant
            n == w * h,
            n <= total == fg@.len(),
            adj == joined8(fg@, w as int, n),
            forall|p: int, q: int| #[trigger]
                adj(p, q) ==> (before[p] == 0 <==> before[q] == 0),
            label > 0,
            flooding(fg@, w as int, h as int, before, labels@, label, s, found, done, pending),
            stands_for(stack@, w as int, h as int, pending),
            closed_from(adj, done, found),
            obj.label == label,
            measures(obj, w as int, done),
            holds(members@, done),
        decreases n - done.len(),
    {
        let (x, y) = stack.pop().unwrap();
        let ghost p = y * w + x;
        proof {
            assert(pending[pending.len() - 1] == p);
            lemma_index(w as int, h as int, x as int, y as int);
            let rest = pending.drop_last();
            assert forall|q: int| #[trigger] found.contains(q) implies done.insert(p).contains(q)
                || rest.contains(q) by {
                if !done.contains(q) && q != p {
                    let i = choose|i: int| 0 <= i < pending.len() && pending[i] == q;
                    assert(rest[i] == q);
                }
            }
            lemma_below_finite(done.insert(p), n);
            pending = rest;
        }
        obj = include_pixel(obj, x, y, Ghost(w as int), Ghost(done));
        let ghost listed = members@;
        members.push(y * w + x);
        proof {
            assert(members@[listed.len() as int] == p);
            assert forall|q: int| #[trigger] done.insert(p).contains(q) implies members@.contains(
                q as usize,
            ) by {
                if q != p {
                    let i = choose|i: int| 0 <= i < listed.len() && listed[i] == q as usize;
                    assert(members@[i] == q as usize);
                }
            }
            assert(holds(members@, done.insert(p)));
        }
        let x0: usize = if x > 0 { x - 1 } else { 0 };
        let y0: usize = if y > 0 { y - 1 } else { 0 };
        let x1: usize = if x + 1 < w { x + 1 } else { w - 1 };
        let y1: usize = if y + 1 < h { y + 1 } else { h - 1 };
        let ghost done0 = done;
        proof {
            done = done.insert(p);
        }
        let mut ny: usize = y0;
        while ny <= y1
            invariant
                n == w * h,
                n <= total == fg@.len(),
                adj == joined8(fg@, w as int, n),
                forall|a: int, b: int| #[trigger]
                    adj(a, b) ==> (before[a] == 0 <==> before[b] == 0),
                label > 0,
                flooding(fg@, w as int, h as int, before, labels@, label, s, found, done, pending),
                stands_for(stack@, w as int, h as int, pending),
                closed_from(adj, done0, found),
                found.contains(p),
                col(w as int, p) == x < w,
                row(w as int, p) == y < h,
                x0 == if x > 0 { x - 1 } else { 0 },
                y0 == if y > 0 { y - 1 } else { 0 },
                x1 == if x + 1 < w { x + 1 } else { w - 1 },
                y1 == if y + 1 < h { y + 1 } else { h - 1 },
                y0 <= ny <= y1 + 1,
                forall|q: int| #[trigger]
                    adj(p, q) && row(w as int, q) < ny ==> found.contains(q),
            decreases y1 + 1 - ny,
        {
            let mut nx: usize = x0;
            while nx <= x1
                invariant
                    n == w * h,
                    n <= total == fg@.len(),
                    adj == joined8(fg@, w as int, n),
                    forall|a: int, b: int| #[trigger]
                        adj(a, b) ==> (before[a] == 0 <==> before[b] == 0),
                    label > 0,
                    flooding(
                        fg@,
                        w as int,
                        h as int,
                        before,
                        labels@,
                        label,
                        s,
                        found,
                        done,
                        pending,
                    ),
                    stands_for(stack@, w as int, h as int, pending),
                    closed_from(adj, done0, found),
                    found.contains(p),
                    col(w as int, p) == x < w,
                    row(w as int, p) == y < h,
                    x0 == if x > 0 { x - 1 } else { 0 },
                    y0 == if y > 0 { y - 1 } else { 0 },
                    x1 == if x + 1 < w { x + 1 } else { w - 1 },
                    y1 == if y + 1 < h { y + 1 } else { h - 1 },
                    y0 <= ny <= y1,
                    x0 <= nx <= x1 + 1,
                    forall|q: int| #[trigger]
                        adj(p, q) && (row(w as int, q) < ny || row(w as int, q) == ny && col(
                            w as int,
                            q,
                        ) < nx) ==> found.contains(q),
                decreases x1 + 1 - nx,
            {
                proof {
                    lemma_index(w as int, h as int, nx as int, ny as int);
                }
                let m: usize = ny * w + nx;
                let ghost pending0 = pending;
                proof {
                    assert forall|q: int| #[trigger]
                        adj(p, q) && row(w as int, q) == ny && col(w as int, q) == nx implies q
                        == m by {
                        lemma_coords(w as int, h as int, q);
                    }
                    if fg@[m as int] {
                        assert(adj(p, m as int));
                    }
                }
                if fg[m] && labels[m] == 0 {
                    labels.set(m, label);
                    stack.push((nx, ny));
                    proof {
                        assert(!found.contains(m as int));
                        lemma_reach_step(adj, s, p, m as int);
                        found = found.insert(m as int);
                        pending = pending.push(m as int);
                        assert(pending[pending.len() - 1] == m);
                        assert forall|q: int| #[trigger]
                            found.contains(q) implies done.contains(q) || pending.contains(q) by {
                            if q != m && !done.contains(q) {
                                let i = choose|i: int|
                                    0 <= i < pending0.len() && pending0[i] == q;
                                assert(pending[i] == q);
                            }
                        }
                    }
                } else {
                    assert(fg@[m as int] ==> found.contains(m as int));
                }
                nx = nx + 1;
            }
            ny = ny + 1;
        }
        proof {
            assert forall|q: int| #[trigger] adj(p, q) implies found.contains(q) by {
                lemma_coords(w as int, h as int, q);
            }
        }
    }
    proof {
        let whole = piece(adj, n, s);
        assert(done =~= found);
        assert(closed_under(adj, found));
        assert forall|q: int| #[trigger] whole.contains(q) implies found.contains(q) by {
            lemma_closed_holds_reach(adj, found, s, q);
        }
        assert(found =~= whole);
        assert forall|q: int| 0 <= q < fg@.len() implies #[trigger] labels@[q] == if q < n
            && reachable(adj, s, q) {
            label
        } else {
            before[q]
        } by {
            assert(found.contains(q) == whole.contains(q));
        }
    }
    (obj, members)
}

/// Labels the pixels of a region that is too small to be kept.
fn discard(labels: &mut Vec<usize>, members: &Vec<usize>, Ghost(region): Ghost<Set<int>>)
    requires
        holds(members@, region),
        forall|q: int| #[trigger] region.contains(q) ==> 0 <= q < old(labels)@.len(),
        old(labels)@.len() <= usize::MAX,
    ensures
        final(labels)@.len() == old(labels)@.len(),
        forall|q: int|
            0 <= q < old(labels)@.len() ==> #[trigger] final(labels)@[q] == if region.contains(q) {
                DISCARDED
            } else {
                old(labels)@[q]
            },
{
    let ghost before = labels@;
    let mut i: usize = 0;
    while i < members.len()
        invariant
            i <= members@.len(),
            holds(members@, region),
            labels@.len() == before.len(),
            before.len() <= usize::MAX,
            forall|q: int| #[trigger] region.contains(q) ==> 0 <= q < before.len(),
            forall|q: int|
                0 <= q < before.len() ==> #[trigger] labels@[q] == if members@.subrange(
                    0,
                    i as int,
                ).contains(q as usize) {
                    DISCARDED
                } else {
                    before[q]
                },
        decreases members@.len() - i,
    {
        let ghost listed = members@.subrange(0, i as int);
        let ghost longer = members@.subrange(0, i + 1);
        assert(region.contains(members@[i as int] as int));
        let at: usize = members[i];
        labels.set(at, DISCARDED);
        proof {
            assert(longer[i as int] == at);
            assert forall|q: int| 0 <= q < before.len() implies #[trigger] labels@[q]
                == if longer.contains(q as usize) {
                DISCARDED
            } else {
                before[q]
            } by {
                if listed.contains(q as usize) {
                    let k = choose|k: int| 0 <= k < listed.len() && listed[k] == q as usize;
                    assert(longer[k] == q as usize);
                }
                if longer.contains(q as usize) && q != at {
                    let k = choose|k: int| 0 <= k < longer.len() && longer[k] == q as usize;
                    assert(listed[k] == q as usize);
                }
            }
        }
        i = i + 1;
    }
    proof {
        assert(members@.subrange(0, i as int) =~= members@);
        assert forall|q: int| 0 <= q < before.len() implies members@.contains(q as usize)
            == region.contains(q) by {
            if members@.contains(q as usize) {
                let k = choose|k: int| 0 <= k < members@.len() && members@[k] == q as usize;
                assert(region.contains(members@[k] as int));
            }
        }
    }
}

/// A kept root stands, among all kept roots, behind those before it.
pub proof fn lemma_kept_place(fg: Seq<bool>, w: int, n: int, min_area: int, r: int, upto: int)
    requires
        0 <= r < upto,
        is_kept_root(fg, w, n, min_area, r),
    ensures
        kept_roots(fg, w, n, min_area, r).len() < kept_roots(fg, w, n, min_area, upto).len(),
        kept_roots(fg, w, n, min_area, upto)[kept_roots(fg, w, n, min_area, r).len() as int] == r,
    decreases upto - r,
{
    if r < upto - 1 {
        lemma_kept_place(fg, w, n, min_area, r, upto - 1);
    }
}

/// Each kept root is one, and stands at its place.
pub proof fn lemma_kept_root_at(fg: Seq<bool>, w: int, n: int, min_area: int, upto: int, k: int)
    requires
        0 <= k < kept_roots(fg, w, n, min_area, upto).len(),
    ensures
        ({
            let r = kept_roots(fg, w, n, min_area, upto)[k];
            0 <= r < upto && is_kept_root(fg, w, n, min_area, r) && kept_roots(
                fg,
                w,
                n,
                min_area,
                r,
            ).len() == k
        }),
    decreases upto,
{
    if upto > 0 {
        let earlier = kept_roots(fg, w, n, min_area, upto - 1);
        if k < earlier.len() {
            lemma_kept_root_at(fg, w, n, min_area, upto - 1, k);
        }
    }
}

pub proof fn lemma_joined_fg(fg: Seq<bool>, w: int, n: int, p: int, q: int)
    requires
        reachable(joined8(fg, w, n), p, q),
        fg[p],
        0 <= p < n,
    ensures
        fg[q],
        0 <= q < n,
{
    let on = Set::new(|x: int| 0 <= x < n && fg[x]);
    assert(closed_under(joined8(fg, w, n), on));
    lemma_closed_holds_reach(joined8(fg, w, n), on, p, q);
}

/// The root of a kept region is a kept root.
pub proof fn lemma_kept_has_root(fg: Seq<bool>, w: int, n: int, min_area: int, p: int)
    requires
        0 <= p < n,
        in_kept(fg, w, n, min_area, p),
    ensures
        is_kept_root(fg, w, n, min_area, root_of(joined8(fg, w, n), p)),
        0 <= root_of(joined8(fg, w, n), p) <= p,
{
    let adj = joined8(fg, w, n);
    let r = root_of(adj, p);
    assert(symmetric(adj));
    lemma_root(adj, p);
    lemma_root_of_root(adj, p);
    lemma_reach_back(adj, r, p);
    lemma_joined_fg(fg, w, n, p, r);
    assert(piece(adj, n, p) =~= piece(adj, n, r)) by {
        assert forall|q: int| 0 <= q < n implies reachable(adj, p, q) == reachable(adj, r, q) by {
            lemma_same_root(adj, p, q);
            lemma_same_root(adj, r, q);
        }
    }
}

proof fn lemma_kept_roots_len(on: Seq<bool>, w: int, n: int, min_area: int, upto: int)
    requires
        upto >= 0,
    ensures
        kept_roots(on, w, n, min_area, upto).len() <= upto,
    decreases upto,
{
    if upto > 0 {
        lemma_kept_roots_len(on, w, n, min_area, upto - 1);
    }
}

/// Some root below `upto` that is not kept leaves fewer kept ones than there are pixels.
proof fn lemma_kept_roots_fewer(on: Seq<bool>, w: int, n: int, min_area: int, upto: int, r: int)
    requires
        0 <= r < upto,
        !is_kept_root(on, w, n, min_area, r),
    ensures
        kept_roots(on, w, n, min_area, upto).len() < upto,
    decreases upto,
{
    if r == upto - 1 {
        lemma_kept_roots_len(on, w, n, min_area, upto - 1);
    } else {
        lemma_kept_roots_fewer(on, w, n, min_area, upto - 1, r);
    }
}

/// Labels given by region tell the regions apart.
proof fn lemma_labels_components(labels: Seq<usize>, on: Seq<bool>, w: int, n: int, min_area: int)
    requires
        labels.len() == on.len() <= usize::MAX,
        0 <= n <= on.len(),
        forall|p: int|
            0 <= p < on.len() ==> #[trigger] labels[p] == if p < n && on[p] {
                label_of(on, w, n, min_area, p)
            } else {
                0
            },
    ensures
        labels_components(labels, on, w, n, min_area),
{
    let adj = joined8(on, w, n);
    let roots = kept_roots(on, w, n, min_area, n);
    let regions = kept_regions(on, w, n, min_area);
    lemma_joined8_symmetric(on, w, n);
    assert forall|p: int, k: int| 0 <= p < n && 0 <= k < regions.len() implies (
    #[trigger] labels[p] == k + 1 <==> #[trigger] regions[k].contains(p)) by {
        lemma_kept_root_at(on, w, n, min_area, n, k);
        let r = roots[k];
        assert(regions[k] == piece(adj, n, r));
        lemma_same_root(adj, r, p);
        lemma_root(adj, p);
        let a = root_of(adj, p);
        if regions[k].contains(p) {
            lemma_joined_fg(on, w, n, r, p);
        } else if on[p] {
            if is_kept_root(on, w, n, min_area, a) {
                if a < r {
                    lemma_kept_place(on, w, n, min_area, a, r);
                } else if r < a {
                    lemma_kept_place(on, w, n, min_area, r, a);
                }
            } else {
                lemma_kept_roots_fewer(on, w, n, min_area, n, a);
            }
        }
    }
    assert forall|p: int|
        0 <= p < n && on[p] && !in_kept(on, w, n, min_area, p) implies #[trigger] labels[p]
        == DISCARDED by {
        let a = root_of(adj, p);
        lemma_root(adj, p);
        assert(piece(adj, n, p) =~= piece(adj, n, a)) by {
            assert forall|q: int| 0 <= q < n implies reachable(adj, p, q) == reachable(adj, a, q) by {
                lemma_root_of_root(adj, p);
                lemma_same_root(adj, p, q);
                lemma_same_root(adj, a, q);
            }
        }
    }
}

/// Objects numbered from one in the order of `regions`, put in order, list those regions.
pub proof fn lemma_ranked_lists(
    numbered: Seq<Object>,
    ordered: Seq<Object>,
    w: int,
    regions: Seq<Set<int>>,
)
    requires
        numbers_regions(numbered, w, regions),
        ranked(ordered),
        ordered.to_multiset() == numbered.to_multiset(),
    ensures
        lists_regions(ordered, w, regions),
{
    broadcast use vstd::seq_lib::group_to_multiset_ensures;

    assert(ordered.len() == ordered.to_multiset().len());
    assert(numbered.len() == numbered.to_multiset().len());
    assert forall|i: int| 0 <= i < ordered.len() implies 1 <= #[trigger] ordered[i].label
        <= regions.len() && ordered[i] == numbered[ordered[i].label - 1] by {
        assert(ordered.to_multiset().contains(ordered[i]));
        assert(numbered.contains(ordered[i]));
        let k = choose|k: int| 0 <= k < numbered.len() && numbered[k] == ordered[i];
        assert(numbered[k].label == k + 1);
    }
    assert forall|i: int, j: int|
        0 <= i < numbered.len() && 0 <= j < numbered.len() && i != j implies numbered[i]
        != numbered[j] by {
        assert(numbered[i].label == i + 1 && numbered[j].label == j + 1);
    }
    numbered.lemma_multiset_has_no_duplicates();
    ordered.lemma_multiset_has_no_duplicates_conv();
}

/// Label 8-connected foreground regions via iterative flood fill, keeping only those with at
/// least `min_area` pixels. Returns the per-pixel label map (0 = background) and the surviving
/// objects sorted largest-first. Each object's `label` indexes into the label map.
///
/// The pixels that carry an object's label are exactly its region. A region that is dropped is
/// labelled [`DISCARDED`], which no object is.
pub fn connected_components(fg: &[bool], w: usize, h: usize, min_area: usize) -> (r: (
    Vec<usize>,
    Vec<Object>,
))
    requires
        w * h <= fg@.len(),
    ensures
        labels_components(r.0@, fg@, w as int, w * h, min_area as int),
        lists_regions(r.1@, w as int, kept_regions(fg@, w as int, w * h, min_area as int)),
{
    let ghost n = w * h;
    let ghost adj = joined8(fg@, w as int, n);
    let ghost least = min_area as int;
    let total: usize = fg.len();
    let mut labels: Vec<usize> = vec![0usize; total];
    let mut objects: Vec<Object> = Vec::new();
    let ghost mut roots = Seq::<int>::empty();
    let mut sy: usize = 0;
    proof {
        lemma_joined8_symmetric(fg@, w as int, n);
        assert(0 * w == 0) by (nonlinear_arith);
        assert forall|p: int| 0 <= p < n implies #[trigger] root_of(adj, p) >= 0 by {
            lemma_root(adj, p);
        }
    }
    while sy < h
        invariant
            n == w * h,
            n <= total == fg@.len(),
            labels@.len() == total,
            adj == joined8(fg@, w as int, n),
            symmetric(adj),
            least == min_area,
            sy <= h,
            forall|p: int|
                0 <= p < total ==> #[trigger] labels@[p] == if p < n && fg@[p] && root_of(adj, p)
                    < sy * w {
                    label_of(fg@, w as int, n, least, p)
                } else {
                    0
                },
            roots == kept_roots(fg@, w as int, n, least, sy * w),
            numbers_pieces(objects@, w as int, adj, n, roots),
        decreases h - sy,
    {
        let mut sx: usize = 0;
        while sx < w
            invariant
                n == w * h,
                n <= total == fg@.len(),
                labels@.len() == total,
                adj == joined8(fg@, w as int, n),
                symmetric(adj),
                least == min_area,
                sy < h,
                sx <= w,
                forall|p: int|
                    0 <= p < total ==> #[trigger] labels@[p] == if p < n && fg@[p] && root_of(
                        adj,
                        p,
                    ) < sy * w + sx {
                        label_of(fg@, w as int, n, least, p)
                    } else {
                        0
                    },
                roots == kept_roots(fg@, w as int, n, least, sy * w + sx),
                numbers_pieces(objects@, w as int, adj, n, roots),
            decreases w - sx,
        {
            proof {
                lemma_index(w as int, h as int, sx as int, sy as int);
            }
            let start: usize = sy * w + sx;
            let ghost before = labels@;
            proof {
                lemma_root(adj, start as int);
                lemma_kept_roots_len(fg@, w as int, n, least, start as int);
                assert forall|p: int| 0 <= p < n && fg@[p] && root_of(adj, p) == start implies {
                    &&& #[trigger] fg@[p]
                    &&& fg@[start as int]
                    &&& root_of(adj, start as int) == start
                    &&& reachable(adj, start as int, p)
                } by {
                    lemma_root(adj, p);
                    lemma_same_root(adj, start as int, p);
                    if !fg@[start as int] {
                        lemma_background_alone(fg@, w as int, n, start as int, p);
                    }
                }
            }
            if fg[start] && labels[start] == 0 {
                let label: usize = objects.len() + 1;
                proof {
                    assert forall|p: int, q: int| #[trigger] adj(p, q) implies (labels@[p] == 0
                        <==> labels@[q] == 0) by {
                        lemma_reach_edge(adj, p, q);
                        lemma_same_root(adj, p, q);
                    }
                    assert(root_of(adj, start as int) == start);
                }
                let (obj, members) = label_region(fg, w, h, &mut labels, label, sx, sy);
                if obj.area >= min_area {
                    objects.push(obj);
                } else {
                    discard(&mut labels, &members, Ghost(piece(adj, n, start as int)));
                }
                proof {
                    assert forall|p: int| 0 <= p < total implies #[trigger] labels@[p] == if p < n
                        && fg@[p] && root_of(adj, p) < start + 1 {
                        label_of(fg@, w as int, n, least, p)
                    } else {
                        0
                    } by {
                        if p < n {
                            lemma_root(adj, p);
                            lemma_same_root(adj, start as int, p);
                            if reachable(adj, start as int, p) && !fg@[p] {
                                lemma_reach_back(adj, start as int, p);
                                lemma_background_alone(fg@, w as int, n, p, start as int);
                            }
                        }
                    }
                }
            }
            proof {
                roots = kept_roots(fg@, w as int, n, least, start + 1);
            }
            sx = sx + 1;
        }
        proof {
            lemma_next_row(w as int, sy as int);
        }
        sy = sy + 1;
    }
    let ghost numbered = objects@;
    let objects = largest_first(&objects);
    proof {
        assert(sy * w == n) by (nonlinear_arith)
            requires
                sy == h,
                n == w * h,
        ;
        assert forall|p: int| 0 <= p < n implies root_of(adj, p) < n by {
            lemma_root(adj, p);
        }
        lemma_ranked_lists(
            numbered,
            objects@,
            w as int,
            kept_regions(fg@, w as int, n, least),
        );
        lemma_labels_components(labels@, fg@, w as int, n, least);
    }
    (labels, objects)
}

proof fn lemma_background_alone(on: Seq<bool>, w: int, n: int, a: int, b: int)
    requires
        !on[a],
        reachable(joined8(on, w, n), a, b),
    ensures
        a == b,
{
    assert(closed_under(joined8(on, w, n), set![a]));
    lemma_closed_holds_reach(joined8(on, w, n), set![a], a, b);
}

/// The pixels among the first `n` that `instance` shows and no region of `regions` holds.
pub open spec fn claim(instance: Seq<bool>, n: int, regions: Seq<Set<int>>) -> Set<int> {
    Set::new(
        |i: int|
            0 <= i < n && instance[i] && forall|j: int|
                0 <= j < regions.len() ==> !(#[trigger] regions[j]).contains(i),
    )
}

/// The regions of the first `k` instances: each instance in turn claims the pixels that no
/// region holds yet, and what it claims is a region if it comes to `min_area` pixels and is not
/// empty.
pub open spec fn instance_regions(
    instances: Seq<Vec<bool>>,
    n: int,
    min_area: int,
    k: int,
) -> Seq<Set<int>>
    decreases k,
{
    if k <= 0 {
        Seq::empty()
    } else {
        let earlier = instance_regions(instances, n, min_area, k - 1);
        let claimed = claim(instances[k - 1]@, n, earlier);
        if claimed.len() >= 1 && claimed.len() >= min_area {
            earlier.push(claimed)
        } else {
            earlier
        }
    }
}

/// Whether the label of a pixel is the position of the region that holds it, counted from one,
/// and zero where none does.
pub open spec fn labels_regions(labels: Seq<usize>, regions: Seq<Set<int>>) -> bool {
    &&& forall|i: int| 0 <= i < labels.len() ==> #[trigger] labels[i] <= regions.len()
    &&& forall|i: int, j: int|
        0 <= i < labels.len() && 0 <= j < regions.len() ==> (#[trigger] labels[i] == j + 1
            <==> (#[trigger] regions[j]).contains(i))
}

/// Gives `label` to each pixel that `instance` shows and that has no label yet, and measures
/// those pixels.
fn claim_pixels(
    instance: &Vec<bool>,
    w: usize,
    h: usize,
    labels: &mut Vec<usize>,
    label: usize,
    Ghost(regions): Ghost<Seq<Set<int>>>,
) -> (obj: Object)
    requires
        w * h == old(labels)@.len(),
        w * h <= instance@.len(),
        labels_regions(old(labels)@, regions),
        label == regions.len() + 1,
    ensures
        final(labels)@.len() == old(labels)@.len(),
        forall|i: int|
            0 <= i < w * h ==> #[trigger] final(labels)@[i] == if claim(
                instance@,
                w * h,
                regions,
            ).contains(i) {
                label
            } else {
                old(labels)@[i]
            },
        obj.label == label,
        measures(obj, w as int, claim(instance@, w * h, regions)),
{
    let ghost n = w * h;
    let ghost before = labels@;
    let ghost claimed = claim(instance@, n, regions);
    let ghost mut part = Set::<int>::empty();
    let total: usize = labels.len();
    let mut obj = Object { label, area: 0, min_x: 0, min_y: 0, max_x: 0, max_y: 0 };
    let mut y: usize = 0;
    assert(0 * w == 0) by (nonlinear_arith);
    while y < h
        invariant
            n == w * h == total == before.len() == labels@.len(),
            n <= instance@.len(),
            y <= h,
            labels_regions(before, regions),
            label == regions.len() + 1,
            claimed == claim(instance@, n, regions),
            forall|i: int| #[trigger] part.contains(i) <==> i < y * w && claimed.contains(i),
            forall|i: int|
                0 <= i < n ==> #[trigger] labels@[i] == if part.contains(i) {
                    label
                } else {
                    before[i]
                },
            obj.label == label,
            measures(obj, w as int, part),
        decreases h - y,
    {
        let mut x: usize = 0;
        while x < w
            invariant
                n == w * h == total == before.len() == labels@.len(),
                n <= instance@.len(),
                y < h,
                x <= w,
                labels_regions(before, regions),
                label == regions.len() + 1,
                claimed == claim(instance@, n, regions),
                forall|i: int| #[trigger]
                    part.contains(i) <==> i < y * w + x && claimed.contains(i),
                forall|i: int|
                    0 <= i < n ==> #[trigger] labels@[i] == if part.contains(i) {
                        label
                    } else {
                        before[i]
                    },
                obj.label == label,
                measures(obj, w as int, part),
            decreases w - x,
        {
            proof {
                lemma_index(w as int, h as int, x as int, y as int);
            }
            let i: usize = y * w + x;
            proof {
                lemma_below_finite(part.insert(i as int), n);
                assert(!part.contains(i as int));
                assert(labels@[i as int] == before[i as int]);
                assert(claimed.contains(i as int) <==> instance@[i as int] && labels@[i as int]
                    == 0) by {
                    if before[i as int] != 0 {
                        let j = before[i as int] - 1;
                        assert(regions[j].contains(i as int));
                    } else {
                        assert forall|j: int| 0 <= j < regions.len() implies !(
                        #[trigger] regions[j]).contains(i as int) by {
                            assert(before[i as int] != j + 1);
                        }
                    }
                }
            }
            if instance[i] && labels[i] == 0 {
                labels.set(i, label);
                obj = include_pixel(obj, x, y, Ghost(w as int), Ghost(part));
                proof {
                    part = part.insert(i as int);
                }
            }
            x = x + 1;
        }
        proof {
            lemma_next_row(w as int, y as int);
        }
        y = y + 1;
    }
    proof {
        assert(y * w == n) by (nonlinear_arith)
            requires
                y == h,
                n == w * h,
        ;
        assert(part =~= claimed);
    }
    obj
}

/// Takes `label` off every pixel that has it.
fn clear_label(labels: &mut Vec<usize>, label: usize)
    ensures
        final(labels)@.len() == old(labels)@.len(),
        forall|i: int|
            0 <= i < old(labels)@.len() ==> #[trigger] final(labels)@[i] == if old(labels)@[i]
                == label {
                0
            } else {
                old(labels)@[i]
            },
{
    let ghost before = labels@;
    let mut i: usize = 0;
    while i < labels.len()
        invariant
            i <= labels@.len() == before.len(),
            forall|j: int|
                0 <= j < before.len() ==> #[trigger] labels@[j] == if j < i && before[j] == label {
                    0
                } else {
                    before[j]
                },
        decreases labels@.len() - i,
    {
        if labels[i] == label {
            labels.set(i, 0);
        }
        i = i + 1;
    }
}

/// Build a label map and objects from a set of instance masks, each a `w*h` foreground bitmap.
/// Unlike [`connected_components`], every instance stays a distinct object even if two instances
/// touch. Overlapping pixels go to the earliest instance; components below `min_area` are dropped
/// and the rest are returned largest-first.
pub fn objects_from_instances(
    instances: &[Vec<bool>],
    w: usize,
    h: usize,
    min_area: usize,
) -> (r: (Vec<usize>, Vec<Object>))
    requires
        w * h <= usize::MAX,
        forall|k: int| 0 <= k < instances@.len() ==> (#[trigger] instances@[k])@.len() >= w * h,
    ensures
        r.0@.len() == w * h,
        labels_regions(
            r.0@,
            instance_regions(instances@, w * h, min_area as int, instances@.len() as int),
        ),
        lists_regions(
            r.1@,
            w as int,
            instance_regions(instances@, w * h, min_area as int, instances@.len() as int),
        ),
{
    let ghost n = w * h;
    let ghost least = min_area as int;
    let ghost mut regions = Seq::<Set<int>>::empty();
    let mut labels: Vec<usize> = vec![0usize; w * h];
    let mut objects: Vec<Object> = Vec::new();
    let mut k: usize = 0;
    while k < instances.len()
        invariant
            n == w * h == labels@.len(),
            least == min_area,
            k <= instances@.len(),
            forall|i: int| 0 <= i < instances@.len() ==> (#[trigger] instances@[i])@.len() >= n,
            regions == instance_regions(instances@, n, least, k as int),
            regions.len() == objects@.len() <= k,
            labels_regions(labels@, regions),
            numbers_regions(objects@, w as int, regions),
        decreases instances@.len() - k,
    {
        let label: usize = objects.len() + 1;
        let ghost before = labels@;
        let ghost earlier = regions;
        let ghost claimed = claim(instances@[k as int]@, n, earlier);
        let obj = claim_pixels(&instances[k], w, h, &mut labels, label, Ghost(regions));
        proof {
            regions = instance_regions(instances@, n, least, k + 1);
        }
        if obj.area >= 1 && obj.area >= min_area {
            let ghost listed = objects@;
            objects.push(obj);
            proof {
                assert(regions == earlier.push(claimed));
                assert forall|i: int| 0 <= i < objects@.len() implies #[trigger] objects@[i].label
                    == i + 1 && describes(objects@[i], w as int, regions[i]) by {
                    if i < listed.len() {
                        assert(listed[i].label == i + 1);
                        assert(regions[i] == earlier[i]);
                    }
                }
                assert forall|i: int, j: int| 0 <= i < labels@.len() && 0 <= j < regions.len()
                    implies (#[trigger] labels@[i] == j + 1 <==> (#[trigger] regions[j]).contains(
                    i,
                )) by {
                    assert(before[i] <= earlier.len());
                    if j < earlier.len() {
                        assert(regions[j] == earlier[j]);
                    }
                }
            }
        } else {
            clear_label(&mut labels, label);
            proof {
                assert(regions == earlier);
                assert forall|i: int| 0 <= i < n implies #[trigger] labels@[i] == before[i] by {
                    assert(before[i] <= earlier.len());
                    if claimed.contains(i) && before[i] != 0 {
                        assert(earlier[before[i] - 1].contains(i));
                    }
                }
                assert(labels@ =~= before);
            }
        }
        k = k + 1;
    }
    let ghost numbered = objects@;
    let objects = largest_first(&objects);
    proof {
        lemma_ranked_lists(numbered, objects@, w as int, regions);
    }
    (labels, objects)
}

/// Whether the box of `obj` lies in a label map `w` wide with `n` labels, and has no more pixels
/// than can be counted.
pub open spec fn box_in(obj: Object, w: int, n: int) -> bool {
    &&& obj.min_x <= obj.max_x
    &&& obj.min_y <= obj.max_y
    &&& obj.max_y * w + obj.max_x < n
    &&& obj.max_x - obj.min_x + 1 <= u32::MAX
    &&& obj.max_y - obj.min_y + 1 <= u32::MAX
    &&& (obj.max_x - obj.min_x + 1) * (obj.max_y - obj.min_y + 1) <= usize::MAX
}

/// Whether column `x` of row `y` carries the label of `obj`.
pub open spec fn belongs(labels: Seq<usize>, w: int, obj: Object, x: int, y: int) -> bool {
    labels[y * w + x] == obj.label
}

/// Whether every pixel of the box of `obj` that carries its label lies in `img`.
pub open spec fn pixels_in<P>(img: Raster<P>, w: int, labels: Seq<usize>, obj: Object) -> bool {
    forall|x: int, y: int|
        obj.min_x <= x <= obj.max_x && obj.min_y <= y <= obj.max_y && #[trigger] belongs(
            labels,
            w,
            obj,
            x,
            y,
        ) ==> img.has(x, y)
}

pub proof fn lemma_box_index(obj: Object, w: int, n: int, x: int, y: int)
    requires
        0 <= w,
        box_in(obj, w, n),
        x <= obj.max_x,
        y <= obj.max_y,
    ensures
        y * w <= obj.max_y * w,
        y * w + x < n,
{
    assert(y * w <= obj.max_y * w) by (nonlinear_arith)
        requires
            y <= obj.max_y,
            0 <= w,
    ;
}

/// Build an RGBA image cropped to `obj`'s bounding box, keeping opaque only the pixels whose label
/// matches this object (so overlapping bounding boxes from other objects don't leak in);
/// everything else is transparent.
pub fn crop_object(rgb: &RgbaImage, w: usize, labels: &[usize], obj: &Object) -> (out: RgbaImage)
    requires
        rgb.wf(),
        box_in(*obj, w as int, labels@.len() as int),
        pixels_in(*rgb, w as int, labels@, *obj),
    ensures
        out.wf(),
        out.width == obj.max_x - obj.min_x + 1,
        out.height == obj.max_y - obj.min_y + 1,
        forall|i: int, j: int|
            out.has(i, j) ==> (#[trigger] out.at(i, j))@ == if belongs(
                labels@,
                w as int,
                *obj,
                obj.min_x + i,
                obj.min_y + j,
            ) {
                rgb.at(obj.min_x + i, obj.min_y + j)@.update(3, 255)
            } else {
                seq![0u8, 0, 0, 0]
            },
{
    let ow: usize = obj.max_x - obj.min_x + 1;
    let oh: usize = obj.max_y - obj.min_y + 1;
    let total: usize = rgb.pixels.len();
    let count: usize = labels.len();
    let mut pixels: Vec<[u8; 4]> = Vec::new();
    let mut j: usize = 0;
    assert(0 * ow == 0) by (nonlinear_arith);
    while j < oh
        invariant
            rgb.wf(),
            total == rgb.pixels@.len(),
            count == labels@.len(),
            box_in(*obj, w as int, count as int),
            pixels_in(*rgb, w as int, labels@, *obj),
            ow == obj.max_x - obj.min_x + 1,
            oh == obj.max_y - obj.min_y + 1,
            j <= oh,
            pixels@.len() == j * ow,
            forall|k: int|
                0 <= k < pixels@.len() ==> (#[trigger] pixels@[k])@ == if belongs(
                    labels@,
                    w as int,
                    *obj,
                    obj.min_x + col(ow as int, k),
                    obj.min_y + row(ow as int, k),
                ) {
                    rgb.at(obj.min_x + col(ow as int, k), obj.min_y + row(ow as int, k))@.update(
                        3,
                        255,
                    )
                } else {
                    seq![0u8, 0, 0, 0]
                },
        decreases oh - j,
    {
        let mut i: usize = 0;
        while i < ow
            invariant
                rgb.wf(),
                total == rgb.pixels@.len(),
                count == labels@.len(),
                box_in(*obj, w as int, count as int),
                pixels_in(*rgb, w as int, labels@, *obj),
                ow == obj.max_x - obj.min_x + 1,
                oh == obj.max_y - obj.min_y + 1,
                j < oh,
                i <= ow,
                pixels@.len() == j * ow + i,
                forall|k: int|
                    0 <= k < pixels@.len() ==> (#[trigger] pixels@[k])@ == if belongs(
                        labels@,
                        w as int,
                        *obj,
                        obj.min_x + col(ow as int, k),
                        obj.min_y + row(ow as int, k),
                    ) {
                        rgb.at(
                            obj.min_x + col(ow as int, k),
                            obj.min_y + row(ow as int, k),
                        )@.update(3, 255)
                    } else {
                        seq![0u8, 0, 0, 0]
                    },
            decreases ow - i,
        {
            let x: usize = obj.min_x + i;
            let y: usize = obj.min_y + j;
            proof {
                lemma_box_index(*obj, w as int, count as int, x as int, y as int);
                lemma_index(ow as int, oh as int, i as int, j as int);
            }
            if labels[y * w + x] == obj.label {
                assert(belongs(labels@, w as int, *obj, x as int, y as int));
                proof {
                    lemma_index(rgb.width as int, rgb.height as int, x as int, y as int);
                }
                let px = rgb.pixels[y * rgb.width as usize + x];
                let opaque = [px[0], px[1], px[2], 255];
                assert(opaque@ =~= px@.update(3, 255));
                pixels.push(opaque);
            } else {
                let clear = [0u8, 0, 0, 0];
                assert(clear@ =~= seq![0u8, 0, 0, 0]);
                pixels.push(clear);
            }
            i = i + 1;
        }
        proof {
            lemma_next_row(ow as int, j as int);
        }
        j = j + 1;
    }
    let out = Raster { width: ow as u32, height: oh as u32, pixels };
    proof {
        assert(oh * ow == ow * oh) by (nonlinear_arith);
        assert forall|i: int, j: int| out.has(i, j) implies (#[trigger] out.at(i, j))@
            == if belongs(labels@, w as int, *obj, obj.min_x + i, obj.min_y + j) {
            rgb.at(obj.min_x + i, obj.min_y + j)@.update(3, 255)
        } else {
            seq![0u8, 0, 0, 0]
        } by {
            lemma_index(ow as int, oh as int, i, j);
        }
    }
    out
}

/// As [`crop_object`], with 16 bits per channel.
pub fn crop_object_rgba16(rgb: &Rgba16Image, w: usize, labels: &[usize], obj: &Object) -> (out: Rgba16Image)
    requires
        rgb.wf(),
        box_in(*obj, w as int, labels@.len() as int),
        pixels_in(*rgb, w as int, labels@, *obj),
    ensures
        out.wf(),
        out.width == obj.max_x - obj.min_x + 1,
        out.height == obj.max_y - obj.min_y + 1,
        forall|i: int, j: int|
            out.has(i, j) ==> (#[trigger] out.at(i, j))@ == if belongs(
                labels@,
                w as int,
                *obj,
                obj.min_x + i,
                obj.min_y + j,
            ) {
                rgb.at(obj.min_x + i, obj.min_y + j)@.update(3, 65535)
            } else {
                seq![0u16, 0, 0, 0]
            },
{
    let ow: usize = obj.max_x - obj.min_x + 1;
    let oh: usize = obj.max_y - obj.min_y + 1;
    let total: usize = rgb.pixels.len();
    let count: usize = labels.len();
    let mut pixels: Vec<[u16; 4]> = Vec::new();
    let mut j: usize = 0;
    assert(0 * ow == 0) by (nonlinear_arith);
    while j < oh
        invariant
            rgb.wf(),
            total == rgb.pixels@.len(),
            count == labels@.len(),
            box_in(*obj, w as int, count as int),
            pixels_in(*rgb, w as int, labels@, *obj),
            ow == obj.max_x - obj.min_x + 1,
            oh == obj.max_y - obj.min_y + 1,
            j <= oh,
            pixels@.len() == j * ow,
            forall|k: int|
                0 <= k < pixels@.len() ==> (#[trigger] pixels@[k])@ == if belongs(
                    labels@,
                    w as int,
                    *obj,
                    obj.min_x + col(ow as int, k),
                    obj.min_y + row(ow as int, k),
                ) {
                    rgb.at(obj.min_x + col(ow as int, k), obj.min_y + row(ow as int, k))@.update(
                        3,
                        65535,
                    )
                } else {
                    seq![0u16, 0, 0, 0]
                },
        decreases oh - j,
    {
        let mut i: usize = 0;
        while i < ow
            invariant
                rgb.wf(),
                total == rgb.pixels@.len(),
                count == labels@.len(),
                box_in(*obj, w as int, count as int),
                pixels_in(*rgb, w as int, labels@, *obj),
                ow == obj.max_x - obj.min_x + 1,
                oh == obj.max_y - obj.min_y + 1,
                j < oh,
                i <= ow,
                pixels@.len() == j * ow + i,
                forall|k: int|
                    0 <= k < pixels@.len() ==> (#[trigger] pixels@[k])@ == if belongs(
                        labels@,
                        w as int,
                        *obj,
                        obj.min_x + col(ow as int, k),
                        obj.min_y + row(ow as int, k),
                    ) {
                        rgb.at(
                            obj.min_x + col(ow as int, k),
                            obj.min_y + row(ow as int, k),
                        )@.update(3, 65535)
                    } else {
                        seq![0u16, 0, 0, 0]
                    },
            decreases ow - i,
        {
            let x: usize = obj.min_x + i;
            let y: usize = obj.min_y + j;
            proof {
                lemma_box_index(*obj, w as int, count as int, x as int, y as int);
                lemma_index(ow as int, oh as int, i as int, j as int);
            }
            if labels[y * w + x] == obj.label {
                assert(belongs(labels@, w as int, *obj, x as int, y as int));
                proof {
                    lemma_index(rgb.width as int, rgb.height as int, x as int, y as int);
                }
                let px = rgb.pixels[y * rgb.width as usize + x];
                let opaque = [px[0], px[1], px[2], 65535];
                assert(opaque@ =~= px@.update(3, 65535));
                pixels.push(opaque);
            } else {
                let clear = [0u16, 0, 0, 0];
                assert(clear@ =~= seq![0u16, 0, 0, 0]);
                pixels.push(clear);
            }
            i = i + 1;
        }
        proof {
            lemma_next_row(ow as int, j as int);
        }
        j = j + 1;
    }
    let out = Raster { width: ow as u32, height: oh as u32, pixels };
    proof {
        assert(oh * ow == ow * oh) by (nonlinear_arith);
        assert forall|i: int, j: int| out.has(i, j) implies (#[trigger] out.at(i, j))@
            == if belongs(labels@, w as int, *obj, obj.min_x + i, obj.min_y + j) {
            rgb.at(obj.min_x + i, obj.min_y + j)@.update(3, 65535)
        } else {
            seq![0u16, 0, 0, 0]
        } by {
            lemma_index(ow as int, oh as int, i, j);
        }
    }
    out
}

/// The pixels that carry the label of `obj`, among the first `upto` of a box `ow` wide, row by row.
pub open spec fn labelled_below(
    labels: Seq<usize>,
    w: int,
    obj: Object,
    ow: int,
    upto: int,
) -> Seq<(usize, usize)>
    decreases upto,
{
    if upto <= 0 {
        Seq::empty()
    } else {
        let earlier = labelled_below(labels, w, obj, ow, upto - 1);
        let (x, y) = (obj.min_x + col(ow, upto - 1), obj.min_y + row(ow, upto - 1));
        if belongs(labels, w, obj, x, y) {
            earlier.push((x as usize, y as usize))
        } else {
            earlier
        }
    }
}

/// The pixels of an object, as column and row, row by row. The bounds of a rotated crop follow
/// these and not the corners of the bounding box.
pub fn object_pixels(labels: &[usize], w: usize, obj: &Object) -> (pixels: Vec<(usize, usize)>)
    requires
        box_in(*obj, w as int, labels@.len() as int),
    ensures
        pixels@ == labelled_below(
            labels@,
            w as int,
            *obj,
            obj.max_x - obj.min_x + 1,
            (obj.max_x - obj.min_x + 1) * (obj.max_y - obj.min_y + 1),
        ),
{
    let ow: usize = obj.max_x - obj.min_x + 1;
    let oh: usize = obj.max_y - obj.min_y + 1;
    let count: usize = labels.len();
    let mut pixels: Vec<(usize, usize)> = Vec::new();
    let mut j: usize = 0;
    assert(0 * ow == 0) by (nonlinear_arith);
    while j < oh
        invariant
            count == labels@.len(),
            box_in(*obj, w as int, count as int),
            ow == obj.max_x - obj.min_x + 1,
            oh == obj.max_y - obj.min_y + 1,
            j <= oh,
            pixels@ == labelled_below(labels@, w as int, *obj, ow as int, j * ow),
        decreases oh - j,
    {
        let mut i: usize = 0;
        while i < ow
            invariant
                count == labels@.len(),
                box_in(*obj, w as int, count as int),
                ow == obj.max_x - obj.min_x + 1,
                oh == obj.max_y - obj.min_y + 1,
                j < oh,
                i <= ow,
                pixels@ == labelled_below(labels@, w as int, *obj, ow as int, j * ow + i),
            decreases ow - i,
        {
            let x: usize = obj.min_x + i;
            let y: usize = obj.min_y + j;
            proof {
                lemma_box_index(*obj, w as int, count as int, x as int, y as int);
                lemma_index(ow as int, oh as int, i as int, j as int);
            }
            if labels[y * w + x] == obj.label {
                pixels.push((x, y));
            }
            i = i + 1;
        }
        proof {
            lemma_next_row(ow as int, j as int);
        }
        j = j + 1;
    }
    assert(oh * ow == ow * oh) by (nonlinear_arith);
    pixels
}

/// The length of the longer side of the bounding box.
pub open spec fn longer_side(obj: Object) -> int {
    let w = obj.max_x - obj.min_x + 1;
    let h = obj.max_y - obj.min_y + 1;
    if w >= h {
        w
    } else {
        h
    }
}

/// Whether a component is large enough to keep: its longer bounding-box side reaches `min_side`
/// pixels. This drops specks that no single side makes large. `0` keeps all.
///
/// A side threshold that is no whole number is rounded up to one.
pub fn meets_min_side(obj: &Object, min_side: usize) -> (r: bool)
    requires
        obj.min_x <= obj.max_x,
        obj.min_y <= obj.max_y,
    ensures
        r == (longer_side(*obj) >= min_side),
        r == (obj.max_x - obj.min_x + 1 >= min_side || obj.max_y - obj.min_y + 1 >= min_side),
{
    // A side is one more than the distance of its ends, which alone always fits.
    let dx: usize = obj.max_x - obj.min_x;
    let dy: usize = obj.max_y - obj.min_y;
    let longest: usize = if dx >= dy { dx } else { dy };
    min_side == 0 || longest >= min_side - 1
}

/// The objects that reach `min_side`, in the order they had.
pub open spec fn large_enough(objects: Seq<Object>, min_side: int) -> Seq<Object> {
    objects.filter(|o: Object| longer_side(o) >= min_side)
}

/// Each object that is kept was one of the objects.
pub proof fn lemma_kept_from(objects: Seq<Object>, min_side: int, i: int)
    requires
        0 <= i < large_enough(objects, min_side).len(),
    ensures
        exists|k: int|
            0 <= k < objects.len() && #[trigger] objects[k] == large_enough(objects, min_side)[i],
    decreases objects.len(),
{
    reveal(Seq::filter);
    if objects.len() > 0 {
        let rest = objects.drop_last();
        if i < large_enough(rest, min_side).len() {
            lemma_kept_from(rest, min_side, i);
            let k = choose|k: int|
                0 <= k < rest.len() && #[trigger] rest[k] == large_enough(rest, min_side)[i];
            assert(objects[k] == large_enough(objects, min_side)[i]);
        } else {
            assert(objects[objects.len() - 1] == large_enough(objects, min_side)[i]);
        }
    }
}

/// Drops the objects that do not reach `min_side`.
pub fn keep_large(objects: &Vec<Object>, min_side: usize) -> (kept: Vec<Object>)
    requires
        forall|i: int|
            0 <= i < objects@.len() ==> #[trigger] objects@[i].min_x <= objects@[i].max_x
                && objects@[i].min_y <= objects@[i].max_y,
    ensures
        kept@ == large_enough(objects@, min_side as int),
{
    let ghost test = |o: Object| longer_side(o) >= min_side;
    let mut kept: Vec<Object> = Vec::new();
    let mut i: usize = 0;
    assert(objects@.take(0).filter(test) =~= Seq::<Object>::empty()) by {
        reveal(Seq::filter);
    }
    while i < objects.len()
        invariant
            i <= objects@.len(),
            test == |o: Object| longer_side(o) >= min_side,
            forall|k: int|
                0 <= k < objects@.len() ==> #[trigger] objects@[k].min_x <= objects@[k].max_x
                    && objects@[k].min_y <= objects@[k].max_y,
            kept@ == objects@.take(i as int).filter(test),
        decreases objects@.len() - i,
    {
        proof {
            assert(objects@[i as int].min_x <= objects@[i as int].max_x);
            let next = objects@.take(i + 1);
            assert(next.drop_last() =~= objects@.take(i as int));
            assert(next.last() == objects@[i as int]);
            reveal(Seq::filter);
        }
        if meets_min_side(&objects[i], min_side) {
            kept.push(objects[i]);
        }
        i = i + 1;
    }
    assert(objects@.take(i as int) =~= objects@);
    kept
}

} // verus!
