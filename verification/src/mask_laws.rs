//! What holes, contours, merged masks and hulls are, pixel by pixel.
use crate::angle::{background, contour_below, holes_below, is_hole_root, on_contour, outside};
use crate::extract::{
    any_sets, at_least, both_set, either_set, fg_of, fit_for, group_roots, is_union, left_by,
    links_pairs, overlaps, sets, shared_len, unions,
};
use crate::finish::paddable;
use crate::graph::{
    closed_under, lemma_below_finite, lemma_closed_holds_reach, lemma_reach_back, lemma_reach_edge,
    lemma_reach_self, lemma_reach_step, lemma_reach_trans, lemma_root, lemma_root_of_root,
    lemma_same_root, piece, reachable, root_of, symmetric,
};
use crate::grid::{joined4, lemma_coords};
use crate::hull::{all_small, is_hull, Point};
use crate::imaging::{nearest_resized, resizable};
use crate::raster::GrayImage;
use vstd::prelude::*;

verus! {

/// Whether pixels `p` and `q` of a grid `w` wide share a side.
pub open spec fn beside(w: int, p: int, q: int) -> bool {
    ||| p / w == q / w && (p % w == q % w + 1 || q % w == p % w + 1)
    ||| p % w == q % w && (p / w == q / w + 1 || q / w == p / w + 1)
}

/// Whether `set` holds, with each of its pixels, every set pixel of `on` that shares a side with
/// it.
pub open spec fn closed_by_side(on: Seq<bool>, w: int, set: Set<int>) -> bool {
    forall|p: int, q: int|
        set.contains(p) && 0 <= p < on.len() && on[p] && 0 <= q < on.len() && on[q]
            && #[trigger] beside(w, p, q) ==> set.contains(q)
}

/// Whether `hole` is a hole of at least `min_area` pixels: background that is connected by sides,
/// holds all the background that shares a side with it, and keeps off the edge of the grid.
pub open spec fn is_hole(bg: Seq<bool>, w: int, h: int, min_area: int, hole: Set<int>) -> bool {
    &&& hole.finite()
    &&& hole.len() > 0
    &&& hole.len() >= min_area
    &&& forall|p: int| #[trigger]
        hole.contains(p) ==> {
            &&& 0 <= p < w * h
            &&& bg[p]
            &&& 0 < p % w < w - 1
            &&& 0 < p / w < h - 1
        }
    &&& closed_by_side(bg, w, hole)
    &&& forall|p: int, set: Set<int>|
        hole.contains(p) && #[trigger] set.contains(p) && closed_by_side(bg, w, set)
            ==> hole.subset_of(set)
}

proof fn lemma_side_reach(bg: Seq<bool>, w: int, n: int, set: Set<int>, p: int, q: int)
    requires
        bg.len() == n,
        set.contains(p),
        closed_by_side(bg, w, set),
        reachable(joined4(bg, w, n), p, q),
    ensures
        set.contains(q),
{
    let adj = joined4(bg, w, n);
    assert(closed_under(adj, set)) by {
        assert forall|a: int, b: int| set.contains(a) && #[trigger] adj(a, b) implies set.contains(
            b,
        ) by {
            assert(beside(w, a, b));
        }
    }
    lemma_closed_holds_reach(adj, set, p, q);
}

proof fn lemma_piece_closed(bg: Seq<bool>, w: int, n: int, r: int)
    requires
        bg.len() == n,
        0 <= r < n,
        bg[r],
    ensures
        closed_by_side(bg, w, piece(joined4(bg, w, n), n, r)),
        piece(joined4(bg, w, n), n, r).contains(r),
        forall|q: int| #[trigger] piece(joined4(bg, w, n), n, r).contains(q) ==> bg[q],
{
    let adj = joined4(bg, w, n);
    let region = piece(adj, n, r);
    lemma_reach_self(adj, r);
    assert forall|a: int, b: int|
        region.contains(a) && 0 <= a < bg.len() && bg[a] && 0 <= b < bg.len() && bg[b]
            && #[trigger] beside(w, a, b) implies region.contains(b) by {
        assert(adj(a, b));
        lemma_reach_step(adj, r, a, b);
    }
    let on = Set::new(|x: int| 0 <= x < n && bg[x]);
    assert(closed_under(adj, on));
    assert forall|q: int| #[trigger] region.contains(q) implies bg[q] by {
        lemma_closed_holds_reach(adj, on, r, q);
    }
}

/// What is counted as a hole is one: the region of a counted pixel is a hole of which it is the
/// first pixel.
pub proof fn law_counted_holes_are_holes(bg: Seq<bool>, w: int, h: int, min_area: int, r: int)
    requires
        bg.len() == w * h,
        0 < w,
        0 <= r < w * h,
        is_hole_root(bg, w, h, min_area, r),
    ensures
        exists|hole: Set<int>|
            {
                &&& #[trigger] is_hole(bg, w, h, min_area, hole)
                &&& hole.contains(r)
                &&& forall|q: int| hole.contains(q) ==> r <= q
            },
{
    let n = w * h;
    let adj = joined4(bg, w, n);
    let hole = piece(adj, n, r);
    assert(symmetric(adj));
    lemma_piece_closed(bg, w, n, r);
    lemma_below_finite(hole, n);
    if hole.len() == 0 {
        hole.lemma_len0_is_empty();
    }
    assert forall|p: int| #[trigger] hole.contains(p) implies {
        &&& 0 <= p < w * h
        &&& bg[p]
        &&& 0 < p % w < w - 1
        &&& 0 < p / w < h - 1
    } by {
        lemma_coords(w, h, p);
        if crate::angle::on_border(w, h, p) {
            lemma_reach_back(adj, r, p);
            assert(outside(bg, w, h, r));
        }
    }
    assert forall|p: int, set: Set<int>|
        hole.contains(p) && #[trigger] set.contains(p) && closed_by_side(bg, w, set) implies
        hole.subset_of(set) by {
        assert forall|q: int| hole.contains(q) implies set.contains(q) by {
            lemma_reach_back(adj, r, p);
            lemma_reach_trans(adj, p, r, q);
            lemma_side_reach(bg, w, n, set, p, q);
        }
    }
    assert forall|q: int| hole.contains(q) implies r <= q by {
        lemma_same_root(adj, r, q);
        lemma_root(adj, q);
    }
    assert(is_hole(bg, w, h, min_area, hole));
}

/// Every hole is counted, and once: exactly one of its pixels is counted.
pub proof fn law_each_hole_counts_once(
    bg: Seq<bool>,
    w: int,
    h: int,
    min_area: int,
    hole: Set<int>,
    p: int,
)
    requires
        bg.len() == w * h,
        0 < w,
        is_hole(bg, w, h, min_area, hole),
        hole.contains(p),
    ensures
        exists|r: int|
            {
                &&& hole.contains(r)
                &&& #[trigger] is_hole_root(bg, w, h, min_area, r)
                &&& forall|q: int|
                    hole.contains(q) && #[trigger] is_hole_root(bg, w, h, min_area, q) ==> q == r
            },
{
    let n = w * h;
    let adj = joined4(bg, w, n);
    let r = root_of(adj, p);
    assert(symmetric(adj));
    lemma_root(adj, p);
    lemma_root_of_root(adj, p);
    lemma_reach_back(adj, r, p);
    lemma_side_reach(bg, w, n, hole, p, r);
    lemma_piece_closed(bg, w, n, r);
    let region = piece(adj, n, r);
    assert(region.contains(r));
    assert(hole.subset_of(region));
    assert(region.subset_of(hole)) by {
        assert forall|q: int| region.contains(q) implies hole.contains(q) by {
            lemma_side_reach(bg, w, n, hole, r, q);
        }
    }
    assert(region =~= hole);
    if outside(bg, w, h, r) {
        let b = choose|b: int|
            0 <= b < w * h && bg[b] && crate::angle::on_border(w, h, b) && #[trigger] reachable(
                adj,
                b,
                r,
            );
        lemma_reach_back(adj, b, r);
        assert(region.contains(b));
        lemma_coords(w, h, b);
    }
    assert(is_hole_root(bg, w, h, min_area, r));
    assert forall|q: int|
        hole.contains(q) && #[trigger] is_hole_root(bg, w, h, min_area, q) implies q == r by {
        lemma_same_root(adj, r, q);
    }
}

/// The count of holes is how many pixels are counted.
pub proof fn law_hole_count_is_a_count(bg: Seq<bool>, w: int, h: int, min_area: int, upto: int)
    requires
        0 <= upto,
    ensures
        Set::new(|r: int| 0 <= r < upto && is_hole_root(bg, w, h, min_area, r)).finite(),
        holes_below(bg, w, h, min_area, upto) == Set::new(
            |r: int| 0 <= r < upto && is_hole_root(bg, w, h, min_area, r),
        ).len(),
    decreases upto,
{
    let set = Set::new(|r: int| 0 <= r < upto && is_hole_root(bg, w, h, min_area, r));
    if upto == 0 {
        assert(set =~= Set::empty());
    } else {
        law_hole_count_is_a_count(bg, w, h, min_area, upto - 1);
        let less = Set::new(|r: int| 0 <= r < upto - 1 && is_hole_root(bg, w, h, min_area, r));
        if is_hole_root(bg, w, h, min_area, upto - 1) {
            assert(set =~= less.insert(upto - 1));
        } else {
            assert(set =~= less);
        }
    }
}

/// The background of a mask is where it is zero.
pub proof fn law_background_is_zero(mask: GrayImage, p: int)
    requires
        0 <= p < mask.pixels@.len(),
    ensures
        background(mask).len() == mask.pixels@.len(),
        background(mask)[p] <==> mask.pixels@[p] == 0,
{
}

/// The contour of a mask lists, row by row, exactly its set pixels that lie on its edge or beside
/// which, corners counted, it is not set.
pub proof fn law_contour_is_the_rim(mask: GrayImage, upto: int)
    requires
        mask.wf(),
        0 < mask.width,
        0 <= upto <= mask.width * mask.height,
    ensures
        forall|i: int, j: int|
            0 <= i < j < contour_below(mask, upto).len() ==> {
                let a = #[trigger] contour_below(mask, upto)[i];
                let b = #[trigger] contour_below(mask, upto)[j];
                a.1 < b.1 || (a.1 == b.1 && a.0 < b.0)
            },
        forall|x: u32, y: u32| #[trigger]
            contour_below(mask, upto).contains((x, y)) <==> {
                &&& x < mask.width
                &&& y * mask.width + x < upto
                &&& mask.at(x as int, y as int) != 0
                &&& (x == 0 || x == mask.width - 1 || y == 0 || y == mask.height - 1 || exists|
                    dx: int,
                    dy: int,
                |
                    -1 <= dx <= 1 && -1 <= dy <= 1 && #[trigger] mask.at(x + dx, y + dy) == 0)
            },
    decreases upto,
{
    let all = contour_below(mask, upto);
    let w = mask.width as int;
    if upto == 0 {
        assert forall|x: u32, y: u32| #[trigger]
            all.contains((x, y)) <==> {
                &&& x < mask.width
                &&& y * mask.width + x < upto
                &&& mask.at(x as int, y as int) != 0
                &&& (x == 0 || x == mask.width - 1 || y == 0 || y == mask.height - 1 || exists|
                    dx: int,
                    dy: int,
                |
                    -1 <= dx <= 1 && -1 <= dy <= 1 && #[trigger] mask.at(x + dx, y + dy) == 0)
            } by {
            assert(y * w >= 0) by (nonlinear_arith)
                requires
                    y >= 0,
                    w > 0,
            ;
        }
    } else {
        let p = upto - 1;
        lemma_coords(w, mask.height as int, p);
        law_contour_is_the_rim(mask, p);
        let earlier = contour_below(mask, p);
        let last = ((p % w) as u32, (p / w) as u32);
        assert(all == earlier || all == earlier.push(last));
        assert forall|x: u32, y: u32| #[trigger]
            all.contains((x, y)) <==> {
                &&& x < mask.width
                &&& y * mask.width + x < upto
                &&& mask.at(x as int, y as int) != 0
                &&& (x == 0 || x == mask.width - 1 || y == 0 || y == mask.height - 1 || exists|
                    dx: int,
                    dy: int,
                |
                    -1 <= dx <= 1 && -1 <= dy <= 1 && #[trigger] mask.at(x + dx, y + dy) == 0)
            } by {
            assert(earlier.contains((x, y)) <==> {
                &&& x < mask.width
                &&& y * mask.width + x < p
                &&& mask.at(x as int, y as int) != 0
                &&& (x == 0 || x == mask.width - 1 || y == 0 || y == mask.height - 1 || exists|
                    dx: int,
                    dy: int,
                |
                    -1 <= dx <= 1 && -1 <= dy <= 1 && #[trigger] mask.at(x + dx, y + dy) == 0)
            });
            if all.contains((x, y)) {
                let i = choose|i: int| 0 <= i < all.len() && all[i] == (x, y);
                if i < earlier.len() {
                    assert(earlier[i] == (x, y));
                }
            }
            if earlier.contains((x, y)) {
                let i = choose|i: int| 0 <= i < earlier.len() && earlier[i] == (x, y);
                assert(all[i] == (x, y));
            }
            lemma_beside_zero(mask, x as int, y as int);
            if x < mask.width && y * mask.width + x == p {
                crate::region_laws::lemma_place(w, x as int, y as int, p);
                if on_contour(mask, x as int, y as int) {
                    assert(all[earlier.len() as int] == (x, y));
                }
            }
        }
        assert forall|i: int, j: int| 0 <= i < j < all.len() implies {
            let a = #[trigger] all[i];
            let b = #[trigger] all[j];
            a.1 < b.1 || (a.1 == b.1 && a.0 < b.0)
        } by {
            if j < earlier.len() {
                assert(all[i] == earlier[i] && all[j] == earlier[j]);
            } else {
                let a = earlier[i];
                assert(earlier.contains((a.0, a.1)));
                crate::region_laws::lemma_place_order(w, a.0 as int, a.1 as int, p);
            }
        }
    }
}

proof fn lemma_beside_zero(mask: GrayImage, x: int, y: int)
    ensures
        (exists|dx: int, dy: int|
            -1 <= dx <= 1 && -1 <= dy <= 1 && #[trigger] mask.at(x + dx, y + dy) == 0) <==> (exists|
            nx: int,
            ny: int,
        |
            x - 1 <= nx <= x + 1 && y - 1 <= ny <= y + 1 && #[trigger] mask.at(nx, ny) == 0),
{
    if exists|nx: int, ny: int|
        x - 1 <= nx <= x + 1 && y - 1 <= ny <= y + 1 && #[trigger] mask.at(nx, ny) == 0 {
        let (nx, ny) = choose|nx: int, ny: int|
            x - 1 <= nx <= x + 1 && y - 1 <= ny <= y + 1 && #[trigger] mask.at(nx, ny) == 0;
        assert(mask.at(x + (nx - x), y + (ny - y)) == 0);
    }
}

/// A pixel is foreground exactly where its value is at least the cutoff.
pub proof fn law_foreground_is_at_least(values: Seq<u8>, cutoff: u8, p: int)
    requires
        0 <= p < values.len(),
    ensures
        at_least(values, cutoff).len() == values.len(),
        at_least(values, cutoff)[p] <==> values[p] >= cutoff,
{
}

/// The foreground of a mask is where it is at least half set: of the mask itself where it has the
/// size that is asked for, and else of the mask resized to it.
pub proof fn law_mask_foreground_is_half_set(mask: GrayImage, w: u32, h: u32, p: int)
    requires
        0 <= p,
    ensures
        mask.width == w && mask.height == h && p < mask.pixels@.len() ==> (fg_of(mask, w, h)[p]
            <==> mask.pixels@[p] >= 128),
        (mask.width != w || mask.height != h) && p < nearest_resized(
            mask.pixels@,
            mask.width as int,
            mask.height as int,
            w as int,
            h as int,
        ).len() ==> (fg_of(mask, w, h)[p] <==> nearest_resized(
            mask.pixels@,
            mask.width as int,
            mask.height as int,
            w as int,
            h as int,
        )[p] >= 128),
{
}

/// What is left of background masks is what none of them shows.
pub proof fn law_left_is_what_none_shows(masks: Seq<GrayImage>, w: u32, h: u32, p: int)
    requires
        0 <= p < w * h,
    ensures
        left_by(masks, w, h).len() == w * h,
        left_by(masks, w, h)[p] <==> forall|m: int|
            0 <= m < masks.len() ==> !#[trigger] fg_of(masks[m], w, h)[p],
{
}

/// A pixel is set by some mask exactly where one of them reaches to it and sets it.
pub proof fn law_any_sets(masks: Seq<Vec<bool>>, p: int)
    requires
        0 <= p,
    ensures
        any_sets(masks, p) <==> exists|m: int|
            0 <= m < masks.len() && p < (#[trigger] masks[m])@.len() && masks[m]@[p],
{
    if any_sets(masks, p) {
        let m = choose|m: int| 0 <= m < masks.len() && sets(masks, m, p);
        assert(p < masks[m]@.len() && masks[m]@[p]);
    }
    if exists|m: int| 0 <= m < masks.len() && p < (#[trigger] masks[m])@.len() && masks[m]@[p] {
        let m = choose|m: int|
            0 <= m < masks.len() && p < (#[trigger] masks[m])@.len() && masks[m]@[p];
        assert(sets(masks, m, p));
    }
}

/// The intersection and the union of two bitmaps have as many pixels as both or either of them
/// sets, over the length of the shorter one.
pub proof fn law_overlap_counts(a: Seq<bool>, b: Seq<bool>, n: int)
    requires
        0 <= n,
    ensures
        both_set(a, b, n) == Set::new(|p: int| 0 <= p < n && a[p] && b[p]).len(),
        either_set(a, b, n) == Set::new(|p: int| 0 <= p < n && (a[p] || b[p])).len(),
        Set::new(|p: int| 0 <= p < n && a[p] && b[p]).finite(),
        Set::new(|p: int| 0 <= p < n && (a[p] || b[p])).finite(),
        shared_len(a, b) <= a.len(),
        shared_len(a, b) <= b.len(),
        shared_len(a, b) == a.len() || shared_len(a, b) == b.len(),
    decreases n,
{
    let both = Set::new(|p: int| 0 <= p < n && a[p] && b[p]);
    let either = Set::new(|p: int| 0 <= p < n && (a[p] || b[p]));
    if n == 0 {
        assert(both =~= Set::empty());
        assert(either =~= Set::empty());
    } else {
        law_overlap_counts(a, b, n - 1);
        let x = Set::new(|p: int| 0 <= p < n - 1 && a[p] && b[p]);
        let y = Set::new(|p: int| 0 <= p < n - 1 && (a[p] || b[p]));
        if a[n - 1] && b[n - 1] {
            assert(both =~= x.insert(n - 1));
        } else {
            assert(both =~= x);
        }
        if a[n - 1] || b[n - 1] {
            assert(either =~= y.insert(n - 1));
        } else {
            assert(either =~= y);
        }
    }
}

/// Whether masks `i` and `j` are linked, the entry standing in the row of the earlier one.
pub open spec fn linked_pair(linked: Seq<Vec<bool>>, i: int, j: int) -> bool {
    (i < j && linked[i]@[j]) || (j < i && linked[j]@[i])
}

/// Whether the members of `set` are linked to no other mask.
pub open spec fn closed_by_links(linked: Seq<Vec<bool>>, set: Set<int>) -> bool {
    forall|i: int, j: int|
        set.contains(i) && 0 <= i < linked.len() && 0 <= j < linked.len() && #[trigger] linked_pair(
            linked,
            i,
            j,
        ) ==> set.contains(j)
}

/// Whether `firsts` gives, for each merged mask, a first mask that it holds: these ascend, and
/// every mask is held by the merged mask of one that does not come after it.
pub open spec fn merged_in_order(
    firsts: Seq<int>,
    out: Seq<Vec<bool>>,
    masks: Seq<Vec<bool>>,
    len: int,
) -> bool {
    &&& firsts.len() == out.len()
    &&& forall|j: int, k: int| 0 <= j < k < firsts.len() ==> firsts[j] < firsts[k]
    &&& forall|k: int|
        0 <= k < firsts.len() ==> 0 <= #[trigger] firsts[k] < masks.len() && out[k]@.len() == len
            && holds(out[k]@, masks[firsts[k]]@)
    &&& forall|m: int| 0 <= m < masks.len() ==> #[trigger] held_by(firsts, out, masks, m)
}

/// Whether a merged mask whose first mask does not come after mask `m` holds it.
pub open spec fn held_by(
    firsts: Seq<int>,
    out: Seq<Vec<bool>>,
    masks: Seq<Vec<bool>>,
    m: int,
) -> bool {
    exists|k: int| 0 <= k < out.len() && #[trigger] firsts[k] <= m && holds(out[k]@, masks[m]@)
}

/// Merged masks come in the order of the first mask of each: there is, for each merged mask, a
/// first mask that it holds, these ascend, and every mask is held by the merged mask of one that
/// does not come after it. Merged masks are `len` long.
pub proof fn law_merged_masks_in_order(
    out: Seq<Vec<bool>>,
    masks: Seq<Vec<bool>>,
    linked: Seq<Vec<bool>>,
    len: int,
)
    requires
        linked.len() == masks.len(),
        unions(out, masks, linked, masks.len() as int, len),
    ensures
        exists|firsts: Seq<int>| merged_in_order(firsts, out, masks, len),
{
    let adj = overlaps(linked);
    let n = masks.len() as int;
    let firsts = group_roots(linked, n);
    assert(symmetric(adj));
    assert forall|j: int, k: int| 0 <= j < k < firsts.len() implies firsts[j] < firsts[k] by {
        crate::output_laws::lemma_group_roots(linked, n, k);
    }
    assert forall|m: int| 0 <= m < masks.len() implies #[trigger] held_by(firsts, out, masks, m) by {
        let r = root_of(adj, m);
        lemma_root(adj, m);
        lemma_root_of_root(adj, m);
        let k = crate::output_laws::lemma_group_root_place(linked, r, n);
        let group = piece(adj, n, r);
        assert(is_union(out[k]@, masks, group, len));
        assert forall|p: int| 0 <= p < out[k]@.len() && p < masks[m]@.len() && masks[m]@[p] implies
            #[trigger] out[k]@[p] by {
            assert(group.contains(m) && sets(masks, m, p));
        }
        assert(firsts[k] <= m && holds(out[k]@, masks[m]@));
    }
    assert forall|k: int| 0 <= k < firsts.len() implies 0 <= #[trigger] firsts[k] < masks.len()
        && out[k]@.len() == len && holds(out[k]@, masks[firsts[k]]@) by {
        crate::output_laws::lemma_group_roots(linked, n, k);
        let r = firsts[k];
        let group = piece(adj, n, r);
        assert(is_union(out[k]@, masks, group, len));
        lemma_reach_self(adj, r);
        assert forall|p: int| 0 <= p < out[k]@.len() && p < masks[r]@.len() && masks[r]@[p] implies
            #[trigger] out[k]@[p] by {
            assert(group.contains(r) && sets(masks, r, p));
        }
    }
    assert(merged_in_order(firsts, out, masks, len));
}

/// Whether `merged` sets what `mask` sets, as far as it reaches.
pub open spec fn holds(merged: Seq<bool>, mask: Seq<bool>) -> bool {
    forall|p: int|
        0 <= p < merged.len() && p < mask.len() && mask[p] ==> #[trigger] merged[p]
}

/// Linked masks go into one merged mask, whichever way round they are linked.
pub proof fn law_linked_masks_are_merged(
    out: Seq<Vec<bool>>,
    masks: Seq<Vec<bool>>,
    linked: Seq<Vec<bool>>,
    len: int,
    i: int,
    j: int,
)
    requires
        linked.len() == masks.len(),
        unions(out, masks, linked, masks.len() as int, len),
        0 <= i < masks.len(),
        0 <= j < masks.len(),
        linked_pair(linked, i, j),
    ensures
        exists|k: int|
            0 <= k < out.len() && holds((#[trigger] out[k])@, masks[i]@) && holds(
                out[k]@,
                masks[j]@,
            ),
{
    let adj = overlaps(linked);
    let n = masks.len() as int;
    assert(symmetric(adj));
    assert(adj(i, j));
    lemma_reach_edge(adj, i, j);
    lemma_same_root(adj, i, j);
    let r = root_of(adj, i);
    lemma_root(adj, i);
    lemma_root(adj, j);
    lemma_root_of_root(adj, i);
    let k = crate::output_laws::lemma_group_root_place(linked, r, n);
    let group = piece(adj, n, r);
    assert(is_union(out[k]@, masks, group, len));
    assert forall|p: int| 0 <= p < out[k]@.len() && p < masks[i]@.len() && masks[i]@[p] implies
        #[trigger] out[k]@[p] by {
        assert(group.contains(i) && sets(masks, i, p));
    }
    assert forall|p: int| 0 <= p < out[k]@.len() && p < masks[j]@.len() && masks[j]@[p] implies
        #[trigger] out[k]@[p] by {
        assert(group.contains(j) && sets(masks, j, p));
    }
    assert(holds(out[k]@, masks[i]@) && holds(out[k]@, masks[j]@));
}

/// Masks that are linked in no way are not merged: of a set of masks that no link leads out of, a
/// merged mask is made of members alone or of others alone.
pub proof fn law_unlinked_masks_stay_apart(
    out: Seq<Vec<bool>>,
    masks: Seq<Vec<bool>>,
    linked: Seq<Vec<bool>>,
    len: int,
    set: Set<int>,
    k: int,
)
    requires
        linked.len() == masks.len(),
        unions(out, masks, linked, masks.len() as int, len),
        closed_by_links(linked, set),
        0 <= k < out.len(),
    ensures
        (forall|p: int|
            0 <= p < len && #[trigger] out[k]@[p] ==> exists|m: int|
                0 <= m < masks.len() && set.contains(m) && #[trigger] sets(masks, m, p)) || (forall|
            p: int,
        |
            0 <= p < len && #[trigger] out[k]@[p] ==> exists|m: int|
                0 <= m < masks.len() && !set.contains(m) && #[trigger] sets(masks, m, p)),
{
    let adj = overlaps(linked);
    let n = masks.len() as int;
    assert(symmetric(adj));
    let r = group_roots(linked, n)[k];
    let group = piece(adj, n, r);
    assert(is_union(out[k]@, masks, group, len));
    assert(closed_under(adj, set)) by {
        assert forall|a: int, b: int| set.contains(a) && #[trigger] adj(a, b) implies set.contains(
            b,
        ) by {
            assert(linked_pair(linked, a, b));
        }
    }
    assert forall|m: int| group.contains(m) implies set.contains(m) == set.contains(r) by {
        lemma_reach_back(adj, r, m);
        if set.contains(r) {
            lemma_closed_holds_reach(adj, set, r, m);
        }
        if set.contains(m) {
            lemma_closed_holds_reach(adj, set, m, r);
        }
    }
    assert forall|p: int| 0 <= p < len && #[trigger] out[k]@[p] implies exists|m: int|
        0 <= m < masks.len() && set.contains(m) == set.contains(r) && #[trigger] sets(masks, m, p) by {
        let m = choose|m: int| group.contains(m) && #[trigger] sets(masks, m, p);
        assert(sets(masks, m, p));
    }
    if set.contains(r) {
        assert forall|p: int| 0 <= p < len && #[trigger] out[k]@[p] implies exists|m: int|
            0 <= m < masks.len() && set.contains(m) && #[trigger] sets(masks, m, p) by {
            let m = choose|m: int|
                0 <= m < masks.len() && set.contains(m) == set.contains(r) && #[trigger] sets(
                    masks,
                    m,
                    p,
                );
            assert(sets(masks, m, p));
        }
    } else {
        assert forall|p: int| 0 <= p < len && #[trigger] out[k]@[p] implies exists|m: int|
            0 <= m < masks.len() && !set.contains(m) && #[trigger] sets(masks, m, p) by {
            let m = choose|m: int|
                0 <= m < masks.len() && set.contains(m) == set.contains(r) && #[trigger] sets(
                    masks,
                    m,
                    p,
                );
            assert(sets(masks, m, p));
        }
    }
}

/// A hull is made of points, starts at the leftmost one (the lowest of these), passes the
/// rightmost one, and passes no point twice.
pub proof fn law_hull_goes_from_end_to_end(hull: Seq<Point>, points: Seq<Point>, p: Point)
    requires
        is_hull(hull, points),
        points.contains(p),
    ensures
        hull.len() > 0,
        hull.no_duplicates(),
        forall|i: int| 0 <= i < hull.len() ==> points.contains(#[trigger] hull[i]),
        hull[0].0 < p.0 || (hull[0].0 == p.0 && hull[0].1 <= p.1),
        exists|g: int|
            0 <= g < hull.len() && ((#[trigger] hull[g]).0 > p.0 || (hull[g].0 == p.0 && hull[g].1
                >= p.1)),
{
    let i = choose|i: int| 0 <= i < points.len() && points[i] == p;
    let g = choose|g: int| 0 <= g < hull.len() && #[trigger] crate::hull::is_last(hull[g], points);
    assert(hull[g].0 > p.0 || (hull[g].0 == p.0 && hull[g].1 >= p.1));
}

/// No point lies to the right of an edge of its hull, that from corner `i` to the next one, the
/// first one following the last.
pub proof fn law_hull_encloses(hull: Seq<Point>, points: Seq<Point>, i: int, j: int, p: Point)
    requires
        is_hull(hull, points),
        points.contains(p),
        hull.len() >= 2,
        0 <= i < hull.len(),
        j == i + 1 && j < hull.len() || i == hull.len() - 1 && j == 0,
    ensures
        (hull[j].0 - hull[i].0) * (p.1 - hull[i].1) >= (hull[j].1 - hull[i].1) * (p.0 - hull[i].0),
{
    assert(crate::hull::cross(hull[i], hull[crate::hull::after(i, hull.len() as int)], p) >= 0);
}

/// A hull turns left at each of its corners: the next corner but one lies strictly to the left of
/// each edge.
pub proof fn law_hull_turns_left(hull: Seq<Point>, points: Seq<Point>, i: int, j: int, k: int)
    requires
        is_hull(hull, points),
        hull.len() >= 3,
        0 <= i < hull.len(),
        j == i + 1 && j < hull.len() || i == hull.len() - 1 && j == 0,
        k == j + 1 && k < hull.len() || j == hull.len() - 1 && k == 0,
    ensures
        (hull[j].0 - hull[i].0) * (hull[k].1 - hull[i].1) > (hull[j].1 - hull[i].1) * (hull[k].0
            - hull[i].0),
{
    let n = hull.len() as int;
    assert(crate::hull::cross(
        hull[i],
        hull[crate::hull::after(i, n)],
        hull[crate::hull::after(crate::hull::after(i, n), n)],
    ) > 0);
}

/// Pixels with any 32-bit coordinates, and their mirror images, are taken for a hull.
pub proof fn law_pixels_are_taken(points: Seq<Point>)
    requires
        forall|i: int|
            0 <= i < points.len() ==> -0xffff_ffff <= (#[trigger] points[i]).0 <= 0xffff_ffff
                && -0xffff_ffff <= points[i].1 <= 0xffff_ffff,
    ensures
        all_small(points),
{
}

/// Links are taken where they have a row for each mask with an entry for each mask.
pub proof fn law_links_are_taken(linked: Seq<Vec<bool>>, n: int)
    requires
        linked.len() == n,
        forall|i: int| 0 <= i < n ==> (#[trigger] linked[i])@.len() == n,
    ensures
        links_pairs(linked, n),
{
}

/// A mask is taken if it is whole and has the size that is asked for, or, where both sizes are of
/// up to eight million pixels a side, if the memory to resize it can be had.
pub proof fn law_masks_are_taken(masks: Seq<GrayImage>, w: u32, h: u32)
    requires
        forall|m: int|
            0 <= m < masks.len() ==> (#[trigger] masks[m]).wf() && (masks[m].width == w
                && masks[m].height == h || w <= 8_000_000 && h <= 8_000_000 && masks[m].width * h
                * 16 <= isize::MAX && w * h <= isize::MAX && masks[m].width * masks[m].height
                <= isize::MAX),
    ensures
        fit_for(masks, w, h),
{
    assert forall|m: int| 0 <= m < masks.len() implies (#[trigger] masks[m]).wf() && ((masks[m].width
        == w && masks[m].height == h) || resizable(
        masks[m].width as int,
        masks[m].height as int,
        w as int,
        h as int,
        1,
    )) by {}
}

/// An image can be padded as long as the padded one can be counted.
pub proof fn law_paddings_are_taken(w: int, h: int, pad_x: int, pad_y: int)
    requires
        w + pad_x + pad_x <= u32::MAX,
        h + pad_y + pad_y <= u32::MAX,
        (w + pad_x + pad_x) * (h + pad_y + pad_y) <= usize::MAX,
    ensures
        paddable(w, h, pad_x, pad_y),
{
    assert(w + 2 * pad_x == w + pad_x + pad_x && h + 2 * pad_y == h + pad_y + pad_y);
}

} // verus!
