//! Masks of single objects, and what the angle and orientation decisions read off them.
use crate::components::{box_in, lemma_box_index, Object};
use crate::graph::{
    closed_under, lemma_below_finite, lemma_closed_holds_reach, lemma_reach_back,
    lemma_reach_edge, lemma_reach_self, lemma_reach_step, lemma_reach_trans, lemma_root,
    lemma_same_root, piece, reachable, root_of, symmetric,
};
use crate::grid::{col, joined4, lemma_coords, lemma_index, lemma_next_row, near4, row};
use crate::raster::{GrayImage, Raster};
use vstd::prelude::*;
use vstd::set_lib::{lemma_len_subset, lemma_set_disjoint_lens, set_int_range};

verus! {

/// How the mask's rectangle is fitted.
#[derive(Clone, Copy, Debug, PartialEq, Eq, Structural)]
pub enum MaskFit {
    /// Maximal enclosing rectangle (the "safezone"): sides touch the extreme points, fully
    /// enclosing any extrusion.
    Max,
    /// Tight body rectangle: the smallest inner rectangle supported across the mask's rows and
    /// columns. Only safe on rectangular masks, so callers gate it on rectangularity.
    Min,
}

/// Edges of a flood over the set pixels of `bg` that are not yet in `seen`.
spec fn unseen4(bg: Seq<bool>, w: int, n: int, seen: Seq<bool>) -> spec_fn(
    int,
    int,
) -> bool {
    |p: int, q: int| 0 <= p < n && 0 <= q < n && near4(w, p, q) && bg[q] && !seen[q]
}

/// The set pixels of `bg` among the first `n` that are not in `seen`.
spec fn unseen(bg: Seq<bool>, n: int, seen: Seq<bool>) -> Set<int> {
    Set::new(|q: int| 0 <= q < n && bg[q] && !seen[q])
}

/// Whether a flood from the pixels of `seeds` gets to `q`.
spec fn flooded(adj: spec_fn(int, int) -> bool, seeds: Seq<usize>, q: int) -> bool {
    exists|k: int| 0 <= k < seeds.len() && reachable(adj, (#[trigger] seeds[k]) as int, q)
}

/// The pixels among the first `n` that `after` holds and `before` did not.
spec fn newly(before: Seq<bool>, after: Seq<bool>, n: int) -> Set<int> {
    Set::new(|q: int| 0 <= q < n && after[q] && !before[q])
}

/// The state of a flood: `fresh` are the pixels it has added to `seen0`, `done` those whose
/// neighbours were looked at.
spec fn spreading(
    bg: Seq<bool>,
    w: int,
    n: int,
    seen0: Seq<bool>,
    seeds: Seq<usize>,
    seen: Seq<bool>,
    stack: Seq<usize>,
    fresh: Set<int>,
    done: Set<int>,
) -> bool {
    &&& bg.len() == n == seen0.len() == seen.len()
    &&& forall|q: int| 0 <= q < n ==> #[trigger] seen[q] == (seen0[q] || fresh.contains(q))
    &&& forall|q: int| #[trigger]
        fresh.contains(q) ==> 0 <= q < n && bg[q] && !seen0[q] && flooded(
            unseen4(bg, w, n, seen0),
            seeds,
            q,
        )
    &&& fresh.finite()
    &&& forall|i: int|
        0 <= i < stack.len() ==> (#[trigger] stack[i]) < n && flooded(
            unseen4(bg, w, n, seen0),
            seeds,
            stack[i] as int,
        )
    &&& forall|q: int| #[trigger]
        fresh.contains(q) ==> done.contains(q) || stack.contains(q as usize)
    &&& forall|k: int|
        0 <= k < seeds.len() ==> done.contains((#[trigger] seeds[k]) as int) || stack.contains(
            seeds[k],
        )
}

proof fn lemma_spread(
    bg: Seq<bool>,
    w: int,
    n: int,
    seen0: Seq<bool>,
    seeds: Seq<usize>,
    seen: Seq<bool>,
    stack: Seq<usize>,
    fresh: Set<int>,
    done: Set<int>,
    p: int,
    j: usize,
)
    requires
        spreading(bg, w, n, seen0, seeds, seen, stack, fresh, done),
        0 <= p < n,
        flooded(unseen4(bg, w, n, seen0), seeds, p),
        j < n,
        near4(w, p, j as int),
        bg[j as int],
        !seen[j as int],
    ensures
        spreading(
            bg,
            w,
            n,
            seen0,
            seeds,
            seen.update(j as int, true),
            stack.push(j),
            fresh.insert(j as int),
            done,
        ),
        fresh.insert(j as int).len() == fresh.len() + 1,
{
    let adj = unseen4(bg, w, n, seen0);
    let k = choose|k: int| 0 <= k < seeds.len() && reachable(adj, (#[trigger] seeds[k]) as int, p);
    lemma_reach_step(adj, seeds[k] as int, p, j as int);
    assert(flooded(adj, seeds, j as int));
    let longer = stack.push(j);
    assert(longer[stack.len() as int] == j);
    assert forall|v: usize| #[trigger] stack.contains(v) implies longer.contains(v) by {
        let i = choose|i: int| 0 <= i < stack.len() && stack[i] == v;
        assert(longer[i] == v);
    }
}

/// Puts pixel `j` on the stack and marks it as visited, if it is background and was not.
fn visit(bg: &[bool], visited: &mut Vec<bool>, stack: &mut Vec<usize>, j: usize) -> (fresh: bool)
    requires
        j < bg@.len() == old(visited)@.len(),
    ensures
        fresh == (bg@[j as int] && !old(visited)@[j as int]),
        final(visited)@ == if fresh {
            old(visited)@.update(j as int, true)
        } else {
            old(visited)@
        },
        final(stack)@ == if fresh {
            old(stack)@.push(j)
        } else {
            old(stack)@
        },
{
    if bg[j] && !visited[j] {
        visited.set(j, true);
        stack.push(j);
        true
    } else {
        false
    }
}

/// 4-connected flood fill over background pixels from a seeded `stack`, marking `visited` and
/// returning the number of pixels filled.
fn flood_bg_4(
    bg: &[bool],
    w: usize,
    h: usize,
    visited: &mut Vec<bool>,
    stack: &mut Vec<usize>,
) -> (area: usize)
    requires
        bg@.len() == w * h == old(visited)@.len(),
        forall|i: int|
            0 <= i < old(stack)@.len() ==> (#[trigger] old(stack)@[i]) < w * h
                && old(visited)@[old(stack)@[i] as int],
        old(stack)@.len() + unseen(bg@, w * h, old(visited)@).len() <= usize::MAX,
    ensures
        final(stack)@.len() == 0,
        final(visited)@.len() == old(visited)@.len(),
        forall|q: int|
            0 <= q < w * h ==> #[trigger] final(visited)@[q] == (old(visited)@[q] || flooded(
                unseen4(bg@, w as int, w * h, old(visited)@),
                old(stack)@,
                q,
            )),
        area == old(stack)@.len() + newly(old(visited)@, final(visited)@, w * h).len(),
{
    let ghost n = w * h;
    let ghost seen0 = visited@;
    let ghost seeds = stack@;
    let ghost adj = unseen4(bg@, w as int, n, seen0);
    let ghost open = unseen(bg@, n, seen0);
    let ghost mut fresh = Set::<int>::empty();
    let ghost mut done = Set::<int>::empty();
    let total: usize = bg.len();
    let mut area: usize = 0;
    proof {
        lemma_below_finite(open, n);
        assert forall|i: int| 0 <= i < seeds.len() implies flooded(
            adj,
            seeds,
            (#[trigger] seeds[i]) as int,
        ) by {
            lemma_reach_self(adj, seeds[i] as int);
        }
    }
    while stack.len() > 0
        invariant
            n == w * h == total,
            adj == unseen4(bg@, w as int, n, seen0),
            open == unseen(bg@, n, seen0),
            open.finite(),
            seeds.len() + open.len() <= usize::MAX,
            spreading(bg@, w as int, n, seen0, seeds, visited@, stack@, fresh, done),
            area + stack@.len() == seeds.len() + fresh.len(),
            forall|p: int, q: int| done.contains(p) && #[trigger] adj(p, q) ==> fresh.contains(q),
        decreases open.len() - fresh.len(), stack@.len(),
    {
        let ghost stack0 = stack@;
        let ghost fresh0 = fresh;
        let i: usize = stack.pop().unwrap();
        proof {
            assert(stack0[stack0.len() - 1] == i);
            assert forall|v: usize| #[trigger] stack0.contains(v) && v != i implies stack@.contains(
                v,
            ) by {
                let k = choose|k: int| 0 <= k < stack0.len() && stack0[k] == v;
                assert(stack@[k] == v);
            }
            assert(fresh.subset_of(open));
            lemma_len_subset(fresh, open);
            lemma_coords(w as int, h as int, i as int);
            done = done.insert(i as int);
        }
        area = area + 1;
        let ghost p = i as int;
        let x: usize = i % w;
        let y: usize = i / w;
        if x > 0 {
            proof {
                lemma_index(w as int, h as int, x - 1, y as int);
            }
            let ghost (v0, s0) = (visited@, stack@);
            let added = visit(bg, visited, stack, i - 1);
            proof {
                if added {
                    lemma_spread(bg@, w as int, n, seen0, seeds, v0, s0, fresh, done, p, (i - 1) as usize);
                    fresh = fresh.insert(i - 1);
                }
            }
        }
        if x + 1 < w {
            proof {
                lemma_index(w as int, h as int, x + 1, y as int);
            }
            let ghost (v0, s0) = (visited@, stack@);
            let added = visit(bg, visited, stack, i + 1);
            proof {
                if added {
                    lemma_spread(bg@, w as int, n, seen0, seeds, v0, s0, fresh, done, p, (i + 1) as usize);
                    fresh = fresh.insert(i + 1);
                }
            }
        }
        if y > 0 {
            proof {
                lemma_index(w as int, h as int, x as int, y - 1);
                lemma_next_row(w as int, y - 1);
            }
            let ghost (v0, s0) = (visited@, stack@);
            let added = visit(bg, visited, stack, i - w);
            proof {
                if added {
                    lemma_spread(bg@, w as int, n, seen0, seeds, v0, s0, fresh, done, p, (i - w) as usize);
                    fresh = fresh.insert(i - w);
                }
            }
        }
        if y + 1 < h {
            proof {
                lemma_index(w as int, h as int, x as int, y + 1);
                lemma_next_row(w as int, y as int);
            }
            let ghost (v0, s0) = (visited@, stack@);
            let added = visit(bg, visited, stack, i + w);
            proof {
                if added {
                    lemma_spread(bg@, w as int, n, seen0, seeds, v0, s0, fresh, done, p, (i + w) as usize);
                    fresh = fresh.insert(i + w);
                }
            }
        }
        proof {
            assert(fresh.subset_of(open));
            lemma_len_subset(fresh, open);
            assert forall|q: int| #[trigger] adj(p, q) implies fresh.contains(q) by {
                lemma_neighbours4(w as int, h as int, p, q);
                assert(visited@[q]);
            }
        }
    }
    proof {
        let seeded = Set::new(|q: int| seeds.contains(q as usize) && 0 <= q <= usize::MAX);
        let whole = fresh.union(seeded);
        assert forall|q: int| #[trigger] whole.contains(q) implies done.contains(q) by {
            if !fresh.contains(q) {
                let k = choose|k: int| 0 <= k < seeds.len() && seeds[k] == q as usize;
                assert(done.contains(seeds[k] as int));
            }
        }
        assert(closed_under(adj, whole));
        assert forall|q: int| 0 <= q < n implies #[trigger] visited@[q] == (seen0[q] || flooded(
            adj,
            seeds,
            q,
        )) by {
            if flooded(adj, seeds, q) {
                let k = choose|k: int|
                    0 <= k < seeds.len() && reachable(adj, (#[trigger] seeds[k]) as int, q);
                assert(seeded.contains(seeds[k] as int));
                lemma_closed_holds_reach(adj, whole, seeds[k] as int, q);
            }
        }
        assert(newly(seen0, visited@, n) =~= fresh);
    }
    area
}

/// The pixels that share a side with a pixel lie beside it, above it or below it.
proof fn lemma_neighbours4(w: int, h: int, p: int, q: int)
    requires
        0 < w,
        0 <= p < w * h,
        0 <= q < w * h,
        near4(w, p, q),
    ensures
        ({
            ||| q == p - 1 && col(w, p) > 0
            ||| q == p + 1 && col(w, p) + 1 < w
            ||| q == p - w && row(w, p) > 0
            ||| q == p + w && row(w, p) + 1 < h
        }),
{
    lemma_coords(w, h, p);
    lemma_coords(w, h, q);
    if row(w, p) == row(w, q) {
    } else if row(w, p) - row(w, q) == 1 {
        lemma_next_row(w, row(w, q));
    } else {
        lemma_next_row(w, row(w, p));
    }
}

/// Whether pixel `p` lies on the edge of a `w` by `h` grid.
pub open spec fn on_border(w: int, h: int, p: int) -> bool {
    col(w, p) == 0 || col(w, p) == w - 1 || row(w, p) == 0 || row(w, p) == h - 1
}

/// Whether some background pixel on the edge of the grid is 4-connected to `q`.
pub open spec fn outside(bg: Seq<bool>, w: int, h: int, q: int) -> bool {
    exists|b: int|
        0 <= b < w * h && bg[b] && on_border(w, h, b) && #[trigger] reachable(
            joined4(bg, w, w * h),
            b,
            q,
        )
}

/// Whether `r` is the first pixel of a hole: a 4-connected background region of at least
/// `min_area` pixels, none of them connected to the edge of the grid.
pub open spec fn is_hole_root(bg: Seq<bool>, w: int, h: int, min_area: int, r: int) -> bool {
    let adj = joined4(bg, w, w * h);
    &&& bg[r]
    &&& root_of(adj, r) == r
    &&& !outside(bg, w, h, r)
    &&& piece(adj, w * h, r).len() >= min_area
}

/// How many holes have their first pixel below `upto`.
pub open spec fn holes_below(bg: Seq<bool>, w: int, h: int, min_area: int, upto: int) -> nat
    decreases upto,
{
    if upto <= 0 {
        0
    } else if is_hole_root(bg, w, h, min_area, upto - 1) {
        holes_below(bg, w, h, min_area, upto - 1) + 1
    } else {
        holes_below(bg, w, h, min_area, upto - 1)
    }
}

/// The background of a mask: its zero pixels.
pub open spec fn background(mask: GrayImage) -> Seq<bool> {
    mask.pixels@.map_values(|v: u8| v == 0)
}

proof fn lemma_joined4_symmetric(on: Seq<bool>, w: int, n: int)
    ensures
        symmetric(joined4(on, w, n)),
{
}

/// Seeds that stand on the stack once each: the set pixels of `bg` among those of `edge`.
spec fn seeded(bg: Seq<bool>, visited: Seq<bool>, stack: Seq<usize>, edge: Set<int>) -> bool {
    &&& visited.len() == bg.len()
    &&& forall|q: int|
        0 <= q < bg.len() ==> #[trigger] visited[q] == (bg[q] && edge.contains(q))
    &&& forall|i: int|
        0 <= i < stack.len() ==> (#[trigger] stack[i]) < bg.len() && visited[stack[i] as int]
    &&& forall|q: int|
        0 <= q < bg.len() && #[trigger] visited[q] ==> stack.contains(q as usize)
    &&& stack.no_duplicates()
}

/// Puts pixel `j` on the stack if it is background and was not seen.
fn seed(
    bg: &[bool],
    visited: &mut Vec<bool>,
    stack: &mut Vec<usize>,
    j: usize,
    Ghost(edge): Ghost<Set<int>>,
)
    requires
        j < bg@.len(),
        seeded(bg@, old(visited)@, old(stack)@, edge),
    ensures
        seeded(bg@, final(visited)@, final(stack)@, edge.insert(j as int)),
{
    let ghost (v0, s0) = (visited@, stack@);
    let added = visit(bg, visited, stack, j);
    proof {
        if added {
            assert(stack@[s0.len() as int] == j);
            assert forall|q: int| 0 <= q < bg@.len() && #[trigger] visited@[q] implies stack@.contains(
                q as usize,
            ) by {
                if q != j {
                    assert(v0[q]);
                    let i = choose|i: int| 0 <= i < s0.len() && s0[i] == q as usize;
                    assert(stack@[i] == q as usize);
                }
            }
            assert forall|a: int, b: int|
                0 <= a < stack@.len() && 0 <= b < stack@.len() && a != b implies stack@[a]
                != stack@[b] by {
                if a == s0.len() {
                    assert(v0[s0[b] as int]);
                } else if b == s0.len() {
                    assert(v0[s0[a] as int]);
                }
            }
        }
    }
}

/// Seeds the flood from every background pixel on the edge of the grid.
fn seed_border(bg: &[bool], w: usize, h: usize, visited: &mut Vec<bool>, stack: &mut Vec<usize>) -> (
    edge: Ghost<Set<int>>)
    requires
        bg@.len() == w * h,
        w > 0,
        h > 0,
        seeded(bg@, old(visited)@, old(stack)@, Set::empty()),
    ensures
        seeded(bg@, final(visited)@, final(stack)@, edge@),
        forall|q: int| 0 <= q < w * h ==> (#[trigger] edge@.contains(q) <==> on_border(w as int, h as int, q)),
{
    let total: usize = bg.len();
    let ghost n = w * h;
    let ghost mut edge = Set::<int>::empty();
    let mut x: usize = 0;
    while x < w
        invariant
            bg@.len() == n == total == w * h,
            w > 0,
            h > 0,
            x <= w,
            seeded(bg@, visited@, stack@, edge),
            forall|q: int| 0 <= q < n && #[trigger] edge.contains(q) ==> on_border(w as int, h as int, q),
            forall|q: int|
                0 <= q < n && col(w as int, q) < x && (row(w as int, q) == 0 || row(w as int, q) == h - 1)
                    ==> #[trigger] edge.contains(q),
        decreases w - x,
    {
        proof {
            lemma_index(w as int, h as int, x as int, 0);
            lemma_index(w as int, h as int, x as int, h - 1);
        }
        let top: usize = x;
        let bottom: usize = (h - 1) * w + x;
        seed(bg, visited, stack, top, Ghost(edge));
        seed(bg, visited, stack, bottom, Ghost(edge.insert(top as int)));
        proof {
            let edge0 = edge;
            edge = edge.insert(top as int).insert(bottom as int);
            assert forall|q: int|
                0 <= q < n && col(w as int, q) < x + 1 && (row(w as int, q) == 0 || row(w as int, q) == h - 1)
                implies #[trigger] edge.contains(q) by {
                lemma_coords(w as int, h as int, q);
                if col(w as int, q) < x {
                    assert(edge0.contains(q));
                }
            }
        }
        x = x + 1;
    }
    let mut y: usize = 0;
    while y < h
        invariant
            bg@.len() == n == total == w * h,
            w > 0,
            h > 0,
            y <= h,
            seeded(bg@, visited@, stack@, edge),
            forall|q: int| 0 <= q < n && #[trigger] edge.contains(q) ==> on_border(w as int, h as int, q),
            forall|q: int|
                0 <= q < n && col(w as int, q) < w && (row(w as int, q) == 0 || row(w as int, q) == h - 1)
                    ==> #[trigger] edge.contains(q),
            forall|q: int|
                0 <= q < n && row(w as int, q) < y && (col(w as int, q) == 0 || col(w as int, q) == w - 1)
                    ==> #[trigger] edge.contains(q),
        decreases h - y,
    {
        proof {
            lemma_index(w as int, h as int, 0, y as int);
            lemma_index(w as int, h as int, w - 1, y as int);
        }
        let left: usize = y * w;
        let right: usize = y * w + (w - 1);
        seed(bg, visited, stack, left, Ghost(edge));
        seed(bg, visited, stack, right, Ghost(edge.insert(left as int)));
        proof {
            let edge0 = edge;
            edge = edge.insert(left as int).insert(right as int);
            assert forall|q: int|
                0 <= q < n && row(w as int, q) < y + 1 && (col(w as int, q) == 0 || col(w as int, q) == w - 1)
                implies #[trigger] edge.contains(q) by {
                lemma_coords(w as int, h as int, q);
                if row(w as int, q) < y {
                    assert(edge0.contains(q));
                }
            }
            assert forall|q: int|
                0 <= q < n && col(w as int, q) < w && (row(w as int, q) == 0 || row(w as int, q) == h - 1)
                implies #[trigger] edge.contains(q) by {
                assert(edge0.contains(q));
            }
        }
        y = y + 1;
    }
    proof {
        assert forall|q: int| 0 <= q < n && on_border(w as int, h as int, q) implies #[trigger] edge.contains(q) by {
            lemma_coords(w as int, h as int, q);
        }
    }
    Ghost(edge)
}

/// A flood from seeds on the edge gets to exactly the background connected to the edge.
proof fn lemma_exterior(
    bg: Seq<bool>,
    w: int,
    h: int,
    seen0: Seq<bool>,
    seeds: Seq<usize>,
    edge: Set<int>,
    q: int,
)
    requires
        bg.len() == w * h <= usize::MAX,
        seeded(bg, seen0, seeds, edge),
        forall|p: int| 0 <= p < w * h ==> (#[trigger] edge.contains(p) <==> on_border(w, h, p)),
        0 <= q < w * h,
    ensures
        (seen0[q] || flooded(unseen4(bg, w, w * h, seen0), seeds, q)) == (bg[q] && outside(
            bg,
            w,
            h,
            q,
        )),
{
    let n = w * h;
    let adj = joined4(bg, w, n);
    let spread = unseen4(bg, w, n, seen0);
    let reached = Set::new(|p: int| 0 <= p < n && (seen0[p] || flooded(spread, seeds, p)));
    let target = Set::new(|p: int| 0 <= p < n && bg[p] && outside(bg, w, h, p));
    assert forall|p: int| 0 <= p < n && #[trigger] seen0[p] implies target.contains(p) && flooded(
        spread,
        seeds,
        p,
    ) by {
        assert(edge.contains(p));
        lemma_reach_self(adj, p);
        assert(reachable(adj, p, p));
        lemma_reach_self(spread, p);
        let k = choose|k: int| 0 <= k < seeds.len() && seeds[k] == p as usize;
        assert(reachable(spread, seeds[k] as int, p));
    }
    assert(closed_under(spread, target)) by {
        assert forall|a: int, b: int| target.contains(a) && #[trigger] spread(a, b) implies target.contains(b) by {
            let s = choose|s: int| 0 <= s < n && bg[s] && on_border(w, h, s) && #[trigger] reachable(adj, s, a);
            lemma_reach_step(adj, s, a, b);
        }
    }
    assert(closed_under(adj, reached)) by {
        assert forall|a: int, b: int| reached.contains(a) && #[trigger] adj(a, b) implies reached.contains(b) by {
            if !seen0[b] {
                assert(flooded(spread, seeds, a));
                let k = choose|k: int| 0 <= k < seeds.len() && reachable(spread, (#[trigger] seeds[k]) as int, a);
                lemma_reach_step(spread, seeds[k] as int, a, b);
            }
        }
    }
    if flooded(spread, seeds, q) {
        let k = choose|k: int| 0 <= k < seeds.len() && reachable(spread, (#[trigger] seeds[k]) as int, q);
        assert(seen0[seeds[k] as int]);
        lemma_closed_holds_reach(spread, target, seeds[k] as int, q);
    }
    if bg[q] && outside(bg, w, h, q) {
        let s = choose|s: int| 0 <= s < n && bg[s] && on_border(w, h, s) && #[trigger] reachable(adj, s, q);
        assert(edge.contains(s));
        assert(seen0[s]);
        lemma_closed_holds_reach(adj, reached, s, q);
    }
}

/// A flood from one unseen pixel gets to exactly its 4-connected region, where what was seen
/// before consists of whole regions.
proof fn lemma_interior(bg: Seq<bool>, w: int, h: int, seen: Seq<bool>, s: usize, q: int)
    requires
        bg.len() == w * h == seen.len(),
        s < w * h,
        bg[s as int],
        !seen[s as int],
        forall|a: int, b: int| #[trigger]
            joined4(bg, w, w * h)(a, b) ==> (seen[a] <==> seen[b]),
        0 <= q < w * h,
    ensures
        flooded(unseen4(bg, w, w * h, seen.update(s as int, true)), seq![s], q) == reachable(
            joined4(bg, w, w * h),
            s as int,
            q,
        ),
        reachable(joined4(bg, w, w * h), s as int, q) ==> !seen[q] && bg[q],
{
    let n = w * h;
    let adj = joined4(bg, w, n);
    let spread = unseen4(bg, w, n, seen.update(s as int, true));
    let region = Set::new(|p: int| 0 <= p < n && reachable(adj, s as int, p) && bg[p] && !seen[p]);
    let reached = Set::new(|p: int| 0 <= p < n && flooded(spread, seq![s], p) && region.contains(p));
    lemma_reach_self(adj, s as int);
    lemma_reach_self(spread, s as int);
    assert(seq![s][0] == s);
    assert(flooded(spread, seq![s], s as int));
    assert(closed_under(adj, region)) by {
        assert forall|a: int, b: int| region.contains(a) && #[trigger] adj(a, b) implies region.contains(b) by {
            lemma_reach_step(adj, s as int, a, b);
        }
    }
    assert(closed_under(spread, region)) by {
        assert forall|a: int, b: int| region.contains(a) && #[trigger] spread(a, b) implies region.contains(b) by {
            assert(adj(a, b));
        }
    }
    assert(closed_under(adj, reached)) by {
        assert forall|a: int, b: int| reached.contains(a) && #[trigger] adj(a, b) implies reached.contains(b) by {
            assert(region.contains(b));
            if b != s {
                assert(spread(a, b));
                let k = choose|k: int| 0 <= k < seq![s].len() && reachable(spread, (#[trigger] seq![s][k]) as int, a);
                lemma_reach_step(spread, s as int, a, b);
                assert(reachable(spread, seq![s][0] as int, b));
            }
        }
    }
    if reachable(adj, s as int, q) {
        lemma_closed_holds_reach(adj, region, s as int, q);
        lemma_closed_holds_reach(adj, reached, s as int, q);
    }
    if flooded(spread, seq![s], q) {
        let k = choose|k: int| 0 <= k < seq![s].len() && reachable(spread, (#[trigger] seq![s][k]) as int, q);
        lemma_closed_holds_reach(spread, region, s as int, q);
    }
}

/// Count enclosed background regions (holes) of at least `min_area` pixels in the mask. A hole is
/// background not 4-connected to the mask border, e.g. the two reel windows of a cassette.
pub fn mask_hole_count(mask: &GrayImage, min_area: usize) -> (holes: usize)
    requires
        mask.wf(),
    ensures
        holes == holes_below(
            background(*mask),
            mask.width as int,
            mask.height as int,
            min_area as int,
            mask.width * mask.height,
        ),
{
    let w: usize = mask.width as usize;
    let h: usize = mask.height as usize;
    let total: usize = mask.pixels.len();
    if w == 0 || h == 0 {
        assert(w * h == 0) by (nonlinear_arith)
            requires
                w == 0 || h == 0,
        ;
        return 0;
    }
    let ghost n = w * h;
    let ghost whole = background(*mask);
    let ghost adj = joined4(whole, w as int, n);
    let mut bg: Vec<bool> = Vec::new();
    let mut visited: Vec<bool> = Vec::new();
    let mut stack: Vec<usize> = Vec::new();
    let mut i: usize = 0;
    while i < total
        invariant
            i <= total == mask.pixels@.len(),
            bg@.len() == i == visited@.len(),
            forall|k: int| 0 <= k < i ==> #[trigger] bg@[k] == (mask.pixels@[k] == 0),
            forall|k: int| 0 <= k < i ==> !#[trigger] visited@[k],
        decreases total - i,
    {
        bg.push(mask.pixels[i] == 0);
        visited.push(false);
        i = i + 1;
    }
    assert(bg@ =~= whole);
    let edge = seed_border(bg.as_slice(), w, h, &mut visited, &mut stack);
    let ghost (seen0, seeds) = (visited@, stack@);
    proof {
        lemma_joined4_symmetric(whole, w as int, n);
        lemma_distinct_below(seeds, whole, seen0);
    }
    let _ = flood_bg_4(bg.as_slice(), w, h, &mut visited, &mut stack);
    let mut holes: usize = 0;
    let mut start: usize = 0;
    proof {
        assert forall|q: int| 0 <= q < n implies #[trigger] visited@[q] == (whole[q] && (outside(
            whole,
            w as int,
            h as int,
            q,
        ) || root_of(adj, q) < 0)) by {
            lemma_exterior(whole, w as int, h as int, seen0, seeds, edge@, q);
            lemma_root(adj, q);
        }
    }
    while start < total
        invariant
            n == w * h == total == visited@.len() == bg@.len(),
            w > 0,
            bg@ == whole,
            adj == joined4(whole, w as int, n),
            symmetric(adj),
            start <= total,
            stack@.len() == 0,
            holes <= start,
            holes == holes_below(whole, w as int, h as int, min_area as int, start as int),
            forall|q: int|
                0 <= q < n ==> #[trigger] visited@[q] == (whole[q] && (outside(
                    whole,
                    w as int,
                    h as int,
                    q,
                ) || root_of(adj, q) < start)),
        decreases total - start,
    {
        let ghost seen = visited@;
        proof {
            lemma_root(adj, start as int);
            assert forall|q: int| 0 <= q < n && whole[q] && #[trigger] root_of(adj, q) == start implies {
                &&& whole[start as int]
                &&& root_of(adj, start as int) == start
                &&& outside(whole, w as int, h as int, q) == outside(whole, w as int, h as int, start as int)
            } by {
                lemma_root(adj, q);
                lemma_same_root(adj, start as int, q);
                if !whole[start as int] {
                    lemma_unset_alone(whole, w as int, n, start as int, q);
                }
                lemma_outside_shared(whole, w as int, h as int, start as int, q);
            }
        }
        if !visited[start] && bg[start] {
            proof {
                assert forall|a: int, b: int| #[trigger] adj(a, b) implies (seen[a] <==> seen[b]) by {
                    lemma_reach_edge(adj, a, b);
                    lemma_same_root(adj, a, b);
                    lemma_outside_shared(whole, w as int, h as int, a, b);
                }
            }
            visited.set(start, true);
            stack.push(start);
            let ghost marked = visited@;
            proof {
                assert(stack@ =~= seq![start]);
                assert(unseen(whole, n, marked).insert(start as int).subset_of(set_int_range(0, n)));
                lemma_below_finite(unseen(whole, n, marked).insert(start as int), n);
                lemma_below_finite(unseen(whole, n, marked), n);
            }
            let area = flood_bg_4(bg.as_slice(), w, h, &mut visited, &mut stack);
            proof {
                let region = piece(adj, n, start as int);
                let added = newly(marked, visited@, n);
                assert forall|q: int| 0 <= q < n implies #[trigger] visited@[q] == (seen[q] || reachable(
                    adj,
                    start as int,
                    q,
                )) && (reachable(adj, start as int, q) ==> !seen[q] && whole[q]) by {
                    lemma_interior(whole, w as int, h as int, seen, start, q);
                    lemma_reach_self(adj, start as int);
                }
                lemma_reach_self(adj, start as int);
                lemma_below_finite(added, n);
                assert(added.insert(start as int) =~= region);
                assert(area == region.len());
                assert forall|q: int| 0 <= q < n implies #[trigger] visited@[q] == (whole[q] && (outside(
                    whole,
                    w as int,
                    h as int,
                    q,
                ) || root_of(adj, q) < start + 1)) by {
                    lemma_same_root(adj, start as int, q);
                }
            }
            if area >= min_area {
                holes = holes + 1;
            }
        }
        start = start + 1;
    }
    holes
}

/// Distinct seen pixels and the unseen pixels are together no more than there are pixels.
proof fn lemma_distinct_below(stack: Seq<usize>, bg: Seq<bool>, seen: Seq<bool>)
    requires
        seen.len() == bg.len(),
        stack.no_duplicates(),
        forall|i: int|
            0 <= i < stack.len() ==> (#[trigger] stack[i]) < bg.len() && seen[stack[i] as int],
    ensures
        stack.len() + unseen(bg, bg.len() as int, seen).len() <= bg.len(),
{
    let open = unseen(bg, bg.len() as int, seen);
    let standing = stack.map_values(|v: usize| v as int);
    standing.unique_seq_to_set();
    assert forall|q: int| standing.to_set().contains(q) implies 0 <= q < bg.len() && seen[q] by {
        let i = choose|i: int| 0 <= i < standing.len() && standing[i] == q;
        assert(stack[i] == q);
    }
    lemma_below_finite(open, bg.len() as int);
    lemma_below_finite(standing.to_set(), bg.len() as int);
    lemma_below_finite(open.union(standing.to_set()), bg.len() as int);
    assert(open.disjoint(standing.to_set()));
    lemma_set_disjoint_lens(open, standing.to_set());
}

proof fn lemma_unset_alone(on: Seq<bool>, w: int, n: int, a: int, b: int)
    requires
        !on[a],
        reachable(joined4(on, w, n), a, b),
    ensures
        a == b,
{
    assert(closed_under(joined4(on, w, n), set![a]));
    lemma_closed_holds_reach(joined4(on, w, n), set![a], a, b);
}

proof fn lemma_outside_shared(bg: Seq<bool>, w: int, h: int, p: int, q: int)
    requires
        reachable(joined4(bg, w, w * h), p, q),
    ensures
        outside(bg, w, h, p) == outside(bg, w, h, q),
{
    let adj = joined4(bg, w, w * h);
    lemma_joined4_symmetric(bg, w, w * h);
    if outside(bg, w, h, p) {
        let b = choose|b: int| 0 <= b < w * h && bg[b] && on_border(w, h, b) && #[trigger] reachable(adj, b, p);
        lemma_reach_trans(adj, b, p, q);
    }
    if outside(bg, w, h, q) {
        let b = choose|b: int| 0 <= b < w * h && bg[b] && on_border(w, h, b) && #[trigger] reachable(adj, b, q);
        lemma_reach_back(adj, p, q);
        lemma_reach_trans(adj, b, q, p);
    }
}

/// Build a binary mask (255 = object) for `label` within `[min..=max]` bounds.
pub fn object_mask(
    labels: &[usize],
    w: usize,
    label: usize,
    min_x: usize,
    min_y: usize,
    max_x: usize,
    max_y: usize,
) -> (mask: GrayImage)
    requires
        box_in((Object { label, area: 0, min_x, min_y, max_x, max_y }), w as int, labels@.len() as int),
    ensures
        mask.wf(),
        mask.width == max_x - min_x + 1,
        mask.height == max_y - min_y + 1,
        forall|i: int, j: int|
            mask.has(i, j) ==> #[trigger] mask.at(i, j) == if labels@[(min_y + j) * w + (min_x + i)]
                == label {
                255u8
            } else {
                0
            },
{
    let ghost obj = Object { label, area: 0, min_x, min_y, max_x, max_y };
    let ow: usize = max_x - min_x + 1;
    let oh: usize = max_y - min_y + 1;
    let count: usize = labels.len();
    let mut pixels: Vec<u8> = Vec::new();
    let mut j: usize = 0;
    assert(0 * ow == 0) by (nonlinear_arith);
    while j < oh
        invariant
            count == labels@.len(),
            obj == (Object { label, area: 0, min_x, min_y, max_x, max_y }),
            box_in(obj, w as int, count as int),
            ow == max_x - min_x + 1,
            oh == max_y - min_y + 1,
            j <= oh,
            pixels@.len() == j * ow,
            forall|k: int|
                0 <= k < pixels@.len() ==> #[trigger] pixels@[k] == if labels@[(min_y + row(
                    ow as int,
                    k,
                )) * w + (min_x + col(ow as int, k))] == label {
                    255u8
                } else {
                    0
                },
        decreases oh - j,
    {
        let mut i: usize = 0;
        while i < ow
            invariant
                count == labels@.len(),
                obj == (Object { label, area: 0, min_x, min_y, max_x, max_y }),
                box_in(obj, w as int, count as int),
                ow == max_x - min_x + 1,
                oh == max_y - min_y + 1,
                j < oh,
                i <= ow,
                pixels@.len() == j * ow + i,
                forall|k: int|
                    0 <= k < pixels@.len() ==> #[trigger] pixels@[k] == if labels@[(min_y + row(
                        ow as int,
                        k,
                    )) * w + (min_x + col(ow as int, k))] == label {
                        255u8
                    } else {
                        0
                    },
            decreases ow - i,
        {
            let x: usize = min_x + i;
            let y: usize = min_y + j;
            proof {
                lemma_box_index(obj, w as int, count as int, x as int, y as int);
                lemma_index(ow as int, oh as int, i as int, j as int);
            }
            if labels[y * w + x] == label {
                pixels.push(255);
            } else {
                pixels.push(0);
            }
            i = i + 1;
        }
        proof {
            lemma_next_row(ow as int, j as int);
        }
        j = j + 1;
    }
    let mask = Raster { width: ow as u32, height: oh as u32, pixels };
    proof {
        assert(oh * ow == ow * oh) by (nonlinear_arith);
        assert forall|i: int, j: int| mask.has(i, j) implies #[trigger] mask.at(i, j) == if labels@[(
        min_y + j) * w + (min_x + i)] == label {
            255u8
        } else {
            0
        } by {
            lemma_index(ow as int, oh as int, i, j);
        }
    }
    mask
}

/// Whether column `x` of row `y` is a set pixel on the edge of the mask or beside a background
/// pixel, corners counted.
pub open spec fn on_contour(mask: GrayImage, x: int, y: int) -> bool {
    &&& mask.at(x, y) != 0
    &&& {
        ||| x == 0 || y == 0 || x + 1 == mask.width || y + 1 == mask.height
        ||| exists|nx: int, ny: int|
            x - 1 <= nx <= x + 1 && y - 1 <= ny <= y + 1 && #[trigger] mask.at(nx, ny) == 0
    }
}

/// The contour pixels among the first `upto` pixels, row by row.
pub open spec fn contour_below(mask: GrayImage, upto: int) -> Seq<(u32, u32)>
    decreases upto,
{
    if upto <= 0 {
        Seq::empty()
    } else {
        let earlier = contour_below(mask, upto - 1);
        let x = col(mask.width as int, upto - 1);
        let y = row(mask.width as int, upto - 1);
        if on_contour(mask, x, y) {
            earlier.push((x as u32, y as u32))
        } else {
            earlier
        }
    }
}

fn is_set(mask: &GrayImage, x: u32, y: u32) -> (r: bool)
    requires
        mask.wf(),
        mask.has(x as int, y as int),
    ensures
        r == (mask.at(x as int, y as int) != 0),
{
    let total: usize = mask.pixels.len();
    proof {
        lemma_index(mask.width as int, mask.height as int, x as int, y as int);
    }
    mask.pixels[y as usize * mask.width as usize + x as usize] != 0
}

fn touches_background(mask: &GrayImage, x: u32, y: u32) -> (r: bool)
    requires
        mask.wf(),
        0 < x < mask.width - 1,
        0 < y < mask.height - 1,
    ensures
        r == exists|nx: int, ny: int|
            x - 1 <= nx <= x + 1 && y - 1 <= ny <= y + 1 && #[trigger] mask.at(nx, ny) == 0,
{
    let mut touches = false;
    let mut ny: u32 = y - 1;
    while ny <= y + 1
        invariant
            mask.wf(),
            0 < x < mask.width - 1,
            0 < y < mask.height - 1,
            y - 1 <= ny <= y + 2,
            touches == exists|i: int, j: int|
                x - 1 <= i <= x + 1 && y - 1 <= j < ny && #[trigger] mask.at(i, j) == 0,
        decreases y + 2 - ny,
    {
        let mut nx: u32 = x - 1;
        let ghost before = touches;
        while nx <= x + 1
            invariant
                mask.wf(),
                0 < x < mask.width - 1,
                0 < y < mask.height - 1,
                y - 1 <= ny <= y + 1,
                x - 1 <= nx <= x + 2,
                before == exists|i: int, j: int|
                    x - 1 <= i <= x + 1 && y - 1 <= j < ny && #[trigger] mask.at(i, j) == 0,
                touches == (before || exists|i: int|
                    x - 1 <= i < nx && #[trigger] mask.at(i, ny as int) == 0),
            decreases x + 2 - nx,
        {
            if !is_set(mask, nx, ny) {
                touches = true;
            }
            nx = nx + 1;
        }
        proof {
            if touches && !before {
                let i = choose|i: int| x - 1 <= i < nx && #[trigger] mask.at(i, ny as int) == 0;
                assert(mask.at(i, ny as int) == 0);
            }
        }
        ny = ny + 1;
    }
    touches
}

/// The set pixels on the edge of the mask or beside a background pixel, row by row.
pub fn mask_contour_points(mask: &GrayImage) -> (points: Vec<(u32, u32)>)
    requires
        mask.wf(),
    ensures
        points@ == contour_below(*mask, mask.width * mask.height),
{
    let mut points: Vec<(u32, u32)> = Vec::new();
    let (w, h) = (mask.width, mask.height);
    let mut y: u32 = 0;
    assert(0 * w == 0) by (nonlinear_arith);
    while y < h
        invariant
            mask.wf(),
            w == mask.width,
            h == mask.height,
            y <= h,
            points@ == contour_below(*mask, y * w),
        decreases h - y,
    {
        let mut x: u32 = 0;
        while x < w
            invariant
                mask.wf(),
                w == mask.width,
                h == mask.height,
                y < h,
                x <= w,
                points@ == contour_below(*mask, y * w + x),
            decreases w - x,
        {
            proof {
                lemma_index(w as int, h as int, x as int, y as int);
            }
            if is_set(mask, x, y) {
                let at_edge = x == 0 || y == 0 || x + 1 == w || y + 1 == h;
                if at_edge || touches_background(mask, x, y) {
                    points.push((x, y));
                }
            }
            x = x + 1;
        }
        proof {
            lemma_next_row(w as int, y as int);
        }
        y = y + 1;
    }
    assert(h * w == w * h) by (nonlinear_arith);
    points
}

} // verus!
