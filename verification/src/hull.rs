//! Convex hulls of pixels.
use vstd::prelude::*;

verus! {

/// A point of the plane.
pub type Point = (i64, i64);

/// Twice the signed area of the triangle `o`, `a`, `b`: positive where `b` lies to the left of the
/// way from `o` to `a`.
pub open spec fn cross(o: Point, a: Point, b: Point) -> int {
    (a.0 - o.0) * (b.1 - o.1) - (a.1 - o.1) * (b.0 - o.0)
}

/// Whether `a` lies before `b`: further left, or straight below it.
pub open spec fn before(a: Point, b: Point) -> bool {
    a.0 < b.0 || (a.0 == b.0 && a.1 < b.1)
}

/// Whether each point lies before the next.
pub open spec fn ascending(pts: Seq<Point>) -> bool {
    forall|i: int, j: int| 0 <= i < j < pts.len() ==> before(#[trigger] pts[i], #[trigger] pts[j])
}

/// Whether the coordinates are in the range of those of a pixel, or of its mirror image.
pub open spec fn small(p: Point) -> bool {
    -0x1_0000_0000 <= p.0 <= 0x1_0000_0000 && -0x1_0000_0000 <= p.1 <= 0x1_0000_0000
}

/// Whether all the points are small.
pub open spec fn all_small(pts: Seq<Point>) -> bool {
    forall|i: int| 0 <= i < pts.len() ==> small(#[trigger] pts[i])
}

fn cross_of(o: Point, a: Point, b: Point) -> (r: i128)
    requires
        small(o),
        small(a),
        small(b),
    ensures
        r == cross(o, a, b),
{
    let (x1, y1) = ((a.0 - o.0) as i128, (a.1 - o.1) as i128);
    let (x2, y2) = ((b.0 - o.0) as i128, (b.1 - o.1) as i128);
    proof {
        let m = 0x2_0000_0000int;
        assert(-m * m <= x1 * y2 <= m * m) by (nonlinear_arith)
            requires
                -m <= x1 <= m,
                -m <= y2 <= m,
        ;
        assert(-m * m <= y1 * x2 <= m * m) by (nonlinear_arith)
            requires
                -m <= y1 <= m,
                -m <= x2 <= m,
        ;
        assert(m * m == 0x4_0000_0000_0000_0000int) by (nonlinear_arith)
            requires
                m == 0x2_0000_0000int,
        ;
    }
    x1 * y2 - y1 * x2
}

/// The cross product of two vectors.
spec fn turn(ux: int, uy: int, vx: int, vy: int) -> int {
    ux * vy - uy * vx
}

/// Whether a vector points to the right, or straight up.
spec fn ahead(ux: int, uy: int) -> bool {
    ux > 0 || (ux == 0 && uy > 0)
}

/// Of vectors that point ahead: where `v` turns left from `u` and `w` turns left from `v`, `w`
/// turns left from `u` too, or is straight on.
proof fn lemma_turns(ux: int, uy: int, vx: int, vy: int, wx: int, wy: int)
    requires
        ux >= 0,
        ahead(vx, vy),
        wx >= 0,
        turn(ux, uy, vx, vy) >= 0,
        turn(vx, vy, wx, wy) >= 0,
        vx == 0 ==> ux == 0 || wx == 0,
        vx == 0 && ux == 0 ==> uy >= 0,
        vx == 0 && wx == 0 ==> wy >= 0,
    ensures
        turn(ux, uy, wx, wy) >= 0,
{
    let uv = turn(ux, uy, vx, vy);
    let vw = turn(vx, vy, wx, wy);
    let uw = turn(ux, uy, wx, wy);
    assert(uw * vx == uv * wx + vw * ux) by (nonlinear_arith)
        requires
            uv == ux * vy - uy * vx,
            vw == vx * wy - vy * wx,
            uw == ux * wy - uy * wx,
    ;
    assert(uv * wx >= 0) by (nonlinear_arith)
        requires
            uv >= 0,
            wx >= 0,
    ;
    assert(vw * ux >= 0) by (nonlinear_arith)
        requires
            vw >= 0,
            ux >= 0,
    ;
    if vx > 0 {
        assert(uw >= 0) by (nonlinear_arith)
            requires
                uw * vx >= 0,
                vx > 0,
        ;
    } else {
        // v points straight up, so w, which does not turn right from it, does so too.
        assert(vy * wx <= 0 && wx == 0) by (nonlinear_arith)
            requires
                vw >= 0,
                vw == vx * wy - vy * wx,
                vx == 0,
                vy > 0,
                wx >= 0,
        ;
        assert(ux * wy >= 0) by (nonlinear_arith)
            requires
                ux >= 0,
                wy >= 0,
        ;
        assert(uy * wx == 0) by (nonlinear_arith)
            requires
                wx == 0,
        ;
    }
}

/// On the way `a`, `b`, `c`, `p`, which leads ahead and turns left twice, `p` lies to the left of
/// the way from `a` to `b`.
proof fn lemma_keeps_left(a: Point, b: Point, c: Point, p: Point)
    requires
        before(a, b),
        before(b, c),
        before(c, p),
        cross(a, b, c) > 0,
        cross(b, c, p) > 0,
    ensures
        cross(a, b, p) > 0,
{
    let (ux, uy) = (b.0 - a.0, b.1 - a.1);
    let (vx, vy) = (c.0 - b.0, c.1 - b.1);
    let (wx, wy) = (p.0 - c.0, p.1 - c.1);
    assert(cross(a, b, c) == turn(ux, uy, vx, vy)) by (nonlinear_arith)
        requires
            cross(a, b, c) == ux * (uy + vy) - uy * (ux + vx),
            turn(ux, uy, vx, vy) == ux * vy - uy * vx,
    ;
    assert(cross(b, c, p) == turn(vx, vy, wx, wy)) by (nonlinear_arith)
        requires
            cross(b, c, p) == vx * (vy + wy) - vy * (vx + wx),
            turn(vx, vy, wx, wy) == vx * wy - vy * wx,
    ;
    if vx == 0 {
        assert(wx == 0) by (nonlinear_arith)
            requires
                vx * wy - vy * wx > 0,
                vx == 0,
                vy > 0,
                wx >= 0,
        ;
    }
    lemma_turns(ux, uy, vx, vy, wx, wy);
    assert(cross(a, b, p) == turn(ux, uy, vx, vy) + turn(ux, uy, wx, wy)) by (nonlinear_arith)
        requires
            cross(a, b, p) == ux * (uy + vy + wy) - uy * (ux + vx + wx),
            turn(ux, uy, vx, vy) == ux * vy - uy * vx,
            turn(ux, uy, wx, wy) == ux * wy - uy * wx,
    ;
}

/// Seen from `t`, where `b` is not left of `p`, what is not right of `b` is not right of `p`.
proof fn lemma_pop(t: Point, b: Point, p: Point, q: Point)
    requires
        before(t, b),
        before(t, p),
        before(t, q),
        cross(t, b, q) >= 0,
        cross(t, b, p) <= 0,
    ensures
        cross(t, p, q) >= 0,
{
    let (ux, uy) = (p.0 - t.0, p.1 - t.1);
    let (vx, vy) = (b.0 - t.0, b.1 - t.1);
    let (wx, wy) = (q.0 - t.0, q.1 - t.1);
    assert(turn(ux, uy, vx, vy) == -cross(t, b, p)) by (nonlinear_arith)
        requires
            turn(ux, uy, vx, vy) == ux * vy - uy * vx,
            cross(t, b, p) == vx * uy - vy * ux,
    ;
    if vx == 0 {
        assert(wx == 0) by (nonlinear_arith)
            requires
                vx * wy - vy * wx >= 0,
                vx == 0,
                vy > 0,
                wx >= 0,
        ;
    }
    lemma_turns(ux, uy, vx, vy, wx, wy);
}

/// Where the way `s`, `t`, `p` leads ahead and turns left, what lies before `t` and not right of
/// the first part is not right of the second.
proof fn lemma_behind(s: Point, t: Point, p: Point, q: Point)
    requires
        before(s, t),
        before(t, p),
        before(q, t),
        cross(s, t, p) > 0,
        cross(s, t, q) >= 0,
    ensures
        cross(t, p, q) >= 0,
{
    let (ux, uy) = (t.0 - q.0, t.1 - q.1);
    let (vx, vy) = (t.0 - s.0, t.1 - s.1);
    let (wx, wy) = (p.0 - t.0, p.1 - t.1);
    assert(turn(ux, uy, vx, vy) == cross(s, t, q)) by (nonlinear_arith)
        requires
            turn(ux, uy, vx, vy) == ux * vy - uy * vx,
            cross(s, t, q) == vx * (vy - uy) - vy * (vx - ux),
    ;
    assert(turn(vx, vy, wx, wy) == cross(s, t, p)) by (nonlinear_arith)
        requires
            turn(vx, vy, wx, wy) == vx * wy - vy * wx,
            cross(s, t, p) == vx * (vy + wy) - vy * (vx + wx),
    ;
    if vx == 0 {
        assert(wx == 0) by (nonlinear_arith)
            requires
                vx * wy - vy * wx > 0,
                vx == 0,
                vy > 0,
                wx >= 0,
        ;
    }
    lemma_turns(ux, uy, vx, vy, wx, wy);
    assert(cross(t, p, q) == turn(ux, uy, wx, wy)) by (nonlinear_arith)
        requires
            turn(ux, uy, wx, wy) == ux * wy - uy * wx,
            cross(t, p, q) == wx * (-uy) - wy * (-ux),
    ;
}

/// The ends of a way are neither left nor right of it.
proof fn lemma_flat(o: Point, a: Point)
    ensures
        cross(o, a, o) == 0,
        cross(o, a, a) == 0,
{
    assert((a.0 - o.0) * (a.1 - o.1) - (a.1 - o.1) * (a.0 - o.0) == 0) by (nonlinear_arith);
}

/// Whether `chain` leads ahead through some of the first `k` points of `pts`, turning left at each
/// of them, with none of the first `k` points to its right.
pub open spec fn is_chain(chain: Seq<Point>, pts: Seq<Point>, k: int) -> bool {
    &&& chain.len() >= 1
    &&& chain[0] == pts[0]
    &&& ascending(chain)
    &&& forall|i: int|
        0 <= i < chain.len() ==> exists|j: int| 0 <= j < k && pts[j] == #[trigger] chain[i]
    &&& forall|i: int|
        #![trigger chain[i + 2]]
        0 <= i < chain.len() - 2 ==> cross(chain[i], chain[i + 1], chain[i + 2]) > 0
    &&& forall|i: int, j: int|
        #![trigger chain[i + 1], pts[j]]
        0 <= i < chain.len() - 1 && 0 <= j < k ==> cross(chain[i], chain[i + 1], pts[j]) >= 0
}

/// A point ahead of a chain and to the left of its last part is to the left of every part.
proof fn lemma_left_of_all(chain: Seq<Point>, p: Point, i: int)
    requires
        ascending(chain),
        forall|i: int|
            #![trigger chain[i + 2]]
            0 <= i < chain.len() - 2 ==> cross(chain[i], chain[i + 1], chain[i + 2]) > 0,
        chain.len() >= 2,
        before(chain[chain.len() - 1], p),
        cross(chain[chain.len() - 2], chain[chain.len() - 1], p) > 0,
        0 <= i < chain.len() - 1,
    ensures
        cross(chain[i], chain[i + 1], p) > 0,
    decreases chain.len() - i,
{
    if i < chain.len() - 2 {
        lemma_left_of_all(chain, p, i + 1);
        assert(before(chain[i], chain[i + 1]));
        assert(before(chain[i + 1], chain[i + 2]));
        if i + 2 < chain.len() - 1 {
            assert(before(chain[i + 2], chain[chain.len() - 1]));
        }
        assert(before(chain[i + 2], p));
        assert(cross(chain[i + 1], chain[i + 1 + 1], p) > 0);
        lemma_keeps_left(chain[i], chain[i + 1], chain[i + 2], p);
    }
}

/// The lower side of the hull of ascending points, from the first of them to the last.
fn half_hull(pts: &Vec<Point>) -> (chain: Vec<Point>)
    requires
        pts@.len() >= 1,
        ascending(pts@),
        all_small(pts@),
    ensures
        is_chain(chain@, pts@, pts@.len() as int),
        chain@.last() == pts@.last(),
        pts@.len() >= 2 ==> chain@.len() >= 2,
{
    let mut chain: Vec<Point> = vec![pts[0]];
    let mut k: usize = 1;
    assert(pts@[0] == chain@[0]);
    while k < pts.len()
        invariant
            1 <= k <= pts@.len(),
            ascending(pts@),
            all_small(pts@),
            is_chain(chain@, pts@, k as int),
            chain@.last() == pts@[k - 1],
            k >= 2 ==> chain@.len() >= 2,
        decreases pts@.len() - k,
    {
        let p = pts[k];
        proof {
            assert(small(pts@[k as int]));
            lemma_flat(pts@[k - 1], p);
            assert forall|j: int|
                #![trigger pts@[j]]
                0 <= j < k && !before(pts@[j], chain@.last()) implies cross(
                chain@.last(),
                p,
                pts@[j],
            ) >= 0 by {
                if j < k - 1 {
                    assert(before(pts@[j], pts@[k - 1]));
                }
            }
        }
        while chain.len() >= 2 && cross_of(chain[chain.len() - 2], chain[chain.len() - 1], p) <= 0
            invariant
                1 <= k < pts@.len(),
                ascending(pts@),
                all_small(pts@),
                p == pts@[k as int],
                small(p),
                is_chain(chain@, pts@, k as int),
                forall|i: int| 0 <= i < chain@.len() ==> small(#[trigger] chain@[i]),
                forall|j: int|
                    #![trigger pts@[j]]
                    0 <= j < k && !before(pts@[j], chain@.last()) ==> cross(
                        chain@.last(),
                        p,
                        pts@[j],
                    ) >= 0,
            decreases chain@.len(),
        {
            let ghost whole = chain@;
            let ghost n = whole.len() as int;
            let ghost (t, b) = (whole[n - 2], whole[n - 1]);
            chain.pop();
            proof {
                let jt = choose|j: int| 0 <= j < k && pts@[j] == t;
                assert(before(pts@[jt], p));
                assert(chain@.last() == t);
                assert forall|j: int|
                    #![trigger pts@[j]]
                    0 <= j < k && !before(pts@[j], t) implies cross(t, p, pts@[j]) >= 0 by {
                    let q = pts@[j];
                    if q != t {
                        assert(before(whole[n - 2], whole[n - 1]));
                        assert(cross(whole[n - 2], whole[n - 2 + 1], pts@[j]) >= 0);
                        lemma_pop(t, b, p, q);
                    } else {
                        lemma_flat(t, p);
                    }
                }
                assert forall|i: int| 0 <= i < chain@.len() implies exists|j: int|
                    0 <= j < k && pts@[j] == #[trigger] chain@[i] by {
                    assert(chain@[i] == whole[i]);
                }
                assert forall|i: int|
                    #![trigger chain@[i + 2]]
                    0 <= i < chain@.len() - 2 implies cross(chain@[i], chain@[i + 1], chain@[i + 2])
                    > 0 by {
                    assert(chain@[i + 2] == whole[i + 2]);
                }
                assert forall|i: int, j: int|
                    #![trigger chain@[i + 1], pts@[j]]
                    0 <= i < chain@.len() - 1 && 0 <= j < k implies cross(
                    chain@[i],
                    chain@[i + 1],
                    pts@[j],
                ) >= 0 by {
                    assert(chain@[i + 1] == whole[i + 1]);
                }
            }
        }
        let ghost kept = chain@;
        let ghost n = kept.len() as int;
        let ghost t = kept[n - 1];
        chain.push(p);
        proof {
            let jt = choose|j: int| 0 <= j < k && pts@[j] == t;
            assert(before(pts@[jt], p));
            // The new part of the chain has no point to its right.
            assert forall|j: int|
                #![trigger pts@[j]]
                0 <= j <= k implies cross(t, p, pts@[j]) >= 0 by {
                let q = pts@[j];
                if j == k {
                    lemma_flat(t, p);
                } else if before(q, t) {
                    assert(jt > 0) by {
                        if jt == 0 {
                            if j > 0 {
                                assert(before(pts@[0], pts@[j]));
                            }
                        }
                    }
                    assert(n >= 2);
                    assert(before(kept[n - 2], kept[n - 1]));
                    assert(cross(kept[n - 2], kept[n - 2 + 1], pts@[j]) >= 0);
                    lemma_behind(kept[n - 2], t, p, q);
                }
            }
            assert(ascending(chain@)) by {
                assert forall|i: int, j: int| 0 <= i < j < chain@.len() implies before(
                    #[trigger] chain@[i],
                    #[trigger] chain@[j],
                ) by {
                    if j == n {
                        assert(chain@[i] == kept[i]);
                        if i < n - 1 {
                            assert(before(kept[i], kept[n - 1]));
                        }
                    } else {
                        assert(before(kept[i], kept[j]));
                    }
                }
            }
            assert forall|i: int| 0 <= i < chain@.len() implies exists|j: int|
                0 <= j < k + 1 && pts@[j] == #[trigger] chain@[i] by {
                if i < n {
                    assert(chain@[i] == kept[i]);
                    let j = choose|j: int| 0 <= j < k && pts@[j] == kept[i];
                    assert(0 <= j < k + 1 && pts@[j] == chain@[i]);
                } else {
                    assert(pts@[k as int] == chain@[i]);
                }
            }
            assert forall|i: int|
                #![trigger chain@[i + 2]]
                0 <= i < chain@.len() - 2 implies cross(chain@[i], chain@[i + 1], chain@[i + 2])
                > 0 by {
                if i + 2 < n {
                    assert(chain@[i + 2] == kept[i + 2]);
                } else {
                    assert(chain@[i] == kept[n - 2]);
                }
            }
            assert forall|i: int, j: int|
                #![trigger chain@[i + 1], pts@[j]]
                0 <= i < chain@.len() - 1 && 0 <= j < k + 1 implies cross(
                chain@[i],
                chain@[i + 1],
                pts@[j],
            ) >= 0 by {
                if i + 1 < n {
                    assert(chain@[i + 1] == kept[i + 1] && chain@[i] == kept[i]);
                    if j == k {
                        lemma_left_of_all(kept, p, i);
                    }
                } else {
                    assert(chain@[i] == t && chain@[i + 1] == p);
                }
            }
        }
        k = k + 1;
    }
    chain
}

/// Whether two lists hold the same points.
pub open spec fn same_points(a: Seq<Point>, b: Seq<Point>) -> bool {
    forall|p: Point| #[trigger] a.contains(p) <==> b.contains(p)
}

fn is_before(a: Point, b: Point) -> (r: bool)
    ensures
        r == before(a, b),
{
    a.0 < b.0 || (a.0 == b.0 && a.1 < b.1)
}

/// Whether all the points come before `p`.
spec fn all_before(pts: Seq<Point>, p: Point) -> bool {
    forall|i: int| 0 <= i < pts.len() ==> before(#[trigger] pts[i], p)
}

proof fn lemma_push_contains(s: Seq<Point>, v: Point)
    ensures
        forall|p: Point| #[trigger] s.push(v).contains(p) <==> s.contains(p) || p == v,
{
    assert forall|p: Point| #[trigger] s.push(v).contains(p) == (s.contains(p) || p == v) by {
        if s.contains(p) {
            let i = choose|i: int| 0 <= i < s.len() && s[i] == p;
            assert(s.push(v)[i] == p);
        }
        if p == v {
            assert(s.push(v)[s.len() as int] == v);
        }
        if s.push(v).contains(p) && p != v {
            let i = choose|i: int| 0 <= i < s.push(v).len() && s.push(v)[i] == p;
            assert(s[i] == p);
        }
    }
}

/// The points of two ascending lists in one, each once.
fn merge(a: &Vec<Point>, b: &Vec<Point>) -> (out: Vec<Point>)
    requires
        ascending(a@),
        ascending(b@),
    ensures
        ascending(out@),
        forall|p: Point| #[trigger] out@.contains(p) <==> a@.contains(p) || b@.contains(p),
{
    let mut out: Vec<Point> = Vec::new();
    let mut i: usize = 0;
    let mut j: usize = 0;
    while i < a.len() || j < b.len()
        invariant
            ascending(a@),
            ascending(b@),
            ascending(out@),
            i <= a@.len(),
            j <= b@.len(),
            i < a@.len() ==> all_before(out@, a@[i as int]),
            j < b@.len() ==> all_before(out@, b@[j as int]),
            forall|p: Point| #[trigger]
                out@.contains(p) <==> a@.subrange(0, i as int).contains(p) || b@.subrange(
                    0,
                    j as int,
                ).contains(p),
        decreases a@.len() - i + b@.len() - j,
    {
        let ghost held = out@;
        let take_a = j == b.len() || (i < a.len() && !is_before(b[j], a[i]));
        let take_b = i == a.len() || (j < b.len() && !is_before(a[i], b[j]));
        let next = if take_a { a[i] } else { b[j] };
        out.push(next);
        proof {
            lemma_push_contains(held, next);
            if take_a {
                assert(a@.subrange(0, i + 1) =~= a@.subrange(0, i as int).push(next));
                lemma_push_contains(a@.subrange(0, i as int), next);
            }
            if take_b {
                assert(next == b@[j as int]);
                assert(b@.subrange(0, j + 1) =~= b@.subrange(0, j as int).push(next));
                lemma_push_contains(b@.subrange(0, j as int), next);
            }
        }
        if take_a {
            i = i + 1;
        }
        if take_b {
            j = j + 1;
        }
    }
    assert(a@.subrange(0, i as int) =~= a@);
    assert(b@.subrange(0, j as int) =~= b@);
    out
}

/// The points in ascending order, each once.
fn sorted_distinct(points: &Vec<Point>, from: usize, to: usize) -> (out: Vec<Point>)
    requires
        from < to <= points@.len(),
    ensures
        ascending(out@),
        same_points(out@, points@.subrange(from as int, to as int)),
    decreases to - from,
{
    if to - from == 1 {
        let out = vec![points[from]];
        assert(out@ =~= points@.subrange(from as int, to as int));
        return out;
    }
    let mid: usize = from + (to - from) / 2;
    let a = sorted_distinct(points, from, mid);
    let b = sorted_distinct(points, mid, to);
    let out = merge(&a, &b);
    proof {
        let left = points@.subrange(from as int, mid as int);
        let right = points@.subrange(mid as int, to as int);
        let whole = points@.subrange(from as int, to as int);
        assert forall|p: Point| #[trigger] out@.contains(p) <==> whole.contains(p) by {
            if left.contains(p) {
                let i = choose|i: int| 0 <= i < left.len() && left[i] == p;
                assert(whole[i] == p);
            }
            if right.contains(p) {
                let i = choose|i: int| 0 <= i < right.len() && right[i] == p;
                assert(whole[i + (mid - from)] == p);
            }
            if whole.contains(p) {
                let i = choose|i: int| 0 <= i < whole.len() && whole[i] == p;
                if i < mid - from {
                    assert(left[i] == p);
                } else {
                    assert(right[i - (mid - from)] == p);
                }
            }
        }
    }
    out
}

/// The mirror image of a point.
spec fn mirror(p: Point) -> Point {
    ((-p.0) as i64, (-p.1) as i64)
}

/// The mirror images of the points, the last first.
fn mirrored(pts: &Vec<Point>) -> (out: Vec<Point>)
    requires
        all_small(pts@),
    ensures
        out@.len() == pts@.len(),
        all_small(out@),
        forall|i: int|
            0 <= i < pts@.len() ==> #[trigger] out@[i] == mirror(pts@[pts@.len() - 1 - i]),
{
    let n: usize = pts.len();
    let mut out: Vec<Point> = Vec::new();
    let mut k: usize = n;
    while k > 0
        invariant
            k <= n == pts@.len(),
            all_small(pts@),
            all_small(out@),
            out@.len() == n - k,
            forall|i: int| 0 <= i < n - k ==> #[trigger] out@[i] == mirror(pts@[n - 1 - i]),
        decreases k,
    {
        k = k - 1;
        let p = pts[k];
        assert(small(pts@[k as int]));
        out.push((-p.0, -p.1));
    }
    out
}

proof fn lemma_mirror_cross(o: Point, a: Point, b: Point)
    requires
        small(o),
        small(a),
        small(b),
    ensures
        cross(mirror(o), mirror(a), mirror(b)) == cross(o, a, b),
        mirror(mirror(o)) == o,
        small(mirror(o)),
        before(o, a) == before(mirror(a), mirror(o)),
{
    let (x1, y1, x2, y2) = (a.0 - o.0, a.1 - o.1, b.0 - o.0, b.1 - o.1);
    assert((-x1) * (-y2) - (-y1) * (-x2) == x1 * y2 - y1 * x2) by (nonlinear_arith);
}

/// A direction `c` that is straight on from `a` has `d` on its right, or ahead, only where `a`
/// does not have it on its left.
proof fn lemma_opposed(ax: int, ay: int, cx: int, cy: int, dx: int, dy: int)
    requires
        ahead(ax, ay),
        ahead(cx, cy),
        turn(ax, ay, cx, cy) == 0,
        turn(ax, ay, dx, dy) >= 0,
        turn(cx, cy, dx, dy) <= 0,
    ensures
        turn(ax, ay, dx, dy) == 0,
{
    let (ac, ad, cd) = (turn(ax, ay, cx, cy), turn(ax, ay, dx, dy), turn(cx, cy, dx, dy));
    assert(ad * cx == ac * dx + cd * ax) by (nonlinear_arith)
        requires
            ac == ax * cy - ay * cx,
            ad == ax * dy - ay * dx,
            cd == cx * dy - cy * dx,
    ;
    assert(ad * cy == ac * dy + cd * ay) by (nonlinear_arith)
        requires
            ac == ax * cy - ay * cx,
            ad == ax * dy - ay * dx,
            cd == cx * dy - cy * dx,
    ;
    assert(ac * dx == 0 && ac * dy == 0) by (nonlinear_arith)
        requires
            ac == 0,
    ;
    if cx > 0 {
        assert(cd * ax <= 0) by (nonlinear_arith)
            requires
                cd <= 0,
                ax >= 0,
        ;
        assert(ad == 0) by (nonlinear_arith)
            requires
                ad >= 0,
                cx > 0,
                ad * cx <= 0,
        ;
    } else {
        assert(ax == 0) by (nonlinear_arith)
            requires
                ax * cy - ay * cx == 0,
                cx == 0,
                cy > 0,
        ;
        assert(cd * ay <= 0) by (nonlinear_arith)
            requires
                cd <= 0,
                ay >= 0,
        ;
        assert(ad == 0) by (nonlinear_arith)
            requires
                ad >= 0,
                cy > 0,
                ad * cy <= 0,
        ;
    }
}

/// Where the way `l`, `x`, `u` turns right round at `x`, and `q` is not right of either part, `q`
/// is on the line through them.
proof fn lemma_about_turn(l: Point, x: Point, u: Point, q: Point)
    requires
        (before(l, x) && before(u, x)) || (before(x, l) && before(x, u)),
        cross(l, x, u) == 0,
        cross(l, x, q) >= 0,
        cross(x, u, q) >= 0,
    ensures
        cross(l, x, q) == 0,
{
    let s = if before(l, x) {
        1int
    } else {
        -1
    };
    let (px, py) = (x.0 - l.0, x.1 - l.1);
    let (rx, ry) = (x.0 - u.0, x.1 - u.1);
    let (ex, ey) = (q.0 - x.0, q.1 - x.1);
    let (ax, ay, cx, cy, dx, dy) = (s * px, s * py, s * rx, s * ry, s * ex, s * ey);
    assert(turn(ax, ay, cx, cy) == turn(px, py, rx, ry)) by (nonlinear_arith)
        requires
            s == 1 || s == -1,
            ax == s * px,
            ay == s * py,
            cx == s * rx,
            cy == s * ry,
            turn(ax, ay, cx, cy) == ax * cy - ay * cx,
            turn(px, py, rx, ry) == px * ry - py * rx,
    ;
    assert(turn(ax, ay, dx, dy) == turn(px, py, ex, ey)) by (nonlinear_arith)
        requires
            s == 1 || s == -1,
            ax == s * px,
            ay == s * py,
            dx == s * ex,
            dy == s * ey,
            turn(ax, ay, dx, dy) == ax * dy - ay * dx,
            turn(px, py, ex, ey) == px * ey - py * ex,
    ;
    assert(turn(cx, cy, dx, dy) == turn(rx, ry, ex, ey)) by (nonlinear_arith)
        requires
            s == 1 || s == -1,
            cx == s * rx,
            cy == s * ry,
            dx == s * ex,
            dy == s * ey,
            turn(cx, cy, dx, dy) == cx * dy - cy * dx,
            turn(rx, ry, ex, ey) == rx * ey - ry * ex,
    ;
    assert(cross(l, x, u) == -turn(px, py, rx, ry)) by (nonlinear_arith)
        requires
            cross(l, x, u) == px * (py - ry) - py * (px - rx),
            turn(px, py, rx, ry) == px * ry - py * rx,
    ;
    assert(cross(l, x, q) == turn(px, py, ex, ey)) by (nonlinear_arith)
        requires
            cross(l, x, q) == px * (py + ey) - py * (px + ex),
            turn(px, py, ex, ey) == px * ey - py * ex,
    ;
    assert(cross(x, u, q) == -turn(rx, ry, ex, ey)) by (nonlinear_arith)
        requires
            cross(x, u, q) == (-rx) * ey - (-ry) * ex,
            turn(rx, ry, ex, ey) == rx * ey - ry * ex,
    ;
    assert(s == 1 ==> ax == px && ay == py && cx == rx && cy == ry) by (nonlinear_arith)
        requires
            ax == s * px,
            ay == s * py,
            cx == s * rx,
            cy == s * ry,
    ;
    assert(s == -1 ==> ax == -px && ay == -py && cx == -rx && cy == -ry) by (nonlinear_arith)
        requires
            ax == s * px,
            ay == s * py,
            cx == s * rx,
            cy == s * ry,
    ;
    lemma_opposed(ax, ay, cx, cy, dx, dy);
}

/// Three points on the line through two others make no turn.
proof fn lemma_on_line(l: Point, x: Point, p: Point, q: Point, r: Point)
    requires
        l != x,
        cross(l, x, p) == 0,
        cross(l, x, q) == 0,
        cross(l, x, r) == 0,
    ensures
        cross(p, q, r) == 0,
{
    let (ax, ay) = (x.0 - l.0, x.1 - l.1);
    let (ux, uy) = (q.0 - p.0, q.1 - p.1);
    let (wx, wy) = (r.0 - p.0, r.1 - p.1);
    let (ex, ey) = (p.0 - l.0, p.1 - l.1);
    let t = cross(p, q, r);
    assert(ax * uy - ay * ux == 0) by (nonlinear_arith)
        requires
            ax * ey - ay * ex == 0,
            ax * (ey + uy) - ay * (ex + ux) == 0,
    ;
    assert(ax * wy - ay * wx == 0) by (nonlinear_arith)
        requires
            ax * ey - ay * ex == 0,
            ax * (ey + wy) - ay * (ex + wx) == 0,
    ;
    assert(t * ax == 0) by (nonlinear_arith)
        requires
            t == ux * wy - uy * wx,
            ax * uy - ay * ux == 0,
            ax * wy - ay * wx == 0,
    ;
    assert(t * ay == 0) by (nonlinear_arith)
        requires
            t == ux * wy - uy * wx,
            ax * uy - ay * ux == 0,
            ax * wy - ay * wx == 0,
    ;
    assert(t == 0) by (nonlinear_arith)
        requires
            t * ax == 0,
            t * ay == 0,
            ax != 0 || ay != 0,
    ;
}

/// The place after place `i` on a way round `n` places.
pub open spec fn after(i: int, n: int) -> int {
    if i + 1 < n {
        i + 1
    } else {
        0
    }
}

/// Whether none of the points comes before `first`.
pub open spec fn is_first(first: Point, points: Seq<Point>) -> bool {
    forall|p: Point| #[trigger] points.contains(p) ==> p == first || before(first, p)
}

/// Whether `last` comes before none of the points.
pub open spec fn is_last(last: Point, points: Seq<Point>) -> bool {
    forall|p: Point| #[trigger] points.contains(p) ==> p == last || before(p, last)
}

/// Whether none of the points lies to the right of the way round `hull`.
pub open spec fn encloses(hull: Seq<Point>, points: Seq<Point>) -> bool {
    forall|i: int, p: Point|
        0 <= i < hull.len() && #[trigger] points.contains(p) ==> cross(
            #[trigger] hull[i],
            hull[after(i, hull.len() as int)],
            p,
        ) >= 0
}

/// Whether the way round `hull` turns left at each of its corners.
pub open spec fn turns_left(hull: Seq<Point>) -> bool {
    let n = hull.len() as int;
    forall|i: int|
        0 <= i < n ==> cross(#[trigger] hull[i], hull[after(i, n)], hull[after(after(i, n), n)]) > 0
}

/// Whether `hull` is the convex hull of `points`: it leads round them counter-clockwise, from the
/// first of them and through the last, with none of them to its right, and turns left at each of
/// its corners, each of which it passes once. The hull of points on one line is its two ends.
pub open spec fn is_hull(hull: Seq<Point>, points: Seq<Point>) -> bool {
    &&& points.len() > 0 <==> hull.len() > 0
    &&& hull.no_duplicates()
    &&& forall|i: int| 0 <= i < hull.len() ==> points.contains(#[trigger] hull[i])
    &&& hull.len() > 0 ==> is_first(hull[0], points)
    &&& hull.len() > 0 ==> exists|g: int|
        0 <= g < hull.len() && #[trigger] is_last(hull[g], points)
    &&& hull.len() >= 2 ==> encloses(hull, points)
    &&& hull.len() >= 3 ==> turns_left(hull)
}

/// Whether `side` leads from one end of the points to the other through some of them, turning
/// left at each, with none of the points to its right.
#[verifier::opaque]
spec fn is_side(side: Seq<Point>, pts: Seq<Point>, first: Point, last: Point) -> bool {
    &&& side.len() >= 2
    &&& side[0] == first
    &&& side[side.len() - 1] == last
    &&& forall|k: int| 0 <= k < side.len() ==> pts.contains(#[trigger] side[k])
    &&& forall|k: int, p: Point|
        #![trigger side[k + 1], pts.contains(p)]
        0 <= k < side.len() - 1 && pts.contains(p) ==> cross(side[k], side[k + 1], p) >= 0
    &&& forall|k: int|
        #![trigger side[k + 2]]
        0 <= k < side.len() - 2 ==> cross(side[k], side[k + 1], side[k + 2]) > 0
}

/// The lower chain is a side.
proof fn lemma_lower_side(pts: Seq<Point>, lower: Seq<Point>)
    requires
        pts.len() >= 2,
        is_chain(lower, pts, pts.len() as int),
        lower.last() == pts.last(),
        lower.len() >= 2,
    ensures
        is_side(lower, pts, pts[0], pts[pts.len() - 1]),
        before(lower[lower.len() - 2], pts[pts.len() - 1]),
        before(pts[0], lower[1]),
{
    reveal(is_side);
    assert(before(lower[lower.len() - 2], lower[lower.len() - 1]));
    assert(before(lower[0], lower[1]));
    assert forall|k: int| 0 <= k < lower.len() implies pts.contains(#[trigger] lower[k]) by {
        let a = choose|a: int| 0 <= a < pts.len() && pts[a] == lower[k];
        assert(pts[a] == lower[k]);
    }
    assert forall|k: int, p: Point|
        #![trigger lower[k + 1], pts.contains(p)]
        0 <= k < lower.len() - 1 && pts.contains(p) implies cross(lower[k], lower[k + 1], p) >= 0 by {
        let b = choose|b: int| 0 <= b < pts.len() && pts[b] == p;
        assert(cross(lower[k], lower[k + 1], pts[b]) >= 0);
    }
}

/// The points of a chain mirrored back.
spec fn mirrored_back(chain: Seq<Point>) -> Seq<Point> {
    chain.map_values(|p: Point| mirror(p))
}

/// Whether each point lies before those that precede it.
spec fn descending(pts: Seq<Point>) -> bool {
    forall|i: int, j: int| 0 <= i < j < pts.len() ==> before(#[trigger] pts[j], #[trigger] pts[i])
}

/// An ascending chain mirrored back descends.
proof fn lemma_descends(chain: Seq<Point>)
    requires
        all_small(chain),
        ascending(chain),
    ensures
        descending(mirrored_back(chain)),
{
    let side = mirrored_back(chain);
    assert forall|i: int, j: int| 0 <= i < j < side.len() implies before(
        #[trigger] side[j],
        #[trigger] side[i],
    ) by {
        assert(before(chain[i], chain[j]));
        assert(small(chain[i]) && small(chain[j]));
        lemma_mirror_cross(chain[i], chain[j], chain[j]);
    }
}

/// The lower chain of the mirrored points, mirrored back, is a side.
proof fn lemma_upper_side(pts: Seq<Point>, flipped: Seq<Point>, upper: Seq<Point>)
    requires
        pts.len() >= 2,
        all_small(pts),
        flipped.len() == pts.len(),
        all_small(flipped),
        forall|i: int|
            0 <= i < pts.len() ==> #[trigger] flipped[i] == mirror(pts[pts.len() - 1 - i]),
        is_chain(upper, flipped, flipped.len() as int),
        upper.last() == flipped.last(),
        upper.len() >= 2,
    ensures
        is_side(mirrored_back(upper), pts, pts[pts.len() - 1], pts[0]),
        before(mirrored_back(upper)[1], pts[pts.len() - 1]),
        before(pts[0], mirrored_back(upper)[upper.len() - 2]),
{
    reveal(is_side);
    let count = pts.len() as int;
    let u = upper.len() as int;
    let side = mirrored_back(upper);
    assert forall|k: int| 0 <= k < u implies small(#[trigger] upper[k]) && pts.contains(side[k]) by {
        let a = choose|a: int| 0 <= a < flipped.len() && flipped[a] == upper[k];
        assert(small(flipped[a]));
        assert(small(pts[count - 1 - a]));
        lemma_mirror_cross(pts[count - 1 - a], pts[count - 1 - a], pts[count - 1 - a]);
        assert(pts[count - 1 - a] == side[k]);
    }
    assert forall|k: int, p: Point|
        #![trigger side[k + 1], pts.contains(p)]
        0 <= k < u - 1 && pts.contains(p) implies cross(side[k], side[k + 1], p) >= 0 by {
        let b = choose|b: int| 0 <= b < count && pts[b] == p;
        let a = count - 1 - b;
        assert(small(pts[b]));
        lemma_mirror_cross(p, p, p);
        assert(flipped[a] == mirror(p));
        assert(small(upper[k]) && small(upper[k + 1]) && small(flipped[a]));
        assert(cross(upper[k], upper[k + 1], flipped[a]) >= 0);
        lemma_mirror_cross(upper[k], upper[k + 1], flipped[a]);
    }
    assert forall|k: int|
        #![trigger side[k + 2]]
        0 <= k < u - 2 implies cross(side[k], side[k + 1], side[k + 2]) > 0 by {
        assert(small(upper[k]) && small(upper[k + 1]) && small(upper[k + 2]));
        lemma_mirror_cross(upper[k], upper[k + 1], upper[k + 2]);
    }
    assert(small(pts[0]) && small(pts[count - 1]));
    lemma_mirror_cross(pts[count - 1], pts[0], pts[0]);
    lemma_mirror_cross(pts[0], pts[0], pts[0]);
    assert(flipped[0] == mirror(pts[count - 1]));
    assert(flipped[count - 1] == mirror(pts[0]));
    assert(small(upper[0]) && small(upper[1]) && small(upper[u - 2]) && small(upper[u - 1]));
    assert(before(upper[0], upper[1]) && before(upper[u - 2], upper[u - 1]));
    lemma_mirror_cross(upper[0], upper[1], upper[1]);
    lemma_mirror_cross(upper[u - 2], upper[u - 1], upper[u - 1]);
}

/// Where two sides meet, the way round them turns left, if the points are not all on one line.
proof fn lemma_corner(
    pts: Seq<Point>,
    one: Seq<Point>,
    other: Seq<Point>,
    first: Point,
    last: Point,
)
    requires
        is_side(one, pts, first, last),
        is_side(other, pts, last, first),
        one.len() + other.len() >= 5,
        (before(one[one.len() - 2], last) && before(other[1], last)) || (before(
            last,
            one[one.len() - 2],
        ) && before(last, other[1])),
    ensures
        cross(one[one.len() - 2], last, other[1]) > 0,
{
    reveal(is_side);
    let (l, x, r) = (one[one.len() - 2], last, other[1]);
    assert(one[one.len() - 2 + 1] == x);
    assert forall|p: Point| #[trigger] pts.contains(p) implies cross(l, x, p) >= 0 by {
        assert(cross(one[one.len() - 2], one[one.len() - 2 + 1], p) >= 0);
    }
    assert forall|p: Point| #[trigger] pts.contains(p) implies cross(x, r, p) >= 0 by {
        assert(cross(other[0], other[0int + 1], p) >= 0);
    }
    assert(pts.contains(r));
    if cross(l, x, r) <= 0 {
        assert(cross(l, x, r) >= 0);
        assert forall|p: Point| #[trigger] pts.contains(p) implies cross(l, x, p) == 0 by {
            lemma_about_turn(l, x, r, p);
        }
        let bent = if one.len() >= 3 {
            one
        } else {
            other
        };
        assert(pts.contains(bent[0]) && pts.contains(bent[1]) && pts.contains(bent[2]));
        assert(cross(bent[0], bent[0int + 1], bent[0int + 2]) > 0);
        lemma_on_line(l, x, bent[0], bent[1], bent[2]);
    }
}

/// The two sides, put together, enclose the points.
proof fn lemma_sides_enclose(
    points: Seq<Point>,
    pts: Seq<Point>,
    lower: Seq<Point>,
    upper: Seq<Point>,
)
    requires
        pts.len() >= 2,
        is_side(lower, pts, pts[0], pts[pts.len() - 1]),
        is_side(upper, pts, pts[pts.len() - 1], pts[0]),
        same_points(pts, points),
    ensures
        encloses(lower.drop_last() + upper.drop_last(), points),
{
    reveal(is_side);
    let hull = lower.drop_last() + upper.drop_last();
    let n = hull.len() as int;
    let m = lower.len() as int;
    assert forall|i: int, p: Point| 0 <= i < n && #[trigger] points.contains(p) implies cross(
        #[trigger] hull[i],
        hull[after(i, n)],
        p,
    ) >= 0 by {
        assert(pts.contains(p));
        if i < m - 1 {
            assert(hull[after(i, n)] == lower[i + 1]);
        } else {
            let k = i - (m - 1);
            assert(hull[after(i, n)] == upper[k + 1]);
        }
    }
}

/// The two sides, put together, turn left at each corner.
proof fn lemma_sides_turn(pts: Seq<Point>, lower: Seq<Point>, upper: Seq<Point>)
    requires
        pts.len() >= 2,
        is_side(lower, pts, pts[0], pts[pts.len() - 1]),
        is_side(upper, pts, pts[pts.len() - 1], pts[0]),
        before(lower[lower.len() - 2], pts[pts.len() - 1]),
        before(pts[0], lower[1]),
        before(upper[1], pts[pts.len() - 1]),
        before(pts[0], upper[upper.len() - 2]),
        lower.len() + upper.len() >= 5,
    ensures
        turns_left(lower.drop_last() + upper.drop_last()),
{
    reveal(is_side);
    let hull = lower.drop_last() + upper.drop_last();
    let n = hull.len() as int;
    let m = lower.len() as int;
    let u = upper.len() as int;
    let count = pts.len() as int;
    lemma_corner(pts, lower, upper, pts[0], pts[count - 1]);
    lemma_corner(pts, upper, lower, pts[count - 1], pts[0]);
    assert forall|i: int| 0 <= i < n implies cross(
        #[trigger] hull[i],
        hull[after(i, n)],
        hull[after(after(i, n), n)],
    ) > 0 by {
        let (a, b, c) = (hull[i], hull[after(i, n)], hull[after(after(i, n), n)]);
        if i < m - 2 {
            assert(a == lower[i] && b == lower[i + 1] && c == lower[i + 2]);
        } else if i == m - 2 {
            assert(a == lower[m - 2] && b == upper[0] && c == upper[1]);
        } else if i < n - 1 {
            let k = i - (m - 1);
            assert(a == upper[k] && b == upper[k + 1] && c == upper[k + 2]);
        } else {
            assert(a == upper[u - 2] && b == lower[0] && c == lower[1]);
        }
    }
}

/// The two sides, put together, lead through points, the first and the last among them.
proof fn lemma_sides_ends(pts: Seq<Point>, lower: Seq<Point>, upper: Seq<Point>)
    requires
        pts.len() >= 2,
        is_side(lower, pts, pts[0], pts[pts.len() - 1]),
        is_side(upper, pts, pts[pts.len() - 1], pts[0]),
    ensures
        lower.len() >= 2,
        upper.len() >= 2,
        (lower.drop_last() + upper.drop_last())[0] == pts[0],
        (lower.drop_last() + upper.drop_last())[lower.len() - 1] == pts[pts.len() - 1],
        forall|i: int|
            0 <= i < lower.len() + upper.len() - 2 ==> pts.contains(
                #[trigger] (lower.drop_last() + upper.drop_last())[i],
            ),
{
    reveal(is_side);
    let hull = lower.drop_last() + upper.drop_last();
    let m = lower.len() as int;
    assert forall|i: int| 0 <= i < hull.len() implies pts.contains(#[trigger] hull[i]) by {
        if i < m - 1 {
            assert(hull[i] == lower[i]);
        } else {
            assert(hull[i] == upper[i - (m - 1)]);
        }
    }
}

/// Where the way `l`, `p`, `r` leads ahead and turns left at `p`, a way that leads back to `p` from
/// a point further ahead has `l` to its right.
proof fn lemma_not_on_both(l: Point, p: Point, r: Point, a: Point)
    requires
        before(l, p),
        before(p, r),
        before(p, a),
        cross(l, p, r) > 0,
        cross(l, p, a) >= 0,
        cross(p, r, a) >= 0,
    ensures
        cross(a, p, l) < 0,
{
    let (ux, uy) = (p.0 - l.0, p.1 - l.1);
    let (vx, vy) = (r.0 - p.0, r.1 - p.1);
    let (wx, wy) = (a.0 - p.0, a.1 - p.1);
    let (uv, uw, vw) = (turn(ux, uy, vx, vy), turn(ux, uy, wx, wy), turn(vx, vy, wx, wy));
    assert(cross(l, p, r) == uv) by (nonlinear_arith)
        requires
            cross(l, p, r) == ux * (uy + vy) - uy * (ux + vx),
            uv == ux * vy - uy * vx,
    ;
    assert(cross(l, p, a) == uw) by (nonlinear_arith)
        requires
            cross(l, p, a) == ux * (uy + wy) - uy * (ux + wx),
            uw == ux * wy - uy * wx,
    ;
    assert(cross(a, p, l) == -uw) by (nonlinear_arith)
        requires
            cross(a, p, l) == (-wx) * (-uy - wy) - (-wy) * (-ux - wx),
            uw == ux * wy - uy * wx,
    ;
    assert(cross(p, r, a) == vw);
    assert(uw * vx == uv * wx + vw * ux) by (nonlinear_arith)
        requires
            uv == ux * vy - uy * vx,
            vw == vx * wy - vy * wx,
            uw == ux * wy - uy * wx,
    ;
    assert(uw * vy == uv * wy + vw * uy) by (nonlinear_arith)
        requires
            uv == ux * vy - uy * vx,
            vw == vx * wy - vy * wx,
            uw == ux * wy - uy * wx,
    ;
    if uw == 0 {
        assert(uv * wx + vw * ux == 0 && uv * wy + vw * uy == 0) by (nonlinear_arith)
            requires
                uw == 0,
                uw * vx == uv * wx + vw * ux,
                uw * vy == uv * wy + vw * uy,
        ;
        assert(vw * ux >= 0) by (nonlinear_arith)
            requires
                vw >= 0,
                ux >= 0,
        ;
        assert(wx == 0) by (nonlinear_arith)
            requires
                uv > 0,
                wx >= 0,
                uv * wx <= 0,
        ;
        assert(uv * wy > 0) by (nonlinear_arith)
            requires
                uv > 0,
                wy > 0,
        ;
        assert(vw > 0 && uy < 0) by (nonlinear_arith)
            requires
                vw >= 0,
                vw * uy < 0,
        ;
        assert(ux == 0) by (nonlinear_arith)
            requires
                vw > 0,
                uv * wx + vw * ux == 0,
                wx == 0,
        ;
    }
}

/// The two sides, put together, pass each point once.
proof fn lemma_sides_once(pts: Seq<Point>, lower: Seq<Point>, upper: Seq<Point>)
    requires
        pts.len() >= 2,
        is_side(lower, pts, pts[0], pts[pts.len() - 1]),
        is_side(upper, pts, pts[pts.len() - 1], pts[0]),
        ascending(lower),
        descending(upper),
    ensures
        (lower.drop_last() + upper.drop_last()).no_duplicates(),
{
    reveal(is_side);
    let hull = lower.drop_last() + upper.drop_last();
    let m = lower.len() as int;
    let u = upper.len() as int;
    assert forall|i: int, j: int| 0 <= i < m - 1 && 0 <= j < u - 1 implies #[trigger] lower[i]
        != #[trigger] upper[j] by {
        if lower[i] == upper[j] {
            let p = lower[i];
            if i == 0 {
                assert(before(upper[u - 1], upper[j]));
            } else if j == 0 {
                assert(before(lower[i], lower[m - 1]));
            } else {
                let (l, r, a) = (lower[i - 1], lower[i + 1], upper[j - 1]);
                assert(before(lower[i - 1], lower[i]) && before(lower[i], lower[i + 1]));
                assert(before(upper[j], upper[j - 1]));
                assert(pts.contains(l) && pts.contains(a));
                assert(lower[i - 1 + 2] == r && lower[i - 1 + 1] == p);
                assert(upper[j - 1 + 1] == p);
                lemma_not_on_both(l, p, r, a);
            }
        }
    }
    assert forall|x: int, y: int| 0 <= x < hull.len() && 0 <= y < hull.len() && x != y implies hull[x]
        != hull[y] by {
        let (c, d) = if x < y {
            (x, y)
        } else {
            (y, x)
        };
        if d < m - 1 {
            assert(before(lower[c], lower[d]));
        } else if c >= m - 1 {
            assert(before(upper[d - (m - 1)], upper[c - (m - 1)]));
        } else {
            assert(lower[c] != upper[d - (m - 1)]);
        }
    }
}

/// The first and the last of ascending points are the first and the last of the points they are.
proof fn lemma_ends(points: Seq<Point>, pts: Seq<Point>)
    requires
        pts.len() >= 1,
        ascending(pts),
        same_points(pts, points),
    ensures
        is_first(pts[0], points),
        is_last(pts[pts.len() - 1], points),
{
    let count = pts.len() as int;
    assert forall|p: Point| #[trigger] points.contains(p) implies (p == pts[0] || before(pts[0], p))
        && (p == pts[count - 1] || before(p, pts[count - 1])) by {
        assert(pts.contains(p));
        let b = choose|b: int| 0 <= b < count && pts[b] == p;
        if b > 0 {
            assert(before(pts[0], pts[b]));
        }
        if b < count - 1 {
            assert(before(pts[b], pts[count - 1]));
        }
    }
}

/// A way round that encloses the points, leads through some of them and turns left is their hull.
proof fn lemma_rounds(points: Seq<Point>, pts: Seq<Point>, hull: Seq<Point>, g: int)
    requires
        pts.len() >= 2,
        ascending(pts),
        same_points(pts, points),
        0 <= g < hull.len(),
        hull[0] == pts[0],
        hull[g] == pts[pts.len() - 1],
        hull.no_duplicates(),
        forall|i: int| 0 <= i < hull.len() ==> pts.contains(#[trigger] hull[i]),
        encloses(hull, points),
        hull.len() >= 3 ==> turns_left(hull),
    ensures
        is_hull(hull, points),
{
    lemma_ends(points, pts);
    assert(is_last(hull[g], points));
    assert forall|i: int| 0 <= i < hull.len() implies points.contains(#[trigger] hull[i]) by {
        assert(pts.contains(hull[i]));
    }
    assert(points.contains(hull[0]));
}

/// The two sides put together, given the upper one as its mirror image.
fn join_sides(lower: &Vec<Point>, upper: &Vec<Point>) -> (hull: Vec<Point>)
    requires
        lower@.len() >= 1,
        upper@.len() >= 1,
        all_small(upper@),
    ensures
        hull@ == lower@.drop_last() + mirrored_back(upper@).drop_last(),
{
    let (m, u) = (lower.len(), upper.len());
    let mut hull: Vec<Point> = Vec::new();
    let mut i: usize = 0;
    while i < m - 1
        invariant
            m == lower@.len() >= 1,
            i <= m - 1,
            hull@ == lower@.subrange(0, i as int),
        decreases m - i,
    {
        hull.push(lower[i]);
        i = i + 1;
        assert(hull@ =~= lower@.subrange(0, i as int));
    }
    let mut j: usize = 0;
    assert(hull@ =~= lower@.drop_last());
    assert(hull@ =~= lower@.drop_last() + mirrored_back(upper@).subrange(0, j as int));
    while j < u - 1
        invariant
            u == upper@.len() >= 1,
            j <= u - 1,
            all_small(upper@),
            hull@ == lower@.drop_last() + mirrored_back(upper@).subrange(0, j as int),
        decreases u - j,
    {
        assert(small(upper@[j as int]));
        let p = upper[j];
        hull.push((-p.0, -p.1));
        j = j + 1;
        assert(hull@ =~= lower@.drop_last() + mirrored_back(upper@).subrange(0, j as int));
    }
    assert(mirrored_back(upper@).subrange(0, j as int) =~= mirrored_back(upper@).drop_last());
    hull
}

/// The mirror images of ascending points, the last first, are ascending.
proof fn lemma_mirrored_ascends(pts: Seq<Point>, flipped: Seq<Point>)
    requires
        ascending(pts),
        all_small(pts),
        flipped.len() == pts.len(),
        forall|i: int|
            0 <= i < pts.len() ==> #[trigger] flipped[i] == mirror(pts[pts.len() - 1 - i]),
    ensures
        ascending(flipped),
{
    let n = pts.len() as int;
    assert forall|i: int, j: int| 0 <= i < j < flipped.len() implies before(
        #[trigger] flipped[i],
        #[trigger] flipped[j],
    ) by {
        assert(before(pts[n - 1 - j], pts[n - 1 - i]));
        assert(small(pts[n - 1 - j]) && small(pts[n - 1 - i]));
        lemma_mirror_cross(pts[n - 1 - j], pts[n - 1 - i], pts[n - 1 - i]);
    }
}

/// A chain goes through points in the range of the points it was made of.
proof fn lemma_chain_small(chain: Seq<Point>, pts: Seq<Point>)
    requires
        all_small(pts),
        is_chain(chain, pts, pts.len() as int),
    ensures
        all_small(chain),
{
    assert forall|k: int| 0 <= k < chain.len() implies small(#[trigger] chain[k]) by {
        let a = choose|a: int| 0 <= a < pts.len() && pts[a] == chain[k];
        assert(small(pts[a]));
    }
}

/// The distinct points are in the range of the points.
proof fn lemma_same_small(pts: Seq<Point>, points: Seq<Point>)
    requires
        all_small(points),
        same_points(pts, points),
        points.len() > 0,
    ensures
        all_small(pts),
        pts.len() > 0,
        pts.len() == 1 ==> is_hull(pts, points),
{
    assert(points.contains(points[0]));
    assert(pts.contains(points[0]));
    assert forall|i: int| 0 <= i < pts.len() implies small(#[trigger] pts[i]) && points.contains(
        pts[i],
    ) by {
        assert(pts.contains(pts[i]));
        let j = choose|j: int| 0 <= j < points.len() && points[j] == pts[i];
        assert(small(points[j]));
    }
    if pts.len() == 1 {
        assert forall|p: Point| #[trigger] points.contains(p) implies p == pts[0] by {
            assert(pts.contains(p));
        }
        assert(is_last(pts[0], points));
    }
}

/// Convex hull (Andrew's monotone chain), counter-clockwise, collinear points removed.
pub fn convex_hull(points: &Vec<Point>) -> (hull: Vec<Point>)
    requires
        all_small(points@),
    ensures
        is_hull(hull@, points@),
{
    if points.len() == 0 {
        return Vec::new();
    }
    let pts = sorted_distinct(points, 0, points.len());
    proof {
        assert(points@.subrange(0, points@.len() as int) =~= points@);
        lemma_same_small(pts@, points@);
    }
    if pts.len() == 1 {
        return pts;
    }
    let lower = half_hull(&pts);
    let flipped = mirrored(&pts);
    proof {
        lemma_mirrored_ascends(pts@, flipped@);
    }
    let upper = half_hull(&flipped);
    proof {
        lemma_chain_small(upper@, flipped@);
        lemma_lower_side(pts@, lower@);
        lemma_upper_side(pts@, flipped@, upper@);
        let side = mirrored_back(upper@);
        lemma_sides_ends(pts@, lower@, side);
        lemma_descends(upper@);
        lemma_sides_once(pts@, lower@, side);
        lemma_sides_enclose(points@, pts@, lower@, side);
        if lower@.len() + side.len() >= 5 {
            lemma_sides_turn(pts@, lower@, side);
        }
        lemma_rounds(points@, pts@, lower@.drop_last() + side.drop_last(), lower@.len() - 1);
    }
    join_sides(&lower, &upper)
}

} // verus!
