//! How the objects of an image depend on the least area.
use crate::components::{
    describes, is_kept_root, kept_regions, kept_roots, labels_components,
    lemma_kept_has_root, lemma_kept_place, lemma_kept_root_at, lists_regions, Object,
};
use crate::graph::{lemma_root, piece, root_of, symmetric};
use crate::grid::{col, joined8, row};
use crate::laws::{law_single_pixels_are_kept, lemma_labels_cover};
use crate::ranking::ranks;
use vstd::prelude::*;

verus! {

/// What an object measures: its area and its box. Its label is left out.
pub open spec fn measure(obj: Object) -> (usize, usize, usize, usize, usize) {
    (obj.area, obj.min_x, obj.min_y, obj.max_x, obj.max_y)
}

/// Whether region `a` stands before region `b`, each given by its first pixel: the larger one
/// does, and of two equally large ones the one that starts first.
spec fn stands_before(fg: Seq<bool>, w: int, n: int, a: int, b: int) -> bool {
    let adj = joined8(fg, w, n);
    piece(adj, n, a).len() > piece(adj, n, b).len() || (piece(adj, n, a).len() == piece(
        adj,
        n,
        b,
    ).len() && a < b)
}

/// Whether the regions given by their first pixels stand in order.
spec fn in_order(firsts: Seq<int>, fg: Seq<bool>, w: int, n: int) -> bool {
    forall|i: int, j: int|
        0 <= i < j < firsts.len() ==> stands_before(fg, w, n, #[trigger] firsts[i], #[trigger] firsts[j])
}

/// Regions that stand in order are fixed by which they are.
proof fn lemma_order_unique(a: Seq<int>, b: Seq<int>, fg: Seq<bool>, w: int, n: int)
    requires
        in_order(a, fg, w, n),
        in_order(b, fg, w, n),
        forall|r: int| a.contains(r) <==> b.contains(r),
    ensures
        a == b,
    decreases a.len(),
{
    if a.len() == 0 {
        if b.len() > 0 {
            assert(b.contains(b[0]));
        }
        assert(a =~= b);
    } else {
        assert(a.contains(a[0]));
        assert(b.contains(a[0]));
        assert(b.contains(b[0]));
        assert(a.contains(b[0]));
        let p = choose|p: int| 0 <= p < b.len() && b[p] == a[0];
        let q = choose|q: int| 0 <= q < a.len() && a[q] == b[0];
        if p > 0 && q > 0 {
            assert(stands_before(fg, w, n, b[0], b[p]));
            assert(stands_before(fg, w, n, a[0], a[q]));
        }
        assert(a[0] == b[0]);
        let (x, y) = (a.drop_first(), b.drop_first());
        assert forall|r: int| x.contains(r) <==> y.contains(r) by {
            if x.contains(r) {
                let i = choose|i: int| 0 <= i < x.len() && x[i] == r;
                assert(a[i + 1] == r);
                assert(stands_before(fg, w, n, a[0], a[i + 1]));
                assert(a.contains(r));
                let j = choose|j: int| 0 <= j < b.len() && b[j] == r;
                assert(y[j - 1] == r);
            }
            if y.contains(r) {
                let i = choose|i: int| 0 <= i < y.len() && y[i] == r;
                assert(b[i + 1] == r);
                assert(stands_before(fg, w, n, b[0], b[i + 1]));
                assert(b.contains(r));
                let j = choose|j: int| 0 <= j < a.len() && a[j] == r;
                assert(x[j - 1] == r);
            }
        }
        lemma_order_unique(x, y, fg, w, n);
        assert(a =~= seq![a[0]] + x);
        assert(b =~= seq![b[0]] + y);
    }
}

/// The first pixels of the regions that objects describe.
spec fn firsts_of(objects: Seq<Object>, fg: Seq<bool>, w: int, n: int, min_area: int) -> Seq<int> {
    objects.map_values(|o: Object| kept_roots(fg, w, n, min_area, n)[o.label - 1])
}

/// Whether an object describes the region that starts at `r`, which is kept.
spec fn stands_for(obj: Object, fg: Seq<bool>, w: int, n: int, min_area: int, r: int) -> bool {
    &&& 0 <= r < n
    &&& is_kept_root(fg, w, n, min_area, r)
    &&& describes(obj, w, piece(joined8(fg, w, n), n, r))
}

/// The objects of an image stand for the kept regions, each for one, and in their order.
proof fn lemma_firsts(objects: Seq<Object>, fg: Seq<bool>, w: int, n: int, min_area: int)
    requires
        n >= 0,
        lists_regions(objects, w, kept_regions(fg, w, n, min_area)),
    ensures
        in_order(firsts_of(objects, fg, w, n, min_area), fg, w, n),
        forall|i: int|
            0 <= i < objects.len() ==> stands_for(
                #[trigger] objects[i],
                fg,
                w,
                n,
                min_area,
                firsts_of(objects, fg, w, n, min_area)[i],
            ),
        forall|r: int|
            0 <= r < n && is_kept_root(fg, w, n, min_area, r)
                ==> #[trigger] firsts_of(objects, fg, w, n, min_area).contains(r),
{
    let adj = joined8(fg, w, n);
    let roots = kept_roots(fg, w, n, min_area, n);
    let regions = kept_regions(fg, w, n, min_area);
    let firsts = firsts_of(objects, fg, w, n, min_area);
    assert forall|i: int| 0 <= i < objects.len() implies stands_for(
        #[trigger] objects[i],
        fg,
        w,
        n,
        min_area,
        firsts[i],
    ) by {
        let k = objects[i].label - 1;
        lemma_kept_root_at(fg, w, n, min_area, n, k);
        assert(regions[k] == piece(adj, n, roots[k]));
    }
    assert forall|i: int, j: int| 0 <= i < j < firsts.len() implies stands_before(
        fg,
        w,
        n,
        #[trigger] firsts[i],
        #[trigger] firsts[j],
    ) by {
        assert(ranks(objects[i], objects[j]));
        assert(objects[i].label != objects[j].label);
        let (a, b) = (objects[i].label - 1, objects[j].label - 1);
        assert(stands_for(objects[i], fg, w, n, min_area, firsts[i]));
        assert(stands_for(objects[j], fg, w, n, min_area, firsts[j]));
        lemma_kept_root_at(fg, w, n, min_area, n, a);
        lemma_kept_root_at(fg, w, n, min_area, n, b);
        if a < b && roots[b] <= roots[a] {
            if roots[b] < roots[a] {
                lemma_kept_place(fg, w, n, min_area, roots[b], roots[a]);
            }
        }
    }
    assert forall|r: int| 0 <= r < n && is_kept_root(fg, w, n, min_area, r) implies
        #[trigger] firsts.contains(r) by {
        lemma_kept_place(fg, w, n, min_area, r, n);
        let k = kept_roots(fg, w, n, min_area, r).len() as int;
        assert(k < regions.len());
        lemma_labels_cover(objects, k + 1);
        let i = choose|i: int| 0 <= i < objects.len() && #[trigger] objects[i].label == k + 1;
        assert(firsts[i] == r);
    }
}

/// Objects that describe the same pixels measure the same.
proof fn lemma_same_measure(a: Object, b: Object, w: int, pixels: Set<int>)
    requires
        describes(a, w, pixels),
        describes(b, w, pixels),
    ensures
        measure(a) == measure(b),
{
    let left = choose|q: int| #[trigger] pixels.contains(q) && col(w, q) == a.min_x;
    let right = choose|q: int| #[trigger] pixels.contains(q) && col(w, q) == a.max_x;
    let top = choose|q: int| #[trigger] pixels.contains(q) && row(w, q) == a.min_y;
    let bottom = choose|q: int| #[trigger] pixels.contains(q) && row(w, q) == a.max_y;
    let left2 = choose|q: int| #[trigger] pixels.contains(q) && col(w, q) == b.min_x;
    let right2 = choose|q: int| #[trigger] pixels.contains(q) && col(w, q) == b.max_x;
    let top2 = choose|q: int| #[trigger] pixels.contains(q) && row(w, q) == b.min_y;
    let bottom2 = choose|q: int| #[trigger] pixels.contains(q) && row(w, q) == b.max_y;
    assert(pixels.contains(left) && pixels.contains(right));
    assert(pixels.contains(top) && pixels.contains(bottom));
    assert(pixels.contains(left2) && pixels.contains(right2));
    assert(pixels.contains(top2) && pixels.contains(bottom2));
}

/// The objects of at least `area` pixels, in the order they had.
pub open spec fn of_area(objects: Seq<Object>, area: int) -> Seq<Object> {
    objects.filter(|o: Object| o.area >= area)
}

/// Leaving out small objects keeps the order of the others, and exactly those that are not small.
proof fn lemma_of_area(
    objects: Seq<Object>,
    fg: Seq<bool>,
    w: int,
    n: int,
    min_area: int,
    area: int,
)
    requires
        in_order(firsts_of(objects, fg, w, n, min_area), fg, w, n),
    ensures
        in_order(firsts_of(of_area(objects, area), fg, w, n, min_area), fg, w, n),
        forall|i: int|
            0 <= i < of_area(objects, area).len() ==> (#[trigger] of_area(objects, area)[i]).area
                >= area && objects.contains(of_area(objects, area)[i]),
        forall|k: int|
            0 <= k < objects.len() && #[trigger] objects[k].area >= area ==> of_area(
                objects,
                area,
            ).contains(objects[k]),
    decreases objects.len(),
{
    reveal(Seq::filter);
    if objects.len() > 0 {
        let rest = objects.drop_last();
        let last = objects.last();
        let whole = firsts_of(objects, fg, w, n, min_area);
        let part = firsts_of(rest, fg, w, n, min_area);
        assert(in_order(part, fg, w, n)) by {
            assert forall|i: int, j: int| 0 <= i < j < part.len() implies stands_before(
                fg,
                w,
                n,
                #[trigger] part[i],
                #[trigger] part[j],
            ) by {
                assert(stands_before(fg, w, n, whole[i], whole[j]));
            }
        }
        lemma_of_area(rest, fg, w, n, min_area, area);
        let kept = of_area(rest, area);
        let all = of_area(objects, area);
        assert(objects[objects.len() - 1] == last);
        assert forall|i: int| 0 <= i < all.len() implies (#[trigger] all[i]).area >= area
            && objects.contains(all[i]) by {
            if i < kept.len() {
                assert(all[i] == kept[i]);
                let k = choose|k: int| 0 <= k < rest.len() && rest[k] == kept[i];
                assert(objects[k] == all[i]);
            }
        }
        assert forall|k: int| 0 <= k < objects.len() && #[trigger] objects[k].area >= area implies
            all.contains(objects[k]) by {
            if k < rest.len() {
                assert(rest[k].area >= area);
                let i = choose|i: int| 0 <= i < kept.len() && kept[i] == rest[k];
                assert(all[i] == objects[k]);
            } else {
                assert(all[all.len() - 1] == last);
            }
        }
        let firsts = firsts_of(all, fg, w, n, min_area);
        let earlier = firsts_of(kept, fg, w, n, min_area);
        assert forall|i: int, j: int| 0 <= i < j < firsts.len() implies stands_before(
            fg,
            w,
            n,
            #[trigger] firsts[i],
            #[trigger] firsts[j],
        ) by {
            if j < kept.len() {
                assert(stands_before(fg, w, n, earlier[i], earlier[j]));
            } else {
                assert(rest.contains(kept[i]));
                let k = choose|k: int| 0 <= k < rest.len() && rest[k] == kept[i];
                assert(stands_before(fg, w, n, whole[k], whole[objects.len() - 1]));
            }
        }
    }
}

/// The objects for a larger least area are those for a smaller one with the smaller objects left
/// out, in the same order; only their labels differ.
pub proof fn law_larger_least_area_leaves_out(
    many: Seq<Object>,
    few: Seq<Object>,
    fg: Seq<bool>,
    w: int,
    n: int,
    low: int,
    high: int,
)
    requires
        0 <= n,
        low <= high,
        lists_regions(many, w, kept_regions(fg, w, n, low)),
        lists_regions(few, w, kept_regions(fg, w, n, high)),
    ensures
        few.map_values(|o: Object| measure(o)) == of_area(many, high).map_values(
            |o: Object| measure(o),
        ),
{
    let adj = joined8(fg, w, n);
    let left = of_area(many, high);
    let all = firsts_of(many, fg, w, n, low);
    let a = firsts_of(left, fg, w, n, low);
    let b = firsts_of(few, fg, w, n, high);
    lemma_firsts(many, fg, w, n, low);
    lemma_firsts(few, fg, w, n, high);
    lemma_of_area(many, fg, w, n, low, high);
    assert forall|i: int| 0 <= i < left.len() implies stands_for(
        #[trigger] left[i],
        fg,
        w,
        n,
        high,
        a[i],
    ) by {
        let k = choose|k: int| 0 <= k < many.len() && many[k] == left[i];
        assert(stands_for(many[k], fg, w, n, low, all[k]));
    }
    assert forall|r: int| a.contains(r) <==> b.contains(r) by {
        if a.contains(r) {
            let i = choose|i: int| 0 <= i < a.len() && a[i] == r;
            assert(stands_for(left[i], fg, w, n, high, a[i]));
        }
        if b.contains(r) {
            let j = choose|j: int| 0 <= j < b.len() && b[j] == r;
            assert(stands_for(few[j], fg, w, n, high, b[j]));
            assert(is_kept_root(fg, w, n, low, r));
            assert(all.contains(r));
            let k = choose|k: int| 0 <= k < all.len() && all[k] == r;
            assert(stands_for(many[k], fg, w, n, low, all[k]));
            assert(many[k].area >= high);
            assert(left.contains(many[k]));
            let i = choose|i: int| 0 <= i < left.len() && left[i] == many[k];
            assert(a[i] == r);
        }
    }
    lemma_order_unique(a, b, fg, w, n);
    assert(left.len() == few.len());
    assert forall|i: int| 0 <= i < few.len() implies measure(few[i]) == measure(left[i]) by {
        assert(stands_for(few[i], fg, w, n, high, b[i]));
        assert(stands_for(left[i], fg, w, n, high, a[i]));
        lemma_same_measure(few[i], left[i], w, piece(adj, n, a[i]));
    }
    assert(few.map_values(|o: Object| measure(o)) =~= left.map_values(|o: Object| measure(o)));
}

/// The objects of an image, in their order and with their labels, are fixed by its foreground and
/// the least area.
pub proof fn law_objects_are_unique(
    a: Seq<Object>,
    b: Seq<Object>,
    fg: Seq<bool>,
    w: int,
    n: int,
    min_area: int,
)
    requires
        0 <= n,
        lists_regions(a, w, kept_regions(fg, w, n, min_area)),
        lists_regions(b, w, kept_regions(fg, w, n, min_area)),
    ensures
        a == b,
{
    let adj = joined8(fg, w, n);
    let x = firsts_of(a, fg, w, n, min_area);
    let y = firsts_of(b, fg, w, n, min_area);
    lemma_firsts(a, fg, w, n, min_area);
    lemma_firsts(b, fg, w, n, min_area);
    assert forall|r: int| x.contains(r) <==> y.contains(r) by {
        if x.contains(r) {
            let i = choose|i: int| 0 <= i < x.len() && x[i] == r;
            assert(stands_for(a[i], fg, w, n, min_area, x[i]));
        }
        if y.contains(r) {
            let i = choose|i: int| 0 <= i < y.len() && y[i] == r;
            assert(stands_for(b[i], fg, w, n, min_area, y[i]));
        }
    }
    lemma_order_unique(x, y, fg, w, n);
    assert forall|i: int| 0 <= i < a.len() implies a[i] == b[i] by {
        assert(stands_for(a[i], fg, w, n, min_area, x[i]));
        assert(stands_for(b[i], fg, w, n, min_area, y[i]));
        lemma_same_measure(a[i], b[i], w, piece(adj, n, x[i]));
        lemma_kept_root_at(fg, w, n, min_area, n, a[i].label - 1);
        lemma_kept_root_at(fg, w, n, min_area, n, b[i].label - 1);
    }
    assert(a =~= b);
}

/// A least area of a single pixel keeps every region, as one of no pixel does.
proof fn lemma_zero_one_roots(fg: Seq<bool>, w: int, upto: int)
    requires
        0 <= upto <= fg.len(),
    ensures
        kept_roots(fg, w, fg.len() as int, 0, upto) == kept_roots(fg, w, fg.len() as int, 1, upto),
    decreases upto,
{
    if upto > 0 {
        lemma_zero_one_roots(fg, w, upto - 1);
        if fg[upto - 1] {
            law_single_pixels_are_kept(fg, w, 1, upto - 1);
        }
    }
}

/// A least area of no pixel and one of a single pixel give the same objects and the same labels.
pub proof fn law_zero_and_one_agree(
    labels0: Seq<usize>,
    objects0: Seq<Object>,
    labels1: Seq<usize>,
    objects1: Seq<Object>,
    fg: Seq<bool>,
    w: int,
)
    requires
        labels_components(labels0, fg, w, fg.len() as int, 0),
        labels_components(labels1, fg, w, fg.len() as int, 1),
        lists_regions(objects0, w, kept_regions(fg, w, fg.len() as int, 0)),
        lists_regions(objects1, w, kept_regions(fg, w, fg.len() as int, 1)),
    ensures
        labels0 == labels1,
        objects0 == objects1,
{
    let n = fg.len() as int;
    let adj = joined8(fg, w, n);
    lemma_zero_one_roots(fg, w, n);
    let regions = kept_regions(fg, w, n, 1);
    assert(kept_regions(fg, w, n, 0) == regions);
    law_objects_are_unique(objects0, objects1, fg, w, n, 1);
    assert(symmetric(adj));
    assert forall|p: int| 0 <= p < n implies labels0[p] == labels1[p] by {
        if fg[p] {
            law_single_pixels_are_kept(fg, w, 1, p);
            lemma_kept_has_root(fg, w, n, 1, p);
            let r = root_of(adj, p);
            lemma_kept_place(fg, w, n, 1, r, n);
            let k = kept_roots(fg, w, n, 1, r).len() as int;
            assert(regions[k] == piece(adj, n, r));
            lemma_root(adj, p);
            assert(labels0[p] == k + 1 <==> regions[k].contains(p));
            assert(labels1[p] == k + 1 <==> regions[k].contains(p));
        }
    }
    assert(labels0 =~= labels1);
}

} // verus!
