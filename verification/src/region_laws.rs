//! What regions, holes, contours and groups are, pixel by pixel.
use crate::components::{
    box_in, claim, in_kept, instance_regions, kept_regions, kept_roots, labelled_below,
    labels_components, labels_regions, large_enough, lemma_kept_has_root, lemma_kept_place,
    lemma_kept_root_at, lists_regions, pixels_in, Object, DISCARDED,
};
use crate::extract::Extraction;
use crate::graph::{
    closed_under, lemma_below_finite, lemma_closed_holds_reach, lemma_reach_back, lemma_reach_edge,
    lemma_reach_self, lemma_reach_step, lemma_reach_trans, lemma_root, lemma_root_of_root, lemma_same_root, piece,
    reachable, root_of, symmetric,
};
use crate::grid::{col, joined8, lemma_coords, lemma_index, row};
use crate::laws::{
    law_every_kept_pixel_is_listed, law_kept_labels_part_regions, law_object_has_its_label,
    pixels_of,
};
use crate::pipeline::segments;
use crate::raster::{Rgba16Image, RgbaImage};
use vstd::prelude::*;
use vstd::set_lib::lemma_len_subset;

verus! {

/// Whether pixels `p` and `q` of a grid `w` wide are at most one column and one row apart.
pub open spec fn touching(w: int, p: int, q: int) -> bool {
    p % w - q % w <= 1 && q % w - p % w <= 1 && p / w - q / w <= 1 && q / w - p / w <= 1
}

/// Whether `set` holds, with each of its pixels, every set pixel of `on` that touches it.
pub open spec fn closed_by_touch(on: Seq<bool>, w: int, set: Set<int>) -> bool {
    forall|p: int, q: int|
        set.contains(p) && 0 <= p < on.len() && on[p] && 0 <= q < on.len() && on[q]
            && #[trigger] touching(w, p, q) ==> set.contains(q)
}

/// Foreground pixels that touch have one label.
pub proof fn law_touching_pixels_share_a_label(
    labels: Seq<usize>,
    fg: Seq<bool>,
    w: int,
    min_area: int,
    p: int,
    q: int,
)
    requires
        labels_components(labels, fg, w, fg.len() as int, min_area),
        0 <= p < fg.len(),
        0 <= q < fg.len(),
        fg[p],
        fg[q],
        touching(w, p, q),
    ensures
        labels[p] == labels[q],
{
    let n = fg.len() as int;
    let adj = joined8(fg, w, n);
    assert(symmetric(adj));
    assert(adj(p, q));
    lemma_reach_edge(adj, p, q);
    lemma_same_piece(fg, w, p, q);
    if in_kept(fg, w, n, min_area, p) {
        law_kept_labels_part_regions(labels, fg, w, min_area, p, q);
    }
}

proof fn lemma_same_piece(fg: Seq<bool>, w: int, p: int, q: int)
    requires
        0 <= p < fg.len(),
        0 <= q < fg.len(),
        reachable(joined8(fg, w, fg.len() as int), p, q),
    ensures
        piece(joined8(fg, w, fg.len() as int), fg.len() as int, p) == piece(
            joined8(fg, w, fg.len() as int),
            fg.len() as int,
            q,
        ),
{
    let n = fg.len() as int;
    let adj = joined8(fg, w, n);
    assert(symmetric(adj));
    lemma_reach_back(adj, p, q);
    assert(piece(adj, n, p) =~= piece(adj, n, q)) by {
        assert forall|x: int| 0 <= x < n implies reachable(adj, p, x) == reachable(adj, q, x) by {
            if reachable(adj, p, x) {
                lemma_reach_trans(adj, q, p, x);
            }
            if reachable(adj, q, x) {
                lemma_reach_trans(adj, p, q, x);
            }
        }
    }
}

proof fn lemma_closed_holds_piece(fg: Seq<bool>, w: int, set: Set<int>, p: int, q: int)
    requires
        0 <= p < fg.len(),
        fg[p],
        set.contains(p),
        closed_by_touch(fg, w, set),
        reachable(joined8(fg, w, fg.len() as int), p, q),
    ensures
        set.contains(q),
{
    let n = fg.len() as int;
    let adj = joined8(fg, w, n);
    assert(closed_under(adj, set)) by {
        assert forall|a: int, b: int| set.contains(a) && #[trigger] adj(a, b) implies set.contains(
            b,
        ) by {
            assert(touching(w, a, b));
        }
    }
    lemma_closed_holds_reach(adj, set, p, q);
}

/// Only pixels that lead to each other by touching pixels have one label: a set that is closed by
/// touch and holds one pixel of an object holds them all.
pub proof fn law_one_label_is_one_region(
    labels: Seq<usize>,
    fg: Seq<bool>,
    w: int,
    min_area: int,
    set: Set<int>,
    p: int,
    q: int,
)
    requires
        labels_components(labels, fg, w, fg.len() as int, min_area),
        closed_by_touch(fg, w, set),
        0 <= p < fg.len(),
        0 <= q < fg.len(),
        set.contains(p),
        labels[p] == labels[q],
        labels[p] != 0,
        labels[p] != DISCARDED,
    ensures
        set.contains(q),
{
    law_kept_labels_part_regions(labels, fg, w, min_area, p, q);
    lemma_closed_holds_piece(fg, w, set, p, q);
}

/// What lies in a set closed by touch of fewer than `min_area` pixels is discarded.
pub proof fn law_small_regions_are_discarded(
    labels: Seq<usize>,
    fg: Seq<bool>,
    w: int,
    min_area: int,
    set: Set<int>,
    p: int,
)
    requires
        labels_components(labels, fg, w, fg.len() as int, min_area),
        closed_by_touch(fg, w, set),
        set.finite(),
        set.len() < min_area,
        0 <= p < fg.len(),
        fg[p],
        set.contains(p),
    ensures
        labels[p] == DISCARDED,
{
    let n = fg.len() as int;
    let region = piece(joined8(fg, w, n), n, p);
    assert(region.subset_of(set)) by {
        assert forall|q: int| region.contains(q) implies set.contains(q) by {
            lemma_closed_holds_piece(fg, w, set, p, q);
        }
    }
    lemma_len_subset(region, set);
}

/// Whether every set that is closed by touch and holds `p` holds all of `pixels`.
pub open spec fn led_to(fg: Seq<bool>, w: int, p: int, pixels: Set<int>) -> bool {
    forall|set: Set<int>| #[trigger]
        closed_by_touch(fg, w, set) && set.contains(p) ==> pixels.subset_of(set)
}

/// A pixel that leads to at least `min_area` pixels belongs to an object, whose label it has.
pub proof fn law_large_regions_are_objects(
    labels: Seq<usize>,
    objects: Seq<Object>,
    fg: Seq<bool>,
    w: int,
    min_area: int,
    pixels: Set<int>,
    p: int,
)
    requires
        labels_components(labels, fg, w, fg.len() as int, min_area),
        lists_regions(objects, w, kept_regions(fg, w, fg.len() as int, min_area)),
        0 <= p < fg.len(),
        fg[p],
        led_to(fg, w, p, pixels),
        pixels.len() >= min_area,
    ensures
        exists|i: int| 0 <= i < objects.len() && #[trigger] objects[i].label == labels[p],
{
    let n = fg.len() as int;
    let adj = joined8(fg, w, n);
    let region = piece(adj, n, p);
    assert(closed_by_touch(fg, w, region)) by {
        assert forall|a: int, b: int|
            region.contains(a) && 0 <= a < fg.len() && fg[a] && 0 <= b < fg.len() && fg[b]
                && #[trigger] touching(w, a, b) implies region.contains(b) by {
            assert(adj(a, b));
            lemma_reach_step(adj, p, a, b);
        }
    }
    lemma_reach_self(adj, p);
    lemma_below_finite(region, n);
    assert(region.contains(p));
    assert(pixels.subset_of(region));
    lemma_len_subset(pixels, region);
    law_every_kept_pixel_is_listed(labels, objects, fg, w, min_area, p);
}

/// An object counts the pixels of its label, which are at least `min_area` and at least one, and
/// its box holds them and touches them on each of its four sides.
pub proof fn law_object_measures_its_label(
    labels: Seq<usize>,
    objects: Seq<Object>,
    fg: Seq<bool>,
    w: int,
    min_area: int,
    i: int,
    p: int,
)
    requires
        labels_components(labels, fg, w, fg.len() as int, min_area),
        lists_regions(objects, w, kept_regions(fg, w, fg.len() as int, min_area)),
        0 <= i < objects.len(),
        0 <= p < labels.len(),
    ensures
        objects[i].area == Set::new(
            |q: int| 0 <= q < labels.len() && labels[q] == objects[i].label,
        ).len(),
        objects[i].area >= min_area,
        objects[i].area >= 1,
        labels[p] == objects[i].label ==> objects[i].min_x <= p % w <= objects[i].max_x
            && objects[i].min_y <= p / w <= objects[i].max_y,
        exists|q: int|
            0 <= q < labels.len() && #[trigger] labels[q] == objects[i].label && q % w
                == objects[i].min_x,
        exists|q: int|
            0 <= q < labels.len() && #[trigger] labels[q] == objects[i].label && q % w
                == objects[i].max_x,
        exists|q: int|
            0 <= q < labels.len() && #[trigger] labels[q] == objects[i].label && q / w
                == objects[i].min_y,
        exists|q: int|
            0 <= q < labels.len() && #[trigger] labels[q] == objects[i].label && q / w
                == objects[i].max_y,
{
    let n = fg.len() as int;
    let obj = objects[i];
    let own = pixels_of(labels, obj.label);
    law_object_has_its_label(labels, objects, fg, w, min_area, i);
    lemma_kept_root_at(fg, w, n, min_area, n, obj.label - 1);
    assert(own =~= Set::new(|q: int| 0 <= q < labels.len() && labels[q] == objects[i].label));
    lemma_below_finite(own, n);
    let a = choose|q: int| #[trigger] own.contains(q) && col(w, q) == obj.min_x;
    let b = choose|q: int| #[trigger] own.contains(q) && col(w, q) == obj.max_x;
    let c = choose|q: int| #[trigger] own.contains(q) && row(w, q) == obj.min_y;
    let d = choose|q: int| #[trigger] own.contains(q) && row(w, q) == obj.max_y;
    assert(own.contains(a));
    if own.len() == 0 {
        own.lemma_len0_is_empty();
    }
    assert(labels[a] == obj.label && labels[b] == obj.label);
    assert(labels[c] == obj.label && labels[d] == obj.label);
    if labels[p] == obj.label {
        assert(own.contains(p));
    }
}

/// Objects come largest first, equally large ones in the order of their labels, which are the
/// numbers from one to how many objects there are, each once.
pub proof fn law_objects_come_largest_first(
    objects: Seq<Object>,
    w: int,
    regions: Seq<Set<int>>,
    i: int,
    j: int,
)
    requires
        lists_regions(objects, w, regions),
        0 <= i < j < objects.len(),
    ensures
        objects[i].area >= objects[j].area,
        objects[i].area == objects[j].area ==> objects[i].label < objects[j].label,
        1 <= objects[i].label <= objects.len(),
        objects[i].label != objects[j].label,
{
    assert(crate::ranking::ranks(objects[i], objects[j]));
    assert(objects[i].label != objects[j].label);
}

/// Labels number the kept regions in the order of their first pixels.
pub proof fn law_labels_follow_first_pixels(
    labels: Seq<usize>,
    fg: Seq<bool>,
    w: int,
    min_area: int,
    p: int,
    q: int,
)
    requires
        labels_components(labels, fg, w, fg.len() as int, min_area),
        0 <= p < fg.len(),
        0 <= q < fg.len(),
        0 < labels[p] < labels[q] < DISCARDED,
    ensures
        exists|first: int|
            {
                &&& 0 <= first < q
                &&& #[trigger] labels[first] == labels[p]
                &&& forall|x: int|
                    0 <= x < labels.len() && #[trigger] labels[x] == labels[q] ==> first < x
            },
{
    let n = fg.len() as int;
    let adj = joined8(fg, w, n);
    let regions = kept_regions(fg, w, n, min_area);
    assert(symmetric(adj));
    lemma_kept_has_root(fg, w, n, min_area, p);
    lemma_kept_has_root(fg, w, n, min_area, q);
    let (r, s) = (root_of(adj, p), root_of(adj, q));
    lemma_kept_place(fg, w, n, min_area, r, n);
    lemma_kept_place(fg, w, n, min_area, s, n);
    let (a, b) = (
        kept_roots(fg, w, n, min_area, r).len() as int,
        kept_roots(fg, w, n, min_area, s).len() as int,
    );
    lemma_root(adj, p);
    lemma_root(adj, q);
    assert(regions[a] == piece(adj, n, r) && regions[b] == piece(adj, n, s));
    assert(labels[p] == a + 1 <==> regions[a].contains(p));
    assert(labels[q] == b + 1 <==> regions[b].contains(q));
    lemma_reach_self(adj, r);
    assert(labels[r] == a + 1 <==> regions[a].contains(r));
    if s < r {
        lemma_kept_place(fg, w, n, min_area, s, r);
    }
    assert(r < s);
    assert forall|x: int| 0 <= x < labels.len() && #[trigger] labels[x] == labels[q] implies r < x by {
        assert(labels[x] == b + 1 <==> regions[b].contains(x));
        lemma_same_root(adj, s, x);
        lemma_root(adj, x);
        lemma_root_of_root(adj, q);
    }
    assert(labels[r] == labels[p]);
}

/// The objects of a segmented image reach the least side in their width or their height; and an
/// object whose pixels lie as far apart is among them.
pub proof fn law_segments_reach_the_least_side(
    labels: Seq<usize>,
    objects: Seq<Object>,
    fg: Seq<bool>,
    w: int,
    min_area: int,
    min_side: int,
    i: int,
    p: int,
    q: int,
)
    requires
        segments(labels, objects, fg, w, min_area, min_side),
        0 <= p < fg.len(),
        0 <= q < fg.len(),
        0 <= i,
    ensures
        i < objects.len() ==> objects[i].max_x - objects[i].min_x + 1 >= min_side
            || objects[i].max_y - objects[i].min_y + 1 >= min_side,
        0 < labels[p] < DISCARDED && labels[p] == labels[q] && (p % w - q % w + 1 >= min_side || p
            / w - q / w + 1 >= min_side) ==> exists|k: int|
            0 <= k < objects.len() && #[trigger] objects[k].label == labels[p],
{
    let n = fg.len() as int;
    let all = choose|all: Seq<Object>| #[trigger]
        lists_regions(all, w, kept_regions(fg, w, n, min_area)) && objects == large_enough(
            all,
            min_side,
        );
    let big = |o: Object| crate::components::longer_side(o) >= min_side;
    if i < objects.len() {
        all.lemma_filter_pred(big, i);
    }
    if 0 < labels[p] < DISCARDED && labels[p] == labels[q] && (p % w - q % w + 1 >= min_side || p
        / w - q / w + 1 >= min_side) {
        law_every_kept_pixel_is_listed(labels, all, fg, w, min_area, p);
        let k = choose|k: int| 0 <= k < all.len() && #[trigger] all[k].label == labels[p];
        law_object_measures_its_label(labels, all, fg, w, min_area, k, p);
        law_object_measures_its_label(labels, all, fg, w, min_area, k, q);
        all.lemma_filter_contains(big, k);
        let j = choose|j: int| 0 <= j < objects.len() && objects[j] == all[k];
        assert(objects[j].label == labels[p]);
    }
}

/// The pixels that an instance shows and that the first `j` regions do not hold.
pub open spec fn left_for(
    instance: Seq<bool>,
    n: int,
    regions: Seq<Set<int>>,
    j: int,
) -> Set<int> {
    Set::new(
        |p: int|
            0 <= p < n && instance[p] && forall|i: int|
                0 <= i < j ==> !(#[trigger] regions[i]).contains(p),
    )
}

/// Whether `owners` gives, for each region, the instance it was made from: regions come in the
/// order of their instances, each is what its instance shows and no earlier region holds, is not
/// empty and has at least `min_area` pixels.
pub open spec fn own(
    owners: Seq<int>,
    regions: Seq<Set<int>>,
    instances: Seq<Vec<bool>>,
    n: int,
    min_area: int,
) -> bool {
    &&& owners.len() == regions.len()
    &&& forall|i: int, j: int| 0 <= i < j < owners.len() ==> owners[i] < owners[j]
    &&& forall|j: int|
        0 <= j < owners.len() ==> {
            &&& 0 <= #[trigger] owners[j] < instances.len()
            &&& regions[j] == left_for(instances[owners[j]]@, n, regions, j)
            &&& regions[j].len() >= 1
            &&& regions[j].len() >= min_area
        }
}

/// Whether instance `m`, which owns no region, comes after exactly the first `j` owners, and has
/// too few pixels left for it.
pub open spec fn passed_over(
    m: int,
    j: int,
    owners: Seq<int>,
    regions: Seq<Set<int>>,
    instances: Seq<Vec<bool>>,
    n: int,
    min_area: int,
) -> bool {
    &&& 0 <= j <= owners.len()
    &&& forall|i: int| 0 <= i < j ==> #[trigger] owners[i] < m
    &&& forall|i: int| j <= i < owners.len() ==> m < #[trigger] owners[i]
    &&& left_for(instances[m]@, n, regions, j).len() < min_area || left_for(
        instances[m]@,
        n,
        regions,
        j,
    ).len() < 1
}

/// Each instance in turn owns what it shows and no earlier one owns, unless that is too little.
pub proof fn law_instances_own_what_is_left(instances: Seq<Vec<bool>>, n: int, min_area: int, k: int)
    requires
        0 <= k <= instances.len(),
    ensures
        exists|owners: Seq<int>|
            {
                &&& #[trigger] own(
                    owners,
                    instance_regions(instances, n, min_area, k),
                    instances,
                    n,
                    min_area,
                )
                &&& forall|j: int| 0 <= j < owners.len() ==> #[trigger] owners[j] < k
                &&& forall|m: int|
                    0 <= m < k && !#[trigger] owners.contains(m) ==> exists|j: int|
                        passed_over(
                            m,
                            j,
                            owners,
                            instance_regions(instances, n, min_area, k),
                            instances,
                            n,
                            min_area,
                        )
            },
    decreases k,
{
    let regions = instance_regions(instances, n, min_area, k);
    if k == 0 {
        assert(own(Seq::<int>::empty(), regions, instances, n, min_area));
    } else {
        law_instances_own_what_is_left(instances, n, min_area, k - 1);
        let earlier = instance_regions(instances, n, min_area, k - 1);
        let before = choose|owners: Seq<int>|
            {
                &&& #[trigger] own(owners, earlier, instances, n, min_area)
                &&& forall|j: int| 0 <= j < owners.len() ==> #[trigger] owners[j] < k - 1
                &&& forall|m: int|
                    0 <= m < k - 1 && !#[trigger] owners.contains(m) ==> exists|j: int|
                        passed_over(m, j, owners, earlier, instances, n, min_area)
            };
        let claimed = claim(instances[k - 1]@, n, earlier);
        let count = earlier.len() as int;
        assert(claimed =~= left_for(instances[k - 1]@, n, earlier, count));
        if claimed.len() >= 1 && claimed.len() >= min_area {
            let owners = before.push(k - 1);
            assert(regions == earlier.push(claimed));
            assert forall|j: int| 0 <= j < owners.len() implies {
                &&& 0 <= #[trigger] owners[j] < instances.len()
                &&& regions[j] == left_for(instances[owners[j]]@, n, regions, j)
                &&& regions[j].len() >= 1
                &&& regions[j].len() >= min_area
            } by {
                if j < count {
                    assert(0 <= before[j] < instances.len());
                    lemma_left_for(instances[before[j]]@, n, earlier, regions, j);
                    assert(regions[j] == earlier[j]);
                } else {
                    lemma_left_for(instances[k - 1]@, n, earlier, regions, count);
                }
            }
            assert(own(owners, regions, instances, n, min_area));
            assert forall|m: int| 0 <= m < k && !#[trigger] owners.contains(m) implies exists|j: int|
                passed_over(m, j, owners, regions, instances, n, min_area) by {
                assert(owners[count] == k - 1);
                assert(!before.contains(m)) by {
                    if before.contains(m) {
                        let i = choose|i: int| 0 <= i < before.len() && before[i] == m;
                        assert(owners[i] == m);
                    }
                }
                let j = choose|j: int| passed_over(m, j, before, earlier, instances, n, min_area);
                lemma_left_for(instances[m]@, n, earlier, regions, j);
                assert(passed_over(m, j, owners, regions, instances, n, min_area));
            }
        } else {
            assert(regions == earlier);
            assert forall|m: int| 0 <= m < k && !#[trigger] before.contains(m) implies exists|j: int|
                passed_over(m, j, before, regions, instances, n, min_area) by {
                if m == k - 1 {
                    assert(passed_over(m, count, before, regions, instances, n, min_area));
                }
            }
            assert(own(before, regions, instances, n, min_area));
        }
    }
}

proof fn lemma_left_for(
    instance: Seq<bool>,
    n: int,
    earlier: Seq<Set<int>>,
    regions: Seq<Set<int>>,
    j: int,
)
    requires
        0 <= j <= earlier.len() <= regions.len(),
        forall|i: int| 0 <= i < earlier.len() ==> regions[i] == earlier[i],
    ensures
        left_for(instance, n, earlier, j) == left_for(instance, n, regions, j),
{
    let (a, b) = (left_for(instance, n, earlier, j), left_for(instance, n, regions, j));
    assert forall|p: int| a.contains(p) == b.contains(p) by {
        if a.contains(p) {
            assert forall|i: int| 0 <= i < j implies !(#[trigger] regions[i]).contains(p) by {
                assert(!earlier[i].contains(p));
            }
        }
        if b.contains(p) {
            assert forall|i: int| 0 <= i < j implies !(#[trigger] earlier[i]).contains(p) by {
                assert(!regions[i].contains(p));
            }
        }
    }
    assert(a =~= b);
}

/// The pixels of an object are listed row by row: exactly those of its box that carry its label,
/// each before those of a later row and those further right in its row.
pub proof fn law_object_pixels_row_by_row(
    labels: Seq<usize>,
    w: int,
    obj: Object,
    ow: int,
    oh: int,
    upto: int,
)
    requires
        0 < ow,
        0 <= upto <= ow * oh,
        obj.min_x + ow <= usize::MAX,
        obj.min_y + oh <= usize::MAX,
    ensures
        forall|i: int, j: int|
            0 <= i < j < labelled_below(labels, w, obj, ow, upto).len() ==> {
                let a = #[trigger] labelled_below(labels, w, obj, ow, upto)[i];
                let b = #[trigger] labelled_below(labels, w, obj, ow, upto)[j];
                a.1 < b.1 || (a.1 == b.1 && a.0 < b.0)
            },
        forall|x: usize, y: usize| #[trigger]
            labelled_below(labels, w, obj, ow, upto).contains((x, y)) <==> {
                &&& obj.min_x <= x < obj.min_x + ow
                &&& obj.min_y <= y
                &&& (y - obj.min_y) * ow + (x - obj.min_x) < upto
                &&& labels[y * w + x] == obj.label
            },
    decreases upto,
{
    let all = labelled_below(labels, w, obj, ow, upto);
    if upto == 0 {
        assert forall|x: usize, y: usize| #[trigger] all.contains((x, y)) <==> {
            &&& obj.min_x <= x < obj.min_x + ow
            &&& obj.min_y <= y
            &&& (y - obj.min_y) * ow + (x - obj.min_x) < upto
            &&& labels[y * w + x] == obj.label
        } by {
            if obj.min_y <= y {
                assert((y - obj.min_y) * ow >= 0) by (nonlinear_arith)
                    requires
                        y >= obj.min_y,
                        ow > 0,
                ;
            }
        }
    }
    if upto > 0 {
        let p = upto - 1;
        lemma_coords(ow, oh, p);
        law_object_pixels_row_by_row(labels, w, obj, ow, oh, p);
        let earlier = labelled_below(labels, w, obj, ow, p);
        let (px, py) = (obj.min_x + p % ow, obj.min_y + p / ow);
        let last = (px as usize, py as usize);
        assert(all == earlier || all == earlier.push(last));
        assert forall|x: usize, y: usize| #[trigger]
            all.contains((x, y)) <==> {
                &&& obj.min_x <= x < obj.min_x + ow
                &&& obj.min_y <= y
                &&& (y - obj.min_y) * ow + (x - obj.min_x) < upto
                &&& labels[y * w + x] == obj.label
            } by {
            let at = (y - obj.min_y) * ow + (x - obj.min_x);
            assert(earlier.contains((x, y)) <==> {
                &&& obj.min_x <= x < obj.min_x + ow
                &&& obj.min_y <= y
                &&& at < p
                &&& labels[y * w + x] == obj.label
            });
            if all.contains((x, y)) {
                let i = choose|i: int| 0 <= i < all.len() && all[i] == (x, y);
                if i < earlier.len() {
                    assert(earlier[i] == (x, y));
                }
            }
            if earlier.contains((x, y)) {
                let i = choose|i: int| 0 <= i < earlier.len() && earlier[i] == (x, y);
                assert(all[i] == (x, y));
            }
            if obj.min_x <= x < obj.min_x + ow && obj.min_y <= y && at == p {
                lemma_place(ow, x - obj.min_x, y - obj.min_y, p);
                if labels[y * w + x] == obj.label {
                    assert(all[earlier.len() as int] == (x, y));
                }
            }
        }
        assert forall|i: int, j: int| 0 <= i < j < all.len() implies {
            let a = #[trigger] all[i];
            let b = #[trigger] all[j];
            a.1 < b.1 || (a.1 == b.1 && a.0 < b.0)
        } by {
            if j < earlier.len() {
                assert(all[i] == earlier[i] && all[j] == earlier[j]);
            } else {
                let a = earlier[i];
                assert(earlier.contains((a.0, a.1)));
                assert(labels[a.1 * w + a.0] == obj.label);
                lemma_place_order(ow, a.0 - obj.min_x, a.1 - obj.min_y, p);
            }
        }
    }
}

/// A place given by its column and row has that column and row.
pub proof fn lemma_place(w: int, x: int, y: int, p: int)
    requires
        0 <= x < w,
        0 <= y,
        p == y * w + x,
    ensures
        p % w == x,
        p / w == y,
{
    lemma_index(w, y + 1, x, y);
}

/// What stands at a smaller place stands in an earlier row, or further left in the same row.
pub proof fn lemma_place_order(w: int, x: int, y: int, p: int)
    requires
        0 <= x < w,
        0 <= y,
        0 <= p,
        y * w + x < p,
    ensures
        y < p / w || (y == p / w && x < p % w),
{
    vstd::arithmetic::div_mod::lemma_fundamental_div_mod(p, w);
    assert(w * (p / w) == (p / w) * w) by (nonlinear_arith);
    assert(0 <= p % w < w);
    if y > p / w {
        assert(y * w >= (p / w + 1) * w) by (nonlinear_arith)
            requires
                y >= p / w + 1,
                w > 0,
        ;
        assert((p / w + 1) * w == (p / w) * w + w) by (nonlinear_arith);
    }
}

/// A pixel carries the number of the region that holds it, and no label where none does.
pub proof fn law_instance_labels_number_regions(
    labels: Seq<usize>,
    regions: Seq<Set<int>>,
    p: int,
)
    requires
        labels_regions(labels, regions),
        0 <= p < labels.len(),
    ensures
        labels[p] == 0 <==> forall|j: int|
            0 <= j < regions.len() ==> !(#[trigger] regions[j]).contains(p),
        labels[p] > 0 ==> labels[p] <= regions.len() && regions[labels[p] - 1].contains(p),
{
    if labels[p] > 0 {
        let j = labels[p] - 1;
        assert(labels[p] == j + 1 <==> regions[j].contains(p));
    } else {
        assert forall|j: int| 0 <= j < regions.len() implies !(#[trigger] regions[j]).contains(p) by {
            assert(labels[p] == j + 1 <==> regions[j].contains(p));
        }
    }
}

/// An extraction shows the source it was made of, and its labels and objects are those of the
/// foreground.
pub proof fn law_extraction_is_of_its_source(
    e: Extraction,
    src: RgbaImage,
    fg: Seq<bool>,
    min_area: int,
)
    requires
        e.shows(src),
        e.splits(fg, min_area),
    ensures
        e.src == src,
        e.width == src.width,
        e.height == src.height,
        fg.len() == src.width * src.height,
        labels_components(e.labels@, fg, src.width as int, fg.len() as int, min_area),
        lists_regions(
            e.objects@,
            src.width as int,
            kept_regions(fg, src.width as int, fg.len() as int, min_area),
        ),
{
}

/// The box of an object is taken wherever it lies in the label map, as long as its pixels can be
/// counted.
pub proof fn law_boxes_are_taken(obj: Object, w: int, n: int)
    requires
        obj.min_x <= obj.max_x,
        obj.min_y <= obj.max_y,
        obj.max_y * w + obj.max_x < n,
        obj.max_x - obj.min_x < u32::MAX,
        obj.max_y - obj.min_y < u32::MAX,
        (obj.max_x - obj.min_x + 1) * (obj.max_y - obj.min_y + 1) <= usize::MAX,
    ensures
        box_in(obj, w, n),
{
}

/// An image is taken for an object wherever it holds the object's box.
pub proof fn law_images_are_taken(img: RgbaImage, deep: Rgba16Image, w: int, labels: Seq<usize>, obj: Object)
    ensures
        obj.max_x < img.width && obj.max_y < img.height ==> pixels_in(img, w, labels, obj),
        obj.max_x < deep.width && obj.max_y < deep.height ==> pixels_in(deep, w, labels, obj),
{
}

} // verus!
