//! What holds of the library as a whole.
use crate::components::{
    belongs, claim, describes, in_kept, instance_regions, kept_regions, kept_roots, labels_components,
    labels_regions, large_enough, lemma_kept_from, lemma_kept_has_root,
    lemma_kept_place, lemma_kept_root_at, lists_regions, Object,
};
use crate::extract::at_least;
use crate::graph::{
    lemma_below_finite, lemma_reach_self, lemma_root, lemma_root_of_root, lemma_same_root, piece,
    reachable, root_of, symmetric,
};
use crate::grid::{col, joined8, lemma_index, row};
use crate::pipeline::{is_cut, lemma_box_inside, segments};
use crate::ranking::{ranked, ranks};
use crate::raster::{GrayImage, RgbaImage};
use vstd::prelude::*;
use vstd::set_lib::{lemma_int_range, lemma_subset_equality, set_int_range};

verus! {

/// The pixels of a label map that carry a label.
pub open spec fn pixels_of(labels: Seq<usize>, label: usize) -> Set<int> {
    Set::new(|p: int| 0 <= p < labels.len() && labels[p] == label)
}

/// A pixel is background exactly where its label is zero.
pub proof fn law_zero_is_background(
    labels: Seq<usize>,
    fg: Seq<bool>,
    w: int,
    min_area: int,
    p: int,
)
    requires
        labels_components(labels, fg, w, fg.len() as int, min_area),
        0 <= p < fg.len(),
    ensures
        labels[p] == 0 <==> !fg[p],
{
}

/// A pixel of a region that was kept has the label of another pixel exactly where the two are
/// connected.
pub proof fn law_kept_labels_part_regions(
    labels: Seq<usize>,
    fg: Seq<bool>,
    w: int,
    min_area: int,
    p: int,
    q: int,
)
    requires
        labels_components(labels, fg, w, fg.len() as int, min_area),
        0 <= p < fg.len(),
        0 <= q < fg.len(),
        in_kept(fg, w, fg.len() as int, min_area, p),
    ensures
        labels[p] == labels[q] <==> reachable(joined8(fg, w, fg.len() as int), p, q),
{
    let n = fg.len() as int;
    let adj = joined8(fg, w, n);
    let r = root_of(adj, p);
    let k = kept_roots(fg, w, n, min_area, r).len() as int;
    let regions = kept_regions(fg, w, n, min_area);
    assert(symmetric(adj));
    lemma_kept_has_root(fg, w, n, min_area, p);
    lemma_kept_place(fg, w, n, min_area, r, n);
    assert(regions[k] == piece(adj, n, r));
    lemma_root(adj, p);
    lemma_root_of_root(adj, p);
    lemma_same_root(adj, p, q);
    lemma_same_root(adj, r, q);
    assert(labels[p] == k + 1 <==> regions[k].contains(p));
    assert(labels[q] == k + 1 <==> regions[k].contains(q));
}

/// The pixels that carry an object's label are exactly its region, which the object counts and
/// bounds: the label map tells the members of each object.
pub proof fn law_object_has_its_label(
    labels: Seq<usize>,
    objects: Seq<Object>,
    fg: Seq<bool>,
    w: int,
    min_area: int,
    i: int,
)
    requires
        labels_components(labels, fg, w, fg.len() as int, min_area),
        lists_regions(objects, w, kept_regions(fg, w, fg.len() as int, min_area)),
        0 <= i < objects.len(),
    ensures
        pixels_of(labels, objects[i].label) == kept_regions(
            fg,
            w,
            fg.len() as int,
            min_area,
        )[objects[i].label - 1],
        describes(objects[i], w, pixels_of(labels, objects[i].label)),
{
    let n = fg.len() as int;
    let k = objects[i].label - 1;
    let region = kept_regions(fg, w, n, min_area)[k];
    let own = pixels_of(labels, objects[i].label);
    assert(region == piece(joined8(fg, w, n), n, kept_roots(fg, w, n, min_area, n)[k]));
    assert forall|p: int| own.contains(p) == region.contains(p) by {
        if 0 <= p < n {
            assert(labels[p] == k + 1 <==> region.contains(p));
        }
    }
    assert(own =~= region);
}

/// No object has the label of what was too small to be kept.
pub proof fn law_discarded_is_no_object(
    labels: Seq<usize>,
    objects: Seq<Object>,
    fg: Seq<bool>,
    w: int,
    min_area: int,
    p: int,
    i: int,
)
    requires
        labels_components(labels, fg, w, fg.len() as int, min_area),
        lists_regions(objects, w, kept_regions(fg, w, fg.len() as int, min_area)),
        0 <= p < fg.len(),
        fg[p],
        !in_kept(fg, w, fg.len() as int, min_area, p),
        0 <= i < objects.len(),
    ensures
        objects[i].label < labels[p],
{
    let n = fg.len() as int;
    let adj = joined8(fg, w, n);
    let k = objects[i].label - 1;
    let regions = kept_regions(fg, w, n, min_area);
    lemma_kept_root_at(fg, w, n, min_area, n, k);
    let r = kept_roots(fg, w, n, min_area, n)[k];
    assert(symmetric(adj));
    assert(regions[k] == piece(adj, n, r));
    if regions[k].contains(p) {
        assert(piece(adj, n, p) =~= piece(adj, n, r)) by {
            assert forall|q: int| 0 <= q < n implies reachable(adj, p, q) == reachable(adj, r, q) by {
                lemma_same_root(adj, r, p);
                lemma_same_root(adj, p, q);
                lemma_same_root(adj, r, q);
            }
        }
    }
    assert(labels[p] == k + 1 <==> regions[k].contains(p));
}

/// Whether `region` shows in an object's mask and cutout: all of it lies in the object's box, and
/// within the box its pixels, and no others, are set in the mask and are the source's, opaque.
pub open spec fn shows_exactly(
    src: RgbaImage,
    obj: Object,
    cutout: RgbaImage,
    mask: GrayImage,
    region: Set<int>,
) -> bool {
    let w = src.width as int;
    &&& forall|q: int| #[trigger]
        region.contains(q) ==> mask.has(col(w, q) - obj.min_x, row(w, q) - obj.min_y)
    &&& forall|i: int, j: int|
        mask.has(i, j) ==> (#[trigger] mask.at(i, j) == 255 <==> region.contains(
            (obj.min_y + j) * w + (obj.min_x + i),
        ))
    &&& forall|i: int, j: int|
        mask.has(i, j) ==> (#[trigger] cutout.at(i, j))@ == if region.contains(
            (obj.min_y + j) * w + (obj.min_x + i),
        ) {
            src.at(obj.min_x + i, obj.min_y + j)@.update(3, 255)
        } else {
            seq![0u8, 0, 0, 0]
        }
}

/// What is cut out for an object of a segmented image is exactly that object's region: nothing of
/// another object, of the background or of what was discarded leaks in.
pub proof fn law_cutout_shows_its_region(
    src: RgbaImage,
    labels: Seq<usize>,
    objects: Seq<Object>,
    fg: Seq<bool>,
    min_area: int,
    min_side: int,
    i: int,
    cutout: RgbaImage,
    mask: GrayImage,
)
    requires
        src.wf(),
        fg.len() == src.width * src.height,
        segments(labels, objects, fg, src.width as int, min_area, min_side),
        0 <= i < objects.len(),
        is_cut(src, labels, objects[i], cutout, mask),
    ensures
        ({
            let regions = kept_regions(fg, src.width as int, fg.len() as int, min_area);
            &&& 1 <= objects[i].label <= regions.len()
            &&& describes(objects[i], src.width as int, regions[objects[i].label - 1])
            &&& shows_exactly(src, objects[i], cutout, mask, regions[objects[i].label - 1])
        }),
{
    let w = src.width as int;
    let h = src.height as int;
    let n = fg.len() as int;
    let obj = objects[i];
    let all = choose|all: Seq<Object>| #[trigger]
        lists_regions(all, w, kept_regions(fg, w, n, min_area)) && objects == large_enough(
            all,
            min_side,
        );
    lemma_kept_from(all, min_side, i);
    let k = choose|k: int| 0 <= k < all.len() && #[trigger] all[k] == obj;
    law_object_has_its_label(labels, all, fg, w, min_area, k);
    let region = kept_regions(fg, w, n, min_area)[obj.label - 1];
    assert(region == pixels_of(labels, obj.label));
    lemma_box_inside(obj, w, h, region);
    assert forall|a: int, b: int| mask.has(a, b) implies region.contains(
        (obj.min_y + b) * w + (obj.min_x + a),
    ) == #[trigger] belongs(labels, w, obj, obj.min_x + a, obj.min_y + b) by {
        lemma_index(w, h, obj.min_x + a, obj.min_y + b);
    }
    assert forall|a: int, b: int| mask.has(a, b) implies (#[trigger] mask.at(a, b) == 255
        <==> region.contains((obj.min_y + b) * w + (obj.min_x + a))) by {
        assert(belongs(labels, w, obj, obj.min_x + a, obj.min_y + b) == region.contains(
            (obj.min_y + b) * w + (obj.min_x + a),
        ));
    }
    assert forall|a: int, b: int| mask.has(a, b) implies (#[trigger] cutout.at(a, b))@
        == if region.contains((obj.min_y + b) * w + (obj.min_x + a)) {
        src.at(obj.min_x + a, obj.min_y + b)@.update(3, 255)
    } else {
        seq![0u8, 0, 0, 0]
    } by {
        assert(cutout.has(a, b));
        assert(belongs(labels, w, obj, obj.min_x + a, obj.min_y + b) == region.contains(
            (obj.min_y + b) * w + (obj.min_x + a),
        ));
    }
}

/// With a least area of one pixel or none, every region is kept.
pub proof fn law_single_pixels_are_kept(fg: Seq<bool>, w: int, min_area: int, p: int)
    requires
        min_area <= 1,
        0 <= p < fg.len(),
        fg[p],
    ensures
        in_kept(fg, w, fg.len() as int, min_area, p),
{
    let n = fg.len() as int;
    let region = piece(joined8(fg, w, n), n, p);
    lemma_reach_self(joined8(fg, w, n), p);
    lemma_below_finite(region, n);
    assert(region.contains(p));
    if region.len() == 0 {
        region.lemma_len0_is_empty();
    }
}

/// No pixel belongs to the regions of two objects.
pub proof fn law_objects_are_disjoint(
    objects: Seq<Object>,
    fg: Seq<bool>,
    w: int,
    min_area: int,
    i: int,
    j: int,
)
    requires
        lists_regions(objects, w, kept_regions(fg, w, fg.len() as int, min_area)),
        0 <= i < j < objects.len(),
    ensures
        ({
            let regions = kept_regions(fg, w, fg.len() as int, min_area);
            regions[objects[i].label - 1].disjoint(regions[objects[j].label - 1])
        }),
{
    let n = fg.len() as int;
    let adj = joined8(fg, w, n);
    let regions = kept_regions(fg, w, n, min_area);
    let roots = kept_roots(fg, w, n, min_area, n);
    let (a, b) = (objects[i].label - 1, objects[j].label - 1);
    assert(symmetric(adj));
    assert(a != b);
    lemma_kept_root_at(fg, w, n, min_area, n, a);
    lemma_kept_root_at(fg, w, n, min_area, n, b);
    assert forall|p: int| regions[a].contains(p) implies !regions[b].contains(p) by {
        if regions[b].contains(p) {
            lemma_same_root(adj, roots[a], p);
            lemma_same_root(adj, roots[b], p);
        }
    }
}

/// A higher cutoff never adds a pixel to the foreground.
pub proof fn law_cutoff_shrinks_foreground(values: Seq<u8>, low: u8, high: u8, p: int)
    requires
        low <= high,
        0 <= p < values.len(),
    ensures
        at_least(values, high)[p] ==> at_least(values, low)[p],
{
}

/// Without a least side every object is kept.
pub proof fn law_no_least_side_keeps_all(objects: Seq<Object>)
    requires
        forall|i: int|
            0 <= i < objects.len() ==> #[trigger] objects[i].min_x <= objects[i].max_x
                && objects[i].min_y <= objects[i].max_y,
    ensures
        large_enough(objects, 0) == objects,
    decreases objects.len(),
{
    reveal(Seq::filter);
    if objects.len() > 0 {
        let rest = objects.drop_last();
        assert forall|i: int| 0 <= i < rest.len() implies #[trigger] rest[i].min_x <= rest[i].max_x
            && rest[i].min_y <= rest[i].max_y by {
            assert(objects[i].min_x <= objects[i].max_x);
        }
        law_no_least_side_keeps_all(rest);
        assert(objects[objects.len() - 1].min_x <= objects[objects.len() - 1].max_x);
        assert(rest.push(objects.last()) =~= objects);
    }
}

/// Dropping small objects leaves the others sorted largest-first.
pub proof fn law_kept_stay_ranked(objects: Seq<Object>, min_side: int)
    requires
        ranked(objects),
    ensures
        ranked(large_enough(objects, min_side)),
    decreases objects.len(),
{
    reveal(Seq::filter);
    if objects.len() > 0 {
        let rest = objects.drop_last();
        assert(ranked(rest)) by {
            assert forall|i: int, j: int| 0 <= i < j < rest.len() implies ranks(rest[i], rest[j]) by {
                assert(ranks(objects[i], objects[j]));
            }
        }
        law_kept_stay_ranked(rest, min_side);
        let kept = large_enough(rest, min_side);
        let all = large_enough(objects, min_side);
        assert forall|i: int, j: int| 0 <= i < j < all.len() implies ranks(all[i], all[j]) by {
            if j < kept.len() {
                assert(ranks(kept[i], kept[j]));
            } else {
                lemma_kept_from(rest, min_side, i);
                let k = choose|k: int| 0 <= k < rest.len() && #[trigger] rest[k] == kept[i];
                assert(ranks(objects[k], objects[objects.len() - 1]));
            }
        }
    }
}

/// Distinct labels that all lie in a range as long as they are many take every value of it.
pub proof fn lemma_labels_cover(objects: Seq<Object>, label: int)
    requires
        forall|i: int|
            0 <= i < objects.len() ==> 1 <= #[trigger] objects[i].label <= objects.len(),
        forall|i: int, j: int|
            0 <= i < j < objects.len() ==> objects[i].label != objects[j].label,
        1 <= label <= objects.len(),
    ensures
        exists|i: int| 0 <= i < objects.len() && #[trigger] objects[i].label == label,
{
    let given = objects.map_values(|o: Object| o.label as int);
    let n = objects.len() as int;
    assert(given.no_duplicates()) by {
        assert forall|i: int, j: int| 0 <= i < n && 0 <= j < n && i != j implies given[i]
            != given[j] by {
            if i < j {
                assert(objects[i].label != objects[j].label);
            } else {
                assert(objects[j].label != objects[i].label);
            }
        }
    }
    given.unique_seq_to_set();
    let all = set_int_range(1, n + 1);
    lemma_int_range(1, n + 1);
    assert forall|v: int| given.to_set().contains(v) implies all.contains(v) by {
        let i = choose|i: int| 0 <= i < given.len() && given[i] == v;
        assert(objects[i].label == v);
    }
    lemma_subset_equality(given.to_set(), all);
    assert(given.to_set().contains(label));
    let i = choose|i: int| 0 <= i < given.len() && given[i] == label;
    assert(objects[i].label == label);
}

/// Every pixel of a region that is large enough to be kept belongs to one of the objects, whose
/// region is its own.
pub proof fn law_every_kept_pixel_is_listed(
    labels: Seq<usize>,
    objects: Seq<Object>,
    fg: Seq<bool>,
    w: int,
    min_area: int,
    p: int,
)
    requires
        labels_components(labels, fg, w, fg.len() as int, min_area),
        lists_regions(objects, w, kept_regions(fg, w, fg.len() as int, min_area)),
        0 <= p < fg.len(),
        in_kept(fg, w, fg.len() as int, min_area, p),
    ensures
        exists|i: int|
            0 <= i < objects.len() && #[trigger] objects[i].label == labels[p] && kept_regions(
                fg,
                w,
                fg.len() as int,
                min_area,
            )[objects[i].label - 1].contains(p),
{
    let n = fg.len() as int;
    let adj = joined8(fg, w, n);
    let r = root_of(adj, p);
    assert(symmetric(adj));
    lemma_kept_has_root(fg, w, n, min_area, p);
    lemma_kept_place(fg, w, n, min_area, r, n);
    let k = kept_roots(fg, w, n, min_area, r).len() as int;
    let regions = kept_regions(fg, w, n, min_area);
    assert(regions[k] == piece(adj, n, r));
    lemma_root(adj, p);
    assert(labels[p] == k + 1 <==> regions[k].contains(p));
    lemma_labels_cover(objects, labels[p] as int);
    let i = choose|i: int| 0 <= i < objects.len() && #[trigger] objects[i].label == labels[p];
    assert(kept_regions(fg, w, n, min_area)[objects[i].label - 1] == piece(adj, n, r));
}

/// The pixels that an instance shows.
pub open spec fn shown(instance: Seq<bool>, n: int) -> Set<int> {
    Set::new(|p: int| 0 <= p < n && instance[p])
}

proof fn lemma_instance_regions_inside(
    instances: Seq<Vec<bool>>,
    n: int,
    min_area: int,
    k: int,
    j: int,
)
    requires
        0 <= j < instance_regions(instances, n, min_area, k).len(),
        0 <= k <= instances.len(),
    ensures
        forall|p: int| #[trigger]
            instance_regions(instances, n, min_area, k)[j].contains(p) ==> 0 <= p < n && exists|
                m: int,
            |
                0 <= m < k && #[trigger] shown(instances[m]@, n).contains(p),
    decreases k,
{
    if k > 0 {
        let earlier = instance_regions(instances, n, min_area, k - 1);
        let claimed = claim(instances[k - 1]@, n, earlier);
        if j < earlier.len() {
            lemma_instance_regions_inside(instances, n, min_area, k - 1, j);
            assert forall|p: int| #[trigger]
                instance_regions(instances, n, min_area, k)[j].contains(p) implies 0 <= p < n
                && exists|m: int| 0 <= m < k && #[trigger] shown(instances[m]@, n).contains(p) by {
                assert(earlier[j].contains(p));
                let m = choose|m: int|
                    0 <= m < k - 1 && #[trigger] shown(instances[m]@, n).contains(p);
                assert(shown(instances[m]@, n).contains(p));
            }
        } else {
            assert forall|p: int| #[trigger]
                instance_regions(instances, n, min_area, k)[j].contains(p) implies 0 <= p < n
                && exists|m: int| 0 <= m < k && #[trigger] shown(instances[m]@, n).contains(p) by {
                assert(claimed.contains(p));
                assert(shown(instances[k - 1]@, n).contains(p));
            }
        }
    }
}

/// Each object made from instances counts and bounds exactly the pixels that carry its label, and
/// each of these is shown by some instance.
pub proof fn law_instance_object_has_its_label(
    labels: Seq<usize>,
    objects: Seq<Object>,
    instances: Seq<Vec<bool>>,
    w: int,
    n: int,
    min_area: int,
    i: int,
)
    requires
        labels.len() == n,
        labels_regions(labels, instance_regions(instances, n, min_area, instances.len() as int)),
        lists_regions(objects, w, instance_regions(instances, n, min_area, instances.len() as int)),
        0 <= i < objects.len(),
    ensures
        describes(objects[i], w, pixels_of(labels, objects[i].label)),
        forall|p: int| #[trigger]
            pixels_of(labels, objects[i].label).contains(p) ==> exists|m: int|
                0 <= m < instances.len() && #[trigger] shown(instances[m]@, n).contains(p),
{
    let regions = instance_regions(instances, n, min_area, instances.len() as int);
    let j = objects[i].label - 1;
    lemma_instance_regions_inside(instances, n, min_area, instances.len() as int, j);
    assert(pixels_of(labels, objects[i].label) =~= regions[j]) by {
        assert forall|p: int| pixels_of(labels, objects[i].label).contains(p) == regions[j].contains(
            p,
        ) by {
            if 0 <= p < n {
                assert(labels[p] == j + 1 <==> regions[j].contains(p));
            }
        }
    }
}

/// Every pixel that carries a label belongs to one of the objects made from instances.
pub proof fn law_every_instance_pixel_is_listed(
    labels: Seq<usize>,
    objects: Seq<Object>,
    regions: Seq<Set<int>>,
    w: int,
    p: int,
)
    requires
        labels_regions(labels, regions),
        lists_regions(objects, w, regions),
        0 <= p < labels.len(),
        labels[p] != 0,
    ensures
        exists|i: int| 0 <= i < objects.len() && #[trigger] objects[i].label == labels[p],
{
    lemma_labels_cover(objects, labels[p] as int);
}

/// Whether no two instances show one pixel.
pub open spec fn disjoint(instances: Seq<Vec<bool>>, n: int) -> bool {
    forall|a: int, b: int, p: int|
        0 <= a < b < instances.len() && 0 <= p < n ==> !(#[trigger] instances[a]@[p]
            && #[trigger] instances[b]@[p])
}

/// Instances that share no pixel stay distinct, even where they touch: each that is large enough
/// is a region of its own, and they keep their order.
pub proof fn law_disjoint_instances_stay_distinct(
    instances: Seq<Vec<bool>>,
    n: int,
    min_area: int,
    k: int,
)
    requires
        disjoint(instances, n),
        0 <= k <= instances.len(),
        forall|m: int|
            0 <= m < instances.len() ==> (#[trigger] shown(instances[m]@, n)).len() >= 1 && shown(
                instances[m]@,
                n,
            ).len() >= min_area,
    ensures
        instance_regions(instances, n, min_area, k) == Seq::new(
            k as nat,
            |m: int| shown(instances[m]@, n),
        ),
    decreases k,
{
    if k > 0 {
        law_disjoint_instances_stay_distinct(instances, n, min_area, k - 1);
        let earlier = instance_regions(instances, n, min_area, k - 1);
        let own = shown(instances[k - 1]@, n);
        assert(claim(instances[k - 1]@, n, earlier) =~= own) by {
            assert forall|p: int| own.contains(p) implies claim(
                instances[k - 1]@,
                n,
                earlier,
            ).contains(p) by {
                assert forall|j: int| 0 <= j < earlier.len() implies !(
                #[trigger] earlier[j]).contains(p) by {
                    assert(!(instances[j]@[p] && instances[k - 1]@[p]));
                }
            }
        }
        assert(own.len() >= 1);
    }
    assert(instance_regions(instances, n, min_area, k) =~= Seq::new(
        k as nat,
        |m: int| shown(instances[m]@, n),
    ));
}

} // verus!
