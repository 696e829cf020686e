//! What holds of output formats, output names and merged masks.
use crate::extract::{both_set, group_roots, is_union, overlaps, sets, unions};
use crate::formats::{has_alpha, lossy};
use crate::graph::{
    closed_under, lemma_closed_holds_reach, lemma_reach_edge, lemma_reach_self, lemma_root,
    lemma_root_of_root, lemma_same_root, piece, reachable, root_of, symmetric,
};
use crate::output::{aligned, resolved};
use crate::paths::{
    extension_text, law_parts_are_found_again, lemma_numbered_differ, lemma_parsed_rendered, rendered, stem_or_output,
    suffixed, suffixed_parts, PathParts,
};
use crate::text::{begins_with, decimal_of};
use image::ImageFormat;
use vstd::prelude::*;

verus! {

/// Nothing is recompressed unless the user opted in, alpha output has an alpha channel, and a
/// format that meets both is kept.
pub proof fn law_format_is_fit(format: ImageFormat, alpha: bool, allow_lossy: bool)
    ensures
        lossy(resolved(format, alpha, allow_lossy)) ==> allow_lossy,
        alpha ==> has_alpha(resolved(format, alpha, allow_lossy)),
        (allow_lossy || !lossy(format)) && (alpha ==> has_alpha(format)) ==> resolved(
            format,
            alpha,
            allow_lossy,
        ) == format,
{
}

/// The objects of one input get different paths in one directory.
pub proof fn law_object_paths_differ(base: PathParts, i: int, j: int)
    requires
        0 <= i,
        0 <= j,
        i != j,
    ensures
        suffixed_parts(base, "_"@ + decimal_of(i)).0 == suffixed_parts(base, "_"@ + decimal_of(j)).0,
        suffixed_parts(base, "_"@ + decimal_of(i)).1 != suffixed_parts(base, "_"@ + decimal_of(j)).1,
{
    let (stem, ext) = (stem_or_output(base), extension_text(base));
    lemma_numbered_differ(stem, ext, i, j);
    lemma_parsed_rendered(suffixed(stem, "_"@ + decimal_of(i), ext));
    lemma_parsed_rendered(suffixed(stem, "_"@ + decimal_of(j), ext));
}

/// A suffix goes behind the stem and leaves the extension of the file name as it is.
pub proof fn law_suffix_keeps_extension(
    parent: Seq<char>,
    stem: Seq<char>,
    ext: Seq<char>,
    suffix: Seq<char>,
)
    requires
        stem.len() > 0,
        forall|i: int| 0 <= i < ext.len() ==> ext[i] != '.',
    ensures
        suffixed_parts((parent, Some((Some(stem), Some(Some(ext))))), suffix) == (
            parent,
            Some((Some(stem + suffix), Some(Some(ext)))),
        ),
{
    law_parts_are_found_again(stem + suffix, ext);
}

/// Aligning the extension keeps the directory and the stem.
pub proof fn law_alignment_keeps_stem(
    base: PathParts,
    format: ImageFormat,
    alpha: bool,
    allow_lossy: bool,
)
    ensures
        aligned(base, format, alpha, allow_lossy).0 == base.0,
        stem_or_output(aligned(base, format, alpha, allow_lossy)) == stem_or_output(base),
        aligned(base, format, alpha, allow_lossy).1 is Some == base.1 is Some,
{
}

/// The output of each object of an input whose stem is Unicode is recognised as such later: its
/// file name begins with the stem and an underscore.
pub proof fn law_outputs_are_recognised(
    input: PathParts,
    dir: Seq<char>,
    format: ImageFormat,
    alpha: bool,
    allow_lossy: bool,
    idx: int,
    stem: Seq<char>,
)
    requires
        input.1 matches Some((Some(s), _)) && s == stem,
    ensures
        ({
            let base = aligned((dir, input.1), format, alpha, allow_lossy);
            let path = suffixed_parts(base, "_"@ + decimal_of(idx));
            &&& path.0 == dir
            &&& path.1 matches Some(name) && rendered(name) matches Some(text) && begins_with(
                text,
                stem + "_"@,
            )
        }),
{
    let base = aligned((dir, input.1), format, alpha, allow_lossy);
    let text = suffixed(stem_or_output(base), "_"@ + decimal_of(idx), extension_text(base));
    lemma_parsed_rendered(text);
    let prefix = stem + "_"@;
    assert(text.subrange(0, prefix.len() as int) =~= prefix);
}

/// Each first member of a group stands among them.
pub proof fn lemma_group_root_place(linked: Seq<Vec<bool>>, r: int, upto: int) -> (k: int)
    requires
        0 <= r < upto,
        root_of(overlaps(linked), r) == r,
    ensures
        0 <= k < group_roots(linked, upto).len(),
        group_roots(linked, upto)[k] == r,
    decreases upto,
{
    if r == upto - 1 {
        group_roots(linked, upto - 1).len() as int
    } else {
        lemma_group_root_place(linked, r, upto - 1)
    }
}

/// Merging loses no pixel: what a mask sets, within the length that is kept, one of the merged
/// masks sets.
pub proof fn law_merge_keeps_pixels(
    out: Seq<Vec<bool>>,
    masks: Seq<Vec<bool>>,
    linked: Seq<Vec<bool>>,
    len: int,
    m: int,
    p: int,
)
    requires
        linked.len() == masks.len(),
        unions(out, masks, linked, masks.len() as int, len),
        0 <= m < masks.len(),
        0 <= p < len,
        sets(masks, m, p),
    ensures
        exists|k: int| 0 <= k < out.len() && (#[trigger] out[k])@[p],
{
    let adj = overlaps(linked);
    let n = masks.len() as int;
    let r = root_of(adj, m);
    lemma_root(adj, m);
    lemma_root_of_root(adj, m);
    let k = lemma_group_root_place(linked, r, n);
    let group = piece(adj, n, r);
    assert(is_union(out[k]@, masks, group, len));
    assert(group.contains(m) && sets(masks, m, p));
    assert(out[k]@[p]);
}

/// Merging adds no pixel: what a merged mask sets, some mask sets.
pub proof fn law_merge_adds_no_pixels(
    out: Seq<Vec<bool>>,
    masks: Seq<Vec<bool>>,
    linked: Seq<Vec<bool>>,
    len: int,
    k: int,
    p: int,
)
    requires
        linked.len() == masks.len(),
        unions(out, masks, linked, masks.len() as int, len),
        0 <= k < out.len(),
        0 <= p < len,
        out[k]@[p],
    ensures
        exists|m: int| 0 <= m < masks.len() && #[trigger] sets(masks, m, p),
{
    let n = masks.len() as int;
    let group = piece(overlaps(linked), n, group_roots(linked, n)[k]);
    assert(is_union(out[k]@, masks, group, len));
    let m = choose|m: int| group.contains(m) && #[trigger] sets(masks, m, p);
    assert(0 <= m < n);
}

/// Whether masks `i` and `j` set one pixel.
pub open spec fn share_pixel(masks: Seq<Vec<bool>>, i: int, j: int) -> bool {
    exists|p: int| 0 <= p && #[trigger] sets(masks, i, p) && sets(masks, j, p)
}

/// Whether `linked` links exactly the masks that share a pixel, as where they are merged at any
/// overlap.
pub open spec fn links_shared(linked: Seq<Vec<bool>>, masks: Seq<Vec<bool>>) -> bool {
    &&& linked.len() == masks.len()
    &&& forall|i: int, j: int|
        0 <= i < j < masks.len() ==> (#[trigger] linked[i]@[j] <==> share_pixel(masks, i, j))
}

/// Two masks overlap at all, that is their intersection is not empty, exactly where they share a
/// pixel.
pub proof fn law_overlap_is_a_shared_pixel(a: Seq<bool>, b: Seq<bool>, upto: int)
    requires
        0 <= upto <= a.len(),
        upto <= b.len(),
    ensures
        both_set(a, b, upto) > 0 <==> exists|p: int|
            0 <= p < upto && #[trigger] a[p] && #[trigger] b[p],
    decreases upto,
{
    if upto > 0 {
        law_overlap_is_a_shared_pixel(a, b, upto - 1);
        if both_set(a, b, upto - 1) > 0 {
            let p = choose|p: int| 0 <= p < upto - 1 && #[trigger] a[p] && #[trigger] b[p];
            assert(a[p] && b[p]);
        }
        if a[upto - 1] && b[upto - 1] {
            assert(0 <= upto - 1 < upto);
        }
    }
}

/// The first members of groups are their own roots, and different groups have different ones.
pub proof fn lemma_group_roots(linked: Seq<Vec<bool>>, upto: int, j: int)
    requires
        0 <= j < group_roots(linked, upto).len(),
    ensures
        0 <= group_roots(linked, upto)[j] < upto,
        root_of(overlaps(linked), group_roots(linked, upto)[j]) == group_roots(linked, upto)[j],
        forall|k: int|
            0 <= k < j ==> #[trigger] group_roots(linked, upto)[k] < group_roots(linked, upto)[j],
    decreases upto,
{
    if upto > 0 {
        let earlier = group_roots(linked, upto - 1);
        if j < earlier.len() {
            lemma_group_roots(linked, upto - 1, j);
        } else {
            assert forall|k: int| 0 <= k < j implies #[trigger] group_roots(linked, upto)[k]
                < group_roots(linked, upto)[j] by {
                lemma_group_roots(linked, upto - 1, k);
            }
        }
    }
}

/// Merging the masks that share a pixel leaves masks of which no two share one.
pub proof fn law_merge_leaves_disjoint(
    out: Seq<Vec<bool>>,
    masks: Seq<Vec<bool>>,
    linked: Seq<Vec<bool>>,
    len: int,
    j: int,
    k: int,
)
    requires
        links_shared(linked, masks),
        unions(out, masks, linked, masks.len() as int, len),
        0 <= j < k < out.len(),
    ensures
        !share_pixel(out, j, k),
{
    let adj = overlaps(linked);
    let n = masks.len() as int;
    let roots = group_roots(linked, n);
    assert(symmetric(adj));
    assert(is_union(out[j]@, masks, piece(adj, n, roots[j]), len));
    assert(is_union(out[k]@, masks, piece(adj, n, roots[k]), len));
    if share_pixel(out, j, k) {
        let p = choose|p: int| 0 <= p && #[trigger] sets(out, j, p) && sets(out, k, p);
        let a = choose|m: int|
            piece(adj, n, roots[j]).contains(m) && #[trigger] sets(masks, m, p);
        let b = choose|m: int|
            piece(adj, n, roots[k]).contains(m) && #[trigger] sets(masks, m, p);
        lemma_group_roots(linked, n, j);
        lemma_group_roots(linked, n, k);
        lemma_same_root(adj, roots[j], a);
        lemma_same_root(adj, roots[k], b);
        if a != b {
            assert(sets(masks, a, p) && sets(masks, b, p));
            assert(share_pixel(masks, a, b) && share_pixel(masks, b, a));
            if a < b {
                assert(linked[a]@[b]);
            } else {
                assert(linked[b]@[a]);
            }
            assert(adj(a, b));
            lemma_reach_edge(adj, a, b);
            lemma_same_root(adj, a, b);
        }
    }
}

/// Merging once more the masks that merging at any overlap left changes nothing.
pub proof fn law_merge_again_changes_nothing(
    out: Seq<Vec<bool>>,
    masks: Seq<Vec<bool>>,
    linked: Seq<Vec<bool>>,
    len: int,
    again: Seq<Vec<bool>>,
    relinked: Seq<Vec<bool>>,
    k: int,
)
    requires
        links_shared(linked, masks),
        unions(out, masks, linked, masks.len() as int, len),
        links_shared(relinked, out),
        unions(again, out, relinked, out.len() as int, len),
        0 <= k < out.len(),
    ensures
        again.len() == out.len(),
        again[k]@ == out[k]@,
{
    assert forall|a: int, b: int| !#[trigger] overlaps(relinked)(a, b) by {
        if overlaps(relinked)(a, b) {
            if a < b {
                law_merge_leaves_disjoint(out, masks, linked, len, a, b);
            } else {
                law_merge_leaves_disjoint(out, masks, linked, len, b, a);
            }
        }
    }
    assert forall|m: int| 0 <= m < out.len() implies (#[trigger] out[m])@.len() == len by {
        assert(is_union(
            out[m]@,
            masks,
            piece(overlaps(linked), masks.len() as int, group_roots(linked, masks.len() as int)[m]),
            len,
        ));
    }
    law_merge_keeps_separate(again, out, relinked, len, k);
}

/// Masks of which none overlaps another stay as they are.
pub proof fn law_merge_keeps_separate(
    out: Seq<Vec<bool>>,
    masks: Seq<Vec<bool>>,
    linked: Seq<Vec<bool>>,
    len: int,
    k: int,
)
    requires
        linked.len() == masks.len(),
        unions(out, masks, linked, masks.len() as int, len),
        forall|a: int, b: int| !#[trigger] overlaps(linked)(a, b),
        forall|m: int| 0 <= m < masks.len() ==> (#[trigger] masks[m])@.len() == len,
        0 <= k < masks.len(),
    ensures
        out.len() == masks.len(),
        out[k]@ == masks[k]@,
{
    let adj = overlaps(linked);
    let n = masks.len() as int;
    lemma_lone_roots(linked, n);
    assert(piece(adj, n, k) =~= set![k]) by {
        assert forall|q: int| reachable(adj, k, q) implies q == k by {
            assert(closed_under(adj, set![k]));
            lemma_closed_holds_reach(adj, set![k], k, q);
        }
        lemma_reach_self(adj, k);
    }
    assert(is_union(out[k]@, masks, piece(adj, n, k), len));
    assert forall|p: int| 0 <= p < len implies out[k]@[p] == masks[k]@[p] by {
        if masks[k]@[p] {
            assert(set![k].contains(k) && sets(masks, k, p));
        }
        if out[k]@[p] {
            let m = choose|m: int| set![k].contains(m) && #[trigger] sets(masks, m, p);
            assert(m == k);
        }
    }
    assert(out[k]@ =~= masks[k]@);
}

proof fn lemma_lone_roots(linked: Seq<Vec<bool>>, upto: int)
    requires
        forall|a: int, b: int| !#[trigger] overlaps(linked)(a, b),
        0 <= upto,
    ensures
        group_roots(linked, upto) == Seq::new(upto as nat, |i: int| i),
    decreases upto,
{
    let adj = overlaps(linked);
    if upto > 0 {
        lemma_lone_roots(linked, upto - 1);
        let r = root_of(adj, upto - 1);
        lemma_root(adj, upto - 1);
        assert(closed_under(adj, set![r]));
        lemma_closed_holds_reach(adj, set![r], r, upto - 1);
    }
    assert(group_roots(linked, upto) =~= Seq::new(upto as nat, |i: int| i));
}

} // verus!
