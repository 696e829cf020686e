//! Foreground extraction: turning model output into a label map of objects.
use crate::components::{
    connected_components, instance_regions, kept_regions, labels_components, labels_regions,
    lists_regions, objects_from_instances, Object,
};
use crate::graph::{
    closed_under, lemma_closed_holds_reach, lemma_reach_self, lemma_reach_step,
    lemma_root, lemma_same_root, piece, reachable, root_of, symmetric,
};
use crate::imaging::{nearest_resized, resizable, resize_nearest};
use crate::raster::{GrayImage, RgbaImage};
use vstd::prelude::*;

verus! {

/// The pixels whose value is at least `cutoff`.
pub open spec fn at_least(values: Seq<u8>, cutoff: u8) -> Seq<bool> {
    values.map_values(|v: u8| v >= cutoff)
}

/// Binary foreground from a mask: the pixels whose value is at least `cutoff`.
pub fn threshold(values: &[u8], cutoff: u8) -> (fg: Vec<bool>)
    ensures
        fg@ == at_least(values@, cutoff),
{
    let mut fg: Vec<bool> = Vec::new();
    let mut i: usize = 0;
    while i < values.len()
        invariant
            i <= values@.len(),
            fg@ == at_least(values@.subrange(0, i as int), cutoff),
        decreases values@.len() - i,
    {
        fg.push(values[i] >= cutoff);
        i = i + 1;
        assert(fg@ =~= at_least(values@.subrange(0, i as int), cutoff));
    }
    assert(values@.subrange(0, i as int) =~= values@);
    fg
}

/// The foreground of a mask at `w` by `h` pixels.
pub open spec fn fg_of(mask: GrayImage, w: u32, h: u32) -> Seq<bool> {
    at_least(
        if mask.width == w && mask.height == h {
            mask.pixels@
        } else {
            nearest_resized(
                mask.pixels@,
                mask.width as int,
                mask.height as int,
                w as int,
                h as int,
            )
        },
        128,
    )
}

/// Rasterize a mask to a `w * h` foreground bitmap, resizing (nearest-neighbour) if the model
/// returned it at a different resolution.
pub fn mask_to_fg(mask: &GrayImage, w: u32, h: u32) -> (fg: Vec<bool>)
    requires
        mask.wf(),
        (mask.width == w && mask.height == h) || resizable(
            mask.width as int,
            mask.height as int,
            w as int,
            h as int,
            1,
        ),
    ensures
        fg@.len() == w * h,
        fg@ == fg_of(*mask, w, h),
{
    if mask.width == w && mask.height == h {
        return threshold(mask.pixels.as_slice(), 128);
    }
    let resized = resize_nearest(mask, w, h);
    threshold(resized.pixels.as_slice(), 128)
}

/// Whether some mask sets pixel `p`.
pub open spec fn any_sets(masks: Seq<Vec<bool>>, p: int) -> bool {
    exists|m: int| 0 <= m < masks.len() && sets(masks, m, p)
}

/// Whether mask `m` reaches to pixel `p` and sets it.
pub open spec fn sets(masks: Seq<Vec<bool>>, m: int, p: int) -> bool {
    p < masks[m]@.len() && masks[m]@[p]
}

/// Sets the pixels of `mask` in `merged`, as far as both reach.
fn unite(merged: &mut Vec<bool>, mask: &Vec<bool>)
    ensures
        final(merged)@.len() == old(merged)@.len(),
        forall|p: int|
            0 <= p < old(merged)@.len() ==> #[trigger] final(merged)@[p] == (old(merged)@[p] || (p
                < mask@.len() && mask@[p])),
{
    let ghost before = merged@;
    let mut i: usize = 0;
    while i < merged.len() && i < mask.len()
        invariant
            merged@.len() == before.len(),
            i <= merged@.len(),
            forall|p: int|
                0 <= p < before.len() ==> #[trigger] merged@[p] == (before[p] || (p < i && p
                    < mask@.len() && mask@[p])),
            i <= mask@.len(),
        decreases merged@.len() - i,
    {
        if mask[i] {
            merged.set(i, true);
        }
        i = i + 1;
    }
}

/// The foreground that is left when everything some mask sets is background: of `n` pixels, those
/// that no mask sets.
pub fn invert_background(masks: &Vec<Vec<bool>>, n: usize) -> (fg: Vec<bool>)
    ensures
        fg@.len() == n,
        forall|p: int| 0 <= p < n ==> #[trigger] fg@[p] == !any_sets(masks@, p),
{
    let mut background: Vec<bool> = vec![false; n];
    let mut m: usize = 0;
    while m < masks.len()
        invariant
            m <= masks@.len(),
            background@.len() == n,
            forall|p: int|
                0 <= p < n ==> #[trigger] background@[p] == any_sets(
                    masks@.subrange(0, m as int),
                    p,
                ),
        decreases masks@.len() - m,
    {
        let ghost before = background@;
        unite(&mut background, &masks[m]);
        proof {
            let earlier = masks@.subrange(0, m as int);
            let now = masks@.subrange(0, m + 1);
            assert forall|p: int| 0 <= p < n implies #[trigger] background@[p] == any_sets(
                now,
                p,
            ) by {
                if any_sets(earlier, p) {
                    let k = choose|k: int| 0 <= k < earlier.len() && sets(earlier, k, p);
                    assert(sets(now, k, p));
                }
                if any_sets(now, p) {
                    let k = choose|k: int| 0 <= k < now.len() && sets(now, k, p);
                    if k < m {
                        assert(sets(earlier, k, p));
                    }
                }
                if sets(masks@, m as int, p) {
                    assert(sets(now, m as int, p));
                }
            }
        }
        m = m + 1;
    }
    assert(masks@.subrange(0, m as int) =~= masks@);
    let mut fg: Vec<bool> = Vec::new();
    let mut i: usize = 0;
    while i < n
        invariant
            i <= n == background@.len(),
            fg@.len() == i,
            forall|p: int| 0 <= p < n ==> #[trigger] background@[p] == any_sets(masks@, p),
            forall|p: int| 0 <= p < i ==> #[trigger] fg@[p] == !any_sets(masks@, p),
        decreases n - i,
    {
        fg.push(!background[i]);
        i = i + 1;
    }
    fg
}

/// How many of the first `upto` pixels are set in both `a` and `b`.
pub open spec fn both_set(a: Seq<bool>, b: Seq<bool>, upto: int) -> nat
    decreases upto,
{
    if upto <= 0 {
        0
    } else {
        both_set(a, b, upto - 1) + if a[upto - 1] && b[upto - 1] {
            1nat
        } else {
            0
        }
    }
}

/// How many of the first `upto` pixels are set in `a` or `b`.
pub open spec fn either_set(a: Seq<bool>, b: Seq<bool>, upto: int) -> nat
    decreases upto,
{
    if upto <= 0 {
        0
    } else {
        either_set(a, b, upto - 1) + if a[upto - 1] || b[upto - 1] {
            1nat
        } else {
            0
        }
    }
}

/// The length that two bitmaps share.
pub open spec fn shared_len(a: Seq<bool>, b: Seq<bool>) -> int {
    if a.len() < b.len() {
        a.len() as int
    } else {
        b.len() as int
    }
}

/// The sizes of the intersection and of the union of two bitmaps, over the length they share.
/// Their ratio is the intersection-over-union, which is zero where the union is empty.
pub fn iou_counts(a: &[bool], b: &[bool]) -> (r: (usize, usize))
    ensures
        r.0 == both_set(a@, b@, shared_len(a@, b@)),
        r.1 == either_set(a@, b@, shared_len(a@, b@)),
        r.0 <= r.1 <= shared_len(a@, b@),
{
    let n: usize = if a.len() < b.len() { a.len() } else { b.len() };
    let mut intersection: usize = 0;
    let mut union: usize = 0;
    let mut i: usize = 0;
    while i < n
        invariant
            i <= n <= a@.len(),
            n <= b@.len(),
            intersection == both_set(a@, b@, i as int),
            union == either_set(a@, b@, i as int),
            intersection <= union <= i,
        decreases n - i,
    {
        if a[i] && b[i] {
            intersection = intersection + 1;
        }
        if a[i] || b[i] {
            union = union + 1;
        }
        i = i + 1;
    }
    (intersection, union)
}

/// Whether masks `i` and `j` are to be merged directly: `linked` says so in the row of the earlier
/// one.
pub open spec fn overlaps(linked: Seq<Vec<bool>>) -> spec_fn(int, int) -> bool {
    |i: int, j: int|
        0 <= i < linked.len() && 0 <= j < linked.len() && ((i < j && linked[i]@[j]) || (j < i
            && linked[j]@[i]))
}

/// Whether `linked` has a row of `n` entries for each of `n` masks.
pub open spec fn links_pairs(linked: Seq<Vec<bool>>, n: int) -> bool {
    &&& linked.len() == n
    &&& forall|i: int| 0 <= i < n ==> (#[trigger] linked[i])@.len() == n
}

/// The first members, below `upto`, of the groups of masks that overlap directly or through
/// others.
pub open spec fn group_roots(linked: Seq<Vec<bool>>, upto: int) -> Seq<int>
    decreases upto,
{
    if upto <= 0 {
        Seq::empty()
    } else {
        let earlier = group_roots(linked, upto - 1);
        if root_of(overlaps(linked), upto - 1) == upto - 1 {
            earlier.push(upto - 1)
        } else {
            earlier
        }
    }
}

/// Whether `merged` is the union of the masks of one group, `len` pixels long.
pub open spec fn is_union(merged: Seq<bool>, masks: Seq<Vec<bool>>, group: Set<int>, len: int) -> bool {
    &&& merged.len() == len
    &&& forall|p: int|
        0 <= p < len ==> #[trigger] merged[p] == exists|m: int|
            group.contains(m) && #[trigger] sets(masks, m, p)
}

/// Whether `out` holds the union of each group whose first member is below `upto`, in the order of
/// their first members.
pub open spec fn unions(
    out: Seq<Vec<bool>>,
    masks: Seq<Vec<bool>>,
    linked: Seq<Vec<bool>>,
    upto: int,
    len: int,
) -> bool {
    let roots = group_roots(linked, upto);
    &&& out.len() == roots.len()
    &&& forall|k: int|
        0 <= k < out.len() ==> is_union(
            (#[trigger] out[k])@,
            masks,
            piece(overlaps(linked), linked.len() as int, roots[k]),
            len,
        )
}

proof fn lemma_overlaps_symmetric(linked: Seq<Vec<bool>>)
    ensures
        symmetric(overlaps(linked)),
{
}

fn is_linked(linked: &Vec<Vec<bool>>, i: usize, j: usize) -> (r: bool)
    requires
        links_pairs(linked@, linked@.len() as int),
        i < linked@.len(),
        j < linked@.len(),
    ensures
        r == overlaps(linked@)(i as int, j as int),
{
    if i < j {
        linked[i][j]
    } else if j < i {
        linked[j][i]
    } else {
        false
    }
}

/// How many entries of `visited` are unset.
spec fn unvisited(visited: Seq<bool>) -> int {
    visited.filter(|v: bool| !v).len() as int
}

proof fn lemma_visit_one(visited: Seq<bool>, k: int)
    requires
        0 <= k < visited.len(),
        !visited[k],
    ensures
        unvisited(visited.update(k, true)) < unvisited(visited),
{
    let open = |v: bool| !v;
    let before = visited.subrange(0, k);
    let after = visited.subrange(k + 1, visited.len() as int);
    assert(visited =~= before + seq![false] + after);
    assert(visited.update(k, true) =~= before + seq![true] + after);
    Seq::filter_distributes_over_add(before + seq![false], after, open);
    Seq::filter_distributes_over_add(before, seq![false], open);
    Seq::filter_distributes_over_add(before + seq![true], after, open);
    Seq::filter_distributes_over_add(before, seq![true], open);
    reveal(Seq::filter);
    assert(seq![false].drop_last() =~= Seq::<bool>::empty());
    assert(seq![true].drop_last() =~= Seq::<bool>::empty());
    assert(seq![false].filter(open).len() == 1);
    assert(seq![true].filter(open).len() == 0);
}

/// Unites the masks of the group of `start`, none of which was visited, and visits them.
fn merge_group(
    masks: &Vec<Vec<bool>>,
    linked: &Vec<Vec<bool>>,
    visited: &mut Vec<bool>,
    start: usize,
    len: usize,
) -> (merged: Vec<bool>)
    requires
        links_pairs(linked@, masks@.len() as int),
        old(visited)@.len() == masks@.len(),
        start < masks@.len(),
        forall|q: int|
            0 <= q < masks@.len() && #[trigger] reachable(overlaps(linked@), start as int, q)
                ==> !old(visited)@[q],
    ensures
        final(visited)@.len() == masks@.len(),
        forall|q: int|
            0 <= q < masks@.len() ==> #[trigger] final(visited)@[q] == (old(visited)@[q]
                || reachable(overlaps(linked@), start as int, q)),
        is_union(
            merged@,
            masks@,
            piece(overlaps(linked@), masks@.len() as int, start as int),
            len as int,
        ),
{
    let n: usize = masks.len();
    let ghost adj = overlaps(linked@);
    let ghost before = visited@;
    let ghost mut done = Set::<int>::empty();
    let mut merged: Vec<bool> = vec![false; len];
    let mut stack: Vec<usize> = vec![start];
    proof {
        lemma_reach_self(adj, start as int);
        assert(stack@[0] == start);
    }
    while stack.len() > 0
        invariant
            n == masks@.len() == visited@.len() == before.len(),
            links_pairs(linked@, n as int),
            adj == overlaps(linked@),
            start < n,
            forall|q: int|
                0 <= q < n && #[trigger] reachable(adj, start as int, q) ==> !before[q],
            forall|i: int|
                0 <= i < stack@.len() ==> (#[trigger] stack@[i]) < n && reachable(
                    adj,
                    start as int,
                    stack@[i] as int,
                ),
            forall|q: int| #[trigger]
                done.contains(q) ==> 0 <= q < n && reachable(adj, start as int, q),
            forall|q: int|
                0 <= q < n ==> #[trigger] visited@[q] == (before[q] || done.contains(q)),
            forall|a: int, b: int|
                done.contains(a) && #[trigger] adj(a, b) ==> done.contains(b) || stack@.contains(
                    b as usize,
                ),
            done.contains(start as int) || stack@.contains(start),
            is_union(merged@, masks@, done, len as int),
        decreases unvisited(visited@), stack@.len(),
    {
        let ghost waiting = stack@;
        let k: usize = stack.pop().unwrap();
        proof {
            assert(waiting[waiting.len() - 1] == k);
            assert(forall|v: usize| waiting.contains(v) && v != k ==> stack@.contains(v)) by {
                assert forall|v: usize| waiting.contains(v) && v != k implies stack@.contains(v) by {
                    let i = choose|i: int| 0 <= i < waiting.len() && waiting[i] == v;
                    assert(stack@[i] == v);
                }
            }
        }
        if !visited[k] {
            let ghost seen = visited@;
            let ghost held = merged@;
            proof {
                lemma_visit_one(visited@, k as int);
            }
            visited.set(k, true);
            unite(&mut merged, &masks[k]);
            let ghost grown = done.insert(k as int);
            proof {
                assert forall|p: int| 0 <= p < len implies #[trigger] merged@[p] == exists|m: int|
                    grown.contains(m) && #[trigger] sets(masks@, m, p) by {
                    if held[p] {
                        let m = choose|m: int| done.contains(m) && #[trigger] sets(masks@, m, p);
                        assert(grown.contains(m) && sets(masks@, m, p));
                    }
                    if sets(masks@, k as int, p) {
                        assert(grown.contains(k as int));
                    }
                    if exists|m: int| grown.contains(m) && #[trigger] sets(masks@, m, p) {
                        let m = choose|m: int| grown.contains(m) && #[trigger] sets(masks@, m, p);
                        if m != k {
                            assert(done.contains(m) && sets(masks@, m, p));
                        }
                    }
                }
            }
            let mut next: usize = 0;
            let ghost rest = stack@;
            while next < n
                invariant
                    n == masks@.len() == visited@.len() == before.len(),
                    links_pairs(linked@, n as int),
                    adj == overlaps(linked@),
                    k < n,
                    next <= n,
                    reachable(adj, start as int, k as int),
                    rest.len() <= stack@.len(),
                    forall|i: int| 0 <= i < rest.len() ==> stack@[i] == rest[i],
                    forall|i: int|
                        0 <= i < stack@.len() ==> (#[trigger] stack@[i]) < n && reachable(
                            adj,
                            start as int,
                            stack@[i] as int,
                        ),
                    forall|b: int|
                        0 <= b < next && #[trigger] adj(k as int, b) && !visited@[b]
                            ==> stack@.contains(b as usize),
                decreases n - next,
            {
                if is_linked(linked, k, next) && !visited[next] {
                    proof {
                        lemma_reach_step(adj, start as int, k as int, next as int);
                    }
                    let ghost old_stack = stack@;
                    stack.push(next);
                    proof {
                        assert(stack@[old_stack.len() as int] == next);
                        assert forall|b: int|
                            0 <= b < next + 1 && #[trigger] adj(k as int, b) && !visited@[b]
                            implies stack@.contains(b as usize) by {
                            if b < next {
                                let i = choose|i: int|
                                    0 <= i < old_stack.len() && old_stack[i] == b as usize;
                                assert(stack@[i] == b as usize);
                            }
                        }
                    }
                }
                next = next + 1;
            }
            proof {
                assert forall|a: int, b: int| grown.contains(a) && #[trigger] adj(a, b) implies {
                    grown.contains(b) || stack@.contains(b as usize)
                } by {
                    if a == k {
                        if visited@[b] && !grown.contains(b) {
                            lemma_reach_step(adj, start as int, a, b);
                        }
                    } else if !grown.contains(b) {
                        let i = choose|i: int| 0 <= i < rest.len() && rest[i] == b as usize;
                        assert(stack@[i] == b as usize);
                    }
                }
                if start != k && !done.contains(start as int) {
                    let i = choose|i: int| 0 <= i < rest.len() && rest[i] == start;
                    assert(stack@[i] == start);
                }
                done = grown;
            }
        } else {
            proof {
                lemma_reach_self(adj, start as int);
                assert(done.contains(k as int));
            }
        }
    }
    proof {
        let group = piece(adj, n as int, start as int);
        assert(closed_under(adj, done)) by {
            assert forall|a: int, b: int| done.contains(a) && #[trigger] adj(a, b) implies done.contains(
                b,
            ) by {
                assert(!stack@.contains(b as usize));
            }
        }
        assert(!stack@.contains(start));
        assert forall|q: int| group.contains(q) implies done.contains(q) by {
            lemma_closed_holds_reach(adj, done, start as int, q);
        }
        assert(done =~= group);
    }
    merged
}

/// Merge masks that overlap by unioning each connected group. Returns one mask per group, in the
/// order of the first mask of each group and as long as the first mask.
///
/// Masks `i < j` are taken to overlap where `linked[i][j]` is set.
pub fn iou_merge(masks: &Vec<Vec<bool>>, linked: &Vec<Vec<bool>>) -> (out: Vec<Vec<bool>>)
    requires
        links_pairs(linked@, masks@.len() as int),
    ensures
        masks@.len() == 0 ==> out@.len() == 0,
        masks@.len() > 0 ==> unions(
            out@,
            masks@,
            linked@,
            masks@.len() as int,
            masks@[0]@.len() as int,
        ),
{
    let n: usize = masks.len();
    let mut out: Vec<Vec<bool>> = Vec::new();
    if n == 0 {
        return out;
    }
    let len: usize = masks[0].len();
    let ghost adj = overlaps(linked@);
    let mut visited: Vec<bool> = vec![false; n];
    let mut start: usize = 0;
    proof {
        lemma_overlaps_symmetric(linked@);
        assert forall|q: int| 0 <= q < n implies #[trigger] root_of(adj, q) >= 0 by {
            lemma_root(adj, q);
        }
    }
    while start < n
        invariant
            n == masks@.len() == visited@.len(),
            links_pairs(linked@, n as int),
            adj == overlaps(linked@),
            symmetric(adj),
            start <= n,
            forall|q: int| 0 <= q < n ==> #[trigger] visited@[q] == (root_of(adj, q) < start),
            unions(out@, masks@, linked@, start as int, len as int),
        decreases n - start,
    {
        let ghost seen = visited@;
        let ghost made = out@;
        proof {
            lemma_root(adj, start as int);
        }
        if !visited[start] {
            proof {
                assert forall|q: int|
                    0 <= q < n && #[trigger] reachable(adj, start as int, q) implies !seen[q] by {
                    lemma_same_root(adj, start as int, q);
                }
            }
            let merged = merge_group(masks, linked, &mut visited, start, len);
            out.push(merged);
            proof {
                assert forall|k: int| 0 <= k < out@.len() implies is_union(
                    (#[trigger] out@[k])@,
                    masks@,
                    piece(adj, n as int, group_roots(linked@, start + 1)[k]),
                    len as int,
                ) by {
                    if k < made.len() {
                        assert(out@[k] == made[k]);
                    }
                }
            }
        }
        proof {
            assert forall|q: int| 0 <= q < n implies #[trigger] visited@[q] == (root_of(adj, q) < start
                + 1) by {
                assert(seen[q] == (root_of(adj, q) < start));
                lemma_root(adj, q);
                lemma_root(adj, start as int);
                lemma_same_root(adj, start as int, q);
            }
        }
        start = start + 1;
    }
    proof {
        assert forall|q: int| 0 <= q < n implies root_of(adj, q) < n by {
            lemma_root(adj, q);
        }
    }
    out
}

/// The output of an extraction: the source pixels at model resolution plus a per-pixel label map
/// (0 = background) and its objects, sorted largest-first.
pub struct Extraction {
    pub src: RgbaImage,
    pub width: u32,
    pub height: u32,
    pub labels: Vec<usize>,
    pub objects: Vec<Object>,
}

/// Why no objects can be extracted.
#[derive(Clone, Copy, Debug, PartialEq, Eq, Structural)]
pub enum ExtractError {
    /// The mask has another number of pixels than the image.
    MaskSize { len: usize, width: u32, height: u32 },
}

impl Extraction {
    /// Whether the source is `src`, whole.
    pub open spec fn shows(&self, src: RgbaImage) -> bool {
        self.src == src && self.width == src.width && self.height == src.height
    }

    /// Whether the labels and objects are those of the 8-connected regions of `fg`.
    pub open spec fn splits(&self, fg: Seq<bool>, min_area: int) -> bool {
        let n = self.width * self.height;
        &&& fg.len() == n
        &&& labels_components(self.labels@, fg, self.width as int, n, min_area)
        &&& lists_regions(
            self.objects@,
            self.width as int,
            kept_regions(fg, self.width as int, n, min_area),
        )
    }
}

fn split(src: RgbaImage, fg: &Vec<bool>, min_area: usize) -> (r: Extraction)
    requires
        src.wf(),
        fg@.len() == src.width * src.height,
    ensures
        r.shows(src),
        r.splits(fg@, min_area as int),
{
    let (labels, objects) = connected_components(
        fg.as_slice(),
        src.width as usize,
        src.height as usize,
        min_area,
    );
    let (width, height) = (src.width, src.height);
    Extraction { src, width, height, labels, objects }
}

/// A single alpha mask thresholded to a binary foreground, split into objects by connected
/// components.
pub fn extract_alpha(src: RgbaImage, alpha: &[u8], cutoff: u8, min_area: usize) -> (r: Result<
    Extraction,
    ExtractError,
>)
    requires
        src.wf(),
    ensures
        r matches Ok(e) ==> alpha@.len() == src.width * src.height && e.shows(src) && e.splits(
            at_least(alpha@, cutoff),
            min_area as int,
        ),
        r matches Err(e) ==> alpha@.len() != src.width * src.height && e == (ExtractError::MaskSize {
            len: alpha@.len() as usize,
            width: src.width,
            height: src.height,
        }),
{
    if alpha.len() != src.pixels.len() {
        return Err(
            ExtractError::MaskSize { len: alpha.len(), width: src.width, height: src.height },
        );
    }
    let fg = threshold(alpha, cutoff);
    Ok(split(src, &fg, min_area))
}

/// Whether each mask is whole and has `w` by `h` pixels or can be brought to them.
pub open spec fn fit_for(masks: Seq<GrayImage>, w: u32, h: u32) -> bool {
    forall|m: int|
        0 <= m < masks.len() ==> (#[trigger] masks[m]).wf() && ((masks[m].width == w
            && masks[m].height == h) || resizable(
            masks[m].width as int,
            masks[m].height as int,
            w as int,
            h as int,
            1,
        ))
}

/// The foreground of each mask at `w` by `h` pixels.
pub fn masks_to_fg(masks: &Vec<GrayImage>, w: u32, h: u32) -> (out: Vec<Vec<bool>>)
    requires
        fit_for(masks@, w, h),
    ensures
        out@.len() == masks@.len(),
        forall|m: int|
            0 <= m < masks@.len() ==> (#[trigger] out@[m])@ == fg_of(masks@[m], w, h)
                && out@[m]@.len() == w * h,
{
    let mut out: Vec<Vec<bool>> = Vec::new();
    let mut m: usize = 0;
    while m < masks.len()
        invariant
            fit_for(masks@, w, h),
            m <= masks@.len(),
            out@.len() == m,
            forall|k: int|
                0 <= k < m ==> (#[trigger] out@[k])@ == fg_of(masks@[k], w, h) && out@[k]@.len()
                    == w * h,
        decreases masks@.len() - m,
    {
        assert(masks@[m as int].wf());
        out.push(mask_to_fg(&masks[m], w, h));
        m = m + 1;
    }
    out
}

/// Of `w` by `h` pixels, those that no mask shows.
pub open spec fn left_by(masks: Seq<GrayImage>, w: u32, h: u32) -> Seq<bool> {
    Seq::new(
        (w * h) as nat,
        |p: int|
            !(exists|m: int| 0 <= m < masks.len() && #[trigger] fg_of(masks[m], w, h)[p]),
    )
}

/// Background inversion: the union of the background masks, inverted to get the foreground, then
/// split by connected components.
pub fn extract_background(src: RgbaImage, masks: &Vec<GrayImage>, min_area: usize) -> (r: Extraction)
    requires
        src.wf(),
        fit_for(masks@, src.width, src.height),
    ensures
        r.shows(src),
        r.splits(left_by(masks@, src.width, src.height), min_area as int),
{
    let shown = masks_to_fg(masks, src.width, src.height);
    let fg = invert_background(&shown, src.pixels.len());
    proof {
        let left = left_by(masks@, src.width, src.height);
        assert forall|p: int| 0 <= p < fg@.len() implies #[trigger] fg@[p] == left[p] by {
            if any_sets(shown@, p) {
                let m = choose|m: int| 0 <= m < shown@.len() && sets(shown@, m, p);
                assert(fg_of(masks@[m], src.width, src.height)[p]);
            }
            if exists|m: int|
                0 <= m < masks@.len() && #[trigger] fg_of(masks@[m], src.width, src.height)[p] {
                let m = choose|m: int|
                    0 <= m < masks@.len() && #[trigger] fg_of(masks@[m], src.width, src.height)[p];
                assert(sets(shown@, m, p));
            }
        }
        assert(fg@ =~= left);
    }
    split(src, &fg, min_area)
}

/// Multi-prompt foreground: overlapping detections merged, each group of them one object.
pub fn extract_instances(
    src: RgbaImage,
    instances: &Vec<Vec<bool>>,
    linked: &Vec<Vec<bool>>,
    min_area: usize,
) -> (r: Extraction)
    requires
        src.wf(),
        links_pairs(linked@, instances@.len() as int),
        forall|k: int|
            0 <= k < instances@.len() ==> (#[trigger] instances@[k])@.len() == src.width
                * src.height,
    ensures
        r.shows(src),
        r.labels@.len() == src.width * src.height,
        exists|merged: Seq<Vec<bool>>|
            {
                let regions = instance_regions(
                    merged,
                    src.width * src.height,
                    min_area as int,
                    merged.len() as int,
                );
                &&& #[trigger] unions(
                    merged,
                    instances@,
                    linked@,
                    instances@.len() as int,
                    src.width * src.height,
                )
                &&& labels_regions(r.labels@, regions)
                &&& lists_regions(r.objects@, src.width as int, regions)
            },
{
    let total: usize = src.pixels.len();
    let merged = iou_merge(instances, linked);
    proof {
        assert forall|k: int| 0 <= k < merged@.len() implies (#[trigger] merged@[k])@.len()
            >= src.width * src.height by {
            assert(instances@[0]@.len() == src.width * src.height);
        }
        if instances@.len() > 0 {
            assert(instances@[0]@.len() == src.width * src.height);
        }
    }
    let (labels, objects) = objects_from_instances(
        merged.as_slice(),
        src.width as usize,
        src.height as usize,
        min_area,
    );
    let (width, height) = (src.width, src.height);
    Extraction { src, width, height, labels, objects }
}

} // verus!
