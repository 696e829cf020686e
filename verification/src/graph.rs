//! Paths, reachability and connected pieces of a graph whose nodes are integers.
use vstd::prelude::*;
use vstd::set_lib::*;

verus! {

/// A walk along the edges of `adj`: never empty, each node joined to the next.
pub open spec fn is_path(adj: spec_fn(int, int) -> bool, path: Seq<int>) -> bool {
    &&& path.len() > 0
    &&& forall|i: int| 0 <= i < path.len() - 1 ==> adj(#[trigger] path[i], path[i + 1])
}

/// Whether some walk along the edges of `adj` leads from `from` to `to`.
pub open spec fn reachable(adj: spec_fn(int, int) -> bool, from: int, to: int) -> bool {
    exists|path: Seq<int>| #[trigger]
        is_path(adj, path) && path[0] == from && path[path.len() - 1] == to
}

/// Whether every edge of `adj` can be taken both ways.
pub open spec fn symmetric(adj: spec_fn(int, int) -> bool) -> bool {
    forall|a: int, b: int| #[trigger] adj(a, b) ==> adj(b, a)
}

/// Whether no edge of `adj` leads out of `set`.
pub open spec fn closed_under(adj: spec_fn(int, int) -> bool, set: Set<int>) -> bool {
    forall|a: int, b: int| set.contains(a) && #[trigger] adj(a, b) ==> set.contains(b)
}

/// The nodes below `n` that can be reached from `start`.
pub open spec fn piece(adj: spec_fn(int, int) -> bool, n: int, start: int) -> Set<int> {
    Set::new(|q: int| 0 <= q < n && reachable(adj, start, q))
}

/// The first node at or after `from`, and no later than `p`, that reaches `p`.
pub open spec fn first_from(adj: spec_fn(int, int) -> bool, from: int, p: int) -> int
    decreases p - from,
{
    if from >= p || reachable(adj, from, p) {
        from
    } else {
        first_from(adj, from + 1, p)
    }
}

/// The smallest node of the piece that `p` lies in.
pub open spec fn root_of(adj: spec_fn(int, int) -> bool, p: int) -> int {
    first_from(adj, 0, p)
}

/// A node reaches itself.
pub proof fn lemma_reach_self(adj: spec_fn(int, int) -> bool, a: int)
    ensures
        reachable(adj, a, a),
{
    let path = seq![a];
    assert(is_path(adj, path));
}

/// Reachability follows one more edge.
pub proof fn lemma_reach_step(adj: spec_fn(int, int) -> bool, a: int, b: int, c: int)
    requires
        reachable(adj, a, b),
        adj(b, c),
    ensures
        reachable(adj, a, c),
{
    let path = choose|path: Seq<int>| #[trigger]
        is_path(adj, path) && path[0] == a && path[path.len() - 1] == b;
    let longer = path.push(c);
    assert forall|i: int| 0 <= i < longer.len() - 1 implies adj(
        #[trigger] longer[i],
        longer[i + 1],
    ) by {
        if i < path.len() - 1 {
            assert(longer[i] == path[i] && longer[i + 1] == path[i + 1]);
        }
    }
    assert(is_path(adj, longer));
}

/// An edge is a walk.
pub proof fn lemma_reach_edge(adj: spec_fn(int, int) -> bool, a: int, b: int)
    requires
        adj(a, b),
    ensures
        reachable(adj, a, b),
{
    lemma_reach_self(adj, a);
    lemma_reach_step(adj, a, a, b);
}

/// Walks can be joined.
pub proof fn lemma_reach_trans(adj: spec_fn(int, int) -> bool, a: int, b: int, c: int)
    requires
        reachable(adj, a, b),
        reachable(adj, b, c),
    ensures
        reachable(adj, a, c),
{
    let p = choose|path: Seq<int>| #[trigger]
        is_path(adj, path) && path[0] == a && path[path.len() - 1] == b;
    let q = choose|path: Seq<int>| #[trigger]
        is_path(adj, path) && path[0] == b && path[path.len() - 1] == c;
    let both = p + q.subrange(1, q.len() as int);
    assert forall|i: int| 0 <= i < both.len() - 1 implies adj(
        #[trigger] both[i],
        both[i + 1],
    ) by {
        if i < p.len() - 1 {
            assert(both[i] == p[i] && both[i + 1] == p[i + 1]);
        } else {
            let k = i - p.len() + 1;
            assert(both[i] == q[k] && both[i + 1] == q[k + 1]);
        }
    }
    assert(is_path(adj, both));
}

/// A walk can be turned round where every edge can.
pub proof fn lemma_reach_back(adj: spec_fn(int, int) -> bool, a: int, b: int)
    requires
        symmetric(adj),
        reachable(adj, a, b),
    ensures
        reachable(adj, b, a),
{
    let p = choose|path: Seq<int>| #[trigger]
        is_path(adj, path) && path[0] == a && path[path.len() - 1] == b;
    let back = Seq::new(p.len(), |i: int| p[p.len() - 1 - i]);
    assert forall|i: int| 0 <= i < back.len() - 1 implies adj(
        #[trigger] back[i],
        back[i + 1],
    ) by {
        let k = p.len() - 2 - i;
        assert(adj(p[k], p[k + 1]));
    }
    assert(is_path(adj, back));
}

/// A set that no edge leads out of holds all that its nodes reach.
pub proof fn lemma_closed_holds_reach(
    adj: spec_fn(int, int) -> bool,
    set: Set<int>,
    a: int,
    b: int,
)
    requires
        closed_under(adj, set),
        set.contains(a),
        reachable(adj, a, b),
    ensures
        set.contains(b),
{
    let path = choose|path: Seq<int>| #[trigger]
        is_path(adj, path) && path[0] == a && path[path.len() - 1] == b;
    lemma_closed_holds_path(adj, set, path, path.len() - 1);
}

proof fn lemma_closed_holds_path(
    adj: spec_fn(int, int) -> bool,
    set: Set<int>,
    path: Seq<int>,
    k: int,
)
    requires
        closed_under(adj, set),
        is_path(adj, path),
        set.contains(path[0]),
        0 <= k < path.len(),
    ensures
        set.contains(path[k]),
    decreases k,
{
    if k > 0 {
        lemma_closed_holds_path(adj, set, path, k - 1);
        assert(adj(path[k - 1], path[k - 1 + 1]));
    }
}

/// A set of integers of `0..n` is finite and has at most `n` members.
pub proof fn lemma_below_finite(set: Set<int>, n: int)
    requires
        n >= 0,
        forall|q: int| set.contains(q) ==> 0 <= q < n,
    ensures
        set.finite(),
        set.len() <= n,
{
    lemma_int_range(0, n);
    assert(set.subset_of(set_int_range(0, n)));
    lemma_set_subset_finite(set_int_range(0, n), set);
    lemma_len_subset(set, set_int_range(0, n));
}

proof fn lemma_first_from(adj: spec_fn(int, int) -> bool, from: int, p: int)
    requires
        0 <= from <= p,
    ensures
        from <= first_from(adj, from, p) <= p,
        reachable(adj, first_from(adj, from, p), p),
        forall|q: int|
            from <= q < first_from(adj, from, p) ==> !#[trigger] reachable(adj, q, p),
    decreases p - from,
{
    if from >= p {
        lemma_reach_self(adj, p);
    } else if !reachable(adj, from, p) {
        lemma_first_from(adj, from + 1, p);
    }
}

/// The root of a node reaches it, and nothing smaller does.
pub proof fn lemma_root(adj: spec_fn(int, int) -> bool, p: int)
    requires
        0 <= p,
    ensures
        0 <= root_of(adj, p) <= p,
        reachable(adj, root_of(adj, p), p),
        forall|q: int| 0 <= q < root_of(adj, p) ==> !#[trigger] reachable(adj, q, p),
{
    lemma_first_from(adj, 0, p);
}

/// Two nodes have one root exactly where one reaches the other.
pub proof fn lemma_same_root(adj: spec_fn(int, int) -> bool, p: int, q: int)
    requires
        symmetric(adj),
        0 <= p,
        0 <= q,
    ensures
        reachable(adj, p, q) <==> root_of(adj, p) == root_of(adj, q),
{
    lemma_root(adj, p);
    lemma_root(adj, q);
    let rp = root_of(adj, p);
    let rq = root_of(adj, q);
    if reachable(adj, p, q) {
        lemma_reach_trans(adj, rp, p, q);
        lemma_reach_back(adj, p, q);
        lemma_reach_trans(adj, rq, q, p);
    } else if rp == rq {
        lemma_reach_back(adj, rp, p);
        lemma_reach_trans(adj, p, rp, q);
    }
}

/// A root is the root of itself.
pub proof fn lemma_root_of_root(adj: spec_fn(int, int) -> bool, p: int)
    requires
        symmetric(adj),
        0 <= p,
    ensures
        root_of(adj, root_of(adj, p)) == root_of(adj, p),
{
    lemma_root(adj, p);
    lemma_same_root(adj, root_of(adj, p), p);
}

} // verus!
