//! The order of file names.
use vstd::prelude::*;
use vstd::set_lib::{lemma_int_range, lemma_subset_equality, set_int_range};

verus! {

/// Whether, from byte `k` on, `a` comes before `b`: at the first byte that differs its own is less,
/// or it ends there.
pub open spec fn before_from(a: Seq<u8>, b: Seq<u8>, k: int) -> bool
    decreases a.len() - k,
{
    if k >= b.len() {
        false
    } else if k >= a.len() {
        true
    } else {
        a[k] < b[k] || (a[k] == b[k] && before_from(a, b, k + 1))
    }
}

/// Whether name `a` comes before name `b`, byte by byte.
pub open spec fn name_before(a: Seq<u8>, b: Seq<u8>) -> bool {
    before_from(a, b, 0)
}

/// Whether the name at place `a` comes before the one at place `b`; equal names keep their order.
pub open spec fn comes_first(names: Seq<Vec<u8>>, a: usize, b: usize) -> bool {
    name_before(names[a as int]@, names[b as int]@) || (names[a as int]@ == names[b as int]@ && a
        < b)
}

/// Whether the names at the places of `order` ascend.
pub open spec fn ascends(order: Seq<usize>, names: Seq<Vec<u8>>) -> bool {
    forall|i: int, j: int| 0 <= i < j < order.len() ==> comes_first(names, order[i], order[j])
}

/// Whether two names agree before byte `k`.
pub open spec fn agree(a: Seq<u8>, b: Seq<u8>, k: int) -> bool {
    k <= a.len() && k <= b.len() && forall|i: int| 0 <= i < k ==> a[i] == b[i]
}

/// Of two names that differ, exactly one comes before the other; no name comes before itself.
pub proof fn lemma_total(a: Seq<u8>, b: Seq<u8>, k: int)
    requires
        0 <= k,
        agree(a, b, k),
    ensures
        before_from(a, b, k) || before_from(b, a, k) || a == b,
        !(before_from(a, b, k) && before_from(b, a, k)),
        a == b ==> !before_from(a, b, k),
    decreases a.len() - k,
{
    if k < a.len() && k < b.len() {
        if a[k] == b[k] {
            lemma_total(a, b, k + 1);
        }
    } else if k >= a.len() && k >= b.len() {
        assert(a =~= b);
    }
}

/// What comes before a name that comes before another comes before that one too.
proof fn lemma_transitive(a: Seq<u8>, b: Seq<u8>, c: Seq<u8>, k: int)
    requires
        0 <= k,
        before_from(a, b, k),
        before_from(b, c, k),
    ensures
        before_from(a, c, k),
    decreases a.len() - k,
{
    if k < a.len() && a[k] == b[k] && b[k] == c[k] {
        lemma_transitive(a, b, c, k + 1);
    }
}

proof fn lemma_comes_first_transitive(names: Seq<Vec<u8>>, a: usize, b: usize, c: usize)
    requires
        comes_first(names, a, b),
        comes_first(names, b, c),
    ensures
        comes_first(names, a, c),
{
    let (x, y, z) = (names[a as int]@, names[b as int]@, names[c as int]@);
    if name_before(x, y) && name_before(y, z) {
        lemma_transitive(x, y, z, 0);
    }
}

/// No place comes before itself.
pub proof fn lemma_comes_first_differs(names: Seq<Vec<u8>>, a: usize, b: usize)
    requires
        comes_first(names, a, b),
    ensures
        a != b,
{
    lemma_total(names[a as int]@, names[a as int]@, 0);
}

/// Places that ascend come in one order only: a list of ascending places is fixed by the places
/// it holds.
pub proof fn law_ascending_order_is_unique(a: Seq<usize>, b: Seq<usize>, names: Seq<Vec<u8>>)
    requires
        ascends(a, names),
        ascends(b, names),
        forall|v: usize| a.contains(v) <==> b.contains(v),
    ensures
        a == b,
    decreases a.len(),
{
    if a.len() == 0 {
        if b.len() > 0 {
            assert(b.contains(b[0]));
        }
        assert(a =~= b);
    } else {
        assert(a.contains(a[0]));
        assert(b.contains(a[0]));
        assert(b.contains(b[0]));
        assert(a.contains(b[0]));
        let p = choose|p: int| 0 <= p < b.len() && b[p] == a[0];
        let q = choose|q: int| 0 <= q < a.len() && a[q] == b[0];
        if p > 0 && q > 0 {
            assert(comes_first(names, b[0], b[p]));
            assert(comes_first(names, a[0], a[q]));
            lemma_comes_first_transitive(names, a[0], b[0], a[0]);
            lemma_comes_first_differs(names, a[0], a[0]);
        }
        assert(a[0] == b[0]);
        let (x, y) = (a.drop_first(), b.drop_first());
        assert(ascends(x, names)) by {
            assert forall|i: int, j: int| 0 <= i < j < x.len() implies comes_first(
                names,
                x[i],
                x[j],
            ) by {
                assert(comes_first(names, a[i + 1], a[j + 1]));
            }
        }
        assert(ascends(y, names)) by {
            assert forall|i: int, j: int| 0 <= i < j < y.len() implies comes_first(
                names,
                y[i],
                y[j],
            ) by {
                assert(comes_first(names, b[i + 1], b[j + 1]));
            }
        }
        assert forall|v: usize| x.contains(v) <==> y.contains(v) by {
            if x.contains(v) {
                let i = choose|i: int| 0 <= i < x.len() && x[i] == v;
                assert(a[i + 1] == v);
                assert(a.contains(v));
                assert(comes_first(names, a[0], a[i + 1]));
                lemma_comes_first_differs(names, a[0], v);
                let j = choose|j: int| 0 <= j < b.len() && b[j] == v;
                assert(y[j - 1] == v);
            }
            if y.contains(v) {
                let i = choose|i: int| 0 <= i < y.len() && y[i] == v;
                assert(b[i + 1] == v);
                assert(b.contains(v));
                assert(comes_first(names, b[0], b[i + 1]));
                lemma_comes_first_differs(names, b[0], v);
                let j = choose|j: int| 0 <= j < a.len() && a[j] == v;
                assert(x[j - 1] == v);
            }
        }
        law_ascending_order_is_unique(x, y, names);
        assert(a =~= seq![a[0]] + x);
        assert(b =~= seq![b[0]] + y);
    }
}

/// Where all the names differ, ascending places have strictly ascending names.
pub proof fn law_different_names_ascend_strictly(
    order: Seq<usize>,
    names: Seq<Vec<u8>>,
    i: int,
    j: int,
)
    requires
        ascends(order, names),
        forall|a: int, b: int|
            0 <= a < b < names.len() ==> (#[trigger] names[a])@ != (#[trigger] names[b])@,
        forall|k: int| 0 <= k < order.len() ==> #[trigger] order[k] < names.len(),
        0 <= i < j < order.len(),
    ensures
        name_before(names[order[i] as int]@, names[order[j] as int]@),
{
    assert(comes_first(names, order[i], order[j]));
}

/// Whether name `a` comes before name `b`, byte by byte.
fn is_name_before(a: &Vec<u8>, b: &Vec<u8>) -> (r: bool)
    ensures
        r == name_before(a@, b@),
{
    let mut k: usize = 0;
    while k < a.len() && k < b.len() && a[k] == b[k]
        invariant
            k <= a@.len(),
            k <= b@.len(),
            name_before(a@, b@) == before_from(a@, b@, k as int),
        decreases a@.len() - k,
    {
        k = k + 1;
    }
    if k >= b.len() {
        false
    } else if k >= a.len() {
        true
    } else {
        a[k] < b[k]
    }
}

/// The places of the names in ascending order, byte by byte, each place once; equal names keep
/// their order.
pub fn ascending_places(names: &Vec<Vec<u8>>) -> (order: Vec<usize>)
    ensures
        order@.len() == names@.len(),
        order@.no_duplicates(),
        forall|v: usize| #[trigger] order@.contains(v) <==> v < names@.len(),
        ascends(order@, names@),
{
    let mut order: Vec<usize> = Vec::new();
    let mut n: usize = 0;
    while n < names.len()
        invariant
            n <= names@.len(),
            order@.len() == n,
            forall|i: int| 0 <= i < n ==> #[trigger] order@[i] < n,
            ascends(order@, names@),
        decreases names@.len() - n,
    {
        let mut at: usize = n;
        while at > 0 && is_name_before(&names[n], &names[order[at - 1]])
            invariant
                n < names@.len(),
                at <= n,
                order@.len() == n,
                forall|i: int| 0 <= i < n ==> #[trigger] order@[i] < n,
                ascends(order@, names@),
                forall|i: int| at <= i < n ==> comes_first(names@, n, #[trigger] order@[i]),
            decreases at,
        {
            at = at - 1;
        }
        let ghost before = order@;
        proof {
            if at > 0 {
                lemma_total(names@[before[at - 1] as int]@, names@[n as int]@, 0);
                assert(comes_first(names@, before[at - 1], n));
            }
        }
        order.insert(at, n);
        proof {
            assert forall|i: int, j: int| 0 <= i < j < n + 1 implies comes_first(
                names@,
                order@[i],
                order@[j],
            ) by {
                let place = |k: int| if k < at { k } else { k - 1 };
                if i != at && j != at {
                    assert(comes_first(names@, before[place(i)], before[place(j)]));
                } else if i == at {
                    assert(order@[j] == before[j - 1]);
                } else {
                    assert(order@[i] == before[i]);
                    if i < at - 1 {
                        assert(comes_first(names@, before[i], before[at - 1]));
                        lemma_comes_first_transitive(names@, before[i], before[at - 1], n);
                    }
                }
            }
            assert forall|i: int| 0 <= i < n + 1 implies #[trigger] order@[i] < n + 1 by {
                if i < at {
                    assert(order@[i] == before[i]);
                } else if i > at {
                    assert(order@[i] == before[i - 1]);
                }
            }
        }
        n = n + 1;
    }
    proof {
        assert forall|i: int, j: int| 0 <= i < n && 0 <= j < n && i != j implies order@[i]
            != order@[j] by {
            if i < j {
                lemma_comes_first_differs(names@, order@[i], order@[j]);
            } else {
                lemma_comes_first_differs(names@, order@[j], order@[i]);
            }
        }
        assert forall|v: usize| #[trigger] order@.contains(v) <==> v < names@.len() by {
            if v < n {
                lemma_all_listed(order@, n as int, v);
            }
        }
    }
    order
}

/// As many different places as there are are all of them.
proof fn lemma_all_listed(order: Seq<usize>, n: int, v: usize)
    requires
        order.len() == n,
        order.no_duplicates(),
        forall|i: int| 0 <= i < n ==> #[trigger] order[i] < n,
        v < n,
    ensures
        order.contains(v),
{
    let ints = order.map_values(|u: usize| u as int);
    assert(ints.no_duplicates());
    let all = set_int_range(0, n);
    lemma_int_range(0, n);
    ints.unique_seq_to_set();
    assert forall|u: int| ints.to_set().contains(u) implies all.contains(u) by {
        let i = choose|i: int| 0 <= i < ints.len() && ints[i] == u;
        assert(order[i] == u);
    }
    lemma_subset_equality(ints.to_set(), all);
    assert(ints.to_set().contains(v as int));
    let i = choose|i: int| 0 <= i < ints.len() && ints[i] == v as int;
    assert(order[i] == v);
}

} // verus!
