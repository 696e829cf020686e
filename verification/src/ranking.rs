//! Putting objects in order, largest first.
use crate::components::Object;
use vstd::prelude::*;

verus! {

/// Whether `a` may stand before `b`: it is larger, or as large with a label that is no greater.
pub open spec fn ranks(a: Object, b: Object) -> bool {
    a.area > b.area || a.area == b.area && a.label <= b.label
}

/// Whether every object may stand before all that follow it.
pub open spec fn ranked(objects: Seq<Object>) -> bool {
    forall|i: int, j: int| 0 <= i < j < objects.len() ==> ranks(objects[i], objects[j])
}

proof fn lemma_push_multiset(s: Seq<Object>, i: int)
    requires
        0 <= i < s.len(),
    ensures
        s.take(i + 1).to_multiset() == s.take(i).to_multiset().insert(s[i]),
{
    broadcast use vstd::seq_lib::group_to_multiset_ensures;

    assert(s.take(i + 1) =~= s.take(i).push(s[i]));
}

fn merge(a: &Vec<Object>, b: &Vec<Object>) -> (out: Vec<Object>)
    requires
        ranked(a@),
        ranked(b@),
    ensures
        ranked(out@),
        out@.to_multiset() == a@.to_multiset().add(b@.to_multiset()),
{
    broadcast use vstd::seq_lib::group_to_multiset_ensures;

    let mut out: Vec<Object> = Vec::new();
    let mut i: usize = 0;
    let mut j: usize = 0;
    assert(a@.take(0) =~= Seq::<Object>::empty() && b@.take(0) =~= Seq::<Object>::empty());
    while i < a.len() || j < b.len()
        invariant
            i <= a@.len(),
            j <= b@.len(),
            ranked(a@),
            ranked(b@),
            ranked(out@),
            out@.to_multiset() =~= a@.take(i as int).to_multiset().add(
                b@.take(j as int).to_multiset(),
            ),
            forall|k: int, m: int|
                0 <= k < out@.len() && i <= m < a@.len() ==> ranks(out@[k], a@[m]),
            forall|k: int, m: int|
                0 <= k < out@.len() && j <= m < b@.len() ==> ranks(out@[k], b@[m]),
        decreases a@.len() - i + b@.len() - j,
    {
        broadcast use vstd::seq_lib::group_to_multiset_ensures;

        let from_a: bool = j >= b.len() || i < a.len() && (a[i].area > b[j].area || a[i].area
            == b[j].area && a[i].label <= b[j].label);
        let ghost taken = out@;
        if from_a {
            out.push(a[i]);
            proof {
                lemma_push_multiset(a@, i as int);
                assert(out@.to_multiset() =~= taken.to_multiset().insert(a@[i as int]));
                assert forall|m: int| j <= m < b@.len() implies ranks(a@[i as int], #[trigger] b@[m]) by {
                    assert(ranks(a@[i as int], b@[j as int]));
                    assert(m > j ==> ranks(b@[j as int], b@[m]));
                }
            }
            i = i + 1;
        } else {
            out.push(b[j]);
            proof {
                lemma_push_multiset(b@, j as int);
                assert(out@.to_multiset() =~= taken.to_multiset().insert(b@[j as int]));
                assert forall|m: int| i <= m < a@.len() implies ranks(b@[j as int], #[trigger] a@[m]) by {
                    assert(ranks(b@[j as int], a@[i as int]));
                    assert(m > i ==> ranks(a@[i as int], a@[m]));
                }
            }
            j = j + 1;
        }
    }
    assert(a@.take(i as int) =~= a@ && b@.take(j as int) =~= b@);
    out
}

/// The objects in order: larger areas first, and among equal areas smaller labels first.
pub fn largest_first(objects: &Vec<Object>) -> (out: Vec<Object>)
    ensures
        ranked(out@),
        out@.to_multiset() == objects@.to_multiset(),
        out@.len() == objects@.len(),
    decreases objects@.len(),
{
    broadcast use vstd::seq_lib::group_to_multiset_ensures;

    let n: usize = objects.len();
    if n <= 1 {
        let mut out: Vec<Object> = Vec::new();
        if n == 1 {
            out.push(objects[0]);
        }
        assert(out@ =~= objects@);
        return out;
    }
    let half: usize = n / 2;
    let mut front: Vec<Object> = Vec::new();
    let mut back: Vec<Object> = Vec::new();
    let mut i: usize = 0;
    while i < n
        invariant
            n == objects@.len(),
            half == n / 2,
            i <= n,
            front@ =~= objects@.take(if i < half { i as int } else { half as int }),
            back@ =~= if i < half {
                Seq::<Object>::empty()
            } else {
                objects@.subrange(half as int, i as int)
            },
        decreases n - i,
    {
        if i < half {
            front.push(objects[i]);
        } else {
            back.push(objects[i]);
        }
        i = i + 1;
    }
    let front_sorted = largest_first(&front);
    let back_sorted = largest_first(&back);
    let out = merge(&front_sorted, &back_sorted);
    proof {
        assert(front@ + back@ =~= objects@);
        vstd::seq_lib::lemma_multiset_commutative(front@, back@);
        assert(out@.to_multiset().len() == out@.len());
        assert(objects@.to_multiset().len() == objects@.len());
    }
    out
}

} // verus!
