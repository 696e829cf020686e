//! Choosing among text lines: by length, by sampling and by vote.
use vstd::prelude::*;
use vstd::set_lib::{lemma_int_range, lemma_subset_equality, set_int_range};

verus! {

/// A number that orders floating point values as IEEE 754 totally orders them, given the bits of
/// a value: sign first, then magnitude.
pub open spec fn order_of(bits: u64) -> int {
    if bits < 0x8000_0000_0000_0000 {
        bits as int
    } else {
        -(bits - 0x8000_0000_0000_0000) - 1
    }
}

/// The place of a double-precision value in the total order of all of them, given its bits.
pub fn total_order_key(bits: u64) -> (key: i64)
    ensures
        key == order_of(bits),
{
    if bits < 0x8000_0000_0000_0000 {
        bits as i64
    } else {
        -((bits - 0x8000_0000_0000_0000) as i64) - 1
    }
}

/// Different bits have different places in the total order.
pub proof fn law_order_keys_differ(a: u64, b: u64)
    requires
        order_of(a) == order_of(b),
    ensures
        a == b,
{
}

/// Whether `m` is the last of the greatest keys.
pub open spec fn is_last_max(keys: Seq<i64>, m: int) -> bool {
    &&& 0 <= m < keys.len()
    &&& forall|i: int| 0 <= i < keys.len() ==> #[trigger] keys[i] <= keys[m]
    &&& forall|i: int| m < i < keys.len() ==> #[trigger] keys[i] < keys[m]
}

/// The place of the greatest key, the last of them where several are greatest. The longest line
/// anchors the angle estimate in this way, and the likeliest class wins in this way.
pub fn last_max(keys: &Vec<i64>) -> (r: Option<usize>)
    ensures
        r is None <==> keys@.len() == 0,
        r matches Some(m) ==> is_last_max(keys@, m as int),
{
    if keys.len() == 0 {
        return None;
    }
    let mut best: usize = 0;
    let mut i: usize = 1;
    while i < keys.len()
        invariant
            1 <= i <= keys@.len(),
            is_last_max(keys@.subrange(0, i as int), best as int),
        decreases keys@.len() - i,
    {
        let ghost before = keys@.subrange(0, i as int);
        let ghost now = keys@.subrange(0, i + 1);
        proof {
            assert(now =~= before.push(keys@[i as int]));
        }
        if keys[i] >= keys[best] {
            best = i;
        }
        i = i + 1;
    }
    assert(keys@.subrange(0, i as int) =~= keys@);
    Some(best)
}

/// Whether item `a` comes before item `b` when longer ones come first and equally long ones keep
/// their order.
pub open spec fn longer(keys: Seq<i64>, a: usize, b: usize) -> bool {
    keys[a as int] > keys[b as int] || (keys[a as int] == keys[b as int] && a < b)
}

/// Whether `order` lists the first `n` items, longest first.
pub open spec fn by_length(order: Seq<usize>, keys: Seq<i64>, n: int) -> bool {
    &&& order.len() == n
    &&& forall|i: int| 0 <= i < n ==> #[trigger] order[i] < n
    &&& forall|i: int, j: int| 0 <= i < j < n ==> longer(keys, order[i], order[j])
}

/// The items longest first, equally long ones in their order.
pub fn longest_first(keys: &Vec<i64>) -> (order: Vec<usize>)
    ensures
        by_length(order@, keys@, keys@.len() as int),
{
    let mut order: Vec<usize> = Vec::new();
    let mut n: usize = 0;
    while n < keys.len()
        invariant
            n <= keys@.len(),
            by_length(order@, keys@, n as int),
        decreases keys@.len() - n,
    {
        let mut at: usize = n;
        while at > 0 && keys[order[at - 1]] < keys[n]
            invariant
                n < keys@.len(),
                at <= n,
                by_length(order@, keys@, n as int),
                forall|i: int|
                    at <= i < n ==> #[trigger] keys@[order@[i] as int] < keys@[n as int],
            decreases at,
        {
            at = at - 1;
        }
        let ghost before = order@;
        order.insert(at, n);
        proof {
            assert forall|i: int, j: int| 0 <= i < j < n + 1 implies longer(
                keys@,
                order@[i],
                order@[j],
            ) by {
                let place = |k: int| if k < at { k } else { k - 1 };
                if i != at && j != at {
                    assert(longer(keys@, before[place(i)], before[place(j)]));
                } else if i == at {
                    assert(order@[j] == before[j - 1]);
                } else {
                    assert(order@[i] == before[i]);
                    if at > 0 && i < at - 1 {
                        assert(longer(keys@, before[i], before[at - 1]));
                    }
                }
            }
            assert forall|i: int| 0 <= i < n + 1 implies #[trigger] order@[i] < n + 1 by {
                if i < at {
                    assert(order@[i] == before[i]);
                } else if i > at {
                    assert(order@[i] == before[i - 1]);
                }
            }
        }
        n = n + 1;
    }
    order
}

/// At most this many line crops are voted per object.
pub const ORIENT_MAX_SAMPLES: usize = 5;

/// The items to be sampled, given all of them longest first: all of them where they are few, and
/// otherwise the two longest, the median and the two shortest.
pub open spec fn sampled(order: Seq<usize>) -> Seq<usize> {
    let n = order.len() as int;
    if n <= ORIENT_MAX_SAMPLES {
        order
    } else {
        seq![order[0], order[1], order[n / 2], order[n - 2], order[n - 1]]
    }
}

/// Pick up to [`ORIENT_MAX_SAMPLES`] box indices spanning the length range: the two longest, the
/// median, and the two shortest. Returns every index (longest-first) when there are five or fewer
/// boxes. `keys` orders the boxes by length.
pub fn sample_box_indices(keys: &Vec<i64>) -> (chosen: Vec<usize>)
    ensures
        exists|order: Seq<usize>| #[trigger]
            by_length(order, keys@, keys@.len() as int) && chosen@ == sampled(order),
{
    let n: usize = keys.len();
    let order = longest_first(keys);
    let ghost whole = order@;
    if n <= ORIENT_MAX_SAMPLES {
        return order;
    }
    let chosen = vec![order[0], order[1], order[n / 2], order[n - 2], order[n - 1]];
    assert(chosen@ =~= sampled(whole));
    chosen
}

/// The order of items by length is unique.
pub proof fn law_length_order_is_unique(a: Seq<usize>, b: Seq<usize>, keys: Seq<i64>, n: int)
    requires
        by_length(a, keys, n),
        by_length(b, keys, n),
        n <= keys.len(),
    ensures
        a == b,
{
    assert forall|i: int| 0 <= i < n implies #[trigger] a[i] == b[i] by {
        lemma_same_place(a, b, keys, n, i);
    }
    assert(a =~= b);
}

/// The items up to place `i` of one order are all those that come no later than its item there.
proof fn lemma_same_place(a: Seq<usize>, b: Seq<usize>, keys: Seq<i64>, n: int, i: int)
    requires
        by_length(a, keys, n),
        by_length(b, keys, n),
        n <= keys.len(),
        0 <= i < n,
    ensures
        a[i] == b[i],
    decreases i,
{
    assert forall|k: int| 0 <= k < i implies #[trigger] a[k] == b[k] by {
        lemma_same_place(a, b, keys, n, k);
    }
    lemma_lists_all(a, keys, n, b[i]);
    lemma_lists_all(b, keys, n, a[i]);
    let p = choose|p: int| 0 <= p < n && #[trigger] a[p] == b[i];
    let q = choose|q: int| 0 <= q < n && #[trigger] b[q] == a[i];
    if a[i] != b[i] {
        if p < i {
            assert(longer(keys, b[p], b[i]));
        }
        if q < i {
            assert(longer(keys, a[q], a[i]));
        }
        assert(longer(keys, a[i], a[p]));
        assert(longer(keys, b[i], b[q]));
    }
}

/// An order of the first `n` items lists each of them.
pub proof fn lemma_lists_all(order: Seq<usize>, keys: Seq<i64>, n: int, v: usize)
    requires
        by_length(order, keys, n),
        v < n <= keys.len(),
    ensures
        exists|i: int| 0 <= i < n && #[trigger] order[i] == v,
{
    let ints = order.map_values(|u: usize| u as int);
    assert forall|i: int, j: int| 0 <= i < n && 0 <= j < n && i != j implies ints[i] != ints[j] by {
        if i < j {
            assert(longer(keys, order[i], order[j]));
        } else {
            assert(longer(keys, order[j], order[i]));
        }
    }
    let all = set_int_range(0, n);
    lemma_int_range(0, n);
    ints.unique_seq_to_set();
    assert forall|u: int| ints.to_set().contains(u) implies all.contains(u) by {
        let i = choose|i: int| 0 <= i < ints.len() && ints[i] == u;
        assert(order[i] == u);
    }
    lemma_subset_equality(ints.to_set(), all);
    assert(ints.to_set().contains(v as int));
    let i = choose|i: int| 0 <= i < ints.len() && ints[i] == v as int;
    assert(order[i] == v);
}

/// No item is sampled twice, and no more than the limit are.
pub proof fn law_samples_are_distinct(order: Seq<usize>, keys: Seq<i64>, n: int)
    requires
        by_length(order, keys, n),
        n <= keys.len(),
    ensures
        sampled(order).no_duplicates(),
        sampled(order).len() <= ORIENT_MAX_SAMPLES,
{
    assert forall|i: int, j: int| 0 <= i < n && 0 <= j < n && i != j implies order[i] != order[j] by {
        if i < j {
            assert(longer(keys, order[i], order[j]));
        } else {
            assert(longer(keys, order[j], order[i]));
        }
    }
    if n > ORIENT_MAX_SAMPLES {
        let places = seq![0int, 1, n / 2, n - 2, n - 1];
        let chosen = sampled(order);
        assert forall|i: int, j: int| 0 <= i < 5 && 0 <= j < 5 && i != j implies chosen[i]
            != chosen[j] by {
            assert(chosen[i] == order[places[i]] && chosen[j] == order[places[j]]);
        }
    }
}

/// How many of the first `upto` lines were judged to be `flipped`.
pub open spec fn judged(lines: Seq<Option<bool>>, flipped: bool, upto: int) -> nat
    decreases upto,
{
    if upto <= 0 {
        0
    } else {
        judged(lines, flipped, upto - 1) + if lines[upto - 1] == Some(flipped) {
            1nat
        } else {
            0
        }
    }
}

/// The places of the lines that were judged to be `flipped`.
pub open spec fn places_judged(lines: Seq<Option<bool>>, flipped: bool, n: int) -> Set<int> {
    Set::new(|i: int| 0 <= i < n && lines[i] == Some(flipped))
}

/// The places of the lines that could not be judged.
pub open spec fn places_unjudged(lines: Seq<Option<bool>>, n: int) -> Set<int> {
    Set::new(|i: int| 0 <= i < n && lines[i] is None)
}

/// Every judged line counts, wherever it stands: the counts are the numbers of places that hold
/// each judgement, and together with the lines that could not be judged they are all the lines.
pub proof fn law_every_line_counts(lines: Seq<Option<bool>>, n: int)
    requires
        0 <= n <= lines.len(),
    ensures
        judged(lines, true, n) == places_judged(lines, true, n).len(),
        judged(lines, false, n) == places_judged(lines, false, n).len(),
        judged(lines, true, n) + judged(lines, false, n) + places_unjudged(lines, n).len() == n,
        places_judged(lines, true, n).finite(),
        places_judged(lines, false, n).finite(),
        places_unjudged(lines, n).finite(),
    decreases n,
{
    if n == 0 {
        assert(places_judged(lines, true, 0) =~= Set::empty());
        assert(places_judged(lines, false, 0) =~= Set::empty());
        assert(places_unjudged(lines, 0) =~= Set::empty());
    } else {
        let m = n - 1;
        law_every_line_counts(lines, m);
        let (t, f, u) = (
            places_judged(lines, true, m),
            places_judged(lines, false, m),
            places_unjudged(lines, m),
        );
        match lines[m] {
            Some(true) => {
                assert(places_judged(lines, true, n) =~= t.insert(m));
                assert(places_judged(lines, false, n) =~= f);
                assert(places_unjudged(lines, n) =~= u);
            },
            Some(false) => {
                assert(places_judged(lines, true, n) =~= t);
                assert(places_judged(lines, false, n) =~= f.insert(m));
                assert(places_unjudged(lines, n) =~= u);
            },
            None => {
                assert(places_judged(lines, true, n) =~= t);
                assert(places_judged(lines, false, n) =~= f);
                assert(places_unjudged(lines, n) =~= u.insert(m));
            },
        }
    }
}

/// Majority vote on whether an object is upside-down, over the lines that could be judged (`None`
/// for one that could not). `None` means there was nothing to decide from; a tie favours leaving
/// the object as it is.
pub fn flip_vote(lines: &Vec<Option<bool>>) -> (r: Option<bool>)
    ensures
        ({
            let upright = judged(lines@, false, lines@.len() as int);
            let flipped = judged(lines@, true, lines@.len() as int);
            r == if upright == 0 && flipped == 0 {
                None
            } else {
                Some(flipped > upright)
            }
        }),
        ({
            let upright = places_judged(lines@, false, lines@.len() as int).len();
            let flipped = places_judged(lines@, true, lines@.len() as int).len();
            r == if upright == 0 && flipped == 0 {
                None
            } else {
                Some(flipped > upright)
            }
        }),
{
    proof {
        law_every_line_counts(lines@, lines@.len() as int);
    }
    let mut upright: usize = 0;
    let mut flipped: usize = 0;
    let mut i: usize = 0;
    while i < lines.len()
        invariant
            i <= lines@.len(),
            upright == judged(lines@, false, i as int),
            flipped == judged(lines@, true, i as int),
            upright + flipped <= i,
        decreases lines@.len() - i,
    {
        match lines[i] {
            Some(true) => {
                flipped = flipped + 1;
            },
            Some(false) => {
                upright = upright + 1;
            },
            None => {},
        }
        i = i + 1;
    }
    if upright == 0 && flipped == 0 {
        return None;
    }
    Some(flipped > upright)
}

/// How many clockwise quarter-turns bring an image upright that is turned clockwise by `cls` of
/// them, the class of the greatest of four scores.
pub fn upright_turns(keys: &Vec<i64>) -> (turns: u8)
    requires
        keys@.len() == 4,
    ensures
        exists|cls: int| #[trigger] is_last_max(keys@, cls) && turns == (4 - cls) % 4,
        turns < 4,
        forall|cls: int| #[trigger] is_last_max(keys@, cls) ==> (cls + turns) % 4 == 0,
{
    let cls: usize = match last_max(keys) {
        Some(cls) => cls,
        None => 0,
    };
    proof {
        assert forall|c: int| #[trigger] is_last_max(keys@, c) implies c == cls by {
            assert(keys@[c] <= keys@[cls as int] && keys@[cls as int] <= keys@[c]);
        }
    }
    ((4 - cls) % 4) as u8
}

} // verus!
