//! Stable sorting.
use vstd::prelude::*;

verus! {

/// Values with an order in which ties are possible.
pub trait Ranked: Sized {
    /// Whether `self` has to stand before `other`.
    spec fn before(self, other: Self) -> bool;

    /// Two values never have to stand before each other.
    proof fn before_is_asymmetric(a: Self, b: Self)
        ensures
            a.before(b) ==> !b.before(a),
    ;

    /// Where `b` need not follow `a`, nor `c` follow `b`, `c` need not follow
    /// `a` either.
    proof fn before_is_consistent(a: Self, b: Self, c: Self)
        ensures
            !a.before(b) && !b.before(c) ==> !a.before(c),
    ;

    /// Computes `before`.
    fn stands_before(&self, other: &Self) -> (r: bool)
        ensures
            r == self.before(*other),
    ;
}

/// Whether position `i` of `items` comes before position `j` once the items
/// are sorted: by rank, and between ties by position.
pub open spec fn precedes<T: Ranked>(items: Seq<T>, i: int, j: int) -> bool {
    items[i].before(items[j]) || (!items[j].before(items[i]) && i < j)
}

/// Whether `order` lists every position of `items` once, in sorted order.
pub open spec fn is_stable_order<T: Ranked>(items: Seq<T>, order: Seq<int>) -> bool {
    &&& order.len() == items.len()
    &&& forall|k: int| 0 <= k < order.len() ==> 0 <= #[trigger] order[k] < items.len()
    &&& forall|i: int| 0 <= i < items.len() ==> #[trigger] order.contains(i)
    &&& forall|a: int, b: int|
        0 <= a < b < order.len() ==> precedes(items, #[trigger] order[a], #[trigger] order[b])
}

/// The positions of `items` in sorted order.
pub open spec fn stable_order<T: Ranked>(items: Seq<T>) -> Seq<int> {
    choose|order: Seq<int>| is_stable_order(items, order)
}

/// The items in sorted order; ties keep the order that they had.
pub open spec fn sorted<T: Ranked>(items: Seq<T>) -> Seq<T> {
    stable_order(items).map_values(|i: int| items[i])
}

proof fn lemma_precedes_asymmetric<T: Ranked>(items: Seq<T>, i: int, j: int)
    ensures
        precedes(items, i, j) ==> !precedes(items, j, i),
        i != j ==> precedes(items, i, j) || precedes(items, j, i),
{
    T::before_is_asymmetric(items[i], items[j]);
}

proof fn lemma_precedes_transitive<T: Ranked>(items: Seq<T>, i: int, j: int, k: int)
    requires
        precedes(items, i, j),
        precedes(items, j, k),
    ensures
        precedes(items, i, k),
{
    let (a, b, c) = (items[i], items[j], items[k]);
    T::before_is_asymmetric(a, b);
    T::before_is_asymmetric(b, c);
    T::before_is_asymmetric(a, c);
    // `c` does not stand before `b`, nor `b` before `a`.
    T::before_is_consistent(c, b, a);
    if !a.before(c) {
        // A tie between `a` and `c` is a tie of all three.
        T::before_is_consistent(a, c, b);
        T::before_is_consistent(b, a, c);
    }
}

/// There is only one sorted order of the positions.
pub proof fn law_stable_order_is_unique<T: Ranked>(items: Seq<T>, one: Seq<int>, two: Seq<int>)
    requires
        is_stable_order(items, one),
        is_stable_order(items, two),
    ensures
        one == two,
{
    assert forall|k: int| 0 <= k < one.len() implies one[k] == two[k] by {
        lemma_orders_agree(items, one, two, k);
    }
    assert(one =~= two);
}

proof fn lemma_orders_agree<T: Ranked>(items: Seq<T>, one: Seq<int>, two: Seq<int>, k: int)
    requires
        is_stable_order(items, one),
        is_stable_order(items, two),
        0 <= k < one.len(),
    ensures
        forall|m: int| 0 <= m <= k ==> one[m] == two[m],
    decreases k,
{
    if k > 0 {
        lemma_orders_agree(items, one, two, k - 1);
    }
    if one[k] != two[k] {
        assert(one.contains(two[k]));
        let p = choose|p: int| 0 <= p < one.len() && one[p] == two[k];
        assert(two.contains(one[k]));
        let q = choose|q: int| 0 <= q < two.len() && two[q] == one[k];
        if p < k {
            assert(two[p] == two[k]);
            assert(precedes(items, two[p], two[k]));
            lemma_precedes_asymmetric(items, two[p], two[k]);
        }
        if q < k {
            assert(one[q] == one[k]);
            assert(precedes(items, one[q], one[k]));
            lemma_precedes_asymmetric(items, one[q], one[k]);
        }
        assert(precedes(items, one[k], one[p]));
        assert(precedes(items, two[k], two[q]));
        lemma_precedes_asymmetric(items, one[k], two[k]);
    }
}

/// Any sorted order of the positions yields the sorted items.
pub proof fn law_sorted_by_any_order<T: Ranked>(items: Seq<T>, order: Seq<int>)
    requires
        is_stable_order(items, order),
    ensures
        stable_order(items) == order,
        sorted(items) == order.map_values(|i: int| items[i]),
{
    law_stable_order_is_unique(items, order, stable_order(items));
}

/// Whether `run` holds the items at `places`, which are the positions from
/// `low` up to `high` in sorted order.
spec fn is_sorted_run<T: Ranked>(
    items: Seq<T>,
    run: Seq<T>,
    places: Seq<int>,
    low: int,
    high: int,
) -> bool {
    &&& run.len() == places.len()
    &&& places.len() == high - low
    &&& forall|k: int| 0 <= k < places.len() ==> run[k] == items[#[trigger] places[k]]
    &&& forall|k: int| 0 <= k < places.len() ==> low <= #[trigger] places[k] < high
    &&& forall|i: int| low <= i < high ==> #[trigger] places.contains(i)
    &&& forall|a: int, b: int|
        0 <= a < b < places.len() ==> precedes(items, #[trigger] places[a], #[trigger] places[b])
}

/// Merges two neighbouring sorted runs.
fn merge<T: Ranked>(
    left: Vec<T>,
    right: Vec<T>,
    Ghost(items): Ghost<Seq<T>>,
    Ghost(left_places): Ghost<Seq<int>>,
    Ghost(right_places): Ghost<Seq<int>>,
    Ghost(low): Ghost<int>,
    Ghost(middle): Ghost<int>,
    Ghost(high): Ghost<int>,
) -> (r: (Vec<T>, Ghost<Seq<int>>))
    requires
        0 <= low <= middle <= high <= items.len(),
        is_sorted_run(items, left@, left_places, low, middle),
        is_sorted_run(items, right@, right_places, middle, high),
    ensures
        is_sorted_run(items, r.0@, r.1@, low, high),
{
    let mut left = left;
    let mut right = right;
    let mut backwards: Vec<T> = Vec::new();
    let ghost mut lp = left_places;
    let ghost mut rp = right_places;
    let ghost mut bp: Seq<int> = Seq::empty();
    while left.len() > 0 || right.len() > 0
        invariant
            0 <= low <= middle <= high <= items.len(),
            left@.len() == lp.len(),
            right@.len() == rp.len(),
            backwards@.len() == bp.len(),
            lp.len() + rp.len() + bp.len() == high - low,
            forall|k: int| 0 <= k < lp.len() ==> left@[k] == items[#[trigger] lp[k]],
            forall|k: int| 0 <= k < rp.len() ==> right@[k] == items[#[trigger] rp[k]],
            forall|k: int| 0 <= k < bp.len() ==> backwards@[k] == items[#[trigger] bp[k]],
            forall|k: int| 0 <= k < lp.len() ==> low <= #[trigger] lp[k] < middle,
            forall|k: int| 0 <= k < rp.len() ==> middle <= #[trigger] rp[k] < high,
            forall|k: int| 0 <= k < bp.len() ==> low <= #[trigger] bp[k] < high,
            forall|i: int|
                low <= i < high ==> (lp.contains(i) || rp.contains(i) || #[trigger] bp.contains(i)),
            forall|a: int, b: int|
                0 <= a < b < lp.len() ==> precedes(items, #[trigger] lp[a], #[trigger] lp[b]),
            forall|a: int, b: int|
                0 <= a < b < rp.len() ==> precedes(items, #[trigger] rp[a], #[trigger] rp[b]),
            forall|a: int, b: int|
                0 <= a < b < bp.len() ==> precedes(items, #[trigger] bp[b], #[trigger] bp[a]),
            forall|a: int, b: int|
                0 <= a < lp.len() && 0 <= b < bp.len() ==> precedes(
                    items,
                    #[trigger] lp[a],
                    #[trigger] bp[b],
                ),
            forall|a: int, b: int|
                0 <= a < rp.len() && 0 <= b < bp.len() ==> precedes(
                    items,
                    #[trigger] rp[a],
                    #[trigger] bp[b],
                ),
        decreases left@.len() + right@.len(),
    {
        let ghost old_lp = lp;
        let ghost old_rp = rp;
        let ghost old_bp = bp;
        let from_left: bool = if right.len() == 0 {
            true
        } else if left.len() == 0 {
            false
        } else {
            right[right.len() - 1].stands_before(&left[left.len() - 1])
        };
        if from_left {
            match left.pop() {
                Some(item) => {
                    backwards.push(item);
                },
                None => {},
            }
            proof {
                let last = lp.last();
                lp = lp.drop_last();
                bp = bp.push(last);
                assert forall|a: int| 0 <= a < rp.len() implies precedes(
                    items,
                    #[trigger] rp[a],
                    last,
                ) by {
                    if a < rp.len() - 1 {
                        lemma_precedes_transitive(items, rp[a], rp[rp.len() - 1], last);
                    }
                }
            }
        } else {
            match right.pop() {
                Some(item) => {
                    backwards.push(item);
                },
                None => {},
            }
            proof {
                let last = rp.last();
                rp = rp.drop_last();
                bp = bp.push(last);
                assert forall|a: int| 0 <= a < lp.len() implies precedes(
                    items,
                    #[trigger] lp[a],
                    last,
                ) by {
                    if a < lp.len() - 1 {
                        lemma_precedes_transitive(items, lp[a], lp[lp.len() - 1], last);
                    }
                }
            }
        }
        proof {
            assert forall|i: int| low <= i < high implies (lp.contains(i) || rp.contains(i)
                || #[trigger] bp.contains(i)) by {
                assert(old_lp.contains(i) || old_rp.contains(i) || old_bp.contains(i));
                if old_lp.contains(i) {
                    let k = choose|k: int| 0 <= k < old_lp.len() && old_lp[k] == i;
                    if from_left && k == old_lp.len() - 1 {
                        assert(bp[bp.len() - 1] == i);
                    } else {
                        assert(lp[k] == i);
                    }
                } else if old_rp.contains(i) {
                    let k = choose|k: int| 0 <= k < old_rp.len() && old_rp[k] == i;
                    if !from_left && k == old_rp.len() - 1 {
                        assert(bp[bp.len() - 1] == i);
                    } else {
                        assert(rp[k] == i);
                    }
                } else {
                    let k = choose|k: int| 0 <= k < old_bp.len() && old_bp[k] == i;
                    assert(bp[k] == i);
                }
            }
        }
    }
    let mut run: Vec<T> = Vec::new();
    let ghost all = bp;
    let ghost all_items = backwards@;
    while backwards.len() > 0
        invariant
            all.len() == all_items.len(),
            run@.len() + backwards@.len() == all.len(),
            backwards@ == all_items.take(backwards@.len() as int),
            forall|k: int| 0 <= k < run@.len() ==> #[trigger] run@[k] == all_items[all.len() - 1 - k],
        decreases backwards@.len(),
    {
        match backwards.pop() {
            Some(item) => {
                run.push(item);
            },
            None => {},
        }
    }
    let ghost places = Seq::new(all.len(), |k: int| all[all.len() - 1 - k]);
    proof {
        assert forall|i: int| low <= i < high implies #[trigger] places.contains(i) by {
            assert(lp.len() == 0 && rp.len() == 0);
            assert(all.contains(i));
            let k = choose|k: int| 0 <= k < all.len() && all[k] == i;
            assert(places[all.len() - 1 - k] == i);
        }
    }
    (run, Ghost(places))
}

/// Sorts the items from position `low` up to `high`.
fn sort_run<T: Ranked>(
    run: Vec<T>,
    Ghost(items): Ghost<Seq<T>>,
    Ghost(low): Ghost<int>,
    Ghost(high): Ghost<int>,
) -> (r: (Vec<T>, Ghost<Seq<int>>))
    requires
        0 <= low <= high <= items.len(),
        run@ == items.subrange(low, high),
    ensures
        is_sorted_run(items, r.0@, r.1@, low, high),
    decreases run@.len(),
{
    if run.len() < 2 {
        let ghost places = Seq::new(run@.len(), |k: int| low + k);
        proof {
            assert forall|i: int| low <= i < high implies #[trigger] places.contains(i) by {
                assert(places[i - low] == i);
            }
        }
        return (run, Ghost(places));
    }
    let half: usize = run.len() / 2;
    let mut left = run;
    let right = left.split_off(half);
    let ghost middle = low + half;
    proof {
        assert(left@ =~= items.subrange(low, middle));
        assert(right@ =~= items.subrange(middle, high));
    }
    let (left, Ghost(left_places)) = sort_run(left, Ghost(items), Ghost(low), Ghost(middle));
    let (right, Ghost(right_places)) = sort_run(right, Ghost(items), Ghost(middle), Ghost(high));
    merge(
        left,
        right,
        Ghost(items),
        Ghost(left_places),
        Ghost(right_places),
        Ghost(low),
        Ghost(middle),
        Ghost(high),
    )
}

/// Sorts the items; ties keep the order that they had.
pub fn stable_sort<T: Ranked>(items: Vec<T>) -> (r: Vec<T>)
    ensures
        r@ == sorted(items@),
        is_stable_order(items@, stable_order(items@)),
{
    let ghost all = items@;
    proof {
        assert(all.subrange(0, all.len() as int) =~= all);
    }
    let (run, Ghost(places)) = sort_run(items, Ghost(all), Ghost(0int), Ghost(all.len() as int));
    proof {
        law_sorted_by_any_order(all, places);
        assert(run@ =~= sorted(all));
    }
    run
}

/// Whether position `i` of `items` comes before position `j` once the items
/// are sorted by the given order: ties keep their positions.
pub open spec fn precedes_by<A>(
    items: Seq<A>,
    before: spec_fn(A, A) -> bool,
    i: int,
    j: int,
) -> bool {
    before(items[i], items[j]) || (!before(items[j], items[i]) && i < j)
}

/// Whether `order` lists every position of `items` once, sorted by the given
/// order.
pub open spec fn is_order_by<A>(
    items: Seq<A>,
    before: spec_fn(A, A) -> bool,
    order: Seq<int>,
) -> bool {
    &&& order.len() == items.len()
    &&& forall|k: int| 0 <= k < order.len() ==> 0 <= #[trigger] order[k] < items.len()
    &&& forall|i: int| 0 <= i < items.len() ==> #[trigger] order.contains(i)
    &&& forall|a: int, b: int|
        0 <= a < b < order.len() ==> precedes_by(
            items,
            before,
            #[trigger] order[a],
            #[trigger] order[b],
        )
}

/// The positions of `items`, sorted by the given order.
pub open spec fn order_by<A>(items: Seq<A>, before: spec_fn(A, A) -> bool) -> Seq<int> {
    choose|order: Seq<int>| is_order_by(items, before, order)
}

/// The items sorted by the given order; ties keep the order that they had.
pub open spec fn sorted_by<A>(items: Seq<A>, before: spec_fn(A, A) -> bool) -> Seq<A> {
    order_by(items, before).map_values(|i: int| items[i])
}

/// The order is one in which two values never have to stand before each other,
/// and in which ties behave like ties.
pub open spec fn is_ranking<A>(before: spec_fn(A, A) -> bool) -> bool {
    &&& forall|a: A, b: A| #[trigger] before(a, b) ==> !before(b, a)
    &&& forall|a: A, b: A, c: A|
        !(#[trigger] before(a, b)) && !(#[trigger] before(b, c)) ==> !before(a, c)
}

proof fn lemma_precedes_by_asymmetric<A>(
    items: Seq<A>,
    before: spec_fn(A, A) -> bool,
    i: int,
    j: int,
)
    requires
        is_ranking(before),
    ensures
        precedes_by(items, before, i, j) ==> !precedes_by(items, before, j, i),
        i != j ==> precedes_by(items, before, i, j) || precedes_by(items, before, j, i),
{
    assert(before(items[i], items[j]) ==> !before(items[j], items[i]));
}

proof fn lemma_precedes_by_transitive<A>(
    items: Seq<A>,
    before: spec_fn(A, A) -> bool,
    i: int,
    j: int,
    k: int,
)
    requires
        is_ranking(before),
        precedes_by(items, before, i, j),
        precedes_by(items, before, j, k),
    ensures
        precedes_by(items, before, i, k),
{
    let (a, b, c) = (items[i], items[j], items[k]);
    assert(before(a, b) ==> !before(b, a));
    assert(before(b, c) ==> !before(c, b));
    assert(before(a, c) ==> !before(c, a));
    // `c` does not stand before `b`, nor `b` before `a`.
    assert(!before(c, b) && !before(b, a) ==> !before(c, a));
    if !before(a, c) {
        // A tie between `a` and `c` is a tie of all three.
        assert(!before(a, c) && !before(c, b) ==> !before(a, b));
        assert(!before(b, a) && !before(a, c) ==> !before(b, c));
    }
}

/// How many of the places in `order`, from `k` on, come before `last`.
proof fn lemma_cut<A>(
    items: Seq<A>,
    before: spec_fn(A, A) -> bool,
    order: Seq<int>,
    last: int,
    k: int,
) -> (p: int)
    requires
        0 <= k <= order.len(),
        forall|a: int| 0 <= a < k ==> precedes_by(items, before, #[trigger] order[a], last),
    ensures
        k <= p <= order.len(),
        forall|a: int| 0 <= a < p ==> precedes_by(items, before, #[trigger] order[a], last),
        p < order.len() ==> !precedes_by(items, before, order[p], last),
    decreases order.len() - k,
{
    if k < order.len() && precedes_by(items, before, order[k], last) {
        lemma_cut(items, before, order, last, k + 1)
    } else {
        k
    }
}

proof fn lemma_some_order_by<A>(items: Seq<A>, before: spec_fn(A, A) -> bool) -> (order: Seq<int>)
    requires
        is_ranking(before),
    ensures
        is_order_by(items, before, order),
    decreases items.len(),
{
    if items.len() == 0 {
        Seq::empty()
    } else {
        let shorter = items.drop_last();
        let last = items.len() - 1;
        let old_order = lemma_some_order_by(shorter, before);
        assert forall|a: int, b: int| 0 <= a < b < old_order.len() implies precedes_by(
            items,
            before,
            #[trigger] old_order[a],
            #[trigger] old_order[b],
        ) by {
            assert(precedes_by(shorter, before, old_order[a], old_order[b]));
        }
        let p = lemma_cut(items, before, old_order, last, 0);
        let order = old_order.insert(p, last);
        assert forall|b: int| p <= b < old_order.len() implies precedes_by(
            items,
            before,
            last,
            #[trigger] old_order[b],
        ) by {
            lemma_precedes_by_asymmetric(items, before, old_order[p], last);
            if b > p {
                lemma_precedes_by_transitive(items, before, last, old_order[p], old_order[b]);
            }
        }
        assert forall|i: int| 0 <= i < items.len() implies #[trigger] order.contains(i) by {
            if i == last {
                assert(order[p] == last);
            } else {
                assert(old_order.contains(i));
                let k = choose|k: int| 0 <= k < old_order.len() && old_order[k] == i;
                if k < p {
                    assert(order[k] == i);
                } else {
                    assert(order[k + 1] == i);
                }
            }
        }
        order
    }
}

proof fn lemma_some_order<T: Ranked>(items: Seq<T>) -> (order: Seq<int>)
    ensures
        is_stable_order(items, order),
{
    let before = |a: T, b: T| a.before(b);
    assert forall|a: T, b: T| #[trigger] before(a, b) implies !before(b, a) by {
        T::before_is_asymmetric(a, b);
    }
    assert forall|a: T, b: T, c: T|
        !(#[trigger] before(a, b)) && !(#[trigger] before(b, c)) implies !before(a, c) by {
        T::before_is_consistent(a, b, c);
    }
    let order = lemma_some_order_by(items, before);
    assert forall|a: int, b: int| 0 <= a < b < order.len() implies precedes(
        items,
        #[trigger] order[a],
        #[trigger] order[b],
    ) by {
        assert(precedes_by(items, before, order[a], order[b]));
    }
    order
}

/// Whatever order is asked for, the sorted items are the same items, and none
/// stands before an earlier one.
pub proof fn law_sorted_by_is_a_sorted_rearrangement<A>(
    items: Seq<A>,
    before: spec_fn(A, A) -> bool,
)
    requires
        is_ranking(before),
    ensures
        is_order_by(items, before, order_by(items, before)),
        sorted_by(items, before).len() == items.len(),
        sorted_by(items, before).to_multiset() == items.to_multiset(),
        forall|a: int, b: int|
            0 <= a < b < items.len() ==> !before(
                #[trigger] sorted_by(items, before)[b],
                #[trigger] sorted_by(items, before)[a],
            ),
{
    let _ = lemma_some_order_by(items, before);
    let order = order_by(items, before);
    let listed = sorted_by(items, before);
    assert forall|a: int, b: int| 0 <= a < b < items.len() implies !before(
        #[trigger] listed[b],
        #[trigger] listed[a],
    ) by {
        assert(precedes_by(items, before, order[a], order[b]));
        assert(before(items[order[a]], items[order[b]]) ==> !before(
            items[order[b]],
            items[order[a]],
        ));
    }
    assert forall|a: int, b: int| 0 <= a < b < order.len() implies order[a] != order[b] by {
        lemma_precedes_by_asymmetric(items, before, order[a], order[b]);
    }
    lemma_same_items(items, order, listed);
}

/// A list of the items at every place, each once, holds the same items.
proof fn lemma_same_items<A>(items: Seq<A>, order: Seq<int>, listed: Seq<A>)
    requires
        order.len() == items.len(),
        listed == order.map_values(|i: int| items[i]),
        forall|k: int| 0 <= k < order.len() ==> 0 <= #[trigger] order[k] < items.len(),
        forall|i: int| 0 <= i < items.len() ==> #[trigger] order.contains(i),
        forall|a: int, b: int| 0 <= a < b < order.len() ==> order[a] != order[b],
    ensures
        listed.to_multiset() == items.to_multiset(),
    decreases items.len(),
{
    broadcast use vstd::seq_lib::group_to_multiset_ensures;

    if items.len() > 0 {
        let last = items.len() - 1;
        assert(order.contains(last));
        let k = choose|k: int| 0 <= k < order.len() && order[k] == last;
        let fewer = items.drop_last();
        let shorter = order.remove(k);
        let rest = listed.remove(k);
        assert forall|a: int| 0 <= a < shorter.len() implies 0 <= #[trigger] shorter[a]
            < fewer.len() by {
            if a < k {
                assert(shorter[a] == order[a]);
            } else {
                assert(shorter[a] == order[a + 1]);
            }
        }
        assert forall|i: int| 0 <= i < fewer.len() implies #[trigger] shorter.contains(i) by {
            assert(order.contains(i));
            let at = choose|at: int| 0 <= at < order.len() && order[at] == i;
            if at < k {
                assert(shorter[at] == i);
            } else {
                assert(shorter[at - 1] == i);
            }
        }
        assert forall|a: int, b: int| 0 <= a < b < shorter.len() implies shorter[a]
            != shorter[b] by {
            let up = |at: int|
                if at < k {
                    at
                } else {
                    at + 1
                };
            assert(shorter[a] == order[up(a)] && shorter[b] == order[up(b)]);
        }
        assert(rest =~= shorter.map_values(|i: int| fewer[i]));
        lemma_same_items(fewer, shorter, rest);
        assert(items =~= fewer.push(items[last]));
        assert(listed =~= rest.insert(k, items[last]));
        assert(listed[k] == items[last]);
        assert(fewer.push(items[last]).to_multiset() =~= fewer.to_multiset().insert(items[last]));
        assert(listed.remove(k).to_multiset() =~= listed.to_multiset().remove(listed[k]));
        assert(listed.to_multiset().contains(listed[k]));
        assert(listed.to_multiset() =~= listed.to_multiset().remove(listed[k]).insert(listed[k]));
    } else {
        assert(listed =~= items);
    }
}

/// Every list has a sorted order, so `sorted` is a rearrangement of its
/// argument in which no item stands before an earlier one.
pub proof fn law_sorted_is_a_sorted_rearrangement<T: Ranked>(items: Seq<T>)
    ensures
        is_stable_order(items, stable_order(items)),
        sorted(items).len() == items.len(),
        sorted(items).to_multiset() == items.to_multiset(),
        forall|i: int| 0 <= i < items.len() ==> sorted(items).contains(#[trigger] items[i]),
        forall|k: int| 0 <= k < items.len() ==> items.contains(#[trigger] sorted(items)[k]),
        forall|a: int, b: int|
            0 <= a < b < items.len() ==> !(#[trigger] sorted(items)[b]).before(
                #[trigger] sorted(items)[a],
            ),
{
    let order = lemma_some_order(items);
    law_sorted_by_any_order(items, order);
    assert forall|a: int, b: int| 0 <= a < b < order.len() implies order[a] != order[b] by {
        assert(precedes(items, order[a], order[b]));
        lemma_precedes_asymmetric(items, order[a], order[b]);
    }
    lemma_same_items(items, order, sorted(items));
    assert forall|i: int| 0 <= i < items.len() implies sorted(items).contains(
        #[trigger] items[i],
    ) by {
        assert(order.contains(i));
        let k = choose|k: int| 0 <= k < order.len() && order[k] == i;
        assert(sorted(items)[k] == items[i]);
    }
    assert forall|k: int| 0 <= k < items.len() implies items.contains(
        #[trigger] sorted(items)[k],
    ) by {
        assert(sorted(items)[k] == items[order[k]]);
    }
    assert forall|a: int, b: int| 0 <= a < b < items.len() implies !(#[trigger] sorted(
        items,
    )[b]).before(#[trigger] sorted(items)[a]) by {
        assert(precedes(items, order[a], order[b]));
        T::before_is_asymmetric(items[order[a]], items[order[b]]);
    }
}

/// Sorting values and sorting what they stand for comes to the same.
pub proof fn law_sorting_respects_views<T: Ranked, A>(
    items: Seq<T>,
    seen: spec_fn(T) -> A,
    before: spec_fn(A, A) -> bool,
)
    requires
        forall|a: T, b: T| #[trigger] before(seen(a), seen(b)) == a.before(b),
    ensures
        sorted(items).map_values(seen) == sorted_by(items.map_values(seen), before),
{
    let views = items.map_values(seen);
    let one = lemma_some_order(items);
    law_sorted_by_any_order(items, one);
    assert forall|order: Seq<int>| #[trigger]
        is_order_by(views, before, order) == is_stable_order(items, order) by {
        assert forall|i: int, j: int|
            0 <= i < items.len() && 0 <= j < items.len() implies #[trigger] precedes_by(
            views,
            before,
            i,
            j,
        ) == precedes(items, i, j) by {
            assert(before(seen(items[i]), seen(items[j])) == items[i].before(items[j]));
            assert(before(seen(items[j]), seen(items[i])) == items[j].before(items[i]));
        }
        if is_stable_order(items, order) {
            assert forall|a: int, b: int| 0 <= a < b < order.len() implies precedes_by(
                views,
                before,
                #[trigger] order[a],
                #[trigger] order[b],
            ) by {
                assert(precedes(items, order[a], order[b]));
            }
        }
        if is_order_by(views, before, order) {
            assert forall|a: int, b: int| 0 <= a < b < order.len() implies precedes(
                items,
                #[trigger] order[a],
                #[trigger] order[b],
            ) by {
                assert(precedes_by(views, before, order[a], order[b]));
            }
        }
    }
    assert(is_order_by(views, before, one));
    let two = order_by(views, before);
    law_stable_order_is_unique(items, one, two);
    assert(sorted(items).map_values(seen) =~= sorted_by(views, before));
}

impl Ranked for u128 {
    open spec fn before(self, other: u128) -> bool {
        self < other
    }

    proof fn before_is_asymmetric(a: u128, b: u128) {
    }

    proof fn before_is_consistent(a: u128, b: u128, c: u128) {
    }

    fn stands_before(&self, other: &u128) -> (r: bool) {
        *self < *other
    }
}

/// Of two items of which neither comes before the other, the one that stood first
/// stands first in the sorted list; and what comes before another stands before it.
pub proof fn law_ties_keep_their_order<T: Ranked>(items: Seq<T>, i: int, j: int)
    requires
        0 <= i < items.len(),
        0 <= j < items.len(),
        items[i].before(items[j]) || (!items[j].before(items[i]) && i < j),
    ensures
        exists|p: int, q: int|
            0 <= p < q < sorted(items).len() && #[trigger] stable_order(items)[p] == i
                && #[trigger] stable_order(items)[q] == j && sorted(items)[p] == items[i]
                && sorted(items)[q] == items[j],
{
    let _ = lemma_some_order(items);
    let order = stable_order(items);
    assert(is_stable_order(items, order));
    assert(order.contains(i) && order.contains(j));
    let p = choose|p: int| 0 <= p < order.len() && order[p] == i;
    let q = choose|q: int| 0 <= q < order.len() && order[q] == j;
    assert(precedes(items, i, j));
    if q < p {
        assert(precedes(items, order[q], order[p]));
        lemma_precedes_asymmetric(items, i, j);
    }
    if p == q {
        T::before_is_asymmetric(items[i], items[j]);
    }
    assert(sorted(items)[p] == items[i] && sorted(items)[q] == items[j]);
    assert(stable_order(items)[p] == i && stable_order(items)[q] == j);
}

} // verus!
