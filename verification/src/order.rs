//! Sorting.

use crate::topology::ints;
use vstd::prelude::*;
use vstd::relations::total_ordering;
use vstd::seq_lib::lemma_sorted_unique;

verus! {

/// The natural order of numbers.
pub open spec fn number_order() -> spec_fn(u64, u64) -> bool {
    |a: u64, b: u64| a <= b
}

/// Numbers in ascending order.
pub open spec fn ascending(s: Seq<u64>) -> Seq<u64> {
    s.sort_by(number_order())
}

/// Inserting an element into a sequence adds it to the multiset of elements.
pub proof fn lemma_insert_multiset<A>(s: Seq<A>, at: int, x: A)
    requires
        0 <= at <= s.len(),
    ensures
        s.insert(at, x).to_multiset() == s.to_multiset().insert(x),
{
    broadcast use vstd::seq_lib::group_to_multiset_ensures;

    let front = s.take(at);
    let back = s.skip(at);
    vstd::seq_lib::lemma_multiset_commutative(front, back);
    vstd::seq_lib::lemma_multiset_commutative(front, seq![x] + back);
    vstd::seq_lib::lemma_multiset_commutative(seq![x], back);
    assert(front + back =~= s);
    assert(front + (seq![x] + back) =~= s.insert(at, x));
    assert(seq![x] =~= Seq::<A>::empty().push(x));
    assert(seq![x].to_multiset() =~= Seq::<A>::empty().to_multiset().insert(x));
    assert(s.insert(at, x).to_multiset() =~= s.to_multiset().insert(x));
}

/// A sorted copy of a list of numbers.
pub fn sort_numbers(list: &[u64]) -> (r: Vec<u64>)
    ensures
        r@ == ascending(list@),
        r@.len() == list@.len(),
        forall|i: int, j: int| 0 <= i <= j < r@.len() ==> r@[i] <= r@[j],
        r@.to_multiset() == list@.to_multiset(),
{
    broadcast use vstd::seq_lib::group_to_multiset_ensures;

    let mut r: Vec<u64> = Vec::new();
    assert(r@ =~= list@.take(0));
    for n in 0..list.len()
        invariant
            r@.len() == n,
            forall|i: int, j: int| 0 <= i <= j < r@.len() ==> r@[i] <= r@[j],
            r@.to_multiset() == list@.take(n as int).to_multiset(),
    {
        let x: u64 = list[n];
        let mut at: usize = r.len();
        while at > 0 && r[at - 1] > x
            invariant
                at <= r.len(),
                forall|i: int, j: int| 0 <= i <= j < r@.len() ==> r@[i] <= r@[j],
                forall|k: int| at <= k < r@.len() ==> r@[k] > x,
            decreases at,
        {
            at -= 1;
        }
        let ghost before = r@;
        r.insert(at, x);
        proof {
            broadcast use vstd::seq_lib::group_to_multiset_ensures;

            lemma_insert_multiset(before, at as int, x);
            assert(list@.take(n + 1) =~= list@.take(n as int).push(x));
        }
    }
    proof {
        assert(list@.take(list@.len() as int) =~= list@);
        let leq = number_order();
        assert(total_ordering(leq));
        list@.lemma_sort_by_ensures(leq);
        lemma_sorted_unique(r@, ascending(list@), leq);
    }
    r
}

/// Numbers as mathematical integers.
pub open spec fn whole(ranks: Seq<i128>) -> Seq<int> {
    Seq::new(ranks.len(), |i: int| ranks[i] as int)
}

/// Whether the item at `i` goes before the one at `j`: by higher rank, then by position.
pub open spec fn outranks(ranks: Seq<int>, i: int, j: int) -> bool {
    ranks[i] > ranks[j] || (ranks[i] == ranks[j] && i < j)
}

/// Whether an order lists the positions of all ranks, each once, highest rank first, and keeps
/// equal ranks in their order.
pub open spec fn is_descending(ranks: Seq<int>, order: Seq<int>) -> bool {
    &&& order.len() == ranks.len()
    &&& forall|k: int| 0 <= k < order.len() ==> 0 <= #[trigger] order[k] < ranks.len()
    &&& forall|a: int, b: int|
        0 <= a < b < order.len() ==> outranks(ranks, #[trigger] order[a], #[trigger] order[b])
}

/// The positions of some ranks, highest rank first, equal ranks in their order.
pub open spec fn descending(ranks: Seq<int>) -> Seq<int> {
    choose|order: Seq<int>| #[trigger] is_descending(ranks, order)
}

/// The positions that go before the one at `x`.
spec fn ahead_of(ranks: Seq<int>, x: int) -> Set<int> {
    Set::new(|y: int| 0 <= y < ranks.len() && outranks(ranks, y, x))
}

/// Where a rank goes among the first `m` items of a descending order.
proof fn lemma_place(ranks: Seq<int>, order: Seq<int>, rank: int, m: int) -> (at: int)
    requires
        is_descending(ranks, order),
        0 <= m <= order.len(),
    ensures
        0 <= at <= m,
        forall|k: int| 0 <= k < at ==> ranks[#[trigger] order[k]] >= rank,
        forall|k: int| at <= k < m ==> ranks[#[trigger] order[k]] < rank,
    decreases m,
{
    if m == 0 {
        0
    } else {
        let at = lemma_place(ranks, order, rank, m - 1);
        if at < m - 1 {
            assert(outranks(ranks, order[at], order[m - 1]));
            at
        } else if ranks[order[m - 1]] >= rank {
            m
        } else {
            m - 1
        }
    }
}

/// There is a descending order.
pub proof fn lemma_descending_exists(ranks: Seq<int>)
    ensures
        is_descending(ranks, descending(ranks)),
    decreases ranks.len(),
{
    if ranks.len() == 0 {
        assert(is_descending(ranks, seq![]));
    } else {
        let front = ranks.drop_last();
        let n = front.len() as int;
        lemma_descending_exists(front);
        let order = descending(front);
        let at = lemma_place(front, order, ranks[n], n);
        let more = order.insert(at, n);
        assert forall|a: int, b: int| 0 <= a < b < more.len() implies outranks(
            ranks,
            #[trigger] more[a],
            #[trigger] more[b],
        ) by {
            let i = if a < at { a } else { a - 1 };
            let j = if b < at { b } else { b - 1 };
            if a != at {
                assert(more[a] == order[i]);
            }
            if b != at {
                assert(more[b] == order[j]);
            }
            if a != at && b != at {
                assert(outranks(front, order[i], order[j]));
            }
        }
        assert forall|k: int| 0 <= k < more.len() implies 0 <= #[trigger] more[k] < ranks.len() by {
            if k != at {
                assert(more[k] == order[if k < at { k } else { k - 1 }]);
            }
        }
        assert(is_descending(ranks, more));
    }
}

/// Every position is in a descending order.
pub proof fn lemma_descending_complete(ranks: Seq<int>, order: Seq<int>, x: int)
    requires
        is_descending(ranks, order),
        0 <= x < ranks.len(),
    ensures
        order.contains(x),
{
    assert(order.no_duplicates());
    order.unique_seq_to_set();
    let all = Set::new(|y: int| 0 <= y < ranks.len());
    vstd::set_lib::lemma_int_range(0, ranks.len() as int);
    assert(all =~= vstd::set_lib::set_int_range(0, ranks.len() as int));
    assert(order.to_set().subset_of(all)) by {
        assert forall|y: int| order.to_set().contains(y) implies all.contains(y) by {
            let k = order.index_of(y);
            assert(order[k] == y);
        }
    }
    vstd::set_lib::lemma_subset_equality(order.to_set(), all);
    assert(all.contains(x));
}

/// In a descending order, what stands before an item is what outranks it.
proof fn lemma_rank_is_position(ranks: Seq<int>, order: Seq<int>, k: int)
    requires
        is_descending(ranks, order),
        0 <= k < order.len(),
    ensures
        ahead_of(ranks, order[k]).finite(),
        ahead_of(ranks, order[k]).len() == k,
{
    let front = order.take(k);
    let x = order[k];
    assert(front.to_set() =~= ahead_of(ranks, x)) by {
        assert forall|y: int| front.to_set().contains(y) <==> ahead_of(ranks, x).contains(y) by {
            if front.contains(y) {
                let j = front.index_of(y);
                assert(order[j] == y);
                assert(outranks(ranks, order[j], order[k]));
            }
            if ahead_of(ranks, x).contains(y) {
                lemma_descending_complete(ranks, order, y);
                let j = order.index_of(y);
                assert(order[j] == y);
                if j > k {
                    assert(outranks(ranks, order[k], order[j]));
                }
                assert(j < k);
                assert(front[j] == y);
            }
        }
    }
    assert(front.no_duplicates()) by {
        assert forall|a: int, b: int| 0 <= a < b < front.len() implies front[a] != front[b] by {
            assert(outranks(ranks, order[a], order[b]));
        }
    }
    front.unique_seq_to_set();
}

/// There is only one descending order.
pub proof fn lemma_descending_unique(ranks: Seq<int>, order: Seq<int>)
    requires
        is_descending(ranks, order),
    ensures
        descending(ranks) == order,
{
    let other = descending(ranks);
    assert(is_descending(ranks, other));
    assert forall|k: int| 0 <= k < order.len() implies order[k] == other[k] by {
        lemma_rank_is_position(ranks, order, k);
        lemma_descending_complete(ranks, other, order[k]);
        let j = other.index_of(order[k]);
        assert(other[j] == order[k]);
        lemma_rank_is_position(ranks, other, j);
    }
    assert(order =~= other);
}

/// The positions of some ranks, highest rank first, equal ranks in their order.
pub fn sort_descending(ranks: &Vec<i128>) -> (r: Vec<usize>)
    ensures
        ints(r@) == descending(whole(ranks@)),
        is_descending(whole(ranks@), ints(r@)),
{
    let ghost all = whole(ranks@);
    let mut r: Vec<usize> = Vec::new();
    for i in 0..ranks.len()
        invariant
            all == whole(ranks@),
            r@.len() == i,
            forall|k: int| 0 <= k < r@.len() ==> #[trigger] r@[k] < i,
            forall|a: int, b: int|
                0 <= a < b < r@.len() ==> outranks(
                    all,
                    #[trigger] r@[a] as int,
                    #[trigger] r@[b] as int,
                ),
    {
        let mut at: usize = r.len();
        while at > 0 && ranks[r[at - 1]] < ranks[i]
            invariant
                at <= r@.len(),
                i < ranks@.len(),
                all == whole(ranks@),
                forall|k: int| 0 <= k < r@.len() ==> #[trigger] r@[k] < i,
                forall|k: int| at <= k < r@.len() ==> ranks@[#[trigger] r@[k] as int] < ranks@[i as int],
            ensures
                at <= r@.len(),
                at > 0 ==> ranks@[r@[at - 1] as int] >= ranks@[i as int],
                forall|k: int| at <= k < r@.len() ==> ranks@[#[trigger] r@[k] as int] < ranks@[i as int],
            decreases at,
        {
            at = at - 1;
        }
        let ghost before = r@;
        proof {
            assert forall|a: int| 0 <= a < at implies outranks(
                all,
                #[trigger] before[a] as int,
                i as int,
            ) by {
                if a < at - 1 {
                    assert(outranks(all, before[a] as int, before[at - 1] as int));
                }
            }
        }
        r.insert(at, i);
    }
    proof {
        let order = ints(r@);
        assert forall|a: int, b: int| 0 <= a < b < order.len() implies outranks(
            all,
            #[trigger] order[a],
            #[trigger] order[b],
        ) by {
            assert(order[a] == r@[a] as int && order[b] == r@[b] as int);
        }
        lemma_descending_unique(all, order);
    }
    r
}

/// Whether a list is in some order: each item goes before all that follow.
pub open spec fn in_order(list: Seq<int>, first: spec_fn(int, int) -> bool) -> bool {
    forall|a: int, b: int| 0 <= a < b < list.len() ==> #[trigger] first(list[a], list[b])
}

/// What stands before an item of a list is what goes before it.
proof fn lemma_front_is_ahead(list: Seq<int>, first: spec_fn(int, int) -> bool, k: int)
    requires
        in_order(list, first),
        forall|x: int, y: int| #[trigger] first(x, y) ==> !first(y, x),
        0 <= k < list.len(),
    ensures
        list.take(k).to_set() == Set::new(|y: int| list.contains(y) && first(y, list[k])),
        list.take(k).to_set().len() == k,
{
    let front = list.take(k);
    let ahead = Set::new(|y: int| list.contains(y) && first(y, list[k]));
    assert forall|y: int| front.to_set().contains(y) <==> ahead.contains(y) by {
        if front.contains(y) {
            let j = front.index_of(y);
            assert(list[j] == y);
            assert(first(list[j], list[k]));
        }
        if ahead.contains(y) {
            let j = list.index_of(y);
            assert(list[j] == y);
            if j > k {
                assert(first(list[k], list[j]));
            } else if j == k {
                assert(first(list[k], list[k]));
            }
            assert(front[j] == y);
        }
    }
    assert(front.to_set() =~= ahead);
    assert forall|a: int, b: int| 0 <= a < b < front.len() implies front[a] != front[b] by {
        assert(first(list[a], list[b]));
        if list[a] == list[b] {
            assert(first(list[b], list[a]));
        }
    }
    front.unique_seq_to_set();
}

/// Two lists of the same items in the same order are the same.
pub proof fn lemma_order_unique(
    one: Seq<int>,
    other: Seq<int>,
    first: spec_fn(int, int) -> bool,
)
    requires
        in_order(one, first),
        in_order(other, first),
        forall|x: int, y: int| #[trigger] first(x, y) ==> !first(y, x),
        forall|x: int| #[trigger] one.contains(x) <==> other.contains(x),
    ensures
        one == other,
{
    assert forall|k: int| 0 <= k < one.len() implies k < other.len() && #[trigger] one[k]
        == other[k] by {
        assert(one.contains(one[k]));
        let j = other.index_of(one[k]);
        assert(other[j] == one[k]);
        lemma_front_is_ahead(one, first, k);
        lemma_front_is_ahead(other, first, j);
        assert(one.take(k).to_set() =~= other.take(j).to_set());
    }
    if one.len() < other.len() {
        let k = one.len() as int;
        assert(other.contains(other[k]));
        assert(one.contains(other[k]));
        let j = one.index_of(other[k]);
        assert(one[j] == other[k]);
        assert(other[j] == one[j]);
        assert(first(other[j], other[k]));
        assert(first(other[k], other[j]));
    } else if one.len() > other.len() {
        let extra = one[other.len() as int];
        assert(extra == other[other.len() as int]);
    }
    assert(one =~= other);
}

/// Whether the item at `i` has the highest rank, and is the last that does.
pub open spec fn is_last_highest(ranks: Seq<int>, i: int) -> bool {
    &&& 0 <= i < ranks.len()
    &&& forall|j: int|
        0 <= j < ranks.len() ==> #[trigger] ranks[j] <= ranks[i] && (j > i ==> ranks[j] < ranks[i])
}

/// The position of the last of the highest ranks.
pub open spec fn last_highest(ranks: Seq<int>) -> int {
    choose|i: int| #[trigger] is_last_highest(ranks, i)
}

/// The position of the last of the highest ranks.
pub fn find_last_highest(ranks: &Vec<i128>) -> (r: usize)
    requires
        ranks@.len() > 0,
    ensures
        r == last_highest(whole(ranks@)),
        r < ranks@.len(),
        is_last_highest(whole(ranks@), r as int),
{
    let mut best: usize = 0;
    for i in 1..ranks.len()
        invariant
            best < i <= ranks@.len(),
            forall|j: int|
                0 <= j < i ==> #[trigger] ranks@[j] <= ranks@[best as int] && (j > best
                    ==> ranks@[j] < ranks@[best as int]),
    {
        if ranks[i] >= ranks[best] {
            best = i;
        }
    }
    proof {
        let all = whole(ranks@);
        assert forall|j: int| 0 <= j < all.len() implies #[trigger] all[j] <= all[best as int] && (j
            > best ==> all[j] < all[best as int]) by {
            assert(ranks@[j] <= ranks@[best as int]);
        }
        assert(is_last_highest(all, best as int));
        let other = last_highest(all);
        assert(is_last_highest(all, other));
        if other != best {
            assert(all[other] <= all[best as int]);
            assert(all[best as int] <= all[other]);
        }
    }
    best
}

/// Where there is a rank there is a last highest one.
pub proof fn lemma_last_highest_exists(ranks: Seq<int>)
    requires
        ranks.len() > 0,
    ensures
        is_last_highest(ranks, last_highest(ranks)),
    decreases ranks.len(),
{
    let n = ranks.len() - 1;
    if n == 0 {
        assert(is_last_highest(ranks, 0));
    } else {
        let front = ranks.drop_last();
        lemma_last_highest_exists(front);
        let best = last_highest(front);
        assert(front[best] == ranks[best]);
        assert forall|j: int| 0 <= j < n implies #[trigger] ranks[j] <= ranks[best] && (j > best
            ==> ranks[j] < ranks[best]) by {
            assert(front[j] == ranks[j]);
        }
        if ranks[n] >= ranks[best] {
            assert(is_last_highest(ranks, n));
        } else {
            assert(is_last_highest(ranks, best));
        }
    }
}

/// Sorting keeps every number, as often as it occurs, and puts none before a smaller one.
pub proof fn law_sorting_keeps_everything(s: Seq<u64>)
    ensures
        ascending(s).to_multiset() == s.to_multiset(),
        forall|i: int, j: int|
            0 <= i < j < ascending(s).len() ==> #[trigger] ascending(s)[i] <= #[trigger] ascending(s)[j],
        ascending(s).len() == s.len(),
{
    assert(vstd::relations::total_ordering(number_order()));
    s.lemma_sort_by_ensures(number_order());
    let sorted = ascending(s);
    assert forall|i: int, j: int| 0 <= i < j < sorted.len() implies #[trigger] sorted[i]
        <= #[trigger] sorted[j] by {
        assert(number_order()(sorted[i], sorted[j]));
    }
    vstd::seq_lib::to_multiset_len(s);
    vstd::seq_lib::to_multiset_len(sorted);
}

} // verus!
