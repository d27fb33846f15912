//! Stable ordering of a sequence by an integer rank.

use vstd::prelude::*;

verus! {

/// `sorted` with `item` put behind the last element whose rank is not above
/// the item's, so that an item goes behind the items of its own rank.
pub open spec fn insert_ranked<T>(sorted: Seq<T>, item: T, rank: spec_fn(T) -> int) -> Seq<T>
    decreases sorted.len(),
{
    if sorted.len() == 0 || rank(sorted.last()) <= rank(item) {
        sorted.push(item)
    } else {
        insert_ranked(sorted.drop_last(), item, rank).push(sorted.last())
    }
}

/// `items` by rising rank; items of one rank keep the order they came in.
pub open spec fn stable_sort<T>(items: Seq<T>, rank: spec_fn(T) -> int) -> Seq<T>
    decreases items.len(),
{
    if items.len() == 0 {
        items
    } else {
        insert_ranked(stable_sort(items.drop_last(), rank), items.last(), rank)
    }
}

/// The ranks never fall from one element to the next.
pub open spec fn is_ordered<T>(items: Seq<T>, rank: spec_fn(T) -> int) -> bool {
    forall|i: int, j: int| 0 <= i < j < items.len() ==> rank(items[i]) <= rank(items[j])
}

/// The place of an inserted item: where every element behind `at` ranks
/// above the item and the element before `at`, if there is one, does not,
/// the item goes to `at`.
pub proof fn lemma_insert_ranked_at<T>(sorted: Seq<T>, item: T, rank: spec_fn(T) -> int, at: int)
    requires
        0 <= at <= sorted.len(),
        forall|k: int| at <= k < sorted.len() ==> rank(sorted[k]) > rank(item),
        at > 0 ==> rank(sorted[at - 1]) <= rank(item),
    ensures
        insert_ranked(sorted, item, rank) == sorted.insert(at, item),
    decreases sorted.len(),
{
    if at == sorted.len() {
        assert(sorted.insert(at, item) =~= sorted.push(item));
    } else {
        lemma_insert_ranked_at(sorted.drop_last(), item, rank, at);
        assert(sorted.drop_last().insert(at, item).push(sorted.last()) =~= sorted.insert(
            at,
            item,
        ));
    }
}

/// Some place takes the inserted item, and the other elements stay as they
/// were, in their order.
pub proof fn lemma_insert_ranked_somewhere<T>(sorted: Seq<T>, item: T, rank: spec_fn(T) -> int)
    ensures
        exists|at: int|
            0 <= at <= sorted.len() && #[trigger] sorted.insert(at, item) == insert_ranked(
                sorted,
                item,
                rank,
            ) && (at > 0 ==> rank(sorted[at - 1]) <= rank(item)) && (forall|k: int|
                at <= k < sorted.len() ==> rank(sorted[k]) > rank(item)),
    decreases sorted.len(),
{
    if sorted.len() == 0 || rank(sorted.last()) <= rank(item) {
        let at = sorted.len() as int;
        assert(sorted.insert(at, item) =~= sorted.push(item));
    } else {
        lemma_insert_ranked_somewhere(sorted.drop_last(), item, rank);
        let at = choose|at: int|
            0 <= at <= sorted.drop_last().len() && #[trigger] sorted.drop_last().insert(at, item)
                == insert_ranked(sorted.drop_last(), item, rank) && (at > 0 ==> rank(
                sorted.drop_last()[at - 1],
            ) <= rank(item)) && (forall|k: int|
                at <= k < sorted.drop_last().len() ==> rank(sorted.drop_last()[k]) > rank(item));
        assert(sorted.drop_last().insert(at, item).push(sorted.last()) =~= sorted.insert(
            at,
            item,
        ));
        assert forall|k: int| at <= k < sorted.len() implies rank(sorted[k]) > rank(item) by {
            if k < sorted.len() - 1 {
                assert(sorted.drop_last()[k] == sorted[k]);
            }
        }
    }
}

/// Inserting into an ordered sequence leaves it ordered.
pub proof fn lemma_insert_ranked_ordered<T>(sorted: Seq<T>, item: T, rank: spec_fn(T) -> int)
    requires
        is_ordered(sorted, rank),
    ensures
        is_ordered(insert_ranked(sorted, item, rank), rank),
{
    lemma_insert_ranked_somewhere(sorted, item, rank);
    let at = choose|at: int|
        0 <= at <= sorted.len() && #[trigger] sorted.insert(at, item) == insert_ranked(
            sorted,
            item,
            rank,
        ) && (at > 0 ==> rank(sorted[at - 1]) <= rank(item)) && (forall|k: int|
            at <= k < sorted.len() ==> rank(sorted[k]) > rank(item));
    let out = sorted.insert(at, item);
    assert forall|i: int, j: int| 0 <= i < j < out.len() implies rank(out[i]) <= rank(out[j]) by {
        if j < at {
        } else if j == at {
            assert(rank(sorted[i]) <= rank(sorted[at - 1]));
        } else if i < at {
            assert(out[j] == sorted[j - 1]);
        } else if i == at {
            assert(out[j] == sorted[j - 1]);
        } else {
            assert(out[i] == sorted[i - 1]);
            assert(out[j] == sorted[j - 1]);
        }
    }
}

/// A sorted sequence is ordered.
pub proof fn lemma_stable_sort_ordered<T>(items: Seq<T>, rank: spec_fn(T) -> int)
    ensures
        is_ordered(stable_sort(items, rank), rank),
    decreases items.len(),
{
    if items.len() > 0 {
        lemma_stable_sort_ordered(items.drop_last(), rank);
        lemma_insert_ranked_ordered(stable_sort(items.drop_last(), rank), items.last(), rank);
    }
}

/// Sorting neither adds nor drops an element.
pub proof fn lemma_stable_sort_permutes<T>(items: Seq<T>, rank: spec_fn(T) -> int)
    ensures
        stable_sort(items, rank).to_multiset() == items.to_multiset(),
        stable_sort(items, rank).len() == items.len(),
    decreases items.len(),
{
    broadcast use vstd::seq_lib::group_to_multiset_ensures;

    if items.len() > 0 {
        let before = stable_sort(items.drop_last(), rank);
        lemma_stable_sort_permutes(items.drop_last(), rank);
        lemma_insert_ranked_somewhere(before, items.last(), rank);
        let at = choose|at: int|
            0 <= at <= before.len() && #[trigger] before.insert(at, items.last()) == insert_ranked(
                before,
                items.last(),
                rank,
            ) && (at > 0 ==> rank(before[at - 1]) <= rank(items.last())) && (forall|k: int|
                at <= k < before.len() ==> rank(before[k]) > rank(items.last()));
        assert(before.insert(at, items.last()).to_multiset() == before.to_multiset().insert(
            items.last(),
        ));
        assert(items.drop_last().push(items.last()) =~= items);
        assert(items.to_multiset() == items.drop_last().to_multiset().insert(items.last()));
    }
}

/// What stands in a sorted sequence stands in the sequence that was sorted,
/// and the other way round.
pub proof fn lemma_stable_sort_members<T>(items: Seq<T>, rank: spec_fn(T) -> int)
    ensures
        forall|x: T| stable_sort(items, rank).contains(x) <==> items.contains(x),
{
    lemma_stable_sort_permutes(items, rank);
    assert forall|x: T| stable_sort(items, rank).contains(x) <==> items.contains(x) by {
        vstd::seq_lib::to_multiset_contains(stable_sort(items, rank), x);
        vstd::seq_lib::to_multiset_contains(items, x);
    }
}

/// Sorting a sequence in which nothing stands twice gives one in which
/// nothing stands twice.
pub proof fn lemma_stable_sort_distinct<T>(items: Seq<T>, rank: spec_fn(T) -> int)
    requires
        forall|i: int, j: int| 0 <= i < j < items.len() ==> items[i] != items[j],
    ensures
        forall|i: int, j: int|
            0 <= i < j < stable_sort(items, rank).len() ==> stable_sort(items, rank)[i]
                != stable_sort(items, rank)[j],
    decreases items.len(),
{
    if items.len() > 0 {
        let before = stable_sort(items.drop_last(), rank);
        lemma_stable_sort_distinct(items.drop_last(), rank);
        lemma_stable_sort_members(items.drop_last(), rank);
        lemma_insert_ranked_somewhere(before, items.last(), rank);
        let at = choose|at: int|
            0 <= at <= before.len() && #[trigger] before.insert(at, items.last()) == insert_ranked(
                before,
                items.last(),
                rank,
            ) && (at > 0 ==> rank(before[at - 1]) <= rank(items.last())) && (forall|k: int|
                at <= k < before.len() ==> rank(before[k]) > rank(items.last()));
        let out = before.insert(at, items.last());
        assert(!before.contains(items.last())) by {
            if before.contains(items.last()) {
                assert(items.drop_last().contains(items.last()));
                let k = choose|k: int|
                    0 <= k < items.drop_last().len() && items.drop_last()[k] == items.last();
                assert(items[k] != items[items.len() - 1]);
            }
        }
        assert forall|i: int, j: int| 0 <= i < j < out.len() implies out[i] != out[j] by {
            let a = if i < at {
                i
            } else {
                i - 1
            };
            let b = if j < at {
                j
            } else {
                j - 1
            };
            if i == at {
                assert(out[j] == before[b]);
                assert(before.contains(before[b]));
            } else if j == at {
                assert(out[i] == before[a]);
                assert(before.contains(before[a]));
            } else {
                assert(out[i] == before[a]);
                assert(out[j] == before[b]);
            }
        }
    }
}

} // verus!
