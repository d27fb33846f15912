//! The choice among finds that overlap: the find that starts first stays.

use crate::entity::{finds, Entity, Found};
use crate::order::{lemma_insert_ranked_at, lemma_stable_sort_members, stable_sort};
use vstd::prelude::*;

verus! {

/// The rank by which finds are sorted: the start offset.
pub open spec fn start_of() -> spec_fn(Found) -> int {
    |found: Found| found.start
}

/// Of finds sorted by start, those that stay: a find stays where it starts
/// at or behind the end of the last find that stayed.
pub open spec fn kept(sorted: Seq<Found>) -> Seq<Found>
    decreases sorted.len(),
{
    if sorted.len() == 0 {
        sorted
    } else {
        let before = kept(sorted.drop_last());
        let next = sorted.last();
        if before.len() == 0 || before.last().end <= next.start {
            before.push(next)
        } else {
            before
        }
    }
}

/// The finds that are accepted among `candidates`: sorted by start, finds
/// with one start in the order in which they came, and then thinned out so
/// that none overlaps an earlier one.
pub open spec fn resolved(candidates: Seq<Found>) -> Seq<Found> {
    kept(stable_sort(candidates, start_of()))
}

/// Each find ends before the next one starts.
pub open spec fn apart(entities: Seq<Found>) -> bool {
    forall|i: int, j: int| 0 <= i < j < entities.len() ==> entities[i].end <= entities[j].start
}

/// What stays was there before.
pub proof fn lemma_kept_members(sorted: Seq<Found>)
    ensures
        forall|found: Found| kept(sorted).contains(found) ==> sorted.contains(found),
    decreases sorted.len(),
{
    if sorted.len() > 0 {
        lemma_kept_members(sorted.drop_last());
        let before = kept(sorted.drop_last());
        assert forall|found: Found| kept(sorted).contains(found) implies sorted.contains(
            found,
        ) by {
            let i = choose|i: int| 0 <= i < kept(sorted).len() && kept(sorted)[i] == found;
            if i < before.len() {
                assert(before[i] == found);
                assert(before.contains(found));
                assert(sorted.drop_last().contains(found));
                let j = choose|j: int|
                    0 <= j < sorted.drop_last().len() && sorted.drop_last()[j] == found;
                assert(sorted[j] == found);
            } else {
                assert(sorted[sorted.len() - 1] == found);
            }
        }
    }
}

/// Where no find ends before it starts, the finds that stay lie apart.
pub proof fn lemma_kept_apart(sorted: Seq<Found>)
    requires
        forall|i: int| 0 <= i < sorted.len() ==> sorted[i].start <= sorted[i].end,
    ensures
        apart(kept(sorted)),
    decreases sorted.len(),
{
    if sorted.len() > 0 {
        let before = kept(sorted.drop_last());
        lemma_kept_apart(sorted.drop_last());
        lemma_kept_members(sorted.drop_last());
        if before.len() > 0 && before.last().end <= sorted.last().start {
            let out = before.push(sorted.last());
            assert forall|i: int, j: int| 0 <= i < j < out.len() implies out[i].end
                <= out[j].start by {
                if j == out.len() - 1 && i < before.len() - 1 {
                    assert(before[before.len() - 1] == before.last());
                    assert(before.contains(before.last()));
                    assert(sorted.drop_last().contains(before.last()));
                    let k = choose|k: int|
                        0 <= k < sorted.drop_last().len() && sorted.drop_last()[k]
                            == before.last();
                    assert(sorted[k].start <= sorted[k].end);
                    assert(before[i].end <= before[before.len() - 1].start);
                }
            }
        }
    }
}

/// The accepted finds are candidates, and they lie apart where no candidate
/// ends before it starts.
pub proof fn lemma_resolved(candidates: Seq<Found>)
    ensures
        forall|found: Found| resolved(candidates).contains(found) ==> candidates.contains(found),
        (forall|i: int| 0 <= i < candidates.len() ==> candidates[i].start <= candidates[i].end)
            ==> apart(resolved(candidates)),
{
    let sorted = stable_sort(candidates, start_of());
    lemma_stable_sort_members(candidates, start_of());
    lemma_kept_members(sorted);
    if forall|i: int| 0 <= i < candidates.len() ==> candidates[i].start <= candidates[i].end {
        assert forall|i: int| 0 <= i < sorted.len() implies sorted[i].start <= sorted[i].end by {
            assert(sorted.contains(sorted[i]));
            assert(candidates.contains(sorted[i]));
            let k = choose|k: int| 0 <= k < candidates.len() && candidates[k] == sorted[i];
            assert(candidates[k].start <= candidates[k].end);
        }
        lemma_kept_apart(sorted);
    }
}

/// The values of the first `n + 1` entities are those of the first `n` and
/// the value of the next.
pub proof fn lemma_finds_take(entities: Seq<Entity>, n: int)
    requires
        0 <= n < entities.len(),
    ensures
        finds(entities.take(n + 1)) == finds(entities.take(n)).push(entities[n]@),
        finds(entities.take(n + 1)).drop_last() == finds(entities.take(n)),
        finds(entities.take(n + 1)).last() == entities[n]@,
{
    assert(finds(entities.take(n + 1)) =~= finds(entities.take(n)).push(entities[n]@));
    assert(finds(entities.take(n + 1)).drop_last() =~= finds(entities.take(n)));
}

/// Sorts the candidates by start offset; candidates with one start keep
/// their order.
pub fn sort_by_start(candidates: Vec<Entity>) -> (sorted: Vec<Entity>)
    ensures
        finds(sorted@) == stable_sort(finds(candidates@), start_of()),
{
    let mut sorted: Vec<Entity> = Vec::new();
    let ghost all = candidates@;
    assert(finds(sorted@) =~= stable_sort(finds(all.take(0)), start_of()));
    for entity in it: candidates
        invariant
            it.seq() == all,
            finds(sorted@) == stable_sort(finds(all.take(it.index() as int)), start_of()),
    {
        let mut at: usize = sorted.len();
        while at > 0 && sorted[at - 1].start > entity.start
            invariant
                at <= sorted.len(),
                forall|k: int| at <= k < sorted.len() ==> sorted@[k].start > entity.start,
            decreases at,
        {
            at = at - 1;
        }
        proof {
            let n = it.index() as int;
            lemma_finds_take(all, n);
            assert(entity == all[n]);
            lemma_insert_ranked_at(finds(sorted@), entity@, start_of(), at as int);
            assert(finds(sorted@.insert(at as int, entity)) =~= finds(sorted@).insert(
                at as int,
                entity@,
            ));
        }
        sorted.insert(at, entity);
    }
    assert(all.take(all.len() as int) == all);
    sorted
}

/// Keeps, of candidates sorted by start, each one that starts at or behind
/// the end of the last one kept.
pub fn keep_apart(sorted: Vec<Entity>) -> (accepted: Vec<Entity>)
    ensures
        finds(accepted@) == kept(finds(sorted@)),
{
    let mut accepted: Vec<Entity> = Vec::new();
    let ghost all = sorted@;
    assert(finds(accepted@) =~= kept(finds(all.take(0))));
    for entity in it: sorted
        invariant
            it.seq() == all,
            finds(accepted@) == kept(finds(all.take(it.index() as int))),
    {
        proof {
            let n = it.index() as int;
            lemma_finds_take(all, n);
            assert(entity == all[n]);
        }
        if accepted.len() == 0 || accepted[accepted.len() - 1].end <= entity.start {
            proof {
                assert(finds(accepted@.push(entity)) =~= finds(accepted@).push(entity@));
            }
            accepted.push(entity);
        }
    }
    assert(all.take(all.len() as int) == all);
    accepted
}

/// Chooses among candidates that overlap: the candidate that starts first
/// stays, and of two with one start the one that came first.
pub fn resolve(candidates: Vec<Entity>) -> (accepted: Vec<Entity>)
    ensures
        finds(accepted@) == resolved(finds(candidates@)),
{
    keep_apart(sort_by_start(candidates))
}

} // verus!
