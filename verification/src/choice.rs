//! Which option to try, which outcome comes about, and in what order outcomes are kept.

use crate::engine;
use crate::engine::{Arithmetic, StateInstructions};
use crate::single::{Single, LOWEST};
use vstd::prelude::*;

verus! {

/// The first of the greatest scores. Scores that are no number, and scores that are not above the
/// lowest finite number, do not count; where none counts, the choice is the first.
pub open spec fn is_first_best(scores: Seq<Single>, r: int) -> bool {
    let lowest = Single { bits: LOWEST };
    if forall|i: int| 0 <= i < scores.len() ==> !(#[trigger] scores[i]).is_greater(lowest) {
        r == 0
    } else {
        &&& 0 <= r < scores.len()
        &&& scores[r].is_greater(lowest)
        &&& forall|i: int|
            0 <= i < scores.len() ==> !(#[trigger] scores[i]).is_greater(scores[r])
        &&& forall|i: int|
            0 <= i < r ==> (#[trigger] scores[i]).is_nan() || scores[r].is_greater(scores[i])
    }
}

/// There is only one first of the greatest scores.
pub proof fn first_best_is_unique(scores: Seq<Single>, a: int, b: int)
    requires
        is_first_best(scores, a),
        is_first_best(scores, b),
    ensures
        a == b,
{
    if exists|i: int| 0 <= i < scores.len() && (#[trigger] scores[i]).is_greater(Single { bits: LOWEST }) {
        if a < b {
            assert(scores[a].is_nan() || scores[b].is_greater(scores[a]));
        } else if b < a {
            assert(scores[b].is_nan() || scores[a].is_greater(scores[b]));
        }
    }
}

/// Finds the first of the greatest scores.
pub fn first_best(scores: &[Single]) -> (r: usize)
    ensures
        is_first_best(scores@, r as int),
{
    let lowest = Single { bits: LOWEST };
    let mut choice: usize = 0;
    let mut best = lowest;
    let mut i: usize = 0;
    while i < scores.len()
        invariant
            i <= scores@.len(),
            lowest == (Single { bits: LOWEST }),
            !best.is_nan(),
            best.rank() >= lowest.rank(),
            best == lowest ==> choice == 0,
            best != lowest ==> choice < i && scores@[choice as int] == best && best.is_greater(lowest),
            forall|k: int| 0 <= k < i ==> !(#[trigger] scores@[k]).is_greater(best),
            forall|k: int|
                0 <= k < choice ==> (#[trigger] scores@[k]).is_nan() || best.is_greater(scores@[k]),
        decreases scores@.len() - i,
    {
        if scores[i].greater(best) {
            best = scores[i];
            choice = i;
        }
        i = i + 1;
    }
    choice
}

/// The winner of a run through the scores in which each one takes over from the winner so far,
/// unless that one is greater.
pub open spec fn last_best(scores: Seq<Single>) -> int
    decreases scores.len(),
{
    if scores.len() <= 1 {
        0
    } else {
        let best = last_best(scores.drop_last());
        if scores[best].is_greater(scores.last()) {
            best
        } else {
            scores.len() - 1
        }
    }
}

/// Where all scores are numbers, the winner is the last of the greatest.
pub proof fn last_best_is_greatest(scores: Seq<Single>)
    requires
        0 < scores.len(),
        forall|i: int| 0 <= i < scores.len() ==> !(#[trigger] scores[i]).is_nan(),
    ensures
        0 <= last_best(scores) < scores.len(),
        forall|i: int|
            0 <= i < scores.len() ==> (#[trigger] scores[i]).rank() <= scores[last_best(
                scores,
            )].rank(),
        forall|i: int|
            last_best(scores) < i < scores.len() ==> (#[trigger] scores[i]).rank()
                < scores[last_best(scores)].rank(),
    decreases scores.len(),
{
    if scores.len() > 1 {
        let fore = scores.drop_last();
        assert forall|i: int| 0 <= i < fore.len() implies !(#[trigger] fore[i]).is_nan() by {
            let _ = scores[i];
        }
        last_best_is_greatest(fore);
        assert forall|i: int| 0 <= i < fore.len() implies scores[i] == #[trigger] fore[i] by {}
        assert forall|i: int| 0 <= i < scores.len() implies (#[trigger] scores[i]).rank()
            <= scores[last_best(scores)].rank() by {
            if i < fore.len() {
                let _ = fore[i];
            }
        }
        assert forall|i: int| last_best(scores) < i < scores.len() implies (
        #[trigger] scores[i]).rank() < scores[last_best(scores)].rank() by {
            if i < fore.len() {
                let _ = fore[i];
            }
        }
    }
}

/// Finds the winner of a run in which later scores take over from scores that are not greater.
pub fn last_best_of(scores: &[Single]) -> (r: usize)
    ensures
        r == last_best(scores@),
        scores@.len() > 0 ==> r < scores@.len(),
{
    let mut best: usize = 0;
    let mut i: usize = 1;
    proof {
        if scores@.len() > 0 {
            assert(last_best(scores@.take(1)) == 0);
        }
    }
    while i < scores.len()
        invariant
            1 <= i,
            scores@.len() == 0 ==> best == 0,
            scores@.len() > 0 ==> i <= scores@.len() && best == last_best(scores@.take(i as int)),
            best < i,
        decreases scores@.len() - i,
    {
        proof {
            assert(scores@.take(i + 1).drop_last() =~= scores@.take(i as int));
        }
        if !scores[best].greater(scores[i]) {
            best = i;
        }
        i = i + 1;
    }
    proof {
        if scores@.len() > 0 {
            assert(scores@.take(i as int) =~= scores@);
        }
    }
    best
}

/// Each sum is the one before it plus the next number; the first sum starts from zero.
pub open spec fn are_running_sums<A: Arithmetic>(numbers: Seq<Single>, sums: Seq<Single>) -> bool {
    &&& sums.len() == numbers.len()
    &&& forall|i: int|
        0 <= i < sums.len() ==> call_ensures(
            A::plus,
            (if i == 0 { Single { bits: 0 } } else { sums[i - 1] }, numbers[i]),
            #[trigger] sums[i],
        )
}

/// Adds the numbers up, and keeps every sum on the way.
pub fn running_sums<A: Arithmetic>(numbers: &[Single]) -> (r: Vec<Single>)
    ensures
        are_running_sums::<A>(numbers@, r@),
{
    let mut r: Vec<Single> = Vec::new();
    let mut sum = Single { bits: 0 };
    let mut i: usize = 0;
    while i < numbers.len()
        invariant
            i <= numbers@.len(),
            r@.len() == i,
            sum == (if i == 0 { Single { bits: 0 } } else { r@[i - 1] }),
            forall|k: int|
                0 <= k < i ==> call_ensures(
                    A::plus,
                    (if k == 0 { Single { bits: 0 } } else { r@[k - 1] }, numbers@[k]),
                    #[trigger] r@[k],
                ),
        decreases numbers@.len() - i,
    {
        sum = A::plus(sum, numbers[i]);
        r.push(sum);
        i = i + 1;
    }
    r
}

/// The first sum that reaches the roll, or else the last.
pub open spec fn is_pick(sums: Seq<Single>, roll: Single, r: int) -> bool {
    &&& 0 <= r < sums.len()
    &&& sums[r].is_at_least(roll) || r == sums.len() - 1
    &&& forall|i: int| 0 <= i < r ==> !(#[trigger] sums[i]).is_at_least(roll)
}

/// There is only one first sum that reaches a roll.
pub proof fn picks_are_unique(sums: Seq<Single>, roll: Single, a: int, b: int)
    requires
        is_pick(sums, roll, a),
        is_pick(sums, roll, b),
    ensures
        a == b,
{
    if a < b {
        let _ = sums[a];
    } else if b < a {
        let _ = sums[b];
    }
}

/// Finds the first sum that reaches the roll, or else the last.
pub fn pick(sums: &[Single], roll: Single) -> (r: usize)
    requires
        0 < sums@.len(),
    ensures
        is_pick(sums@, roll, r as int),
{
    let mut i: usize = 0;
    while i < sums.len() - 1
        invariant
            0 < sums@.len(),
            i <= sums@.len() - 1,
            forall|k: int| 0 <= k < i ==> !(#[trigger] sums@[k]).is_at_least(roll),
        decreases sums@.len() - i,
    {
        if sums[i].at_least(roll) {
            return i;
        }
        i = i + 1;
    }
    i
}

/// A roll with these likelihoods may come out at `r`.
pub open spec fn may_come_about<A: Arithmetic>(likelihoods: Seq<Single>, r: int) -> bool {
    exists|sums: Seq<Single>, roll: Single| #[trigger]
        is_pick(sums, roll, r) && are_running_sums::<A>(likelihoods, sums) && engine::is_roll::<A>(roll)
}

/// Outcomes that are more likely come first.
pub open spec fn is_by_likelihood<I>(outcomes: Seq<StateInstructions<I>>) -> bool {
    forall|i: int, j: int|
        0 <= i < j < outcomes.len() ==> (#[trigger] outcomes[i]).percentage.total_rank() >= (
        #[trigger] outcomes[j]).percentage.total_rank()
}

/// Puts the most likely outcomes first.
pub fn sort_by_likelihood<I>(outcomes: Vec<StateInstructions<I>>) -> (r: Vec<StateInstructions<I>>)
    ensures
        r@.to_multiset() == outcomes@.to_multiset(),
        r@.len() == outcomes@.len(),
        is_by_likelihood(r@),
{
    let ghost given = outcomes@;
    let mut r: Vec<StateInstructions<I>> = Vec::new();
    proof {
        assert(given.take(0) =~= Seq::<StateInstructions<I>>::empty());
    }
    for o in it: outcomes
        invariant
            it.seq() == given,
            r@.len() == it.index(),
            r@.to_multiset() == given.take(it.index() as int).to_multiset(),
            is_by_likelihood(r@),
    {
        let ghost k = it.index() as int;
        let ghost sorted = r@;
        let rank = o.percentage.total_position();
        let mut i: usize = r.len();
        let mut searching = true;
        while searching
            invariant
                r@ == sorted,
                is_by_likelihood(sorted),
                i <= sorted.len(),
                rank == o.percentage.total_rank(),
                forall|j: int|
                    i <= j < sorted.len() ==> (#[trigger] sorted[j]).percentage.total_rank() < rank,
                !searching ==> forall|j: int|
                    0 <= j < i ==> (#[trigger] sorted[j]).percentage.total_rank() >= rank,
            decreases i + (if searching { 1int } else { 0int }),
        {
            if i > 0 && r[i - 1].percentage.total_position() < rank {
                i = i - 1;
            } else {
                searching = false;
            }
        }
        r.insert(i, o);
        proof {
            assert(given.take(k + 1) =~= given.take(k).insert(k, o));
            multiset_of_insert(given.take(k), k, o);
            multiset_of_insert(sorted, i as int, o);
        }
    }
    proof {
        assert(given.take(given.len() as int) =~= given);
    }
    r
}

/// Inserting a value into a sequence adds it to the values of the sequence.
proof fn multiset_of_insert<T>(s: Seq<T>, i: int, x: T)
    requires
        0 <= i <= s.len(),
    ensures
        s.insert(i, x).to_multiset() == s.to_multiset().insert(x),
{
    broadcast use vstd::seq_lib::group_to_multiset_ensures;

    let a = s.take(i);
    let b = s.skip(i);
    vstd::seq_lib::lemma_multiset_commutative(a.push(x), b);
    vstd::seq_lib::lemma_multiset_commutative(a, b);
    assert(s =~= a + b);
    assert(s.insert(i, x) =~= a.push(x) + b);
    assert(s.insert(i, x).to_multiset() =~= s.to_multiset().insert(x));
}

} // verus!
