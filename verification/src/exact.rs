//! What scores, totals and likelihoods amount to where they are whole multiples of a unit.
//!
//! Floating-point arithmetic is exact on whole multiples of a power of two as long as the results
//! are small enough. Of such numbers more can be said than which operation was called on which: a
//! [`Scale`] measures them, and the laws here are about the measures.

use crate::engine::{Arithmetic, Battle, MoveChoice};
use crate::mcts::{MctsSideResult, SearchTree, Searched, Trace};
use crate::mcts_threaded::{Round, SharedTree};
use crate::single::{Single, MINUS_ONE, ONE};
use crate::tree::{MoveNode, NodeView, OptionsView, TreeView};
use crate::walk::PathStep;
use crate::{choice, mcts, mcts_threaded, tree, walk};
use rand::rngs::SmallRng;
use vstd::prelude::*;

verus! {

/// How numbers are measured.
pub struct Scale {
    /// Of how many units a number consists, if it consists of whole units.
    pub units: spec_fn(Single) -> Option<int>,
    /// Of how many units the number one consists.
    pub one: int,
    /// Up to how many units results are exact.
    pub limit: int,
}

impl Scale {
    /// The number consists of `n` units.
    pub open spec fn measures(self, x: Single, n: int) -> bool {
        (self.units)(x) == Some(n)
    }

    /// Sums and differences of whole units are exact up to the limit, and numbers are ordered as
    /// their measures are.
    pub open spec fn is_exact<A: Arithmetic>(self) -> bool {
        &&& 0 < self.one <= self.limit
        &&& self.measures(Single { bits: 0 }, 0)
        &&& self.measures(Single { bits: ONE }, self.one)
        &&& forall|a: Single, b: Single, r: Single, m: int, n: int|
            #![trigger call_ensures(A::plus, (a, b), r), self.measures(a, m), self.measures(b, n)]
            call_ensures(A::plus, (a, b), r) && self.measures(a, m) && self.measures(b, n) && -self.limit
                <= m + n <= self.limit ==> self.measures(r, m + n)
        &&& forall|a: Single, b: Single, r: Single, m: int, n: int|
            #![trigger call_ensures(A::minus, (a, b), r), self.measures(a, m), self.measures(b, n)]
            call_ensures(A::minus, (a, b), r) && self.measures(a, m) && self.measures(b, n)
                && -self.limit <= m - n <= self.limit ==> self.measures(r, m - n)
        &&& forall|a: Single, b: Single, m: int, n: int|
            #![trigger self.measures(a, m), self.measures(b, n)]
            self.measures(a, m) && self.measures(b, n) ==> (a.is_at_least(b) <==> m >= n)
    }

    /// All numbers consist of whole units, none of them is negative, and together they do not
    /// exceed the limit.
    pub open spec fn can_measure(self, numbers: Seq<Single>) -> bool {
        &&& forall|i: int|
            0 <= i < numbers.len() ==> (self.units)(#[trigger] numbers[i]) is Some && 0 <= (
            self.units)(numbers[i])->0
        &&& self.sum(numbers, numbers.len() as int) <= self.limit
    }

    /// What the first `k` numbers add up to.
    pub open spec fn sum(self, numbers: Seq<Single>, k: int) -> int
        decreases k,
    {
        if k <= 0 {
            0
        } else {
            self.sum(numbers, k - 1) + (self.units)(numbers[k - 1])->0
        }
    }

    /// More numbers add up to no less.
    proof fn sums_ascend(self, numbers: Seq<Single>, j: int, k: int)
        requires
            self.can_measure(numbers),
            0 <= j <= k <= numbers.len(),
        ensures
            0 <= self.sum(numbers, j) <= self.sum(numbers, k),
        decreases k,
    {
        if k > 0 {
            let _ = numbers[k - 1];
            if j < k {
                self.sums_ascend(numbers, j, k - 1);
            } else {
                self.sums_ascend(numbers, k - 1, k - 1);
            }
        }
    }

    /// Running sums are exact.
    proof fn running_sums_are_exact<A: Arithmetic>(
        self,
        numbers: Seq<Single>,
        sums: Seq<Single>,
        k: int,
    )
        requires
            self.is_exact::<A>(),
            self.can_measure(numbers),
            choice::are_running_sums::<A>(numbers, sums),
            0 <= k < numbers.len(),
        ensures
            self.measures(sums[k], self.sum(numbers, k + 1)),
        decreases k,
    {
        let n = (self.units)(numbers[k])->0;
        assert(self.measures(numbers[k], n));
        self.sums_ascend(numbers, k + 1, numbers.len() as int);
        let _ = sums[k];
        if k == 0 {
            assert(self.measures(Single { bits: 0 }, 0));
            assert(self.sum(numbers, 1) == self.sum(numbers, 0) + n);
        } else {
            self.running_sums_are_exact::<A>(numbers, sums, k - 1);
        }
    }

    /// An outcome is sampled for just those numbers drawn that are greater than what the outcomes
    /// before it add up to, and not greater than what they and the outcome itself add up to: it has
    /// its likelihood of all of them. Numbers above all likelihoods go to the last outcome.
    pub proof fn an_outcome_has_its_share<A: Arithmetic>(
        self,
        likelihoods: Seq<Single>,
        draw: &mut SmallRng,
        r: int,
    )
        requires
            self.is_exact::<A>(),
            self.can_measure(likelihoods),
            walk::is_sampled::<A>(likelihoods, draw, r),
        ensures
            0 <= r < likelihoods.len(),
            exists|roll: Single| #[trigger]
                call_ensures(A::roll, (draw,), roll) && forall|n: int| #[trigger]
                    self.measures(roll, n) ==> {
                        &&& r > 0 ==> self.sum(likelihoods, r) < n
                        &&& r < likelihoods.len() - 1 ==> n <= self.sum(likelihoods, r + 1)
                        &&& forall|k: int|
                            0 <= k < likelihoods.len() && self.sum(likelihoods, k) < n <= #[trigger]
                            self.sum(likelihoods, k + 1) ==> r == k
                    },
    {
        let (sums, roll) = choose|sums: Seq<Single>, roll: Single|
            {
                &&& #[trigger] call_ensures(A::roll, (draw,), roll)
                &&& choice::are_running_sums::<A>(likelihoods, sums)
                &&& #[trigger] choice::is_pick(sums, roll, r)
            };
        let l = likelihoods;
        assert forall|n: int| #[trigger] self.measures(roll, n) implies {
            &&& r > 0 ==> self.sum(l, r) < n
            &&& r < l.len() - 1 ==> n <= self.sum(l, r + 1)
            &&& forall|k: int|
                0 <= k < l.len() && self.sum(l, k) < n <= #[trigger] self.sum(l, k + 1) ==> r == k
        } by {
            if r > 0 {
                self.running_sums_are_exact::<A>(l, sums, r - 1);
                assert(!sums[r - 1].is_at_least(roll));
            }
            if r < l.len() - 1 {
                self.running_sums_are_exact::<A>(l, sums, r);
            }
            assert forall|k: int|
                0 <= k < l.len() && self.sum(l, k) < n <= #[trigger] self.sum(l, k + 1) implies r
                == k by {
                if k < r {
                    self.running_sums_are_exact::<A>(l, sums, k);
                    assert(!sums[k].is_at_least(roll));
                } else if r < k {
                    self.sums_ascend(l, r + 1, k);
                }
            }
        }
    }

    /// While battles go on, the score of a state grows with how much better it is evaluated than
    /// the root, and depends on nothing else: the better of two leads has no lesser score, and
    /// equal leads, over whatever roots, have equal scores.
    pub proof fn scores_follow_leads<B: Battle, A: Arithmetic>(
        self,
        a: B,
        root_a: Single,
        score_a: Single,
        b: B,
        root_b: Single,
        score_b: Single,
    )
        requires
            self.is_exact::<A>(),
            walk::may_be_worth::<B, A>(a, root_a, score_a),
            walk::may_be_worth::<B, A>(b, root_b, score_b),
            forall|over: Single| #[trigger]
                call_ensures(B::battle_is_over, (&a,), over) ==> over.is_equal(Single { bits: 0 }),
            forall|over: Single| #[trigger]
                call_ensures(B::battle_is_over, (&b,), over) ==> over.is_equal(Single { bits: 0 }),
            // the evaluations consist of whole units
            (self.units)(root_a) is Some,
            (self.units)(root_b) is Some,
            forall|eval: Single| #[trigger]
                call_ensures(B::evaluate, (&a,), eval) ==> (self.units)(eval) is Some && -self.limit
                    <= (self.units)(eval)->0 - (self.units)(root_a)->0 <= self.limit,
            forall|eval: Single| #[trigger]
                call_ensures(B::evaluate, (&b,), eval) ==> (self.units)(eval) is Some && -self.limit
                    <= (self.units)(eval)->0 - (self.units)(root_b)->0 <= self.limit,
            // the first lead is no greater than the second
            forall|eval_a: Single, eval_b: Single|
                #![trigger call_ensures(B::evaluate, (&a,), eval_a), call_ensures(B::evaluate, (&b,), eval_b)]
                call_ensures(B::evaluate, (&a,), eval_a) && call_ensures(B::evaluate, (&b,), eval_b)
                    ==> (self.units)(eval_a)->0 - (self.units)(root_a)->0 <= (self.units)(eval_b)->0
                    - (self.units)(root_b)->0,
            // the logistic function grows
            forall|x: Single, y: Single, s: Single, t: Single, m: int, n: int|
                #![trigger call_ensures(A::sigmoid, (x,), s), call_ensures(A::sigmoid, (y,), t), self.measures(x, m), self.measures(y, n)]
                call_ensures(A::sigmoid, (x,), s) && call_ensures(A::sigmoid, (y,), t)
                    && self.measures(x, m) && self.measures(y, n) && m <= n ==> t.is_at_least(s),
        ensures
            score_b.is_at_least(score_a),
    {
        let (eval_a, lead_a) = choose|eval: Single, lead: Single| #[trigger]
            call_ensures(B::evaluate, (&a,), eval) && #[trigger] call_ensures(
                A::minus,
                (eval, root_a),
                lead,
            ) && call_ensures(A::sigmoid, (lead,), score_a);
        let (eval_b, lead_b) = choose|eval: Single, lead: Single| #[trigger]
            call_ensures(B::evaluate, (&b,), eval) && #[trigger] call_ensures(
                A::minus,
                (eval, root_b),
                lead,
            ) && call_ensures(A::sigmoid, (lead,), score_b);
        let (m, p) = ((self.units)(eval_a)->0, (self.units)(root_a)->0);
        let (n, q) = ((self.units)(eval_b)->0, (self.units)(root_b)->0);
        assert(self.measures(eval_a, m) && self.measures(root_a, p));
        assert(self.measures(eval_b, n) && self.measures(root_b, q));
        assert(self.measures(lead_a, m - p));
        assert(self.measures(lead_b, n - q));
    }

    /// While the battle goes on, a state that is evaluated like the root scores as a lead of zero
    /// does.
    pub proof fn a_state_like_the_root_has_no_lead<B: Battle, A: Arithmetic>(
        self,
        state: B,
        root_eval: Single,
        score: Single,
    )
        requires
            self.is_exact::<A>(),
            walk::may_be_worth::<B, A>(state, root_eval, score),
            forall|over: Single| #[trigger]
                call_ensures(B::battle_is_over, (&state,), over) ==> over.is_equal(
                    Single { bits: 0 },
                ),
            (self.units)(root_eval) is Some,
            forall|eval: Single| #[trigger]
                call_ensures(B::evaluate, (&state,), eval) ==> eval == root_eval,
        ensures
            exists|lead: Single| #[trigger]
                call_ensures(A::sigmoid, (lead,), score) && self.measures(lead, 0),
    {
        let (eval, lead) = choose|eval: Single, lead: Single| #[trigger]
            call_ensures(B::evaluate, (&state,), eval) && #[trigger] call_ensures(
                A::minus,
                (eval, root_eval),
                lead,
            ) && call_ensures(A::sigmoid, (lead,), score);
        let n = (self.units)(root_eval)->0;
        assert(self.measures(eval, n) && self.measures(root_eval, n));
    }

    /// What one side gets of a score and what the other gets of it add up to the points that the
    /// number one is worth.
    pub proof fn points_add_up<A: Arithmetic>(
        self,
        score: Single,
        n: int,
        points_1: u32,
        points_2: u32,
        worth: int,
    )
        requires
            self.is_exact::<A>(),
            mcts_threaded::scores_as::<A>(score, points_1, points_2),
            self.measures(score, n),
            0 <= n <= self.one,
            // points are proportional to scores
            forall|x: Single, p: u32, m: int|
                #![trigger call_ensures(A::to_scaled, (x,), p), self.measures(x, m)]
                call_ensures(A::to_scaled, (x,), p) && self.measures(x, m) ==> p * self.one == m
                    * worth,
        ensures
            points_1 * self.one == n * worth,
            points_2 * self.one == (self.one - n) * worth,
            points_1 + points_2 == worth,
    {
        let rest = choose|rest: Single| #[trigger]
            call_ensures(A::minus, (Single { bits: ONE }, score), rest) && call_ensures(
                A::to_scaled,
                (score,),
                points_1,
            ) && call_ensures(A::to_scaled, (rest,), points_2);
        let one = self.one;
        assert(self.measures(rest, one - n));
        assert((points_1 + points_2) * one == worth * one) by (nonlinear_arith)
            requires
                points_1 * one == n * worth,
                points_2 * one == (one - n) * worth,
        ;
        vstd::arithmetic::mul::lemma_mul_equality_converse(one, points_1 + points_2, worth);
    }
}

impl Scale {
    /// The total of every choice consists of whole units, of at least none and at most one for each
    /// visit.
    pub open spec fn is_fair(self, side: Seq<MoveNode<Single>>) -> bool {
        forall|i: int|
            0 <= i < side.len() ==> {
                &&& (self.units)((#[trigger] side[i]).total_score) is Some
                &&& 0 <= (self.units)(side[i].total_score)->0 <= self.one * side[i].visits
            }
    }

    /// What the totals of all choices of a side add up to.
    pub open spec fn total(self, side: Seq<MoveNode<Single>>) -> int
        decreases side.len(),
    {
        if side.len() == 0 {
            0
        } else {
            self.total(side.drop_last()) + (self.units)(side.last().total_score)->0
        }
    }

    /// The totals of both sides together are one for each time that a choice was made at the node.
    pub open spec fn is_balanced<I>(self, node: NodeView<Single, (), I>) -> bool {
        node.options matches Some(o) ==> {
            &&& self.is_fair(o.s1)
            &&& self.is_fair(o.s2)
            &&& self.total(o.s1) + self.total(o.s2) == self.one * walk::total_visits(o.s1)
        }
    }

    /// All nodes are balanced.
    pub open spec fn all_balanced<I>(self, tree: TreeView<Single, (), I>) -> bool {
        forall|h: u32| #[trigger] tree.nodes.contains_key(h) ==> self.is_balanced(tree.nodes[h])
    }

    /// Replacing one choice changes what the totals add up to by as much as it changes that choice.
    proof fn total_after_update(self, side: Seq<MoveNode<Single>>, i: int, m: MoveNode<Single>)
        requires
            0 <= i < side.len(),
        ensures
            self.total(side.update(i, m)) == self.total(side) - (self.units)(side[i].total_score)->0
                + (self.units)(m.total_score)->0,
        decreases side.len(),
    {
        let after = side.update(i, m);
        if i < side.len() - 1 {
            self.total_after_update(side.drop_last(), i, m);
            assert(after.drop_last() =~= side.drop_last().update(i, m));
        } else {
            assert(after.drop_last() =~= side.drop_last());
        }
    }

    /// Choices that have not been tried have no totals.
    proof fn untried_is_fair(self, choices: Seq<MoveChoice>)
        requires
            self.measures(Single { bits: 0 }, 0),
        ensures
            self.is_fair(tree::all_untried(choices, Single { bits: 0 })),
            self.total(tree::all_untried(choices, Single { bits: 0 })) == 0,
        decreases choices.len(),
    {
        let side = tree::all_untried(choices, Single { bits: 0 });
        if choices.len() > 0 {
            self.untried_is_fair(choices.drop_last());
            assert(side.drop_last() =~= tree::all_untried(
                choices.drop_last(),
                Single { bits: 0 },
            ));
        }
        assert(self.one * 0u32 == 0) by (nonlinear_arith);
    }

    /// Options that have not been tried are balanced.
    proof fn fresh_options_are_balanced<I>(
        self,
        node: NodeView<Single, (), I>,
        s1: Seq<MoveChoice>,
        s2: Seq<MoveChoice>,
    )
        requires
            self.measures(Single { bits: 0 }, 0),
            node.options == Some(OptionsView::fresh(s1, s2, Single { bits: 0 })),
        ensures
            self.is_balanced(node),
    {
        self.untried_is_fair(s1);
        self.untried_is_fair(s2);
        walk::untried_is_unvisited(s1, Single { bits: 0 });
        assert(self.one * 0 == 0) by (nonlinear_arith);
    }

    /// A score of `n` units was added to the total of side one's choice, and what is left of it to
    /// one to the total of side two's. Both choices and the node have one visit more, and nothing
    /// else at the node has changed.
    pub open spec fn is_paid<I>(
        self,
        before: NodeView<Single, (), I>,
        after: NodeView<Single, (), I>,
        step: PathStep,
        n: int,
    ) -> bool {
        let (i, j) = (step.s1_index as int, step.s2_index as int);
        let (a, b) = (before.options->0, after.options->0);
        &&& after.options is Some
        &&& b.s1.len() == a.s1.len()
        &&& b.s2.len() == a.s2.len()
        &&& (self.units)(b.s1[i].total_score) == Some((self.units)(a.s1[i].total_score)->0 + n)
        &&& (self.units)(b.s2[j].total_score) == Some(
            (self.units)(a.s2[j].total_score)->0 + self.one - n,
        )
        &&& b.s1[i].visits == a.s1[i].visits + 1
        &&& b.s2[j].visits == a.s2[j].visits + 1
        &&& b.s1[i].move_choice == a.s1[i].move_choice
        &&& b.s2[j].move_choice == a.s2[j].move_choice
        &&& forall|k: int| 0 <= k < a.s1.len() && k != i ==> #[trigger] b.s1[k] == a.s1[k]
        &&& forall|k: int| 0 <= k < a.s2.len() && k != j ==> #[trigger] b.s2[k] == a.s2[k]
        &&& after.times_visited == before.times_visited + 1
        &&& after.percentage == before.percentage
        &&& after.instructions == before.instructions
    }

    /// Crediting a score to a choice of each side adds it to the total of side one's choice, and
    /// what is left of it to one to the total of side two's. Both have one visit more, and no other
    /// choice changes.
    pub proof fn credits_add_up_to_one<A: Arithmetic, I>(
        self,
        before: NodeView<Single, (), I>,
        after: NodeView<Single, (), I>,
        step: PathStep,
        score: Single,
        n: int,
    )
        requires
            self.is_exact::<A>(),
            before.has_pair(step.s1_index, step.s2_index),
            before.times_visited < u32::MAX,
            before.options->0.s1[step.s1_index as int].visits < u32::MAX,
            before.options->0.s2[step.s2_index as int].visits < u32::MAX,
            self.is_fair(before.options->0.s1),
            self.is_fair(before.options->0.s2),
            self.one * (before.options->0.s1[step.s1_index as int].visits + 1) <= self.limit,
            self.one * (before.options->0.s2[step.s2_index as int].visits + 1) <= self.limit,
            self.measures(score, n),
            0 <= n <= self.one,
            mcts::is_credited::<A, I>(before, after, step, score),
        ensures
            self.is_paid(before, after, step, n),
            self.is_balanced(before) ==> self.is_balanced(after),
            self.is_fair(after.options->0.s1),
            self.is_fair(after.options->0.s2),
    {
        let (i, j) = (step.s1_index as int, step.s2_index as int);
        let (s1, s2) = (before.options->0.s1, before.options->0.s2);
        let (t1, t2) = (after.options->0.s1, after.options->0.s2);
        let (m, k) = ((self.units)(s1[i].total_score)->0, (self.units)(s2[j].total_score)->0);
        let one = self.one;
        let (v, w) = (s1[i].visits, s2[j].visits);
        assert(one * (v + 1) == one * v + one) by (nonlinear_arith);
        assert(one * (w + 1) == one * w + one) by (nonlinear_arith);
        let (total_1, raised, total_2) = choose|total_1: Single, raised: Single, total_2: Single|
            {
                &&& #[trigger] call_ensures(A::plus, (s1[i].total_score, score), total_1)
                &&& #[trigger] call_ensures(A::plus, (s2[j].total_score, Single { bits: ONE }), raised)
                &&& #[trigger] call_ensures(A::minus, (raised, score), total_2)
                &&& t1[i].total_score == total_1
                &&& t2[j].total_score == total_2
            };
        assert(self.measures(s1[i].total_score, m));
        assert(self.measures(s2[j].total_score, k));
        assert(self.measures(total_1, m + n));
        assert(self.measures(Single { bits: ONE }, one));
        assert(self.measures(raised, k + one));
        assert(self.measures(total_2, k + one - n));
        self.total_after_update(s1, i, t1[i]);
        self.total_after_update(s2, j, t2[j]);
        walk::total_after_update(s1, i, t1[i]);
        assert(t1 =~= s1.update(i, t1[i]));
        assert(t2 =~= s2.update(j, t2[j]));
        let made = walk::total_visits(s1) as int;
        assert(one * (made + 1) == one * made + one) by (nonlinear_arith);
        assert forall|l: int| 0 <= l < t1.len() implies {
            &&& (self.units)((#[trigger] t1[l]).total_score) is Some
            &&& 0 <= (self.units)(t1[l].total_score)->0 <= one * t1[l].visits
        } by {
            let _ = s1[l];
        }
        assert forall|l: int| 0 <= l < t2.len() implies {
            &&& (self.units)((#[trigger] t2[l]).total_score) is Some
            &&& 0 <= (self.units)(t2[l].total_score)->0 <= one * t2[l].visits
        } by {
            let _ = s2[l];
        }
    }

    /// Coming back from a path with a score credits it at every node that the path leaves, and
    /// nowhere else; the node where the path ends has one visit more, and all other nodes are as
    /// they were.
    pub proof fn coming_back_credits_every_choice<A: Arithmetic, I>(
        self,
        before: TreeView<Single, (), I>,
        after: TreeView<Single, (), I>,
        root: u32,
        path: Seq<PathStep>,
        leaf: u32,
        score: Single,
        n: int,
        visits: int,
    )
        requires
            self.is_exact::<A>(),
            before.is_tree(),
            mcts::all_tally(before),
            mcts::visited_at_most(before, visits),
            visits < u32::MAX,
            self.one * (visits + 1) <= self.limit,
            walk::is_path(before, root, path),
            leaf == walk::end_of(root, path),
            mcts::credits_from::<A, I>(before, after, path, 0, leaf, score),
            self.measures(score, n),
            0 <= n <= self.one,
            self.all_balanced(before),
        ensures
            after.children == before.children,
            after.nodes.dom() == before.nodes.dom(),
            forall|k: int|
                0 <= k < path.len() ==> self.is_paid(
                    before.nodes[(#[trigger] path[k]).parent],
                    after.nodes[path[k].parent],
                    path[k],
                    n,
                ),
            after.nodes[leaf] == (NodeView {
                times_visited: (before.nodes[leaf].times_visited + 1) as u32,
                ..before.nodes[leaf]
            }),
            forall|h: u32| #[trigger]
                before.nodes.contains_key(h) && h != leaf && (forall|k: int|
                    0 <= k < path.len() ==> (#[trigger] path[k]).parent != h) ==> after.nodes[h]
                    == before.nodes[h],
    {
        walk::paths_ascend(before, root, path);
        assert forall|k: int| 0 <= k < path.len() implies self.is_paid(
            before.nodes[(#[trigger] path[k]).parent],
            after.nodes[path[k].parent],
            path[k],
            n,
        ) by {
            let h = path[k].parent;
            let node = before.nodes[h];
            let (i, j) = (path[k].s1_index as int, path[k].s2_index as int);
            assert(mcts::tallies(node));
            assert(self.is_balanced(node));
            walk::visits_add_up(node.options->0.s1, i);
            walk::visits_add_up(node.options->0.s2, j);
            let (one, v, w) = (
                self.one,
                node.options->0.s1[i].visits,
                node.options->0.s2[j].visits,
            );
            assert(one * (v + 1) <= one * (visits + 1)) by (nonlinear_arith)
                requires
                    v <= visits,
                    0 < one,
            ;
            assert(one * (w + 1) <= one * (visits + 1)) by (nonlinear_arith)
                requires
                    w <= visits,
                    0 < one,
            ;
            self.credits_add_up_to_one::<A, I>(node, after.nodes[h], path[k], score, n);
        }
    }

    /// Coming back from a path with a score keeps all nodes balanced.
    pub proof fn coming_back_keeps_the_balance<A: Arithmetic, I>(
        self,
        before: TreeView<Single, (), I>,
        after: TreeView<Single, (), I>,
        root: u32,
        path: Seq<PathStep>,
        leaf: u32,
        score: Single,
        n: int,
        visits: int,
    )
        requires
            self.is_exact::<A>(),
            before.is_tree(),
            mcts::all_tally(before),
            mcts::visited_at_most(before, visits),
            visits < u32::MAX,
            self.one * (visits + 1) <= self.limit,
            walk::is_path(before, root, path),
            leaf == walk::end_of(root, path),
            mcts::credits_from::<A, I>(before, after, path, 0, leaf, score),
            self.measures(score, n),
            0 <= n <= self.one,
            self.all_balanced(before),
        ensures
            self.all_balanced(after),
    {
        walk::paths_ascend(before, root, path);
        assert forall|h: u32| #[trigger] after.nodes.contains_key(h) implies self.is_balanced(
            after.nodes[h],
        ) by {
            assert(before.nodes.dom().contains(h));
            assert(before.nodes.contains_key(h));
            let node = before.nodes[h];
            if h != leaf && mcts::is_left(path, 0, h) {
                let k = choose|k: int| 0 <= k < path.len() && (#[trigger] path[k]).parent == h;
                let (i, j) = (path[k].s1_index as int, path[k].s2_index as int);
                assert(mcts::tallies(node));
                walk::visits_add_up(node.options->0.s1, i);
                walk::visits_add_up(node.options->0.s2, j);
                let (one, v, w) = (
                    self.one,
                    node.options->0.s1[i].visits,
                    node.options->0.s2[j].visits,
                );
                assert(one * (v + 1) <= one * (visits + 1)) by (nonlinear_arith)
                    requires
                        v <= visits,
                        0 < one,
                ;
                assert(one * (w + 1) <= one * (visits + 1)) by (nonlinear_arith)
                    requires
                        w <= visits,
                        0 < one,
                ;
                self.credits_add_up_to_one::<A, I>(node, after.nodes[h], path[k], score, n);
            }
        }
    }

    /// Scores are whole units, of at least none and at most one: the logistic function gives no
    /// others, and a battle that is over is won or lost.
    pub open spec fn can_score<B: Battle, A: Arithmetic>(self) -> bool {
        &&& forall|x: Single, score: Single| #[trigger]
            call_ensures(A::sigmoid, (x,), score) ==> (self.units)(score) is Some && 0 <= (
            self.units)(score)->0 <= self.one
        &&& forall|state: B, over: Single| #[trigger]
            call_ensures(B::battle_is_over, (&state,), over) ==> {
                ||| over.is_equal(Single { bits: 0 })
                ||| over == (Single { bits: ONE })
                ||| over == (Single { bits: MINUS_ONE })
            }
    }

    /// An iteration keeps all nodes balanced.
    pub proof fn an_iteration_keeps_the_balance<B: Battle, A: Arithmetic>(
        self,
        before: SearchTree<B::Instruction>,
        after: SearchTree<B::Instruction>,
        root: u32,
        root_eval: Single,
        state: B,
        end: B,
        visits: int,
    )
        requires
            self.is_exact::<A>(),
            self.can_score::<B, A>(),
            before.wf(),
            before@.nodes.contains_key(root),
            mcts::all_tally(before@),
            mcts::visited_at_most(before@, visits),
            0 <= visits < u32::MAX,
            self.one * (visits + 1) <= self.limit,
            mcts::iterates::<B, A>(before, after, root, root_eval, state, end),
            self.all_balanced(before@),
        ensures
            self.all_balanced(after@),
    {
        let t = choose|t: Trace<B>| #[trigger]
            mcts::is_trace::<B, A>(before, after, root, root_eval, state, end, t);
        let found = t.found;
        mcts::selection_is_quiet::<B, A>(before, t.selected, root, state, t.descent, found);
        mcts::expansion_is_quiet::<B, A>(t.selected, t.expanded, root, t.descent, found, t.next);
        t.expanded.is_a_tree();
        assert(self.all_balanced(t.selected@)) by {
            let options = choose|options: OptionsView<Single>| #[trigger]
                walk::offers(before@.nodes[found.leaf], found.state, Single { bits: 0 }, options)
                    && mcts::is_offered(before, t.selected, found.leaf, options);
            assert forall|h: u32| #[trigger] t.selected@.nodes.contains_key(h) implies self.is_balanced(
                t.selected@.nodes[h],
            ) by {
                assert(before@.nodes.dom().contains(h));
                assert(before@.nodes.contains_key(h));
                if h == found.leaf && before@.nodes[h].options is None {
                    let (s1, s2) = choose|s1: Vec<MoveChoice>, s2: Vec<MoveChoice>|
                        #[trigger] call_ensures(B::get_all_options, (&found.state,), (s1, s2))
                            && options == OptionsView::fresh(s1@, s2@, Single { bits: 0 });
                    self.fresh_options_are_balanced(t.selected@.nodes[h], s1@, s2@);
                }
            }
        }
        assert(self.all_balanced(t.expanded@)) by {
            assert forall|h: u32| #[trigger] t.expanded@.nodes.contains_key(h) implies self.is_balanced(
                t.expanded@.nodes[h],
            ) by {
                if !t.selected@.nodes.contains_key(h) {
                    mcts::new_nodes_have_no_options::<B, A>(
                        t.selected,
                        t.expanded,
                        found,
                        t.descent.len(),
                        t.next,
                        h,
                    );
                }
            }
        }
        assert(mcts::visited_at_most(t.expanded@, visits)) by {
            assert forall|h: u32| #[trigger] t.expanded@.nodes.contains_key(h) implies t.expanded@.nodes[h].times_visited
                <= visits by {
                if t.selected@.nodes.contains_key(h) {
                    assert(before@.nodes.dom().contains(h));
                    assert(before@.nodes.contains_key(h));
                }
            }
        }
        let n = (self.units)(t.score)->0;
        assert(self.measures(t.score, n) && 0 <= n <= self.one) by {
            let over = choose|over: Single| #[trigger]
                call_ensures(B::battle_is_over, (&t.bottom,), over) && if over.is_equal(
                    Single { bits: 0 },
                ) {
                    exists|eval: Single, lead: Single| #[trigger]
                        call_ensures(B::evaluate, (&t.bottom,), eval) && #[trigger] call_ensures(
                            A::minus,
                            (eval, root_eval),
                            lead,
                        ) && call_ensures(A::sigmoid, (lead,), t.score)
                } else {
                    t.score == walk::decided_score(over)
                };
            assert(self.measures(Single { bits: 0 }, 0));
            assert(self.measures(Single { bits: ONE }, self.one));
        }
        self.coming_back_keeps_the_balance::<A, B::Instruction>(
            t.expanded@,
            after@,
            root,
            t.path(),
            t.target(),
            t.score,
            n,
            visits,
        );
    }
}

impl Scale {
    /// All trees of a search from an unvisited root are balanced, and count its iterations.
    proof fn a_run_keeps_the_balance<B: Battle, A: Arithmetic>(
        self,
        trees: Seq<SearchTree<B::Instruction>>,
        states: Seq<B>,
        root: u32,
        root_eval: Single,
        k: int,
    )
        requires
            self.is_exact::<A>(),
            self.can_score::<B, A>(),
            mcts::is_run::<B, A>(trees, states, root, root_eval),
            0 <= k < trees.len(),
            trees.len() <= u32::MAX,
            self.one * trees.len() <= self.limit,
            trees[0]@.nodes.contains_key(root),
            mcts::all_tally(trees[0]@),
            mcts::visited_at_most(trees[0]@, 0),
            self.all_balanced(trees[0]@),
            mcts::always_moves(trees[0]@.nodes[root]),
            walk::total_visits(trees[0]@.nodes[root].options->0.s1) == 0,
        ensures
            trees[k]@.nodes.contains_key(root),
            mcts::all_tally(trees[k]@),
            mcts::visited_at_most(trees[k]@, k),
            self.all_balanced(trees[k]@),
            mcts::always_moves(trees[k]@.nodes[root]),
            walk::total_visits(trees[k]@.nodes[root].options->0.s1) == k,
        decreases k,
    {
        if k > 0 {
            self.a_run_keeps_the_balance::<B, A>(trees, states, root, root_eval, k - 1);
            assert(mcts::is_turn::<B, A>(trees, states, root, root_eval, k - 1));
            let (before, after) = (trees[k - 1], trees[k]);
            let (state, end) = (states[k - 1], states[k]);
            let (one, n) = (self.one, trees.len() as int);
            assert(one * ((k - 1) + 1) <= one * n) by (nonlinear_arith)
                requires
                    0 < one,
                    k <= n,
            ;
            self.an_iteration_keeps_the_balance::<B, A>(
                before,
                after,
                root,
                root_eval,
                state,
                end,
                k - 1,
            );
            let t = choose|t: Trace<B>| #[trigger]
                mcts::is_trace::<B, A>(before, after, root, root_eval, state, end, t);
            assert(mcts::visited_at_most(before@, u32::MAX - 1)) by {
                assert forall|h: u32| #[trigger] before@.nodes.contains_key(h) implies before@.nodes[h].times_visited
                    <= u32::MAX - 1 by {}
            }
            mcts::a_trace_keeps_the_books::<B, A>(before, after, root, root_eval, state, end, t);
            assert(before@.nodes.contains_key(root));
        }
    }

    /// What the reported totals of a side add up to.
    pub open spec fn reported(self, side: Seq<MctsSideResult>) -> int
        decreases side.len(),
    {
        if side.len() == 0 {
            0
        } else {
            self.reported(side.drop_last()) + (self.units)(side.last().total_score)->0
        }
    }

    /// The reported totals add up to what the totals do.
    proof fn reports_keep_totals(self, side: Seq<MoveNode<Single>>, result: Seq<MctsSideResult>)
        requires
            mcts::reports(side, result),
        ensures
            self.reported(result) == self.total(side),
        decreases side.len(),
    {
        if side.len() > 0 {
            let (fore, told) = (side.drop_last(), result.drop_last());
            assert forall|i: int| 0 <= i < fore.len() implies #[trigger] told[i] == (
            MctsSideResult {
                move_choice: fore[i].move_choice,
                total_score: fore[i].total_score,
                visits: fore[i].visits,
            }) by {
                assert(told[i] == result[i]);
            }
            self.reports_keep_totals(fore, told);
            let _ = result[result.len() - 1];
        }
    }

    /// A search from a new root in an empty tree, at which some side never waits, reports totals
    /// that add up to one for each iteration, over both sides, and to no less than nothing and no
    /// more than one for each visit of any choice.
    pub proof fn reported_totals_add_up_to_iterations<B: Battle, A: Arithmetic>(
        self,
        before: SearchTree<B::Instruction>,
        after: SearchTree<B::Instruction>,
        state: B,
        side_one_options: Seq<MoveChoice>,
        side_two_options: Seq<MoveChoice>,
        s: Searched<B>,
    )
        requires
            self.is_exact::<A>(),
            self.can_score::<B, A>(),
            before@.nodes.dom().is_empty(),
            mcts::is_searched::<B, A>(
                before,
                after,
                state,
                side_one_options,
                side_two_options,
                s,
            ),
            mcts::reports_on(after@.nodes[s.root], s.result),
            mcts::never_waits(side_one_options) || mcts::never_waits(side_two_options),
            s.result.iteration_count < u32::MAX,
            self.one * (s.result.iteration_count + 1) <= self.limit,
        ensures
            self.reported(s.result.s1@) + self.reported(s.result.s2@) == self.one
                * s.result.iteration_count,
            forall|i: int|
                0 <= i < s.result.s1@.len() ==> {
                    &&& (self.units)((#[trigger] s.result.s1@[i]).total_score) is Some
                    &&& 0 <= (self.units)(s.result.s1@[i].total_score)->0 <= self.one
                        * s.result.s1@[i].visits
                },
            forall|i: int|
                0 <= i < s.result.s2@.len() ==> {
                    &&& (self.units)((#[trigger] s.result.s2@[i]).total_score) is Some
                    &&& 0 <= (self.units)(s.result.s2@[i].total_score)->0 <= self.one
                        * s.result.s2@[i].visits
                },
    {
        let root = s.root;
        let n = s.result.iteration_count as nat;
        let (root_eval, start) = choose|root_eval: Single, start: SearchTree<B::Instruction>|
            {
                &&& #[trigger] call_ensures(B::evaluate, (&state,), root_eval)
                &&& mcts::is_start(before, start, s.root, side_one_options, side_two_options)
                &&& #[trigger] mcts::searches::<B, A>(
                    n,
                    start,
                    after,
                    s.root,
                    root_eval,
                    state,
                    s.state,
                )
            };
        let (trees, states) = choose|trees: Seq<SearchTree<B::Instruction>>, states: Seq<B>|
            {
                &&& #[trigger] mcts::is_run::<B, A>(trees, states, root, root_eval)
                &&& trees.len() == n + 1
                &&& trees[0] == start
                &&& trees[n as int] == after
                &&& states[0] == state
                &&& states[n as int] == s.state
            };
        let planted = start@.nodes[root];
        assert(before@.nodes.dom() =~= Set::<u32>::empty());
        assert forall|h: u32| #[trigger] start@.nodes.contains_key(h) implies h == root by {
            assert(!before@.nodes.dom().contains(h));
        }
        walk::untried_is_unvisited(side_one_options, Single { bits: 0 });
        walk::untried_is_unvisited(side_two_options, Single { bits: 0 });
        self.fresh_options_are_balanced(planted, side_one_options, side_two_options);
        assert(mcts::choices_of(planted.options->0.s1) =~= side_one_options);
        assert(mcts::choices_of(planted.options->0.s2) =~= side_two_options);
        self.a_run_keeps_the_balance::<B, A>(trees, states, root, root_eval, n as int);
        let o = after@.nodes[root].options->0;
        assert(self.is_balanced(after@.nodes[root]));
        self.reports_keep_totals(o.s1, s.result.s1@);
        self.reports_keep_totals(o.s2, s.result.s2@);
        assert forall|i: int| 0 <= i < o.s1.len() implies s.result.s1@[i].total_score
            == #[trigger] o.s1[i].total_score && s.result.s1@[i].visits == o.s1[i].visits by {
            let _ = s.result.s1@[i];
        }
        assert forall|i: int| 0 <= i < o.s2.len() implies s.result.s2@[i].total_score
            == #[trigger] o.s2[i].total_score && s.result.s2@[i].visits == o.s2[i].visits by {
            let _ = s.result.s2@[i];
        }
        assert forall|i: int| 0 <= i < s.result.s1@.len() implies {
            &&& (self.units)((#[trigger] s.result.s1@[i]).total_score) is Some
            &&& 0 <= (self.units)(s.result.s1@[i].total_score)->0 <= self.one
                * s.result.s1@[i].visits
        } by {
            let _ = o.s1[i];
        }
        assert forall|i: int| 0 <= i < s.result.s2@.len() implies {
            &&& (self.units)((#[trigger] s.result.s2@[i]).total_score) is Some
            &&& 0 <= (self.units)(s.result.s2@[i].total_score)->0 <= self.one
                * s.result.s2@[i].visits
        } by {
            let _ = o.s2[i];
        }
    }
}

impl Scale {
    /// Battles go on whatever happens, every state is evaluated so many units above `root_eval`, and
    /// the logistic function of such a lead consists of `n` units.
    pub open spec fn has_lead<B: Battle, A: Arithmetic>(
        self,
        root_eval: Single,
        lead: int,
        n: int,
    ) -> bool {
        &&& (self.units)(root_eval) is Some
        &&& -self.limit <= lead <= self.limit
        &&& 0 <= n <= self.one
        &&& forall|state: B, over: Single| #[trigger]
            call_ensures(B::battle_is_over, (&state,), over) ==> over.is_equal(Single { bits: 0 })
        &&& forall|state: B, eval: Single| #[trigger]
            call_ensures(B::evaluate, (&state,), eval) ==> self.measures(
                eval,
                (self.units)(root_eval)->0 + lead,
            )
        &&& forall|x: Single, score: Single| #[trigger]
            call_ensures(A::sigmoid, (x,), score) && self.measures(x, lead) ==> self.measures(score, n)
    }

    /// A state with that lead scores as much.
    proof fn leads_score<B: Battle, A: Arithmetic>(
        self,
        root_eval: Single,
        lead: int,
        n: int,
        state: B,
        score: Single,
    )
        requires
            self.is_exact::<A>(),
            self.has_lead::<B, A>(root_eval, lead, n),
            walk::may_be_worth::<B, A>(state, root_eval, score),
        ensures
            self.measures(score, n),
    {
        let (eval, x) = choose|eval: Single, lead: Single| #[trigger]
            call_ensures(B::evaluate, (&state,), eval) && #[trigger] call_ensures(
                A::minus,
                (eval, root_eval),
                lead,
            ) && call_ensures(A::sigmoid, (lead,), score);
        let m = (self.units)(root_eval)->0;
        assert(self.measures(root_eval, m));
        assert(self.measures(eval, m + lead));
        assert(self.measures(x, lead));
    }

    /// Where every state has the same lead over the evaluation that an iteration is given for the
    /// root, the iteration adds the score of that lead to the totals of side one at the root, and
    /// what is left of it to one to those of side two.
    pub proof fn iterations_credit_the_lead<B: Battle, A: Arithmetic>(
        self,
        before: SearchTree<B::Instruction>,
        after: SearchTree<B::Instruction>,
        root: u32,
        root_eval: Single,
        state: B,
        end: B,
        visits: int,
        lead: int,
        n: int,
    )
        requires
            self.is_exact::<A>(),
            self.has_lead::<B, A>(root_eval, lead, n),
            before.wf(),
            before@.nodes.contains_key(root),
            mcts::all_tally(before@),
            mcts::visited_at_most(before@, visits),
            0 <= visits < u32::MAX,
            self.one * (visits + 1) <= self.limit,
            mcts::iterates::<B, A>(before, after, root, root_eval, state, end),
            self.is_balanced(before@.nodes[root]),
            mcts::always_moves(before@.nodes[root]),
        ensures
            self.total(after@.nodes[root].options->0.s1) == self.total(
                before@.nodes[root].options->0.s1,
            ) + n,
            self.total(after@.nodes[root].options->0.s2) == self.total(
                before@.nodes[root].options->0.s2,
            ) + self.one - n,
    {
        let t = choose|t: Trace<B>| #[trigger]
            mcts::is_trace::<B, A>(before, after, root, root_eval, state, end, t);
        let found = t.found;
        mcts::selection_is_quiet::<B, A>(before, t.selected, root, state, t.descent, found);
        mcts::expansion_is_quiet::<B, A>(t.selected, t.expanded, root, t.descent, found, t.next);
        t.expanded.is_a_tree();
        let path = t.path();
        walk::paths_ascend(t.expanded@, root, path);
        self.leads_score::<B, A>(root_eval, lead, n, t.bottom, t.score);
        let node = before@.nodes[root];
        assert(t.selected@.nodes.dom().contains(root));
        assert(t.selected@.nodes[root].options == node.options);
        assert(t.expanded@.nodes[root] == t.selected@.nodes[root]);
        assert(path.len() > 0) by {
            if path.len() == 0 {
                let o = node.options->0;
                let (i, j) = (found.s1_index as int, found.s2_index as int);
                assert(mcts::choices_of(o.s1)[i] != MoveChoice::NoMove || mcts::choices_of(o.s2)[j]
                    != MoveChoice::NoMove);
            }
        }
        assert(path[0].parent == root);
        let (i, j) = (path[0].s1_index as int, path[0].s2_index as int);
        let (s1, s2) = (node.options->0.s1, node.options->0.s2);
        assert(mcts::tallies(node));
        walk::visits_add_up(s1, i);
        walk::visits_add_up(s2, j);
        let (one, v, w) = (self.one, s1[i].visits, s2[j].visits);
        assert(one * (v + 1) <= one * (visits + 1)) by (nonlinear_arith)
            requires
                v <= visits,
                0 < one,
        ;
        assert(one * (w + 1) <= one * (visits + 1)) by (nonlinear_arith)
            requires
                w <= visits,
                0 < one,
        ;
        self.credits_add_up_to_one::<A, B::Instruction>(
            t.expanded@.nodes[root],
            after@.nodes[root],
            path[0],
            t.score,
            n,
        );
        let (t1, t2) = (after@.nodes[root].options->0.s1, after@.nodes[root].options->0.s2);
        self.total_after_update(s1, i, t1[i]);
        self.total_after_update(s2, j, t2[j]);
        assert(t1 =~= s1.update(i, t1[i]));
        assert(t2 =~= s2.update(j, t2[j]));
    }

    /// The totals at the root after `k` iterations of a search in which every state has the same
    /// lead.
    proof fn a_run_credits_the_lead<B: Battle, A: Arithmetic>(
        self,
        trees: Seq<SearchTree<B::Instruction>>,
        states: Seq<B>,
        root: u32,
        root_eval: Single,
        lead: int,
        n: int,
        k: int,
    )
        requires
            self.is_exact::<A>(),
            self.can_score::<B, A>(),
            self.has_lead::<B, A>(root_eval, lead, n),
            mcts::is_run::<B, A>(trees, states, root, root_eval),
            0 <= k < trees.len(),
            trees.len() <= u32::MAX,
            self.one * trees.len() <= self.limit,
            trees[0]@.nodes.contains_key(root),
            mcts::all_tally(trees[0]@),
            mcts::visited_at_most(trees[0]@, 0),
            self.all_balanced(trees[0]@),
            mcts::always_moves(trees[0]@.nodes[root]),
            walk::total_visits(trees[0]@.nodes[root].options->0.s1) == 0,
            self.total(trees[0]@.nodes[root].options->0.s1) == 0,
            self.total(trees[0]@.nodes[root].options->0.s2) == 0,
        ensures
            self.total(trees[k]@.nodes[root].options->0.s1) == n * k,
            self.total(trees[k]@.nodes[root].options->0.s2) == (self.one - n) * k,
        decreases k,
    {
        let one = self.one;
        if k > 0 {
            self.a_run_credits_the_lead::<B, A>(trees, states, root, root_eval, lead, n, k - 1);
            self.a_run_keeps_the_balance::<B, A>(trees, states, root, root_eval, k - 1);
            assert(mcts::is_turn::<B, A>(trees, states, root, root_eval, k - 1));
            let len = trees.len() as int;
            assert(one * ((k - 1) + 1) <= one * len) by (nonlinear_arith)
                requires
                    0 < one,
                    k <= len,
            ;
            assert(self.is_balanced(trees[k - 1]@.nodes[root]));
            self.iterations_credit_the_lead::<B, A>(
                trees[k - 1],
                trees[k],
                root,
                root_eval,
                states[k - 1],
                states[k],
                k - 1,
                lead,
                n,
            );
            assert(n * (k - 1) + n == n * k) by (nonlinear_arith);
            assert((one - n) * (k - 1) + one - n == (one - n) * k) by (nonlinear_arith);
        } else {
            assert(n * 0 == 0 && (one - n) * 0 == 0) by (nonlinear_arith);
        }
    }

    /// A search in a battle in which nothing can be gained or lost, every state being evaluated like
    /// every other, reports the score of no lead for each iteration as what the totals of side one
    /// add up to, and what is left of it to one as what those of side two do.
    pub proof fn searches_measure_leads_from_the_root<B: Battle, A: Arithmetic>(
        self,
        before: SearchTree<B::Instruction>,
        after: SearchTree<B::Instruction>,
        state: B,
        side_one_options: Seq<MoveChoice>,
        side_two_options: Seq<MoveChoice>,
        s: Searched<B>,
        eval: int,
        n: int,
    )
        requires
            self.is_exact::<A>(),
            self.can_score::<B, A>(),
            0 <= n <= self.one,
            forall|state: B, over: Single| #[trigger]
                call_ensures(B::battle_is_over, (&state,), over) ==> over.is_equal(
                    Single { bits: 0 },
                ),
            forall|state: B, x: Single| #[trigger]
                call_ensures(B::evaluate, (&state,), x) ==> self.measures(x, eval),
            forall|x: Single, score: Single| #[trigger]
                call_ensures(A::sigmoid, (x,), score) && self.measures(x, 0) ==> self.measures(
                    score,
                    n,
                ),
            before@.nodes.dom().is_empty(),
            mcts::is_searched::<B, A>(
                before,
                after,
                state,
                side_one_options,
                side_two_options,
                s,
            ),
            mcts::reports_on(after@.nodes[s.root], s.result),
            mcts::never_waits(side_one_options) || mcts::never_waits(side_two_options),
            s.result.iteration_count < u32::MAX,
            self.one * (s.result.iteration_count + 1) <= self.limit,
        ensures
            self.reported(s.result.s1@) == n * s.result.iteration_count,
            self.reported(s.result.s2@) == (self.one - n) * s.result.iteration_count,
    {
        let root = s.root;
        let k = s.result.iteration_count as nat;
        let (root_eval, start) = choose|root_eval: Single, start: SearchTree<B::Instruction>|
            {
                &&& #[trigger] call_ensures(B::evaluate, (&state,), root_eval)
                &&& mcts::is_start(before, start, s.root, side_one_options, side_two_options)
                &&& #[trigger] mcts::searches::<B, A>(
                    k,
                    start,
                    after,
                    s.root,
                    root_eval,
                    state,
                    s.state,
                )
            };
        let (trees, states) = choose|trees: Seq<SearchTree<B::Instruction>>, states: Seq<B>|
            {
                &&& #[trigger] mcts::is_run::<B, A>(trees, states, root, root_eval)
                &&& trees.len() == k + 1
                &&& trees[0] == start
                &&& trees[k as int] == after
                &&& states[0] == state
                &&& states[k as int] == s.state
            };
        let planted = start@.nodes[root];
        assert(before@.nodes.dom() =~= Set::<u32>::empty());
        assert forall|h: u32| #[trigger] start@.nodes.contains_key(h) implies h == root by {
            assert(!before@.nodes.dom().contains(h));
        }
        walk::untried_is_unvisited(side_one_options, Single { bits: 0 });
        walk::untried_is_unvisited(side_two_options, Single { bits: 0 });
        self.untried_is_fair(side_one_options);
        self.untried_is_fair(side_two_options);
        self.fresh_options_are_balanced(planted, side_one_options, side_two_options);
        assert(mcts::choices_of(planted.options->0.s1) =~= side_one_options);
        assert(mcts::choices_of(planted.options->0.s2) =~= side_two_options);
        assert(self.has_lead::<B, A>(root_eval, 0, n));
        self.a_run_credits_the_lead::<B, A>(trees, states, root, root_eval, 0, n, k as int);
        let o = after@.nodes[root].options->0;
        self.reports_keep_totals(o.s1, s.result.s1@);
        self.reports_keep_totals(o.s2, s.result.s2@);
    }

    /// Where every state has the same lead over the evaluation that a worker is given for the root,
    /// a round that no other worker comes between adds the points of the score of that lead to one
    /// choice of side one at the root, and the points of what is left to one to one of side two.
    /// Both have one visit more, and no other choice there changes.
    pub proof fn rounds_credit_the_lead<B: Battle, A: Arithmetic>(
        self,
        before: SharedTree<B::Instruction>,
        after: SharedTree<B::Instruction>,
        root: u32,
        root_eval: Single,
        state: B,
        end: B,
        lead: int,
        n: int,
        worth: int,
    )
        requires
            self.is_exact::<A>(),
            self.has_lead::<B, A>(root_eval, lead, n),
            forall|x: Single, p: u32, m: int|
                #![trigger call_ensures(A::to_scaled, (x,), p), self.measures(x, m)]
                call_ensures(A::to_scaled, (x,), p) && self.measures(x, m) ==> p * self.one == m
                    * worth,
            before.wf(),
            before@.nodes.contains_key(root),
            mcts_threaded::iterates::<B, A>(before, after, root, root_eval, state, end),
            mcts::always_moves(before@.nodes[root]),
        ensures
            exists|i: int, j: int, points_1: u32, points_2: u32|
                {
                    &&& points_1 * self.one == n * worth
                    &&& points_2 * self.one == (self.one - n) * worth
                    &&& #[trigger] mcts_threaded::gains(
                        before@.nodes[root].options->0.s1,
                        after@.nodes[root].options->0.s1,
                        i,
                        points_1,
                    )
                    &&& #[trigger] mcts_threaded::gains(
                        before@.nodes[root].options->0.s2,
                        after@.nodes[root].options->0.s2,
                        j,
                        points_2,
                    )
                },
    {
        let t = choose|t: Round<B>| #[trigger]
            mcts_threaded::is_round::<B, A>(before, after, root, root_eval, state, end, t);
        let path = t.down.path();
        let leaf = t.down.found.leaf;
        mcts_threaded::a_round_only_credits::<B, A>(before, after, root, root_eval, state, end, t);
        walk::paths_ascend(t.middle@, root, path);
        self.leads_score::<B, A>(root_eval, lead, n, t.begun.state, t.score);
        self.points_add_up::<A>(t.score, n, t.points_1, t.points_2, worth);
        before.is_a_tree();
        walk::paths_ascend(before@, root, t.down.descent);
        let node = before@.nodes[root];
        mcts_threaded::a_round_leaves_the_root::<B, A>(before, after, root, root_eval, state, end, t);
        assert(path[0].parent == root);
        let (i, j) = (path[0].s1_index as int, path[0].s2_index as int);
        let (a, b) = (node.options->0, after@.nodes[root].options->0);
        assert(mcts_threaded::gains(a.s1, b.s1, i, t.points_1));
        assert(mcts_threaded::gains(a.s2, b.s2, j, t.points_2));
    }
}

/// A battle that side one has won is worth one, and one that it has lost is worth nothing.
pub proof fn decided_battles_are_worth_one_or_nothing<B: Battle, A: Arithmetic>(
    state: B,
    root_eval: Single,
    score: Single,
    won: bool,
)
    requires
        walk::may_be_worth::<B, A>(state, root_eval, score),
        forall|over: Single| #[trigger]
            call_ensures(B::battle_is_over, (&state,), over) ==> over.is_equal(
                if won {
                    Single { bits: ONE }
                } else {
                    Single { bits: MINUS_ONE }
                },
            ),
    ensures
        score.is_equal(
            if won {
                Single { bits: ONE }
            } else {
                Single { bits: 0 }
            },
        ),
{
}

} // verus!
