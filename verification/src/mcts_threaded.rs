//! The search of several workers in one tree.
//!
//! A worker that goes down the tree leaves virtual losses behind, so that other workers rather try
//! something else, and takes them back when it credits its score.

use crate::child_map::SharedChildMap;
use crate::choice::{last_best_of, pick, running_sums, sort_by_likelihood};
use crate::engine::{Arithmetic, Battle, MoveChoice, StateInstructions};
use crate::mcts::{MctsResult, MctsSideResult, MCTS_DEADLINE_CHECK_INTERVAL};
use crate::single::{Single, HUNDRED, INFINITY, ONE};
use crate::tree::{
    MemoryView, MoveNode, Node, NodeView, OptionsView, SearchError, Tree, TreeView,
};
use crate::walk::{
    can_choose, ensure_options, rollout, PathStep, Selected, MCTS_DAMAGE_BRANCH_DEPTH,
};
use crate::{choice, engine, mcts, tree, walk};
use rand::rngs::SmallRng;
use vstd::prelude::*;

verus! {

/// Once this many iterations have been claimed, workers look at the clock after each of them.
pub const MCTS_MAX_ITERATIONS_PER_TREE: u32 = 10_000_000;

/// How many visits a worker adds to a choice while it is below it.
pub const VIRTUAL_LOSS_VISITS: u32 = 3;

/// The tree of a search by several workers.
pub type SharedTree<I> = Tree<u32, i8, I, SharedChildMap>;

/// What a tree of several workers amounts to.
pub type SharedView<I> = TreeView<u32, i8, I>;

impl MoveNode<u32> {
    /// A choice that has not been tried yet.
    pub fn new(move_choice: MoveChoice) -> (r: Self)
        ensures
            r == tree::untried(move_choice, 0u32),
    {
        MoveNode { move_choice, total_score: 0, visits: 0 }
    }

    /// The choice with one more worker below it.
    pub open spec fn with_loss(self) -> Self {
        MoveNode { visits: self.visits.wrapping_add(VIRTUAL_LOSS_VISITS), ..self }
    }

    /// The choice with one worker less below it.
    pub open spec fn without_loss(self) -> Self {
        MoveNode { visits: self.visits.wrapping_sub(VIRTUAL_LOSS_VISITS), ..self }
    }

    /// The choice with one score more.
    pub open spec fn with_result(self, points: u32) -> Self {
        MoveNode {
            total_score: self.total_score.wrapping_add(points),
            visits: self.visits.wrapping_add(1),
            ..self
        }
    }

    /// A worker goes below the choice.
    pub fn add_virtual_loss(&mut self)
        ensures
            *final(self) == old(self).with_loss(),
            final(self).visits == old(self).visits.wrapping_add(3),
            final(self).total_score == old(self).total_score,
            final(self).move_choice == old(self).move_choice,
    {
        self.visits = self.visits.wrapping_add(VIRTUAL_LOSS_VISITS);
    }

    /// A worker comes back from below the choice.
    pub fn remove_virtual_loss(&mut self)
        ensures
            *final(self) == old(self).without_loss(),
            final(self).visits == old(self).visits.wrapping_sub(3),
            final(self).total_score == old(self).total_score,
            final(self).move_choice == old(self).move_choice,
    {
        self.visits = self.visits.wrapping_sub(VIRTUAL_LOSS_VISITS);
    }

    /// Adds a score, in the units in which totals count.
    pub fn add_result(&mut self, points: u32)
        ensures
            *final(self) == old(self).with_result(points),
            final(self).visits == old(self).visits.wrapping_add(1),
            final(self).total_score == old(self).total_score.wrapping_add(points),
            final(self).move_choice == old(self).move_choice,
    {
        self.total_score = self.total_score.wrapping_add(points);
        self.visits = self.visits.wrapping_add(1);
    }

    /// The total as a number.
    pub fn total_score_f32<A: Arithmetic>(&self) -> (r: Single)
        ensures
            call_ensures(A::from_scaled, (self.total_score,), r),
    {
        A::from_scaled(self.total_score)
    }

    /// The upper confidence bound of the choice may be `score`.
    pub open spec fn may_score<A: Arithmetic>(self, parent_visits: u32, score: Single) -> bool {
        if self.visits == 0 {
            score == Single { bits: INFINITY }
        } else {
            call_ensures(A::scaled_upper_bound, (self.total_score, self.visits, parent_visits), score)
        }
    }

    /// The upper confidence bound of the choice; a choice that has not been tried yet comes first.
    pub fn ucb1<A: Arithmetic>(&self, parent_visits: u32) -> (r: Single)
        ensures
            self.may_score::<A>(parent_visits, r),
            self.visits == 0 ==> r == (Single { bits: INFINITY }),
            self.visits != 0 ==> call_ensures(
                A::scaled_upper_bound,
                (self.total_score, self.visits, parent_visits),
                r,
            ),
    {
        if self.visits == 0 {
            return Single { bits: INFINITY };
        }
        A::scaled_upper_bound(self.total_score, self.visits, parent_visits)
    }

    /// While a worker is below a choice, the choice counts as visited three times more, without any
    /// score; a score that is added counts for its points and for one visit.
    pub proof fn losses_and_results_are_counted(self, points: u32)
        requires
            self.visits + 3 <= u32::MAX,
            self.total_score + points <= u32::MAX,
        ensures
            self.with_loss().visits == self.visits + 3,
            self.with_loss().total_score == self.total_score,
            self.with_loss().move_choice == self.move_choice,
            self.with_result(points).visits == self.visits + 1,
            self.with_result(points).total_score == self.total_score + points,
            self.with_result(points).move_choice == self.move_choice,
    {
    }

    /// A virtual loss that is taken back leaves no trace, whatever came in between.
    pub proof fn losses_cancel(self, points: u32)
        ensures
            self.with_loss().without_loss() == self,
            self.with_loss().with_result(points).without_loss() == self.with_result(points),
    {
    }
}

/// These may be the upper confidence bounds of the choices.
pub open spec fn are_scores<A: Arithmetic>(
    side: Seq<MoveNode<u32>>,
    parent_visits: u32,
    scores: Seq<Single>,
) -> bool {
    &&& scores.len() == side.len()
    &&& forall|i: int|
        0 <= i < side.len() ==> side[i].may_score::<A>(parent_visits, #[trigger] scores[i])
}

/// A side may make this choice: of those with the greatest upper confidence bound, the last.
pub open spec fn is_choice<A: Arithmetic>(
    side: Seq<MoveNode<u32>>,
    parent_visits: u32,
    r: u8,
) -> bool {
    exists|scores: Seq<Single>| #[trigger]
        are_scores::<A>(side, parent_visits, scores) && r == choice::last_best(scores) as u8
}

/// The last of the choices with the greatest upper confidence bound.
pub fn maximize_ucb_for_side<A: Arithmetic>(side_options: &[MoveNode<u32>], parent_visits: u32) -> (r:
    u8)
    ensures
        is_choice::<A>(side_options@, parent_visits, r),
        0 < side_options@.len() <= 255 ==> r < side_options@.len(),
        exists|scores: Seq<Single>|
            {
                &&& r == #[trigger] choice::last_best(scores) as u8
                &&& scores.len() == side_options@.len()
                &&& forall|i: int|
                    0 <= i < scores.len() ==> if side_options@[i].visits == 0 {
                        #[trigger] scores[i] == (Single { bits: INFINITY })
                    } else {
                        call_ensures(
                            A::scaled_upper_bound,
                            (side_options@[i].total_score, side_options@[i].visits, parent_visits),
                            scores[i],
                        )
                    }
            },
{
    let mut scores: Vec<Single> = Vec::new();
    let mut i: usize = 0;
    while i < side_options.len()
        invariant
            i <= side_options@.len(),
            scores@.len() == i,
            forall|k: int|
                0 <= k < i ==> side_options@[k].may_score::<A>(
                    parent_visits,
                    #[trigger] scores@[k],
                ),
        decreases side_options@.len() - i,
    {
        scores.push(side_options[i].ucb1::<A>(parent_visits));
        i = i + 1;
    }
    let best = last_best_of(scores.as_slice());
    assert(are_scores::<A>(side_options@, parent_visits, scores@));
    #[verifier::truncate]
    (best as u8)
}

/// How many visits a node counts for when its choices are weighed: those that it has had, and one
/// for each worker below it, but no less than one.
pub open spec fn weight(times_visited: u32, virtual_losses: i8) -> u32 {
    let workers = if virtual_losses > 0 {
        virtual_losses as u32
    } else {
        0u32
    };
    let visits = times_visited.saturating_add(workers);
    if visits > 1 {
        visits
    } else {
        1u32
    }
}

/// How many visits a node counts for when its choices are weighed.
pub fn parent_visits(times_visited: u32, virtual_losses: i8) -> (r: u32)
    ensures
        r == weight(times_visited, virtual_losses),
        1 <= r,
        virtual_losses <= 0 && 1 <= times_visited ==> r == times_visited,
        0 < virtual_losses && times_visited + virtual_losses <= u32::MAX ==> r == times_visited
            + virtual_losses,
        0 < virtual_losses && times_visited + virtual_losses > u32::MAX ==> r == u32::MAX,
        virtual_losses <= 0 && times_visited == 0 ==> r == 1,
{
    let workers: u32 = if virtual_losses > 0 {
        virtual_losses as u32
    } else {
        0
    };
    let visits = times_visited.saturating_add(workers);
    if visits > 1 {
        visits
    } else {
        1
    }
}

/// Both sides may make these choices at a node.
pub open spec fn is_pair<A: Arithmetic, I>(
    node: NodeView<u32, i8, I>,
    s1_index: u8,
    s2_index: u8,
) -> bool {
    let visits = weight(node.times_visited, node.virtual_losses);
    &&& node.options is Some
    &&& is_choice::<A>(node.options->0.s1, visits, s1_index)
    &&& is_choice::<A>(node.options->0.s2, visits, s2_index)
}

/// Where the upper confidence bound of a choice is a function of its total, its visits and those of
/// the node, a side makes the choice whose bound is greatest for as many visits of the node as were
/// given; of equal ones the last. Choices that have not been tried count as infinite.
pub proof fn the_greatest_bound_is_chosen<A: Arithmetic>(
    side: Seq<MoveNode<u32>>,
    parent_visits: u32,
    bound: spec_fn(u32, u32, u32) -> Single,
    r: u8,
)
    requires
        is_choice::<A>(side, parent_visits, r),
        0 < side.len() <= 255,
        forall|total: u32, visits: u32, parents: u32, s: Single| #[trigger]
            call_ensures(A::scaled_upper_bound, (total, visits, parents), s) ==> s == bound(
                total,
                visits,
                parents,
            ) && !s.is_nan(),
    ensures
        ({
            let rank = |i: int|
                if side[i].visits == 0 {
                    INFINITY as int
                } else {
                    bound(side[i].total_score, side[i].visits, parent_visits).rank()
                };
            &&& r < side.len()
            &&& forall|i: int|
                0 <= i < side.len() ==> {
                    &&& #[trigger] rank(i) <= rank(r as int)
                    &&& r < i ==> rank(i) < rank(r as int)
                }
        }),
{
    let scores = choose|scores: Seq<Single>| #[trigger]
        are_scores::<A>(side, parent_visits, scores) && r == choice::last_best(scores) as u8;
    let rank = |i: int|
        if side[i].visits == 0 {
            INFINITY as int
        } else {
            bound(side[i].total_score, side[i].visits, parent_visits).rank()
        };
    assert forall|i: int| 0 <= i < scores.len() implies !(#[trigger] scores[i]).is_nan()
        && scores[i].rank() == rank(i) by {
        assert(side[i].may_score::<A>(parent_visits, scores[i]));
    }
    choice::last_best_is_greatest(scores);
    assert forall|i: int| 0 <= i < side.len() implies {
        &&& #[trigger] rank(i) <= rank(r as int)
        &&& r < i ==> rank(i) < rank(r as int)
    } by {
        assert(scores[i].rank() == rank(i));
        assert(scores[r as int].rank() == rank(r as int));
    }
}

/// A choice is made whose bound exceeds that of every other from so many visits of the node on, as
/// soon as the node has had them: choices that are tried less often than others do not stay behind.
pub proof fn neglected_choices_are_made<A: Arithmetic>(
    side: Seq<MoveNode<u32>>,
    parent_visits: u32,
    bound: spec_fn(u32, u32, u32) -> Single,
    neglected: int,
    often: u32,
    r: u8,
)
    requires
        is_choice::<A>(side, parent_visits, r),
        0 <= neglected < side.len() <= 255,
        forall|i: int| 0 <= i < side.len() ==> 0 < (#[trigger] side[i]).visits,
        forall|total: u32, visits: u32, parents: u32, s: Single| #[trigger]
            call_ensures(A::scaled_upper_bound, (total, visits, parents), s) ==> s == bound(
                total,
                visits,
                parents,
            ) && !s.is_nan(),
        forall|i: int, parents: u32|
            0 <= i < side.len() && i != neglected && often <= parents ==> #[trigger] bound(
                side[i].total_score,
                side[i].visits,
                parents,
            ).rank() < bound(
                side[neglected].total_score,
                side[neglected].visits,
                parents,
            ).rank(),
        often <= parent_visits,
    ensures
        r == neglected,
{
    the_greatest_bound_is_chosen::<A>(side, parent_visits, bound, r);
    let rank = |i: int|
        if side[i].visits == 0 {
            INFINITY as int
        } else {
            bound(side[i].total_score, side[i].visits, parent_visits).rank()
        };
    assert(rank(neglected) <= rank(r as int));
    let _ = side[r as int];
    let _ = side[neglected];
}

/// At a node no choice of either side has a greater bound than the one that is given, for as many
/// visits as the node has had, with one for each worker below it, but at least one.
/// Choices that have not been tried count as infinite.
pub open spec fn prefers<I>(
    bound: spec_fn(u32, u32, u32) -> Single,
    node: NodeView<u32, i8, I>,
    s1_index: u8,
    s2_index: u8,
) -> bool {
    let workers = if node.virtual_losses > 0 {
        node.virtual_losses as int
    } else {
        0
    };
    let visits = node.times_visited + workers;
    let counted = if visits < 1 {
        1
    } else if visits > u32::MAX {
        u32::MAX as int
    } else {
        visits
    };
    let o = node.options->0;
    let rank = |m: MoveNode<u32>|
        if m.visits == 0 {
            INFINITY as int
        } else {
            bound(m.total_score, m.visits, counted as u32).rank()
        };
    &&& s1_index < o.s1.len()
    &&& s2_index < o.s2.len()
    &&& forall|i: int|
        0 <= i < o.s1.len() ==> rank(#[trigger] o.s1[i]) <= rank(o.s1[s1_index as int])
    &&& forall|j: int|
        0 <= j < o.s2.len() ==> rank(#[trigger] o.s2[j]) <= rank(o.s2[s2_index as int])
}

/// At a node each side makes the choice whose bound is greatest for as many visits as the node has
/// had, with one for each worker below it, but at least one.
pub proof fn pairs_have_the_greatest_bounds<A: Arithmetic, I>(
    node: NodeView<u32, i8, I>,
    bound: spec_fn(u32, u32, u32) -> Single,
    s1_index: u8,
    s2_index: u8,
)
    requires
        is_pair::<A, I>(node, s1_index, s2_index),
        0 < node.options->0.s1.len() <= 255,
        0 < node.options->0.s2.len() <= 255,
        forall|total: u32, visits: u32, parents: u32, s: Single| #[trigger]
            call_ensures(A::scaled_upper_bound, (total, visits, parents), s) ==> s == bound(
                total,
                visits,
                parents,
            ) && !s.is_nan(),
    ensures
        prefers(bound, node, s1_index, s2_index),
{
    let o = node.options->0;
    let visits = weight(node.times_visited, node.virtual_losses);
    the_greatest_bound_is_chosen::<A>(o.s1, visits, bound, s1_index);
    the_greatest_bound_is_chosen::<A>(o.s2, visits, bound, s2_index);
    let rank = |m: MoveNode<u32>|
        if m.visits == 0 {
            INFINITY as int
        } else {
            bound(m.total_score, m.visits, visits).rank()
        };
    let rank_1 = |i: int|
        if o.s1[i].visits == 0 {
            INFINITY as int
        } else {
            bound(o.s1[i].total_score, o.s1[i].visits, visits).rank()
        };
    let rank_2 = |i: int|
        if o.s2[i].visits == 0 {
            INFINITY as int
        } else {
            bound(o.s2[i].total_score, o.s2[i].visits, visits).rank()
        };
    assert forall|i: int| 0 <= i < o.s1.len() implies rank(#[trigger] o.s1[i]) <= rank(
        o.s1[s1_index as int],
    ) by {
        assert(rank_1(i) <= rank_1(s1_index as int));
    }
    assert forall|i: int| 0 <= i < o.s2.len() implies rank(#[trigger] o.s2[i]) <= rank(
        o.s2[s2_index as int],
    ) by {
        assert(rank_2(i) <= rank_2(s2_index as int));
    }
}

/// The node with one more worker below each of two choices.
pub open spec fn with_choice_losses<I>(
    node: NodeView<u32, i8, I>,
    s1_index: u8,
    s2_index: u8,
) -> NodeView<u32, i8, I> {
    let (i, j) = (s1_index as int, s2_index as int);
    let o = node.options->0;
    node.with_options(
        OptionsView {
            s1: o.s1.update(i, o.s1[i].with_loss()),
            s2: o.s2.update(j, o.s2[j].with_loss()),
        },
    )
}

/// The node with one worker less below each of two choices.
pub open spec fn without_choice_losses<I>(
    node: NodeView<u32, i8, I>,
    s1_index: u8,
    s2_index: u8,
) -> NodeView<u32, i8, I> {
    let (i, j) = (s1_index as int, s2_index as int);
    let o = node.options->0;
    node.with_options(
        OptionsView {
            s1: o.s1.update(i, o.s1[i].without_loss()),
            s2: o.s2.update(j, o.s2[j].without_loss()),
        },
    )
}

/// The node with one more worker below it.
pub open spec fn with_node_loss<I>(node: NodeView<u32, i8, I>) -> NodeView<u32, i8, I> {
    NodeView { virtual_losses: node.virtual_losses.wrapping_add(1), ..node }
}

/// The node with one worker less below it.
pub open spec fn without_node_loss<I>(node: NodeView<u32, i8, I>) -> NodeView<u32, i8, I> {
    NodeView { virtual_losses: node.virtual_losses.wrapping_sub(1), ..node }
}

/// The tree once a worker has taken a step.
pub open spec fn with_loss<I>(tree: SharedView<I>, step: PathStep) -> SharedView<I> {
    let above = tree.with_node(
        step.parent,
        with_choice_losses(tree.nodes[step.parent], step.s1_index, step.s2_index),
    );
    above.with_node(step.child, with_node_loss(above.nodes[step.child]))
}

/// The tree once a worker has gone down a path.
pub open spec fn loaded<I>(tree: SharedView<I>, path: Seq<PathStep>) -> SharedView<I>
    decreases path.len(),
{
    if path.len() == 0 {
        tree
    } else {
        with_loss(loaded(tree, path.drop_last()), path.last())
    }
}

/// A worker goes below two choices.
fn add_losses<I>(tree: &mut SharedTree<I>, h: u32, s1_index: u8, s2_index: u8)
    requires
        old(tree).wf(),
        old(tree)@.nodes.contains_key(h),
        old(tree)@.nodes[h].has_pair(s1_index, s2_index),
    ensures
        final(tree).wf(),
        final(tree).memory() == old(tree).memory(),
        final(tree)@ == old(tree)@.with_node(
            h,
            with_choice_losses(old(tree)@.nodes[h], s1_index, s2_index),
        ),
{
    let ghost before = *tree;
    let options = tree.options(h);
    let mut s1_move = options.s1()[s1_index as usize];
    let mut s2_move = options.s2()[s2_index as usize];
    s1_move.add_virtual_loss();
    s2_move.add_virtual_loss();
    tree.set_move(h, false, s1_index, s1_move);
    tree.set_move(h, true, s2_index, s2_move);
    assert(tree@.nodes =~= before@.with_node(
        h,
        with_choice_losses(before@.nodes[h], s1_index, s2_index),
    ).nodes);
}

/// A worker comes back from below two choices.
fn remove_losses<I>(tree: &mut SharedTree<I>, h: u32, s1_index: u8, s2_index: u8)
    requires
        old(tree).wf(),
        old(tree)@.nodes.contains_key(h),
        old(tree)@.nodes[h].has_pair(s1_index, s2_index),
    ensures
        final(tree).wf(),
        final(tree).memory() == old(tree).memory(),
        final(tree)@ == old(tree)@.with_node(
            h,
            without_choice_losses(old(tree)@.nodes[h], s1_index, s2_index),
        ),
{
    let ghost before = *tree;
    let options = tree.options(h);
    let mut s1_move = options.s1()[s1_index as usize];
    let mut s2_move = options.s2()[s2_index as usize];
    s1_move.remove_virtual_loss();
    s2_move.remove_virtual_loss();
    tree.set_move(h, false, s1_index, s1_move);
    tree.set_move(h, true, s2_index, s2_move);
    assert(tree@.nodes =~= before@.with_node(
        h,
        without_choice_losses(before@.nodes[h], s1_index, s2_index),
    ).nodes);
}

/// A worker goes below a node.
fn add_node_loss<I>(tree: &mut SharedTree<I>, h: u32)
    requires
        old(tree).wf(),
        old(tree)@.nodes.contains_key(h),
    ensures
        final(tree).wf(),
        final(tree).memory() == old(tree).memory(),
        final(tree)@ == old(tree)@.with_node(h, with_node_loss(old(tree)@.nodes[h])),
{
    let node = tree.node(h);
    let times_visited = node.times_visited;
    let virtual_losses = node.virtual_losses.wrapping_add(1);
    tree.set_counts(h, times_visited, virtual_losses);
}

/// A worker comes back from below a node.
fn remove_node_loss<I>(tree: &mut SharedTree<I>, h: u32)
    requires
        old(tree).wf(),
        old(tree)@.nodes.contains_key(h),
    ensures
        final(tree).wf(),
        final(tree).memory() == old(tree).memory(),
        final(tree)@ == old(tree)@.with_node(h, without_node_loss(old(tree)@.nodes[h])),
{
    let node = tree.node(h);
    let times_visited = node.times_visited;
    let virtual_losses = node.virtual_losses.wrapping_sub(1);
    tree.set_counts(h, times_visited, virtual_losses);
}

/// How much each of these nodes counts for when one of them is sampled.
pub open spec fn shares<I>(tree: SharedView<I>, nodes: Seq<u32>) -> Seq<Single> {
    Seq::new(nodes.len(), |i: int| tree.nodes[nodes[i]].percentage.or_zero())
}

/// A node counts for its likelihood when it is sampled, and for nothing where that is negative or
/// no number.
pub proof fn shares_are_likelihoods<I>(tree: SharedView<I>, nodes: Seq<u32>, i: int)
    requires
        0 <= i < nodes.len(),
    ensures
        shares(tree, nodes).len() == nodes.len(),
        ({
            let likelihood = tree.nodes[nodes[i]].percentage;
            if !likelihood.is_nan() && likelihood.rank() > 0 {
                shares(tree, nodes)[i] == likelihood
            } else {
                shares(tree, nodes)[i] == (Single { bits: 0 })
            }
        }),
{
}

/// Samples one of the nodes that a pair of choices leads to.
pub fn sample_node<A: Arithmetic, I>(
    nodes: &Vec<u32>,
    tree: &SharedTree<I>,
    rng: &mut SmallRng,
) -> (r: usize)
    requires
        tree.wf(),
        0 < nodes@.len(),
        forall|i: int| 0 <= i < nodes@.len() ==> tree@.nodes.contains_key(#[trigger] nodes@[i]),
    ensures
        walk::may_sample::<A>(shares(tree@, nodes@), r as int),
        nodes@.len() == 1 ==> *final(rng) == *old(rng),
        // a single draw from the generator decides
        nodes@.len() > 1 ==> exists|draw: &mut SmallRng|
            *draw == *old(rng) && *final(draw) == *final(rng) && #[trigger] walk::is_sampled::<A>(
                shares(tree@, nodes@),
                draw,
                r as int,
            ),
{
    if nodes.len() <= 1 {
        return 0;
    }
    let ghost from = *rng;
    let roll = A::roll(rng);
    assert(engine::is_roll::<A>(roll));
    assert(exists|draw: &mut SmallRng|
        *draw == from && *final(draw) == *rng && #[trigger] call_ensures(A::roll, (draw,), roll));
    let mut percentages: Vec<Single> = Vec::new();
    let mut i: usize = 0;
    while i < nodes.len()
        invariant
            tree.wf(),
            i <= nodes@.len(),
            percentages@.len() == i,
            forall|k: int| 0 <= k < nodes@.len() ==> tree@.nodes.contains_key(#[trigger] nodes@[k]),
            forall|k: int|
                0 <= k < i ==> #[trigger] percentages@[k]
                    == tree@.nodes[nodes@[k]].percentage.or_zero(),
        decreases nodes@.len() - i,
    {
        percentages.push(tree.node(nodes[i]).percentage.clamped());
        i = i + 1;
    }
    let sums = running_sums::<A>(percentages.as_slice());
    let r = pick(sums.as_slice(), roll);
    proof {
        assert(percentages@ =~= shares(tree@, nodes@));
        assert(choice::is_pick(sums@, roll, r as int));
        let draw = choose|draw: &mut SmallRng|
            *draw == from && *final(draw) == *rng && #[trigger] call_ensures(A::roll, (draw,), roll);
        assert(walk::is_sampled::<A>(shares(tree@, nodes@), draw, r as int));
    }
    r
}

/// A step that a worker may take: to a child that may come about by choices that both sides may
/// make.
pub open spec fn is_step<A: Arithmetic, I>(tree: SharedView<I>, step: PathStep) -> bool {
    &&& is_pair::<A, I>(tree.nodes[step.parent], step.s1_index, step.s2_index)
    &&& exists|i: int| #[trigger]
        walk::may_sample::<A>(shares(tree, tree.children[step.key()]), i)
            && tree.children[step.key()][i] == step.child
}

/// A worker may take all steps of a path one after the other.
pub open spec fn are_steps<A: Arithmetic, I>(tree: SharedView<I>, path: Seq<PathStep>) -> bool
    decreases path.len(),
{
    path.len() == 0 || (are_steps::<A, I>(tree, path.drop_last()) && is_step::<A, I>(
        loaded(tree, path.drop_last()),
        path.last(),
    ))
}

/// A worker may go down this path, which takes `state` to `at`.
pub open spec fn descends<B: Battle, A: Arithmetic>(
    tree: SharedView<B::Instruction>,
    root: u32,
    state: B,
    path: Seq<PathStep>,
    at: B,
) -> bool {
    &&& walk::is_path(tree, root, path)
    &&& are_steps::<A, B::Instruction>(tree, path)
    &&& exists|states: Seq<B>| #[trigger]
        walk::goes_down(tree, path, states) && states[0] == state && states.last() == at
}

/// The node has these options, and memory was taken for them if it had none before.
pub open spec fn is_offered<I>(
    before: SharedView<I>,
    memory: MemoryView,
    after: SharedTree<I>,
    h: u32,
    options: OptionsView<u32>,
) -> bool {
    &&& after@ == before.with_node(h, before.nodes[h].with_options(options))
    &&& after.memory() == (if before.nodes[h].options is Some {
        memory
    } else {
        memory.after_block::<MoveNode<u32>>(options.s1.len() + options.s2.len())
    })
}

/// A descent may end at a node that has options, with choices that no child is filed for. Virtual
/// losses mark the path, and the options of the last node may be new.
pub open spec fn selects<B: Battle, A: Arithmetic>(
    before: SharedTree<B::Instruction>,
    after: SharedTree<B::Instruction>,
    root: u32,
    state: B,
    path: Seq<PathStep>,
    found: Selected<B>,
) -> bool {
    let marked = loaded(before@, path);
    &&& descends::<B, A>(before@, root, state, path, found.state)
    &&& found.leaf == walk::end_of(root, path)
    &&& exists|options: OptionsView<u32>| #[trigger]
        walk::offers(marked.nodes[found.leaf], found.state, 0u32, options) && is_offered(
            marked,
            before.memory(),
            after,
            found.leaf,
            options,
        )
    &&& is_pair::<A, B::Instruction>(after@.nodes[found.leaf], found.s1_index, found.s2_index)
    &&& after@.nodes[found.leaf].can_choose() ==> after@.nodes[found.leaf].has_pair(
        found.s1_index,
        found.s2_index,
    )
    &&& !after@.children.contains_key((found.leaf, found.s1_index, found.s2_index))
}

/// A descent may end at a node that cannot be given options.
pub open spec fn fails_to_select<B: Battle, A: Arithmetic>(
    before: SharedTree<B::Instruction>,
    root: u32,
    state: B,
    e: SearchError,
) -> bool {
    exists|
        path: Seq<PathStep>,
        at: B,
        marked: SharedTree<B::Instruction>,
        options: OptionsView<u32>,
    |
        {
            &&& #[trigger] descends::<B, A>(before@, root, state, path, at)
            &&& marked@ == loaded(before@, path)
            &&& marked.memory() == before.memory()
            &&& #[trigger] walk::offers(
                marked@.nodes[walk::end_of(root, path)],
                at,
                0u32,
                options,
            )
            &&& walk::offer_result::<B, u32, i8, SharedChildMap>(
                marked,
                walk::end_of(root, path),
                options,
            ) == Err::<(), SearchError>(e)
        }
}

/// Picks the choices of both sides at a node.
pub fn select_move_pair<B: Battle, A: Arithmetic>(
    tree: &mut SharedTree<B::Instruction>,
    h: u32,
    state: &B,
) -> (r: Result<(u8, u8), SearchError>)
    requires
        old(tree).wf(),
        old(tree)@.nodes.contains_key(h),
    ensures
        final(tree).wf(),
        old(tree)@.nodes[h].options is Some ==> *final(tree) == *old(tree),
        exists|options: OptionsView<u32>| #[trigger]
            walk::offers(old(tree)@.nodes[h], *state, 0u32, options) && {
                let offered = walk::offer_result::<B, u32, i8, SharedChildMap>(
                    *old(tree),
                    h,
                    options,
                );
                &&& r matches Err(e) ==> offered == Err::<(), SearchError>(e) && *final(tree)
                    == *old(tree)
                &&& r matches Ok(pair) ==> {
                    &&& offered is Ok
                    &&& is_offered(old(tree)@, old(tree).memory(), *final(tree), h, options)
                    &&& is_pair::<A, B::Instruction>(final(tree)@.nodes[h], pair.0, pair.1)
                }
            },
        r matches Ok(pair) ==> (final(tree)@.nodes[h].can_choose()
            ==> final(tree)@.nodes[h].has_pair(pair.0, pair.1)),
{
    match ensure_options(tree, h, state, 0u32) {
        Ok(_) => {},
        Err(e) => {
            return Err(e);
        },
    }
    proof {
        tree.is_a_tree();
    }
    let node = tree.node(h);
    let visits = parent_visits(node.times_visited, node.virtual_losses);
    let options = tree.options(h);
    let s1_index = maximize_ucb_for_side::<A>(options.s1(), visits);
    let s2_index = maximize_ucb_for_side::<A>(options.s2(), visits);
    proof {
        assert(is_pair::<A, B::Instruction>(tree@.nodes[h], s1_index, s2_index));
    }
    Ok((s1_index, s2_index))
}

/// Virtual losses change nothing but the visits of choices and the number of workers below nodes.
pub proof fn loading_is_quiet<I>(tree: SharedView<I>, root: u32, path: Seq<PathStep>)
    requires
        tree.is_tree(),
        walk::is_path(tree, root, path),
    ensures
        loaded(tree, path).children == tree.children,
        loaded(tree, path).nodes.dom() == tree.nodes.dom(),
        forall|h: u32| #[trigger]
            tree.nodes.contains_key(h) ==> {
                let n = loaded(tree, path).nodes[h];
                &&& n.times_visited == tree.nodes[h].times_visited
                &&& n.percentage == tree.nodes[h].percentage
                &&& n.instructions == tree.nodes[h].instructions
                &&& n.options is Some <==> tree.nodes[h].options is Some
            },
    decreases path.len(),
{
    if path.len() > 0 {
        loading_is_quiet(tree, root, path.drop_last());
        walk::paths_ascend(tree, root, path);
        let s = path.last();
        assert(path[path.len() - 1] == s);
        assert(loaded(tree, path).nodes.dom() =~= tree.nodes.dom());
    }
}

/// A descent has ended where it may have, with choices that no child is filed for.
proof fn descent_has_ended<B: Battle, A: Arithmetic>(
    before: SharedTree<B::Instruction>,
    after: SharedTree<B::Instruction>,
    root: u32,
    state: B,
    path: Seq<PathStep>,
    found: Selected<B>,
    options: OptionsView<u32>,
)
    requires
        descends::<B, A>(before@, root, state, path, found.state),
        found.leaf == walk::end_of(root, path),
        walk::offers(loaded(before@, path).nodes[found.leaf], found.state, 0u32, options),
        is_offered(loaded(before@, path), before.memory(), after, found.leaf, options),
        is_pair::<A, B::Instruction>(after@.nodes[found.leaf], found.s1_index, found.s2_index),
        after@.nodes[found.leaf].can_choose() ==> after@.nodes[found.leaf].has_pair(
            found.s1_index,
            found.s2_index,
        ),
        !after@.children.contains_key((found.leaf, found.s1_index, found.s2_index)),
    ensures
        selects::<B, A>(before, after, root, state, path, found),
{
}

/// Walks down from the root, to a pair of choices that no child is filed for yet.
#[verifier::spinoff_prover]
#[verifier::rlimit(40)]
pub fn selection<B: Battle, A: Arithmetic>(
    tree: &mut SharedTree<B::Instruction>,
    root: u32,
    state: B,
    path: &mut Vec<PathStep>,
    rng: &mut SmallRng,
) -> (r: Result<Selected<B>, SearchError>)
    requires
        old(tree).wf(),
        old(tree)@.nodes.contains_key(root),
        old(path)@.len() == 0,
    ensures
        final(tree).wf(),
        r matches Ok(found) ==> selects::<B, A>(
            *old(tree),
            *final(tree),
            root,
            state,
            final(path)@,
            found,
        ),
        // one draw from the generator decides each step that may lead to several nodes
        r is Ok ==> exists|rngs: Seq<SmallRng>| #[trigger]
            walk::is_record(rngs, final(path)@.len(), *old(rng), *final(rng)) && forall|k: int|
                0 <= k < final(path)@.len() ==> {
                    let nodes = old(tree)@.children[(#[trigger] final(path)@[k]).key()];
                    if nodes.len() == 1 {
                        rngs[k + 1] == rngs[k]
                    } else {
                        exists|draw: &mut SmallRng, i: int|
                            {
                                &&& *draw == rngs[k]
                                &&& *final(draw) == rngs[k + 1]
                                &&& #[trigger] walk::is_sampled::<A>(shares(old(tree)@, nodes), draw, i)
                                &&& nodes[i] == final(path)@[k].child
                            }
                    }
                },
        r matches Err(e) ==> {
            &&& fails_to_select::<B, A>(*old(tree), root, state, e)
            &&& final(tree)@ == loaded(old(tree)@, final(path)@)
            &&& final(tree).memory() == old(tree).memory()
        },
{
    let ghost before = *tree;
    let ghost mut states: Seq<B> = seq![state];
    let ghost mut rngs: Seq<SmallRng> = seq![*rng];
    let mut at = state;
    let mut current = root;
    proof {
        tree.is_a_tree();
    }
    loop
        invariant
            before == *old(tree),
            before@.is_tree(),
            tree.wf(),
            tree@ == loaded(before@, path@),
            tree.memory() == before.memory(),
            current == walk::end_of(root, path@),
            before@.nodes.contains_key(current),
            walk::is_path(before@, root, path@),
            are_steps::<A, B::Instruction>(before@, path@),
            walk::goes_down(before@, path@, states),
            states[0] == state,
            states.last() == at,
            walk::is_record(rngs, path@.len(), *old(rng), *rng),
            forall|k: int|
                0 <= k < path@.len() ==> {
                    let nodes = before@.children[(#[trigger] path@[k]).key()];
                    if nodes.len() == 1 {
                        rngs[k + 1] == rngs[k]
                    } else {
                        exists|draw: &mut SmallRng, i: int|
                            {
                                &&& *draw == rngs[k]
                                &&& *final(draw) == rngs[k + 1]
                                &&& #[trigger] walk::is_sampled::<A>(shares(before@, nodes), draw, i)
                                &&& nodes[i] == path@[k].child
                            }
                    }
                },
        decreases u32::MAX - current,
    {
        let ghost walked = path@;
        let ghost marked = *tree;
        proof {
            loading_is_quiet(before@, root, walked);
            assert(marked@.nodes.dom().contains(current));
            assert(descends::<B, A>(before@, root, state, walked, at));
        }
        let (s1_index, s2_index) = match select_move_pair::<B, A>(tree, current, &at) {
            Ok(pair) => pair,
            Err(e) => {
                return Err(e);
            },
        };
        match tree.children_of(current, s1_index, s2_index) {
            Some(nodes) => {
                let ghost key = (current, s1_index, s2_index);
                proof {
                    assert(before@.children.contains_key(key));
                    assert(before@.nodes[current].options is Some);
                    assert(*tree == marked);
                    assert(tree@.nodes[current].has_pair(s1_index, s2_index)) by {
                        tree.is_a_tree();
                        assert(tree@.children.contains_key(key));
                    }
                    assert forall|i: int| 0 <= i < nodes@.len() implies tree@.nodes.contains_key(
                        #[trigger] nodes@[i],
                    ) by {
                        assert(before@.children[key][i] == nodes@[i]);
                        assert(before@.nodes.dom().contains(nodes@[i]));
                    }
                }
                let i = sample_node::<A, B::Instruction>(&nodes, tree, rng);
                let child = nodes[i];
                assert(shares(marked@, nodes@) =~= shares(before@, nodes@)) by {
                    assert forall|k: int| 0 <= k < nodes@.len() implies marked@.nodes[#[trigger] nodes@[k]].percentage
                        == before@.nodes[nodes@[k]].percentage by {
                        assert(before@.children[key][k] == nodes@[k]);
                    }
                }
                let step = PathStep { parent: current, child, s1_index, s2_index };
                proof {
                    assert(step.key() == key);
                    assert(before@.children[key][i as int] == child);
                    assert(walk::may_sample::<A>(shares(marked@, marked@.children[key]), i as int));
                    assert(is_step::<A, B::Instruction>(marked@, step));
                    assert(before@.nodes.contains_key(child));
                }
                add_losses(tree, current, s1_index, s2_index);
                add_node_loss(tree, child);
                let list = tree.instructions(child);
                let ghost from = at;
                at = at.apply_instructions(list);
                path.push(step);
                proof {
                    assert(path@.drop_last() =~= walked);
                    assert(path@.last() == step);
                    loading_is_quiet(before@, root, path@);
                    assert(engine::applies(from, before@.nodes[child].instructions, at));
                    let further = states.push(at);
                    assert forall|k: int| 0 <= k < path@.len() implies engine::applies(
                        further[k],
                        before@.nodes[(#[trigger] path@[k]).child].instructions,
                        further[k + 1],
                    ) by {
                        if k < walked.len() {
                            assert(path@[k] == walked[k]);
                        }
                    }
                    states = further;
                }
                proof {
                    let drawn = rngs.push(*rng);
                    assert forall|k: int| 0 <= k < path@.len() implies {
                        let nodes = before@.children[(#[trigger] path@[k]).key()];
                        if nodes.len() == 1 {
                            drawn[k + 1] == drawn[k]
                        } else {
                            exists|draw: &mut SmallRng, i: int|
                                {
                                    &&& *draw == drawn[k]
                                    &&& *final(draw) == drawn[k + 1]
                                    &&& #[trigger] walk::is_sampled::<A>(shares(before@, nodes), draw, i)
                                    &&& nodes[i] == path@[k].child
                                }
                        }
                    } by {
                        if k < walked.len() {
                            assert(path@[k] == walked[k]);
                        } else {
                            assert(path@[k] == step);
                        }
                    }
                    rngs = drawn;
                }
                current = child;
            },
            None => {
                let ghost end = at;
                let found = Selected { state: at, leaf: current, s1_index, s2_index };
                proof {
                    let options = choose|options: OptionsView<u32>| #[trigger]
                        walk::offers(marked@.nodes[current], end, 0u32, options) && is_offered(
                            marked@,
                            marked.memory(),
                            *tree,
                            current,
                            options,
                        );
                    assert(marked@ == loaded(before@, walked));
                    assert(walk::offers(
                        loaded(before@, walked).nodes[current],
                        end,
                        0u32,
                        options,
                    ));
                    assert(descends::<B, A>(before@, root, state, walked, end));
                    descent_has_ended::<B, A>(
                        before,
                        *tree,
                        root,
                        state,
                        walked,
                        found,
                        options,
                    );
                }
                return Ok(found);
            },
        }
    }
}

/// A pair of choices leads on: the battle is not over, and not both sides wait.
pub open spec fn leads_on(over: Single, s1_move: MoveChoice, s2_move: MoveChoice) -> bool {
    &&& over.is_equal(Single { bits: 0 })
    &&& !(s1_move == MoveChoice::NoMove && s2_move == MoveChoice::NoMove)
}

/// Whether a pair of choices leads on.
pub fn should_expand(over: Single, s1_move: MoveChoice, s2_move: MoveChoice) -> (r: bool)
    ensures
        r == leads_on(over, s1_move, s2_move),
{
    over.equals(Single { bits: 0 }) && !(s1_move == MoveChoice::NoMove && s2_move
        == MoveChoice::NoMove)
}

/// What expanding a node for a pair of choices may come to: nothing where the choices do not lead
/// on; else their outcomes become its children, unless another worker was faster, and one of the
/// children is sampled and gets a virtual loss.
pub open spec fn expands<B: Battle, A: Arithmetic>(
    before: SharedTree<B::Instruction>,
    after: SharedTree<B::Instruction>,
    found: Selected<B>,
    depth: nat,
    r: Result<(B, Option<u32>), SearchError>,
) -> bool {
    let options = before@.nodes[found.leaf].options->0;
    let s1_move = options.s1[found.s1_index as int].move_choice;
    let s2_move = options.s2[found.s2_index as int].move_choice;
    exists|over: Single| #[trigger]
        call_ensures(B::battle_is_over, (&found.state,), over) && if leads_on(
            over,
            s1_move,
            s2_move,
        ) {
            exists|
                next: B,
                generated: Vec<StateInstructions<B::Instruction>>,
                ordered: Seq<StateInstructions<B::Instruction>>,
            |
                {
                    &&& #[trigger] walk::generates(
                        found.state,
                        s1_move,
                        s2_move,
                        depth,
                        next,
                        generated,
                    )
                    &&& #[trigger] walk::is_ordering(generated@, ordered)
                    &&& branches_out::<B, A>(before, after, found, next, ordered, r)
                }
        } else {
            r == Ok::<(B, Option<u32>), SearchError>((found.state, None)) && after == before
        }
}

/// What filing these outcomes as the children of a node may come to.
pub open spec fn branches_out<B: Battle, A: Arithmetic>(
    before: SharedTree<B::Instruction>,
    after: SharedTree<B::Instruction>,
    found: Selected<B>,
    next: B,
    outcomes: Seq<StateInstructions<B::Instruction>>,
    r: Result<(B, Option<u32>), SearchError>,
) -> bool {
    if outcomes.len() == 0 {
        r == Err::<(B, Option<u32>), SearchError>(SearchError::NoOutcome) && after@ == before@
    } else if can_branch_out(before.memory(), outcomes) {
        exists|child: u32, grown: SharedView<B::Instruction>| #[trigger]
            adds_children::<A, B::Instruction>(
                before@,
                grown,
                (found.leaf, found.s1_index, found.s2_index),
                outcomes,
                child,
            ) && after@ == grown.with_node(child, with_node_loss(grown.nodes[child])) && r == Ok::<
                (B, Option<u32>),
                SearchError,
            >((next, Some(child))) && after.memory() == before.memory().after_lists::<B::Instruction>(
                tree::list_lens(outcomes),
            ).after_nodes::<Node<u32, i8, B::Instruction>>(outcomes.len())
    } else {
        r == Err::<(B, Option<u32>), SearchError>(SearchError::ArenaFull) && after@ == before@
    }
}

/// There is room for a node for each outcome.
pub open spec fn can_branch_out<I>(memory: MemoryView, outcomes: Seq<StateInstructions<I>>) -> bool {
    let lens = tree::list_lens(outcomes);
    memory.has_lists::<I>(lens) && memory.after_lists::<I>(lens).has_nodes::<Node<u32, i8, I>>(
        outcomes.len(),
    )
}

/// Each outcome has become a node; they are filed under `key` unless children are already; and
/// `child` may be sampled of those that are filed then.
pub open spec fn adds_children<A: Arithmetic, I>(
    before: SharedView<I>,
    after: SharedView<I>,
    key: (u32, u8, u8),
    outcomes: Seq<StateInstructions<I>>,
    child: u32,
) -> bool {
    exists|fresh: Seq<u32>, i: int|
        {
            &&& #[trigger] after.grown_by(before, fresh, outcomes, 0i8)
            &&& after.children == (if before.children.contains_key(key) {
                before.children
            } else {
                before.children.insert(key, fresh)
            })
            &&& #[trigger] walk::may_sample::<A>(shares(after, after.children[key]), i)
            &&& child == after.children[key][i]
        }
}

/// Looks up or creates the children for the choices that a descent ended with, and samples one,
/// which gets a virtual loss. Gives no child where the choices do not lead on: the battle is over,
/// or both sides wait.
pub fn expand<B: Battle, A: Arithmetic>(
    tree: &mut SharedTree<B::Instruction>,
    found: Selected<B>,
    depth: usize,
    rng: &mut SmallRng,
) -> (r: Result<(B, Option<u32>), SearchError>)
    requires
        old(tree).wf(),
        old(tree)@.nodes.contains_key(found.leaf),
        old(tree)@.nodes[found.leaf].has_pair(found.s1_index, found.s2_index),
    ensures
        final(tree).wf(),
        expands::<B, A>(*old(tree), *final(tree), found, depth as nat, r),
        // one draw from the generator decides which of several children is sampled
        match r {
            Ok((_, Some(child))) => {
                let nodes = final(tree)@.children[(found.leaf, found.s1_index, found.s2_index)];
                if nodes.len() == 1 {
                    nodes[0] == child && *final(rng) == *old(rng)
                } else {
                    exists|draw: &mut SmallRng, i: int|
                        {
                            &&& *draw == *old(rng)
                            &&& *final(draw) == *final(rng)
                            &&& #[trigger] walk::is_sampled::<A>(shares(final(tree)@, nodes), draw, i)
                            &&& nodes[i] == child
                        }
                }
            },
            _ => *final(rng) == *old(rng),
        },
{
    let ghost before = *tree;
    let ghost given = found;
    let ghost key = (found.leaf, found.s1_index, found.s2_index);
    let options = tree.options(found.leaf);
    let s1_move = options.s1()[found.s1_index as usize].move_choice;
    let s2_move = options.s2()[found.s2_index as usize].move_choice;
    let over = found.state.battle_is_over();
    if !should_expand(over, s1_move, s2_move) {
        return Ok((found.state, None));
    }
    let should_branch_on_damage = depth < MCTS_DAMAGE_BRANCH_DEPTH;
    let (next, generated) = found.state.generate_instructions_from_move_pair(
        s1_move,
        s2_move,
        should_branch_on_damage,
    );
    let ghost listed = generated;
    assert(walk::generates(given.state, s1_move, s2_move, depth as nat, next, listed));
    // put the most likely branches first
    let outcomes = sort_by_likelihood(generated);
    let ghost ordered = outcomes@;
    assert(walk::is_ordering(listed@, ordered));
    match tree.add_children(found.leaf, found.s1_index, found.s2_index, outcomes, 0i8) {
        Err(e) => {
            assert(branches_out::<B, A>(
                before,
                *tree,
                given,
                next,
                ordered,
                Err::<(B, Option<u32>), SearchError>(e),
            ));
            Err(e)
        },
        Ok(children) => {
            proof {
                tree.is_a_tree();
                assert(children@ == tree@.children[key]);
                assert(tree@.children.contains_key(key));
                assert forall|i: int| 0 <= i < children@.len() implies tree@.nodes.contains_key(
                    #[trigger] children@[i],
                ) by {
                    assert(tree@.children[key][i] == children@[i]);
                }
            }
            let i = sample_node::<A, B::Instruction>(&children, tree, rng);
            let child = children[i];
            let ghost grown = tree@;
            assert(adds_children::<A, B::Instruction>(before@, grown, key, ordered, child));
            add_node_loss(tree, child);
            assert(branches_out::<B, A>(
                before,
                *tree,
                given,
                next,
                ordered,
                Ok::<(B, Option<u32>), SearchError>((next, Some(child))),
            ));
            assert(shares(tree@, children@) =~= shares(grown, children@));
            Ok((next, Some(child)))
        },
    }
}

/// Where an expansion samples a child, the battle goes on and not
/// both sides wait. The engine is asked for the outcomes of the very choices, told apart by damage
/// at depths zero and one alone. Each outcome it lists, and nothing else, becomes a node of its own
/// with its likelihood and its instructions, the more likely before the less; these nodes are filed
/// for the choices, and the child is one of them.
pub proof fn every_outcome_becomes_a_child<B: Battle, A: Arithmetic>(
    before: SharedTree<B::Instruction>,
    after: SharedTree<B::Instruction>,
    found: Selected<B>,
    depth: nat,
    s1_move: MoveChoice,
    s2_move: MoveChoice,
    by_damage: bool,
    next: B,
    child: u32,
)
    requires
        expands::<B, A>(before, after, found, depth, Ok((next, Some(child)))),
        !before@.children.contains_key((found.leaf, found.s1_index, found.s2_index)),
        s1_move == before@.nodes[found.leaf].options->0.s1[found.s1_index as int].move_choice,
        s2_move == before@.nodes[found.leaf].options->0.s2[found.s2_index as int].move_choice,
        by_damage <==> depth < 2,
    ensures
        s1_move != MoveChoice::NoMove || s2_move != MoveChoice::NoMove,
        exists|over: Single| #[trigger]
            call_ensures(B::battle_is_over, (&found.state,), over) && over.is_equal(
                Single { bits: 0 },
            ),
        exists|
            generated: Vec<StateInstructions<B::Instruction>>,
            ordered: Seq<StateInstructions<B::Instruction>>,
        |
            {
                let nodes = after@.children[(found.leaf, found.s1_index, found.s2_index)];
                &&& #[trigger] call_ensures(
                    B::generate_instructions_from_move_pair,
                    (found.state, s1_move, s2_move, by_damage),
                    (next, generated),
                )
                &&& #[trigger] ordered.to_multiset() == generated@.to_multiset()
                &&& 0 < nodes.len() == ordered.len() == generated@.len()
                &&& nodes.contains(child)
                &&& forall|i: int|
                    0 <= i < nodes.len() ==> {
                        &&& !before@.nodes.contains_key(#[trigger] nodes[i])
                        &&& after@.nodes.contains_key(nodes[i])
                        &&& after@.nodes[nodes[i]].percentage == ordered[i].percentage
                        &&& after@.nodes[nodes[i]].instructions == ordered[i].instruction_list@
                        &&& after@.nodes[nodes[i]].times_visited == 0
                        &&& after@.nodes[nodes[i]].options is None
                    }
                &&& forall|i: int, j: int|
                    0 <= i < j < nodes.len() ==> {
                        &&& #[trigger] nodes[i] != #[trigger] nodes[j]
                        &&& after@.nodes[nodes[i]].percentage.total_rank()
                            >= after@.nodes[nodes[j]].percentage.total_rank()
                    }
            },
        forall|h: u32| #[trigger]
            before@.nodes.contains_key(h) ==> after@.nodes.contains_key(h) && after@.nodes[h]
                == before@.nodes[h],
        forall|k: (u32, u8, u8)| k != (found.leaf, found.s1_index, found.s2_index) ==> (
        #[trigger] after@.children.contains_key(k) <==> before@.children.contains_key(k)) && (
        before@.children.contains_key(k) ==> after@.children[k] == before@.children[k]),
{
    let key = (found.leaf, found.s1_index, found.s2_index);
    let (next_2, generated, ordered) = choose|
        next_2: B,
        generated: Vec<StateInstructions<B::Instruction>>,
        ordered: Seq<StateInstructions<B::Instruction>>,
    |
        {
            &&& #[trigger] walk::generates(found.state, s1_move, s2_move, depth, next_2, generated)
            &&& #[trigger] walk::is_ordering(generated@, ordered)
            &&& branches_out::<B, A>(before, after, found, next_2, ordered, Ok((next, Some(child))))
        };
    let grown = choose|grown: SharedView<B::Instruction>| #[trigger]
        adds_children::<A, B::Instruction>(before@, grown, key, ordered, child) && after@
            == grown.with_node(child, with_node_loss(grown.nodes[child]));
    let (nodes, i) = choose|nodes: Seq<u32>, i: int|
        {
            &&& #[trigger] grown.grown_by(before@, nodes, ordered, 0i8)
            &&& grown.children == before@.children.insert(key, nodes)
            &&& #[trigger] walk::may_sample::<A>(shares(grown, grown.children[key]), i)
            &&& child == grown.children[key][i]
        };
    assert(ordered.to_multiset() == generated@.to_multiset());
    assert(nodes[i] == child);
    assert forall|k: int| 0 <= k < nodes.len() implies after@.nodes.contains_key(
        #[trigger] nodes[k],
    ) && !before@.nodes.contains_key(nodes[k]) by {
        assert(nodes.contains(nodes[k]));
    }
    assert forall|k: int, l: int| 0 <= k < l < nodes.len() implies {
        &&& #[trigger] nodes[k] != #[trigger] nodes[l]
        &&& after@.nodes[nodes[k]].percentage.total_rank()
            >= after@.nodes[nodes[l]].percentage.total_rank()
    } by {
        assert(ordered[k].percentage.total_rank() >= ordered[l].percentage.total_rank());
    }
}

/// Where an expansion gives no child, the tree and the state stay as they are, and the battle is
/// over or both sides wait.
pub proof fn nothing_is_added_where_nothing_follows<B: Battle, A: Arithmetic>(
    before: SharedTree<B::Instruction>,
    after: SharedTree<B::Instruction>,
    found: Selected<B>,
    depth: nat,
    next: B,
)
    requires
        expands::<B, A>(before, after, found, depth, Ok((next, None))),
    ensures
        after == before,
        next == found.state,
        ({
            let o = before@.nodes[found.leaf].options->0;
            ||| o.s1[found.s1_index as int].move_choice == MoveChoice::NoMove
                && o.s2[found.s2_index as int].move_choice == MoveChoice::NoMove
            ||| exists|over: Single| #[trigger]
                call_ensures(B::battle_is_over, (&found.state,), over) && !over.is_equal(
                    Single { bits: 0 },
                )
        }),
{
}

/// An expansion that fails leaves the tree as it was, and fails because the engine lists no outcomes
/// for the choices, or because there is no room for those that it lists.
pub proof fn expansions_fail_for_want_of_outcomes_or_room<B: Battle, A: Arithmetic>(
    before: SharedTree<B::Instruction>,
    after: SharedTree<B::Instruction>,
    found: Selected<B>,
    depth: nat,
    s1_move: MoveChoice,
    s2_move: MoveChoice,
    by_damage: bool,
    e: SearchError,
)
    requires
        expands::<B, A>(before, after, found, depth, Err(e)),
        s1_move == before@.nodes[found.leaf].options->0.s1[found.s1_index as int].move_choice,
        s2_move == before@.nodes[found.leaf].options->0.s2[found.s2_index as int].move_choice,
        by_damage <==> depth < 2,
    ensures
        after@ == before@,
        exists|next: B, generated: Vec<StateInstructions<B::Instruction>>| #[trigger]
            call_ensures(
                B::generate_instructions_from_move_pair,
                (found.state, s1_move, s2_move, by_damage),
                (next, generated),
            ) && e == (if generated@.len() == 0 {
                SearchError::NoOutcome
            } else {
                SearchError::ArenaFull
            }),
{
    let (next, generated, ordered) = choose|
        next: B,
        generated: Vec<StateInstructions<B::Instruction>>,
        ordered: Seq<StateInstructions<B::Instruction>>,
    |
        {
            &&& #[trigger] walk::generates(found.state, s1_move, s2_move, depth, next, generated)
            &&& #[trigger] walk::is_ordering(generated@, ordered)
            &&& branches_out::<B, A>(before, after, found, next, ordered, Err(e))
        };
}

/// Where another worker has filed children for the choices first, they stay, and the child is one of
/// them.
pub proof fn the_first_children_stay<B: Battle, A: Arithmetic>(
    before: SharedTree<B::Instruction>,
    after: SharedTree<B::Instruction>,
    found: Selected<B>,
    depth: nat,
    next: B,
    child: u32,
)
    requires
        before@.children.contains_key((found.leaf, found.s1_index, found.s2_index)),
        expands::<B, A>(before, after, found, depth, Ok((next, Some(child)))),
    ensures
        after@.children == before@.children,
        before@.children[(found.leaf, found.s1_index, found.s2_index)].contains(child),
{
    let key = (found.leaf, found.s1_index, found.s2_index);
    let options = before@.nodes[found.leaf].options->0;
    let s1_move = options.s1[found.s1_index as int].move_choice;
    let s2_move = options.s2[found.s2_index as int].move_choice;
    let (next_2, generated, ordered) = choose|
        next_2: B,
        generated: Vec<StateInstructions<B::Instruction>>,
        ordered: Seq<StateInstructions<B::Instruction>>,
    |
        {
            &&& #[trigger] walk::generates(found.state, s1_move, s2_move, depth, next_2, generated)
            &&& #[trigger] walk::is_ordering(generated@, ordered)
            &&& branches_out::<B, A>(before, after, found, next_2, ordered, Ok((next, Some(child))))
        };
    let grown = choose|grown: SharedView<B::Instruction>| #[trigger]
        adds_children::<A, B::Instruction>(before@, grown, key, ordered, child) && after@
            == grown.with_node(child, with_node_loss(grown.nodes[child]));
    let (fresh, i) = choose|fresh: Seq<u32>, i: int|
        {
            &&& #[trigger] grown.grown_by(before@, fresh, ordered, 0i8)
            &&& grown.children == before@.children
            &&& #[trigger] walk::may_sample::<A>(shares(grown, grown.children[key]), i)
            &&& child == grown.children[key][i]
        };
    assert(before@.children[key][i] == child);
}

/// The node with a score added to two of its choices, a worker less below them, and one visit
/// more.
pub open spec fn settled_node<I>(
    node: NodeView<u32, i8, I>,
    s1_index: u8,
    s2_index: u8,
    points_1: u32,
    points_2: u32,
) -> NodeView<u32, i8, I> {
    let (i, j) = (s1_index as int, s2_index as int);
    let o = node.options->0;
    NodeView {
        times_visited: node.times_visited.wrapping_add(1),
        options: Some(
            OptionsView {
                s1: o.s1.update(i, o.s1[i].with_result(points_1).without_loss()),
                s2: o.s2.update(j, o.s2[j].with_result(points_2).without_loss()),
            },
        ),
        ..node
    }
}

/// The tree once a worker has come back from a step with a score.
pub open spec fn settled_step<I>(
    tree: SharedView<I>,
    step: PathStep,
    points_1: u32,
    points_2: u32,
) -> SharedView<I> {
    let above = tree.with_node(
        step.parent,
        settled_node(tree.nodes[step.parent], step.s1_index, step.s2_index, points_1, points_2),
    );
    above.with_node(step.child, without_node_loss(above.nodes[step.child]))
}

/// The tree once a worker has come back from a path with a score, last step first.
pub open spec fn settled<I>(
    tree: SharedView<I>,
    path: Seq<PathStep>,
    points_1: u32,
    points_2: u32,
) -> SharedView<I>
    decreases path.len(),
{
    if path.len() == 0 {
        tree
    } else {
        settled(
            settled_step(tree, path.last(), points_1, points_2),
            path.drop_last(),
            points_1,
            points_2,
        )
    }
}

/// The tree with one visit more at a node.
pub open spec fn with_visit<I>(tree: SharedView<I>, h: u32) -> SharedView<I> {
    tree.with_node(
        h,
        NodeView { times_visited: tree.nodes[h].times_visited.wrapping_add(1), ..tree.nodes[h] },
    )
}

/// What a score is worth to either side may be so many points.
pub open spec fn scores_as<A: Arithmetic>(score: Single, points_1: u32, points_2: u32) -> bool {
    exists|rest: Single| #[trigger]
        call_ensures(A::minus, (Single { bits: ONE }, score), rest) && call_ensures(
            A::to_scaled,
            (score,),
            points_1,
        ) && call_ensures(A::to_scaled, (rest,), points_2)
}

/// What a score is worth to side one, and what is left of it for side two.
pub fn points_of<A: Arithmetic>(score: Single) -> (r: (u32, u32))
    ensures
        scores_as::<A>(score, r.0, r.1),
{
    let rest = A::minus(Single { bits: ONE }, score);
    let points_1 = A::to_scaled(score);
    let points_2 = A::to_scaled(rest);
    (points_1, points_2)
}

/// A worker comes back from a step with a score.
fn settle_step<I>(tree: &mut SharedTree<I>, step: PathStep, points_1: u32, points_2: u32)
    requires
        old(tree).wf(),
        old(tree)@.nodes.contains_key(step.parent),
        old(tree)@.nodes.contains_key(step.child),
        old(tree)@.nodes[step.parent].has_pair(step.s1_index, step.s2_index),
    ensures
        final(tree).wf(),
        final(tree).memory() == old(tree).memory(),
        final(tree)@ == settled_step(old(tree)@, step, points_1, points_2),
{
    let ghost before = *tree;
    let options = tree.options(step.parent);
    let mut s1_move = options.s1()[step.s1_index as usize];
    let mut s2_move = options.s2()[step.s2_index as usize];
    s1_move.add_result(points_1);
    s1_move.remove_virtual_loss();
    s2_move.add_result(points_2);
    s2_move.remove_virtual_loss();
    tree.set_move(step.parent, false, step.s1_index, s1_move);
    tree.set_move(step.parent, true, step.s2_index, s2_move);
    let node = tree.node(step.parent);
    let times_visited = node.times_visited.wrapping_add(1);
    let virtual_losses = node.virtual_losses;
    tree.set_counts(step.parent, times_visited, virtual_losses);
    proof {
        let above = before@.with_node(
            step.parent,
            settled_node(
                before@.nodes[step.parent],
                step.s1_index,
                step.s2_index,
                points_1,
                points_2,
            ),
        );
        assert(tree@.nodes =~= above.nodes);
    }
    remove_node_loss(tree, step.child);
}

/// Coming back changes no children, no instructions and no number of options.
pub proof fn settling_is_quiet<I>(
    tree: SharedView<I>,
    root: u32,
    path: Seq<PathStep>,
    points_1: u32,
    points_2: u32,
)
    requires
        tree.is_tree(),
        walk::is_path(tree, root, path),
        0 < path.len(),
    ensures
        settled_step(tree, path.last(), points_1, points_2).children == tree.children,
        settled_step(tree, path.last(), points_1, points_2).nodes.dom() == tree.nodes.dom(),
        walk::is_path(
            settled_step(tree, path.last(), points_1, points_2),
            root,
            path.drop_last(),
        ),
        forall|h: u32| #[trigger]
            tree.nodes.contains_key(h) ==> settled_step(
                tree,
                path.last(),
                points_1,
                points_2,
            ).nodes[h].instructions == tree.nodes[h].instructions,
{
    walk::paths_ascend(tree, root, path);
    let s = path.last();
    assert(path[path.len() - 1] == s);
    let after = settled_step(tree, s, points_1, points_2);
    assert(after.nodes.dom() =~= tree.nodes.dom());
    assert(tree.nodes.contains_key(root)) by {
        walk::paths_ascend(tree, root, path.drop_last());
        if path.len() > 1 {
            assert(tree.nodes.contains_key(path[0].parent));
        }
    }
    assert(after.nodes.contains_key(root)) by {
        assert(after.nodes.dom().contains(root));
    }
    walk::paths_stay(tree, after, root, path.drop_last());
}

/// Walks a path back: credits a score to every choice on it, removes the virtual losses, and takes
/// the state back to where the path started.
pub fn backpropagate<B: Battle, A: Arithmetic>(
    tree: &mut SharedTree<B::Instruction>,
    path: &Vec<PathStep>,
    leaf: u32,
    score: Single,
    state: B,
) -> (r: B)
    requires
        old(tree).wf(),
        walk::is_path(old(tree)@, mcts::start_of(path@, leaf), path@),
        leaf == walk::end_of(mcts::start_of(path@, leaf), path@),
    ensures
        final(tree).wf(),
        final(tree).memory() == old(tree).memory(),
        exists|points_1: u32, points_2: u32| #[trigger]
            scores_as::<A>(score, points_1, points_2) && final(tree)@ == settled(
                with_visit(old(tree)@, leaf),
                path@,
                points_1,
                points_2,
            ),
        exists|states: Seq<B>| #[trigger]
            walk::comes_back(old(tree)@, path@, states) && states.last() == state && states[0]
                == r,
{
    let ghost before = *tree;
    let ghost n = path@.len() as int;
    let ghost root = mcts::start_of(path@, leaf);
    proof {
        tree.is_a_tree();
        walk::paths_ascend(tree@, root, path@);
    }
    let (points_1, points_2) = points_of::<A>(score);
    let node = tree.node(leaf);
    let times_visited = node.times_visited.wrapping_add(1);
    let virtual_losses = node.virtual_losses;
    tree.set_counts(leaf, times_visited, virtual_losses);
    let ghost visited = *tree;
    let ghost mut states: Seq<B> = Seq::new(path@.len() + 1, |k: int| state);
    let mut at = state;
    let mut k: usize = path.len();
    proof {
        assert(path@.take(n) =~= path@);
        assert(tree@.nodes.dom() =~= before@.nodes.dom());
        assert(tree@.nodes.dom().contains(root));
        walk::paths_stay(before@, tree@, root, path@);
    }
    while k > 0
        invariant
            tree.wf(),
            tree.memory() == before.memory(),
            n == path@.len(),
            k <= n,
            before@.nodes.dom() == tree@.nodes.dom(),
            forall|h: u32| #[trigger]
                before@.nodes.contains_key(h) ==> tree@.nodes[h].instructions
                    == before@.nodes[h].instructions,
            walk::is_path(tree@, root, path@.take(k as int)),
            settled(visited@, path@, points_1, points_2) == settled(
                tree@,
                path@.take(k as int),
                points_1,
                points_2,
            ),
            states.len() == n + 1,
            states[n] == state,
            states[k as int] == at,
            forall|l: int|
                k <= l < n ==> engine::reverses(
                    states[l + 1],
                    before@.nodes[(#[trigger] path@[l]).child].instructions,
                    states[l],
                ),
        decreases k,
    {
        let ghost came_from = at;
        let ghost ahead = path@.take(k as int);
        k = k - 1;
        let step = path[k];
        proof {
            tree.is_a_tree();
            walk::paths_ascend(tree@, root, ahead);
            assert(ahead[k as int] == step);
            assert(ahead.last() == step);
            assert(ahead.drop_last() =~= path@.take(k as int));
            settling_is_quiet(tree@, root, ahead, points_1, points_2);
            assert(before@.nodes.contains_key(step.child)) by {
                assert(tree@.nodes.dom().contains(step.child));
            }
        }
        settle_step(tree, step, points_1, points_2);
        proof {
            assert(tree@.nodes.contains_key(step.child)) by {
                assert(tree@.nodes.dom().contains(step.child));
            }
            assert forall|h: u32| #[trigger] before@.nodes.contains_key(h) implies tree@.nodes[h].instructions
                == before@.nodes[h].instructions by {
                assert(tree@.nodes.dom().contains(h));
            }
        }
        let list = tree.instructions(step.child);
        at = at.reverse_instructions(list);
        proof {
            assert(engine::reverses(came_from, before@.nodes[step.child].instructions, at));
            let further = states.update(k as int, at);
            assert forall|l: int| k <= l < n implies engine::reverses(
                further[l + 1],
                before@.nodes[(#[trigger] path@[l]).child].instructions,
                further[l],
            ) by {
                if l == k {
                    assert(path@[l] == step);
                }
            }
            states = further;
        }
    }
    proof {
        assert(walk::comes_back(before@, path@, states));
    }
    at
}

/// The way down of one iteration: what it has found, and what it has made of the tree.
pub struct WayDown<B: Battle> {
    pub descent: Seq<PathStep>,
    pub found: Selected<B>,
    pub selected: SharedTree<B::Instruction>,
    pub marked: SharedTree<B::Instruction>,
    pub next: (B, Option<u32>),
    pub expanded: SharedTree<B::Instruction>,
}

impl<B: Battle> WayDown<B> {
    /// The way from the root to the node that is to be scored.
    pub open spec fn path(self) -> Seq<PathStep> {
        match self.next.1 {
            Some(child) => self.descent.push(
                PathStep {
                    parent: self.found.leaf,
                    child,
                    s1_index: self.found.s1_index,
                    s2_index: self.found.s2_index,
                },
            ),
            None => self.descent,
        }
    }

    /// The node that is to be scored.
    pub open spec fn target(self) -> u32 {
        match self.next.1 {
            Some(child) => child,
            None => self.found.leaf,
        }
    }
}

/// A worker that has reached the node that it is to score.
pub struct Begun<B> {
    pub state: B,
    pub target: u32,
}

/// A worker may go down like this: descend, mark the choices that it ended with, and expand; where
/// that gives no child, the mark is taken back.
pub open spec fn goes_like<B: Battle, A: Arithmetic>(
    before: SharedTree<B::Instruction>,
    after: SharedTree<B::Instruction>,
    root: u32,
    state: B,
    begun: Begun<B>,
    w: WayDown<B>,
) -> bool {
    let leaf = w.found.leaf;
    &&& selects::<B, A>(before, w.selected, root, state, w.descent, w.found)
    &&& w.selected@.nodes[leaf].has_pair(w.found.s1_index, w.found.s2_index)
    &&& w.marked@ == w.selected@.with_node(
        leaf,
        with_choice_losses(w.selected@.nodes[leaf], w.found.s1_index, w.found.s2_index),
    )
    &&& w.marked.memory() == w.selected.memory()
    &&& expands::<B, A>(w.marked, w.expanded, w.found, w.descent.len(), Ok(w.next))
    &&& after.memory() == w.expanded.memory()
    &&& begun.target == w.target()
    &&& match w.next.1 {
        Some(child) => {
            &&& engine::applies(w.next.0, w.expanded@.nodes[child].instructions, begun.state)
            &&& after@ == w.expanded@
        },
        None => begun.state == w.next.0 && after@ == w.selected@,
    }
}

/// A worker may go down this path.
pub open spec fn begins<B: Battle, A: Arithmetic>(
    before: SharedTree<B::Instruction>,
    after: SharedTree<B::Instruction>,
    root: u32,
    state: B,
    path: Seq<PathStep>,
    begun: Begun<B>,
) -> bool {
    exists|w: WayDown<B>| #[trigger]
        goes_like::<B, A>(before, after, root, state, begun, w) && path == w.path()
}

/// A worker may fail on its way down: a node cannot be given options, a side has none there, or the
/// node gets no children.
pub open spec fn fails_to_begin<B: Battle, A: Arithmetic>(
    before: SharedTree<B::Instruction>,
    root: u32,
    state: B,
    e: SearchError,
) -> bool {
    ||| fails_to_select::<B, A>(before, root, state, e)
    ||| e == SearchError::NoOptions && exists|
        selected: SharedTree<B::Instruction>,
        descent: Seq<PathStep>,
        found: Selected<B>,
    |
        #[trigger] selects::<B, A>(before, selected, root, state, descent, found)
            && !selected@.nodes[found.leaf].can_choose()
    ||| exists|
        selected: SharedTree<B::Instruction>,
        marked: SharedTree<B::Instruction>,
        expanded: SharedTree<B::Instruction>,
        descent: Seq<PathStep>,
        found: Selected<B>,
    |
        {
            &&& #[trigger] selects::<B, A>(before, selected, root, state, descent, found)
            &&& selected@.nodes[found.leaf].can_choose()
            &&& marked@ == selected@.with_node(
                found.leaf,
                with_choice_losses(
                    selected@.nodes[found.leaf],
                    found.s1_index,
                    found.s2_index,
                ),
            )
            &&& marked.memory() == selected.memory()
            &&& #[trigger] expands::<B, A>(marked, expanded, found, descent.len(), Err(e))
        }
}

/// Goes down to the node that is to be scored.
#[verifier::spinoff_prover]
pub fn begin<B: Battle, A: Arithmetic>(
    tree: &mut SharedTree<B::Instruction>,
    root: u32,
    state: B,
    path: &mut Vec<PathStep>,
    rng: &mut SmallRng,
) -> (r: Result<Begun<B>, SearchError>)
    requires
        old(tree).wf(),
        old(tree)@.nodes.contains_key(root),
    ensures
        final(tree).wf(),
        r matches Ok(begun) ==> begins::<B, A>(
            *old(tree),
            *final(tree),
            root,
            state,
            final(path)@,
            begun,
        ),
        r matches Ok(begun) ==> {
            &&& walk::is_path(final(tree)@, root, final(path)@)
            &&& begun.target == walk::end_of(root, final(path)@)
            &&& root == mcts::start_of(final(path)@, begun.target)
        },
        // one draw from the generator decides each step that may lead to several nodes
        r is Ok ==> exists|rngs: Seq<SmallRng>| #[trigger]
            walk::is_record(rngs, final(path)@.len(), *old(rng), *final(rng)) && forall|k: int|
                0 <= k < final(path)@.len() ==> {
                    let nodes = final(tree)@.children[(#[trigger] final(path)@[k]).key()];
                    if nodes.len() == 1 {
                        rngs[k + 1] == rngs[k]
                    } else {
                        exists|draw: &mut SmallRng, i: int|
                            {
                                &&& *draw == rngs[k]
                                &&& *final(draw) == rngs[k + 1]
                                &&& #[trigger] walk::is_sampled::<A>(shares(final(tree)@, nodes), draw, i)
                                &&& nodes[i] == final(path)@[k].child
                            }
                    }
                },
        r matches Err(e) ==> fails_to_begin::<B, A>(*old(tree), root, state, e),
{
    let ghost before = *tree;
    path.clear();
    let found = match selection::<B, A>(tree, root, state, path, rng) {
        Ok(found) => found,
        Err(e) => {
            return Err(e);
        },
    };
    let ghost turned = *rng;
    let ghost chosen = found;
    let ghost selected = *tree;
    let ghost descent = path@;
    let leaf = found.leaf;
    let s1_index = found.s1_index;
    let s2_index = found.s2_index;
    proof {
        selection_stays_on_the_path::<B, A>(before, selected, root, state, descent, chosen);
    }
    if !can_choose(tree, leaf) {
        return Err(SearchError::NoOptions);
    }
    add_losses(tree, leaf, s1_index, s2_index);
    let ghost marked = *tree;
    let (next, expanded) = match expand::<B, A>(tree, found, path.len(), rng) {
        Ok(e) => e,
        Err(e) => {
            return Err(e);
        },
    };
    let ghost grown = *tree;
    let ghost w = WayDown {
        descent,
        found: chosen,
        selected,
        marked,
        next: (next, expanded),
        expanded: grown,
    };
    proof {
        before.is_a_tree();
        walk::paths_ascend(before@, root, descent);
        assert(marked@.nodes.dom() =~= selected@.nodes.dom());
        assert(marked@.nodes.dom().contains(root));
        walk::paths_stay(selected@, marked@, root, descent);
    }
    match expanded {
        Some(child) => {
            let step = PathStep { parent: leaf, child, s1_index, s2_index };
            let ghost came = next;
            proof {
                expansion_leads_to::<B, A>(marked, grown, root, descent, chosen, next, child);
                grown.is_a_tree();
                assert(descent.push(step).drop_last() =~= descent);
                walk::paths_ascend(grown@, root, descent.push(step));
                assert(descent.push(step)[descent.len() as int] == step);
            }
            let bottom = next.apply_instructions(tree.instructions(child));
            path.push(step);
            let begun = Begun { state: bottom, target: child };
            proof {
                assert(engine::applies(came, grown@.nodes[child].instructions, bottom));
                assert(path@ =~= w.path());
                assert(goes_like::<B, A>(before, *tree, root, state, begun, w));
                assert(begins::<B, A>(before, *tree, root, state, path@, begun));
                way_down_keeps_shares::<B, A>(before, *tree, root, state, begun, w);
                let rngs = choose|rngs: Seq<SmallRng>| #[trigger]
                    walk::is_record(rngs, descent.len(), *old(rng), turned) && forall|k: int|
                        0 <= k < descent.len() ==> {
                            let nodes = before@.children[(#[trigger] descent[k]).key()];
                            if nodes.len() == 1 {
                                rngs[k + 1] == rngs[k]
                            } else {
                                exists|draw: &mut SmallRng, i: int|
                                    {
                                        &&& *draw == rngs[k]
                                        &&& *final(draw) == rngs[k + 1]
                                        &&& #[trigger] walk::is_sampled::<A>(shares(before@, nodes), draw, i)
                                        &&& nodes[i] == descent[k].child
                                    }
                            }
                        };
                let drawn = rngs.push(*rng);
                assert forall|k: int| 0 <= k < path@.len() implies {
                    let nodes = tree@.children[(#[trigger] path@[k]).key()];
                    if nodes.len() == 1 {
                        drawn[k + 1] == drawn[k]
                    } else {
                        exists|draw: &mut SmallRng, i: int|
                            {
                                &&& *draw == drawn[k]
                                &&& *final(draw) == drawn[k + 1]
                                &&& #[trigger] walk::is_sampled::<A>(shares(tree@, nodes), draw, i)
                                &&& nodes[i] == path@[k].child
                            }
                    }
                } by {
                    if k < descent.len() {
                        assert(path@[k] == descent[k]);
                    }
                }
                assert(walk::is_record(drawn, path@.len(), *old(rng), *rng));
            }
            Ok(begun)
        },
        // the battle is over or both sides wait, so no child is added to the tree
        None => {
            remove_losses(tree, leaf, s1_index, s2_index);
            let begun = Begun { state: next, target: leaf };
            proof {
                let o = selected@.nodes[leaf].options->0;
                let (i, j) = (s1_index as int, s2_index as int);
                o.s1[i].losses_cancel(0);
                o.s2[j].losses_cancel(0);
                let back = without_choice_losses(marked@.nodes[leaf], s1_index, s2_index);
                assert(back.options->0.s1 =~= o.s1);
                assert(back.options->0.s2 =~= o.s2);
                assert(tree@.nodes =~= selected@.nodes);
                assert(tree@ == selected@);
                assert(path@ =~= w.path());
                assert(goes_like::<B, A>(before, *tree, root, state, begun, w));
                assert(begins::<B, A>(before, *tree, root, state, path@, begun));
                way_down_keeps_shares::<B, A>(before, *tree, root, state, begun, w);
                let rngs = choose|rngs: Seq<SmallRng>| #[trigger]
                    walk::is_record(rngs, descent.len(), *old(rng), turned) && forall|k: int|
                        0 <= k < descent.len() ==> {
                            let nodes = before@.children[(#[trigger] descent[k]).key()];
                            if nodes.len() == 1 {
                                rngs[k + 1] == rngs[k]
                            } else {
                                exists|draw: &mut SmallRng, i: int|
                                    {
                                        &&& *draw == rngs[k]
                                        &&& *final(draw) == rngs[k + 1]
                                        &&& #[trigger] walk::is_sampled::<A>(shares(before@, nodes), draw, i)
                                        &&& nodes[i] == descent[k].child
                                    }
                            }
                        };
                let drawn = rngs;
                assert forall|k: int| 0 <= k < path@.len() implies {
                    let nodes = tree@.children[(#[trigger] path@[k]).key()];
                    if nodes.len() == 1 {
                        drawn[k + 1] == drawn[k]
                    } else {
                        exists|draw: &mut SmallRng, i: int|
                            {
                                &&& *draw == drawn[k]
                                &&& *final(draw) == drawn[k + 1]
                                &&& #[trigger] walk::is_sampled::<A>(shares(tree@, nodes), draw, i)
                                &&& nodes[i] == path@[k].child
                            }
                    }
                } by {
                    if k < descent.len() {
                        assert(path@[k] == descent[k]);
                    }
                }
                assert(walk::is_record(drawn, path@.len(), *old(rng), *rng));
            }
            Ok(begun)
        },
    }
}

/// A way down changes no likelihoods, and leads through children that stay where they are.
proof fn way_down_keeps_shares<B: Battle, A: Arithmetic>(
    before: SharedTree<B::Instruction>,
    after: SharedTree<B::Instruction>,
    root: u32,
    state: B,
    begun: Begun<B>,
    w: WayDown<B>,
)
    requires
        before.wf(),
        goes_like::<B, A>(before, after, root, state, begun, w),
    ensures
        forall|k: int|
            0 <= k < w.descent.len() ==> {
                let key = (#[trigger] w.descent[k]).key();
                &&& after@.children[key] == before@.children[key]
                &&& shares(after@, after@.children[key]) == shares(before@, before@.children[key])
            },
{
    before.is_a_tree();
    walk::paths_ascend(before@, root, w.descent);
    loading_is_quiet(before@, root, w.descent);
    selection_stays_on_the_path::<B, A>(before, w.selected, root, state, w.descent, w.found);
    assert(w.marked@.nodes.dom() =~= before@.nodes.dom());
    assert forall|h: u32| #[trigger] before@.nodes.contains_key(h) implies w.marked@.nodes[h].percentage
        == before@.nodes[h].percentage && w.selected@.nodes[h].percentage
        == before@.nodes[h].percentage by {}
    if let Some(child) = w.next.1 {
        assert(w.marked@.nodes.dom().contains(root));
        walk::paths_stay(before@, w.marked@, root, w.descent);
        expansion_leads_to::<B, A>(
            w.marked,
            w.expanded,
            root,
            w.descent,
            w.found,
            w.next.0,
            child,
        );
    }
    assert forall|h: u32| #[trigger] before@.nodes.contains_key(h) implies after@.nodes[h].percentage
        == before@.nodes[h].percentage by {
        assert(w.marked@.nodes.dom().contains(h));
        assert(w.marked@.nodes.contains_key(h));
    }
    assert forall|k: int| 0 <= k < w.descent.len() implies {
        let key = (#[trigger] w.descent[k]).key();
        &&& after@.children[key] == before@.children[key]
        &&& shares(after@, after@.children[key]) == shares(before@, before@.children[key])
    } by {
        let key = w.descent[k].key();
        walk::steps_have_children(before@, root, w.descent, k);
        let nodes = before@.children[key];
        assert(w.marked@.children.contains_key(key));
        assert forall|i: int| 0 <= i < nodes.len() implies after@.nodes[#[trigger] nodes[i]].percentage
            == before@.nodes[nodes[i]].percentage by {
            let c = before@.children[key][i];
            assert(before@.nodes.contains_key(c));
        }
        assert(shares(after@, nodes) =~= shares(before@, nodes));
    }
}

/// The path of a descent is a path of the tree that it leaves behind.
proof fn selection_stays_on_the_path<B: Battle, A: Arithmetic>(
    before: SharedTree<B::Instruction>,
    after: SharedTree<B::Instruction>,
    root: u32,
    state: B,
    path: Seq<PathStep>,
    found: Selected<B>,
)
    requires
        before.wf(),
        selects::<B, A>(before, after, root, state, path, found),
    ensures
        after@.nodes.dom() == before@.nodes.dom(),
        after@.children == before@.children,
        before@.nodes.contains_key(root),
        after@.nodes.contains_key(found.leaf),
        walk::is_path(after@, root, path),
        path.len() > 0 ==> path[0].parent == root,
{
    before.is_a_tree();
    walk::paths_ascend(before@, root, path);
    loading_is_quiet(before@, root, path);
    let marked = loaded(before@, path);
    assert(marked.nodes.dom().contains(found.leaf));
    assert(after@.nodes.dom() =~= marked.nodes.dom());
    assert(before@.nodes.contains_key(root));
    assert(after@.nodes.dom().contains(root));
    walk::paths_stay(before@, after@, root, path);
}

/// The child that an expansion samples is filed for the choices that the descent ended with.
pub proof fn expansion_leads_to<B: Battle, A: Arithmetic>(
    before: SharedTree<B::Instruction>,
    after: SharedTree<B::Instruction>,
    root: u32,
    path: Seq<PathStep>,
    found: Selected<B>,
    next: B,
    child: u32,
)
    requires
        walk::is_path(before@, root, path),
        before@.nodes.contains_key(root),
        found.leaf == walk::end_of(root, path),
        expands::<B, A>(before, after, found, path.len(), Ok((next, Some(child)))),
    ensures
        ({
            let step = PathStep {
                parent: found.leaf,
                child,
                s1_index: found.s1_index,
                s2_index: found.s2_index,
            };
            walk::is_path(after@, root, path.push(step))
        }),
        forall|h: u32| #[trigger]
            before@.nodes.contains_key(h) ==> after@.nodes.contains_key(h) && (h != child
                ==> after@.nodes[h] == before@.nodes[h]),
        !before@.children.contains_key((found.leaf, found.s1_index, found.s2_index)) ==> {
            &&& !before@.nodes.contains_key(child)
            &&& after@.nodes.contains_key(child)
            &&& forall|h: u32| #[trigger]
                after@.nodes.contains_key(h) && !before@.nodes.contains_key(h)
                    ==> after@.nodes[h].times_visited == 0 && after@.nodes[h].virtual_losses == (
                if h == child {
                    1i8
                } else {
                    0i8
                }) && after@.nodes[h].options is None
        },
        forall|k: (u32, u8, u8)| #[trigger]
            before@.children.contains_key(k) ==> after@.children.contains_key(k)
                && after@.children[k] == before@.children[k],
{
    let key = (found.leaf, found.s1_index, found.s2_index);
    let (outcomes, grown) = expansion_adds_children::<B, A>(
        before,
        after,
        found,
        path.len(),
        next,
        child,
    );
    let (fresh, i) = choose|fresh: Seq<u32>, i: int|
        {
            &&& #[trigger] grown.grown_by(before@, fresh, outcomes, 0i8)
            &&& grown.children == (if before@.children.contains_key(key) {
                before@.children
            } else {
                before@.children.insert(key, fresh)
            })
            &&& #[trigger] walk::may_sample::<A>(shares(grown, grown.children[key]), i)
            &&& child == grown.children[key][i]
        };
    assert(grown.children == after@.children);
    let step = PathStep {
        parent: found.leaf,
        child,
        s1_index: found.s1_index,
        s2_index: found.s2_index,
    };
    walk::paths_stay(before@, after@, root, path);
    assert(path.push(step).drop_last() =~= path);
    assert(step.key() == key);
    assert(after@.children[key][i] == child);
    if !before@.children.contains_key(key) {
        assert(fresh[i] == child);
        assert(fresh.contains(child));
        assert forall|h: u32| #[trigger]
            after@.nodes.contains_key(h) && !before@.nodes.contains_key(h) implies after@.nodes[h].times_visited
            == 0 && after@.nodes[h].virtual_losses == (if h == child {
            1i8
        } else {
            0i8
        }) && after@.nodes[h].options is None by {
            assert(grown.nodes.contains_key(h));
            assert(fresh.contains(h));
            let c = choose|c: int| 0 <= c < fresh.len() && fresh[c] == h;
            assert(grown.nodes[fresh[c]].times_visited == 0);
        }
    }
}

/// Where an expansion samples a child, the outcomes have become nodes.
proof fn expansion_adds_children<B: Battle, A: Arithmetic>(
    before: SharedTree<B::Instruction>,
    after: SharedTree<B::Instruction>,
    found: Selected<B>,
    depth: nat,
    end: B,
    child: u32,
) -> (r: (Seq<StateInstructions<B::Instruction>>, SharedView<B::Instruction>))
    requires
        expands::<B, A>(before, after, found, depth, Ok((end, Some(child)))),
    ensures
        adds_children::<A, B::Instruction>(
            before@,
            r.1,
            (found.leaf, found.s1_index, found.s2_index),
            r.0,
            child,
        ),
        after@ == r.1.with_node(child, with_node_loss(r.1.nodes[child])),
{
    let options = before@.nodes[found.leaf].options->0;
    let s1_move = options.s1[found.s1_index as int].move_choice;
    let s2_move = options.s2[found.s2_index as int].move_choice;
    let (next, generated, outcomes) = choose|
        next: B,
        generated: Vec<StateInstructions<B::Instruction>>,
        outcomes: Seq<StateInstructions<B::Instruction>>,
    |
        {
            &&& #[trigger] walk::generates(found.state, s1_move, s2_move, depth, next, generated)
            &&& #[trigger] walk::is_ordering(generated@, outcomes)
            &&& branches_out::<B, A>(before, after, found, next, outcomes, Ok((end, Some(child))))
        };
    let (c, grown) = choose|c: u32, grown: SharedView<B::Instruction>| #[trigger]
        adds_children::<A, B::Instruction>(
            before@,
            grown,
            (found.leaf, found.s1_index, found.s2_index),
            outcomes,
            c,
        ) && after@ == grown.with_node(c, with_node_loss(grown.nodes[c])) && Ok::<
            (B, Option<u32>),
            SearchError,
        >((end, Some(child))) == Ok::<(B, Option<u32>), SearchError>((next, Some(c)));
    (outcomes, grown)
}

/// One iteration that no other worker comes between.
pub struct Round<B: Battle> {
    pub down: WayDown<B>,
    pub options: OptionsView<u32>,
    pub begun: Begun<B>,
    pub middle: SharedTree<B::Instruction>,
    pub score: Single,
    pub points_1: u32,
    pub points_2: u32,
    pub way_back: Seq<B>,
}

/// An iteration may run like this: go down, score the state there, and come back.
pub open spec fn is_round<B: Battle, A: Arithmetic>(
    before: SharedTree<B::Instruction>,
    after: SharedTree<B::Instruction>,
    root: u32,
    root_eval: Single,
    state: B,
    end: B,
    t: Round<B>,
) -> bool {
    let path = t.down.path();
    let leaf = t.down.found.leaf;
    let marked = loaded(before@, t.down.descent);
    &&& goes_like::<B, A>(before, t.middle, root, state, t.begun, t.down)
    &&& walk::offers(marked.nodes[leaf], t.down.found.state, 0u32, t.options)
    &&& is_offered(marked, before.memory(), t.down.selected, leaf, t.options)
    &&& t.middle@.is_tree()
    &&& walk::is_path(t.middle@, root, path)
    &&& walk::may_be_worth::<B, A>(t.begun.state, root_eval, t.score)
    &&& scores_as::<A>(t.score, t.points_1, t.points_2)
    &&& after.memory() == t.middle.memory()
    &&& after@ == settled(with_visit(t.middle@, t.begun.target), path, t.points_1, t.points_2)
    &&& walk::comes_back(t.middle@, path, t.way_back)
    &&& t.way_back.last() == t.begun.state
    &&& t.way_back[0] == end
}

/// An iteration may end like this.
pub open spec fn iterates<B: Battle, A: Arithmetic>(
    before: SharedTree<B::Instruction>,
    after: SharedTree<B::Instruction>,
    root: u32,
    root_eval: Single,
    state: B,
    end: B,
) -> bool {
    exists|t: Round<B>| #[trigger] is_round::<B, A>(before, after, root, root_eval, state, end, t)
}

/// Runs one iteration that no other worker comes between.
pub fn do_mcts<B: Battle, A: Arithmetic>(
    tree: &mut SharedTree<B::Instruction>,
    root: u32,
    state: B,
    root_eval: Single,
    path: &mut Vec<PathStep>,
    rng: &mut SmallRng,
) -> (r: Result<B, SearchError>)
    requires
        old(tree).wf(),
        old(tree)@.nodes.contains_key(root),
    ensures
        final(tree).wf(),
        r matches Ok(end) ==> {
            &&& iterates::<B, A>(*old(tree), *final(tree), root, root_eval, state, end)
            &&& final(tree)@.nodes[root].times_visited
                == old(tree)@.nodes[root].times_visited.wrapping_add(1)
            &&& final(tree)@.nodes[root].virtual_losses == old(tree)@.nodes[root].virtual_losses
            &&& walk::undoes::<B>() && walk::generates_quietly::<B>() ==> end == state
        },
        // one draw from the generator decides each step that may lead to several nodes
        r is Ok ==> exists|rngs: Seq<SmallRng>| #[trigger]
            walk::is_record(rngs, final(path)@.len(), *old(rng), *final(rng)) && forall|k: int|
                0 <= k < final(path)@.len() ==> {
                    let nodes = final(tree)@.children[(#[trigger] final(path)@[k]).key()];
                    if nodes.len() == 1 {
                        rngs[k + 1] == rngs[k]
                    } else {
                        exists|draw: &mut SmallRng, i: int|
                            {
                                &&& *draw == rngs[k]
                                &&& *final(draw) == rngs[k + 1]
                                &&& #[trigger] walk::is_sampled::<A>(shares(final(tree)@, nodes), draw, i)
                                &&& nodes[i] == final(path)@[k].child
                            }
                    }
                },
        r matches Err(e) ==> fails_to_begin::<B, A>(*old(tree), root, state, e),
{
    let ghost before = *tree;
    let begun = match begin::<B, A>(tree, root, state, path, rng) {
        Ok(begun) => begun,
        Err(e) => {
            return Err(e);
        },
    };
    let ghost reached = begun;
    let ghost middle = *tree;
    let score = rollout::<B, A>(&begun.state, root_eval);
    let end = backpropagate::<B, A>(tree, path, begun.target, score, begun.state);
    proof {
        let (points_1, points_2) = choose|points_1: u32, points_2: u32| #[trigger]
            scores_as::<A>(score, points_1, points_2) && tree@ == settled(
                with_visit(middle@, reached.target),
                path@,
                points_1,
                points_2,
            );
        let way_back = choose|states: Seq<B>| #[trigger]
            walk::comes_back(middle@, path@, states) && states.last() == reached.state && states[0]
                == end;
        let down = choose|w: WayDown<B>| #[trigger]
            goes_like::<B, A>(before, middle, root, state, reached, w) && path@ == w.path();
        let marked = loaded(before@, down.descent);
        let leaf = down.found.leaf;
        let options = choose|options: OptionsView<u32>| #[trigger]
            walk::offers(marked.nodes[leaf], down.found.state, 0u32, options) && is_offered(
                marked,
                before.memory(),
                down.selected,
                leaf,
                options,
            );
        middle.is_a_tree();
        let t = Round {
            down,
            options,
            begun: reached,
            middle,
            score,
            points_1,
            points_2,
            way_back,
        };
        assert(is_round::<B, A>(before, *tree, root, root_eval, state, end, t));
        way_back_keeps_shares(middle@, root, path@, reached.target, points_1, points_2);
        let rngs = choose|rngs: Seq<SmallRng>| #[trigger]
            walk::is_record(rngs, path@.len(), *old(rng), *rng) && forall|k: int|
                0 <= k < path@.len() ==> {
                    let nodes = middle@.children[(#[trigger] path@[k]).key()];
                    if nodes.len() == 1 {
                        rngs[k + 1] == rngs[k]
                    } else {
                        exists|draw: &mut SmallRng, i: int|
                            {
                                &&& *draw == rngs[k]
                                &&& *final(draw) == rngs[k + 1]
                                &&& #[trigger] walk::is_sampled::<A>(shares(middle@, nodes), draw, i)
                                &&& nodes[i] == path@[k].child
                            }
                    }
                };
        assert forall|k: int| 0 <= k < path@.len() implies {
            let nodes = tree@.children[(#[trigger] path@[k]).key()];
            if nodes.len() == 1 {
                rngs[k + 1] == rngs[k]
            } else {
                exists|draw: &mut SmallRng, i: int|
                    {
                        &&& *draw == rngs[k]
                        &&& *final(draw) == rngs[k + 1]
                        &&& #[trigger] walk::is_sampled::<A>(shares(tree@, nodes), draw, i)
                        &&& nodes[i] == path@[k].child
                    }
            }
        } by {}
        assert(walk::is_record(rngs, path@.len(), *old(rng), *rng));
        a_round_visits_the_root::<B, A>(before, *tree, root, root_eval, state, end, t);
        if walk::undoes::<B>() && walk::generates_quietly::<B>() {
            a_round_restores_the_state::<B, A>(before, *tree, root, root_eval, state, end);
        }
    }
    Ok(end)
}

/// The node as a worker that arrives over `k` steps finds and leaves it.
pub open spec fn entered<I>(node: NodeView<u32, i8, I>, k: int) -> NodeView<u32, i8, I> {
    if k > 0 {
        with_node_loss(node)
    } else {
        node
    }
}

/// The node once the worker that arrived over `k` steps has come back.
pub open spec fn returned<I>(node: NodeView<u32, i8, I>, k: int) -> NodeView<u32, i8, I> {
    if k > 0 {
        without_node_loss(node)
    } else {
        node
    }
}

/// What a worker leaves behind on its way down.
pub proof fn loaded_nodes<I>(tree: SharedView<I>, root: u32, path: Seq<PathStep>)
    requires
        tree.is_tree(),
        walk::is_path(tree, root, path),
    ensures
        forall|k: int|
            0 <= k < path.len() ==> loaded(tree, path).nodes[(#[trigger] path[k]).parent]
                == with_choice_losses(
                entered(tree.nodes[path[k].parent], k),
                path[k].s1_index,
                path[k].s2_index,
            ),
        loaded(tree, path).nodes[walk::end_of(root, path)] == entered(
            tree.nodes[walk::end_of(root, path)],
            path.len() as int,
        ),
        forall|h: u32| #[trigger]
            tree.nodes.contains_key(h) && h != walk::end_of(root, path) && !mcts::is_left(path, 0, h)
                ==> loaded(tree, path).nodes[h] == tree.nodes[h],
    decreases path.len(),
{
    if path.len() > 0 {
        let fore = path.drop_last();
        let s = path.last();
        loaded_nodes(tree, root, fore);
        walk::paths_ascend(tree, root, path);
        walk::paths_ascend(tree, root, fore);
        assert(path[path.len() - 1] == s);
        let all = loaded(tree, path);
        assert forall|k: int| 0 <= k < path.len() implies all.nodes[(#[trigger] path[k]).parent]
            == with_choice_losses(
            entered(tree.nodes[path[k].parent], k),
            path[k].s1_index,
            path[k].s2_index,
        ) by {
            if k < fore.len() {
                assert(path[k] == fore[k]);
                assert(path[k].child <= path[path.len() - 1].parent);
            }
        }
        assert(!mcts::is_left(fore, 0, s.child)) by {
            if mcts::is_left(fore, 0, s.child) {
                let k = choose|k: int| 0 <= k < fore.len() && (#[trigger] fore[k]).parent == s.child;
                assert(path[k] == fore[k]);
                assert(path[k].child <= path[path.len() - 1].parent);
            }
        }
        assert forall|h: u32| #[trigger]
            tree.nodes.contains_key(h) && h != s.child && !mcts::is_left(path, 0, h) implies all.nodes[h]
            == tree.nodes[h] by {
            assert(h != s.parent) by {
                if h == s.parent {
                    assert(path[path.len() - 1].parent == h);
                }
            }
            assert(!mcts::is_left(fore, 0, h)) by {
                if mcts::is_left(fore, 0, h) {
                    let k = choose|k: int| 0 <= k < fore.len() && (#[trigger] fore[k]).parent == h;
                    assert(path[k] == fore[k]);
                }
            }
        }
    }
}

/// On its way down, a worker makes the choices with the greatest bounds at every node that it leaves
/// and at the one where it ends, as it finds them marked by the virtual losses of its way so far.
pub proof fn descents_follow_the_greatest_bounds<B: Battle, A: Arithmetic>(
    before: SharedTree<B::Instruction>,
    after: SharedTree<B::Instruction>,
    root: u32,
    state: B,
    path: Seq<PathStep>,
    found: Selected<B>,
    bound: spec_fn(u32, u32, u32) -> Single,
)
    requires
        before.wf(),
        after.wf(),
        selects::<B, A>(before, after, root, state, path, found),
        forall|total: u32, visits: u32, parents: u32, s: Single| #[trigger]
            call_ensures(A::scaled_upper_bound, (total, visits, parents), s) ==> s == bound(
                total,
                visits,
                parents,
            ) && !s.is_nan(),
    ensures
        forall|k: int|
            0 <= k < path.len() ==> prefers(
                bound,
                entered(before@.nodes[(#[trigger] path[k]).parent], k),
                path[k].s1_index,
                path[k].s2_index,
            ),
        after@.nodes[found.leaf].can_choose() ==> prefers(
            bound,
            after@.nodes[found.leaf],
            found.s1_index,
            found.s2_index,
        ),
        !after@.children.contains_key((found.leaf, found.s1_index, found.s2_index)),
{
    before.is_a_tree();
    after.is_a_tree();
    walk::paths_ascend(before@, root, path);
    assert forall|k: int| 0 <= k < path.len() implies prefers(
        bound,
        entered(before@.nodes[(#[trigger] path[k]).parent], k),
        path[k].s1_index,
        path[k].s2_index,
    ) by {
        steps_are_taken::<A, B::Instruction>(before@, root, path, k);
        pairs_have_the_greatest_bounds::<A, B::Instruction>(
            entered(before@.nodes[path[k].parent], k),
            bound,
            path[k].s1_index,
            path[k].s2_index,
        );
    }
    if after@.nodes[found.leaf].can_choose() {
        loading_is_quiet(before@, root, path);
        assert(loaded(before@, path).nodes.dom().contains(found.leaf));
        assert(after@.nodes.contains_key(found.leaf));
        pairs_have_the_greatest_bounds::<A, B::Instruction>(
            after@.nodes[found.leaf],
            bound,
            found.s1_index,
            found.s2_index,
        );
    }
}

/// A descent ends in the state that the instructions of the nodes on its way make of the one that it
/// started in, at the node where its path ends. If that node had no options, it has got those that
/// the state offers, none of which has been tried.
pub proof fn descents_reach_the_state_of_their_leaf<B: Battle, A: Arithmetic>(
    before: SharedTree<B::Instruction>,
    after: SharedTree<B::Instruction>,
    root: u32,
    state: B,
    path: Seq<PathStep>,
    found: Selected<B>,
)
    requires
        before.wf(),
        selects::<B, A>(before, after, root, state, path, found),
    ensures
        found.leaf == (if path.len() == 0 {
            root
        } else {
            path[path.len() - 1].child
        }),
        exists|states: Seq<B>|
            {
                &&& states.len() == path.len() + 1
                &&& states[0] == state
                &&& #[trigger] states.last() == found.state
                &&& forall|k: int|
                    0 <= k < path.len() ==> engine::applies(
                        states[k],
                        before@.nodes[(#[trigger] path[k]).child].instructions,
                        states[k + 1],
                    )
            },
        before@.nodes[found.leaf].options is None ==> exists|
            s1: Vec<MoveChoice>,
            s2: Vec<MoveChoice>,
        |
            {
                &&& #[trigger] call_ensures(B::get_all_options, (&found.state,), (s1, s2))
                &&& mcts::choices_of(after@.nodes[found.leaf].options->0.s1) == s1@
                &&& mcts::choices_of(after@.nodes[found.leaf].options->0.s2) == s2@
                &&& walk::total_visits(after@.nodes[found.leaf].options->0.s1) == 0
                &&& walk::total_visits(after@.nodes[found.leaf].options->0.s2) == 0
            },
{
    before.is_a_tree();
    walk::paths_ascend(before@, root, path);
    loading_is_quiet(before@, root, path);
    assert(before@.nodes.contains_key(found.leaf));
    let states = choose|states: Seq<B>| #[trigger]
        walk::goes_down(before@, path, states) && states[0] == state && states.last()
            == found.state;
    assert(states.last() == found.state);
    if before@.nodes[found.leaf].options is None {
        let (s1, s2) = choose|s1: Vec<MoveChoice>, s2: Vec<MoveChoice>|
            #[trigger] call_ensures(B::get_all_options, (&found.state,), (s1, s2)) && after@.nodes[found.leaf].options
                == Some(OptionsView::fresh(s1@, s2@, 0u32));
        walk::untried_is_unvisited(s1@, 0u32);
        walk::untried_is_unvisited(s2@, 0u32);
        let o = after@.nodes[found.leaf].options->0;
        assert(mcts::choices_of(o.s1) =~= s1@);
        assert(mcts::choices_of(o.s2) =~= s2@);
    }
}

/// At every node that a worker leaves it has made choices that both sides may make there.
proof fn steps_are_taken<A: Arithmetic, I>(
    tree: SharedView<I>,
    root: u32,
    path: Seq<PathStep>,
    k: int,
)
    requires
        tree.is_tree(),
        walk::is_path(tree, root, path),
        are_steps::<A, I>(tree, path),
        0 <= k < path.len(),
    ensures
        is_pair::<A, I>(
            entered(tree.nodes[path[k].parent], k),
            path[k].s1_index,
            path[k].s2_index,
        ),
    decreases path.len(),
{
    let fore = path.drop_last();
    if k < fore.len() {
        steps_are_taken::<A, I>(tree, root, fore, k);
    } else {
        loaded_nodes(tree, root, fore);
        assert(path[k] == path.last());
    }
}

/// What a worker leaves behind on its way back.
pub proof fn settled_nodes<I>(
    tree: SharedView<I>,
    root: u32,
    path: Seq<PathStep>,
    points_1: u32,
    points_2: u32,
)
    requires
        tree.is_tree(),
        walk::is_path(tree, root, path),
    ensures
        settled(tree, path, points_1, points_2).children == tree.children,
        settled(tree, path, points_1, points_2).nodes.dom() == tree.nodes.dom(),
        forall|k: int|
            0 <= k < path.len() ==> settled(tree, path, points_1, points_2).nodes[(
            #[trigger] path[k]).parent] == settled_node(
                returned(tree.nodes[path[k].parent], k),
                path[k].s1_index,
                path[k].s2_index,
                points_1,
                points_2,
            ),
        settled(tree, path, points_1, points_2).nodes[walk::end_of(root, path)] == returned(
            tree.nodes[walk::end_of(root, path)],
            path.len() as int,
        ),
        forall|h: u32| #[trigger]
            tree.nodes.contains_key(h) && h != walk::end_of(root, path) && !mcts::is_left(path, 0, h)
                ==> settled(tree, path, points_1, points_2).nodes[h] == tree.nodes[h],
    decreases path.len(),
{
    if path.len() > 0 {
        let fore = path.drop_last();
        let s = path.last();
        let next = settled_step(tree, s, points_1, points_2);
        settling_is_quiet(tree, root, path, points_1, points_2);
        walk::paths_ascend(tree, root, path);
        walk::paths_ascend(tree, root, fore);
        assert(path[path.len() - 1] == s);
        assert(next.is_tree()) by {
            assert forall|k: (u32, u8, u8)| #[trigger] next.children.contains_key(k) implies {
                &&& next.nodes.contains_key(k.0)
                &&& next.nodes[k.0].has_pair(k.1, k.2)
                &&& 0 < next.children[k].len()
            } by {
                assert(tree.children.contains_key(k));
                assert(next.nodes.dom().contains(k.0));
            }
            assert forall|k: (u32, u8, u8), i: int|
                #![trigger next.children[k][i]]
                next.children.contains_key(k) && 0 <= i < next.children[k].len() implies k.0
                < next.children[k][i] && next.nodes.contains_key(next.children[k][i]) by {
                assert(tree.children.contains_key(k));
                let c = tree.children[k][i];
                assert(next.nodes.dom().contains(c));
            }
            assert forall|h: u32| #[trigger] next.nodes.contains_key(h) implies (
            next.nodes[h].options matches Some(o) ==> o.s1.len() <= 255 && o.s2.len() <= 255) by {
                assert(tree.nodes.dom().contains(h));
                assert(tree.nodes.contains_key(h));
                assert(tree.nodes[s.parent].options is Some);
                assert(tree.nodes.contains_key(s.parent));
            }
        }
        settled_nodes(next, root, fore, points_1, points_2);
        let all = settled(tree, path, points_1, points_2);
        assert(!mcts::is_left(fore, 0, s.child)) by {
            if mcts::is_left(fore, 0, s.child) {
                let k = choose|k: int| 0 <= k < fore.len() && (#[trigger] fore[k]).parent == s.child;
                assert(path[k] == fore[k]);
                assert(path[k].child <= path[path.len() - 1].parent);
            }
        }
        assert(next.nodes.contains_key(s.child)) by {
            assert(next.nodes.dom().contains(s.child));
        }
        assert forall|k: int| 0 <= k < path.len() implies all.nodes[(#[trigger] path[k]).parent]
            == settled_node(
            returned(tree.nodes[path[k].parent], k),
            path[k].s1_index,
            path[k].s2_index,
            points_1,
            points_2,
        ) by {
            if k < fore.len() {
                assert(path[k] == fore[k]);
                assert(path[k].child <= path[path.len() - 1].parent);
            }
        }
        assert forall|h: u32| #[trigger]
            tree.nodes.contains_key(h) && h != s.child && !mcts::is_left(path, 0, h) implies all.nodes[h]
            == tree.nodes[h] by {
            assert(h != s.parent) by {
                if h == s.parent {
                    assert(path[path.len() - 1].parent == h);
                }
            }
            assert(!mcts::is_left(fore, 0, h)) by {
                if mcts::is_left(fore, 0, h) {
                    let k = choose|k: int| 0 <= k < fore.len() && (#[trigger] fore[k]).parent == h;
                    assert(path[k] == fore[k]);
                }
            }
            assert(next.nodes.dom().contains(h));
            assert(next.nodes.contains_key(h));
        }
    }
}

/// A way back changes no likelihoods, and leads through children that stay where they are.
proof fn way_back_keeps_shares<I>(
    tree: SharedView<I>,
    root: u32,
    path: Seq<PathStep>,
    leaf: u32,
    points_1: u32,
    points_2: u32,
)
    requires
        tree.is_tree(),
        walk::is_path(tree, root, path),
        leaf == walk::end_of(root, path),
    ensures
        forall|k: int|
            0 <= k < path.len() ==> {
                let key = (#[trigger] path[k]).key();
                let after = settled(with_visit(tree, leaf), path, points_1, points_2);
                &&& after.children[key] == tree.children[key]
                &&& shares(after, after.children[key]) == shares(tree, tree.children[key])
            },
{
    let lower = with_visit(tree, leaf);
    let after = settled(lower, path, points_1, points_2);
    walk::paths_ascend(tree, root, path);
    visiting_is_quiet(tree, root, path, leaf);
    settled_nodes(lower, root, path, points_1, points_2);
    assert forall|h: u32| #[trigger] tree.nodes.contains_key(h) implies after.nodes[h].percentage
        == tree.nodes[h].percentage by {
        assert(lower.nodes.dom().contains(h));
        assert(lower.nodes.contains_key(h));
        if h != leaf && mcts::is_left(path, 0, h) {
            let k = choose|k: int| 0 <= k < path.len() && (#[trigger] path[k]).parent == h;
        }
    }
    assert forall|k: int| 0 <= k < path.len() implies {
        let key = (#[trigger] path[k]).key();
        &&& after.children[key] == tree.children[key]
        &&& shares(after, after.children[key]) == shares(tree, tree.children[key])
    } by {
        let key = path[k].key();
        walk::steps_have_children(tree, root, path, k);
        let nodes = tree.children[key];
        assert forall|i: int| 0 <= i < nodes.len() implies after.nodes[#[trigger] nodes[i]].percentage
            == tree.nodes[nodes[i]].percentage by {
            let c = tree.children[key][i];
            assert(tree.nodes.contains_key(c));
        }
        assert(shares(after, nodes) =~= shares(tree, nodes));
    }
}

/// The node with a score added to two of its choices, and one visit more.
pub open spec fn credited_node<I>(
    node: NodeView<u32, i8, I>,
    s1_index: u8,
    s2_index: u8,
    points_1: u32,
    points_2: u32,
) -> NodeView<u32, i8, I> {
    let (i, j) = (s1_index as int, s2_index as int);
    let o = node.options->0;
    NodeView {
        times_visited: node.times_visited.wrapping_add(1),
        options: Some(
            OptionsView {
                s1: o.s1.update(i, o.s1[i].with_result(points_1)),
                s2: o.s2.update(j, o.s2[j].with_result(points_2)),
            },
        ),
        ..node
    }
}

/// Going below a node and its choices and coming back with a score credits it, and leaves nothing
/// else behind.
proof fn marks_cancel<I>(
    node: NodeView<u32, i8, I>,
    k: int,
    s1_index: u8,
    s2_index: u8,
    points_1: u32,
    points_2: u32,
)
    requires
        node.has_pair(s1_index, s2_index),
    ensures
        settled_node(
            returned(with_choice_losses(entered(node, k), s1_index, s2_index), k),
            s1_index,
            s2_index,
            points_1,
            points_2,
        ) == credited_node(node, s1_index, s2_index, points_1, points_2),
{
    let (i, j) = (s1_index as int, s2_index as int);
    let o = node.options->0;
    o.s1[i].losses_cancel(points_1);
    o.s2[j].losses_cancel(points_2);
    let a = settled_node(
        returned(with_choice_losses(entered(node, k), s1_index, s2_index), k),
        s1_index,
        s2_index,
        points_1,
        points_2,
    );
    let b = credited_node(node, s1_index, s2_index, points_1, points_2);
    assert(a.options->0.s1 =~= b.options->0.s1);
    assert(a.options->0.s2 =~= b.options->0.s2);
    assert(a.virtual_losses == node.virtual_losses);
}

/// The node with one visit more.
pub open spec fn visited_node<I>(node: NodeView<u32, i8, I>) -> NodeView<u32, i8, I> {
    NodeView { times_visited: node.times_visited.wrapping_add(1), ..node }
}

/// A worker that no other comes between leaves no virtual losses behind: the nodes on its path are
/// credited, the node that it scored has one visit more, and every other node is as it was.
pub proof fn a_round_only_credits<B: Battle, A: Arithmetic>(
    before: SharedTree<B::Instruction>,
    after: SharedTree<B::Instruction>,
    root: u32,
    root_eval: Single,
    state: B,
    end: B,
    t: Round<B>,
)
    requires
        before.wf(),
        is_round::<B, A>(before, after, root, root_eval, state, end, t),
    ensures
        ({
            let path = t.down.path();
            let target = t.begun.target;
            let leaf = t.down.found.leaf;
            let ready = before@.with_node(leaf, before@.nodes[leaf].with_options(t.options));
            &&& forall|k: int|
                0 <= k < path.len() ==> after@.nodes[(#[trigger] path[k]).parent] == credited_node(
                    ready.nodes[path[k].parent],
                    path[k].s1_index,
                    path[k].s2_index,
                    t.points_1,
                    t.points_2,
                )
            &&& before@.nodes.contains_key(target) ==> after@.nodes[target] == visited_node(
                ready.nodes[target],
            )
            &&& !before@.nodes.contains_key(target) ==> after@.nodes[target].virtual_losses == 0
                && after@.nodes[target].times_visited == 1
            &&& forall|h: u32| #[trigger]
                before@.nodes.contains_key(h) && h != target && !mcts::is_left(path, 0, h)
                    ==> after@.nodes[h] == before@.nodes[h]
        }),
{
    let w = t.down;
    let path = w.path();
    let target = t.begun.target;
    let leaf = w.found.leaf;
    let n = w.descent.len() as int;
    let ready = before@.with_node(leaf, before@.nodes[leaf].with_options(t.options));
    let lower = with_visit(t.middle@, target);
    before.is_a_tree();
    walk::paths_ascend(before@, root, w.descent);
    loading_is_quiet(before@, root, w.descent);
    loaded_nodes(before@, root, w.descent);
    walk::paths_ascend(t.middle@, root, path);
    assert(w.selected@.nodes.dom() =~= before@.nodes.dom());
    assert(w.marked@.nodes.dom() =~= before@.nodes.dom());
    visiting_is_quiet(t.middle@, root, path, target);
    settled_nodes(lower, root, path, t.points_1, t.points_2);
    if let Some(child) = w.next.1 {
        assert(path[n] == path.last());
        assert(w.marked@.nodes.dom().contains(root));
        walk::paths_stay(before@, w.marked@, root, w.descent);
        expansion_leads_to::<B, A>(
            w.marked,
            w.expanded,
            root,
            w.descent,
            w.found,
            w.next.0,
            child,
        );
        assert forall|k: int| 0 <= k < path.len() implies after@.nodes[(#[trigger] path[k]).parent]
            == credited_node(
            ready.nodes[path[k].parent],
            path[k].s1_index,
            path[k].s2_index,
            t.points_1,
            t.points_2,
        ) by {
            let h = path[k].parent;
            if k < n {
                assert(path[k] == w.descent[k]);
            }
            assert(before@.nodes.contains_key(h));
            assert(w.marked@.nodes.dom().contains(h));
            assert(w.marked@.nodes.contains_key(h));
            assert(h < child);
            assert(lower.nodes[h] == with_choice_losses(
                entered(ready.nodes[h], k),
                path[k].s1_index,
                path[k].s2_index,
            ));
            marks_cancel(
                ready.nodes[h],
                k,
                path[k].s1_index,
                path[k].s2_index,
                t.points_1,
                t.points_2,
            );
        }
        assert(after@.nodes[child] == returned(lower.nodes[child], path.len() as int));
        assert(!before@.nodes.contains_key(child)) by {
            assert(!w.marked@.nodes.dom().contains(child));
        }
        assert forall|h: u32| #[trigger]
            before@.nodes.contains_key(h) && h != target && !mcts::is_left(path, 0, h) implies after@.nodes[h]
            == before@.nodes[h] by {
            assert(h != leaf) by {
                if h == leaf {
                    assert(path[n].parent == h);
                }
            }
            assert(!mcts::is_left(w.descent, 0, h)) by {
                if mcts::is_left(w.descent, 0, h) {
                    let k = choose|k: int|
                        0 <= k < w.descent.len() && (#[trigger] w.descent[k]).parent == h;
                    assert(path[k] == w.descent[k]);
                }
            }
            assert(w.marked@.nodes.dom().contains(h));
            assert(w.marked@.nodes.contains_key(h));
            assert(w.expanded@.nodes.contains_key(h));
            assert(lower.nodes.contains_key(h));
        }
    } else {
        assert forall|k: int| 0 <= k < path.len() implies after@.nodes[(#[trigger] path[k]).parent]
            == credited_node(
            ready.nodes[path[k].parent],
            path[k].s1_index,
            path[k].s2_index,
            t.points_1,
            t.points_2,
        ) by {
            let h = path[k].parent;
            assert(h < leaf);
            marks_cancel(
                ready.nodes[h],
                k,
                path[k].s1_index,
                path[k].s2_index,
                t.points_1,
                t.points_2,
            );
        }
        assert forall|h: u32| #[trigger]
            before@.nodes.contains_key(h) && h != target && !mcts::is_left(path, 0, h) implies after@.nodes[h]
            == before@.nodes[h] by {
            assert(w.selected@.nodes.dom().contains(h));
            assert(lower.nodes.contains_key(h));
        }
    }
}

/// A round visits the root once, and leaves no worker below it.
proof fn a_round_visits_the_root<B: Battle, A: Arithmetic>(
    before: SharedTree<B::Instruction>,
    after: SharedTree<B::Instruction>,
    root: u32,
    root_eval: Single,
    state: B,
    end: B,
    t: Round<B>,
)
    requires
        before.wf(),
        before@.nodes.contains_key(root),
        is_round::<B, A>(before, after, root, root_eval, state, end, t),
    ensures
        after@.nodes[root].times_visited == before@.nodes[root].times_visited.wrapping_add(1),
        after@.nodes[root].virtual_losses == before@.nodes[root].virtual_losses,
{
    let path = t.down.path();
    a_round_only_credits::<B, A>(before, after, root, root_eval, state, end, t);
    walk::paths_ascend(t.middle@, root, path);
    if path.len() > 0 {
        assert(path[0].parent == root);
    }
}

/// Where battles go on and some side never waits at the root, a round leads to a child of the root,
/// by choices that are offered there.
pub(crate) proof fn a_round_leaves_the_root<B: Battle, A: Arithmetic>(
    before: SharedTree<B::Instruction>,
    after: SharedTree<B::Instruction>,
    root: u32,
    root_eval: Single,
    state: B,
    end: B,
    t: Round<B>,
)
    requires
        before.wf(),
        before@.nodes.contains_key(root),
        is_round::<B, A>(before, after, root, root_eval, state, end, t),
        mcts::always_moves(before@.nodes[root]),
        forall|state: B, over: Single| #[trigger]
            call_ensures(B::battle_is_over, (&state,), over) ==> over.is_equal(Single { bits: 0 }),
    ensures
        ({
            let path = t.down.path();
            let leaf = t.down.found.leaf;
            let ready = before@.with_node(leaf, before@.nodes[leaf].with_options(t.options));
            &&& 0 < path.len()
            &&& ready.nodes[root] == before@.nodes[root]
            &&& before@.nodes[root].has_pair(path[0].s1_index, path[0].s2_index)
        }),
{
    let w = t.down;
    let path = w.path();
    let leaf = w.found.leaf;
    let node = before@.nodes[root];
    before.is_a_tree();
    walk::paths_ascend(before@, root, w.descent);
    loading_is_quiet(before@, root, w.descent);
    loaded_nodes(before@, root, w.descent);
    if w.descent.len() == 0 {
        let marked = loaded(before@, w.descent);
        assert(leaf == root);
        assert(marked == before@);
        assert(t.options == node.options->0);
        assert(before@.with_node(leaf, node.with_options(t.options)).nodes[root] == node);
        let o = node.options->0;
        let (i, j) = (w.found.s1_index as int, w.found.s2_index as int);
        assert(w.selected@.nodes[leaf].options->0 == o);
        assert(o.s1[i].with_loss().move_choice == o.s1[i].move_choice);
        assert(o.s2[j].with_loss().move_choice == o.s2[j].move_choice);
        assert(mcts::choices_of(o.s1)[i] != MoveChoice::NoMove || mcts::choices_of(o.s2)[j]
            != MoveChoice::NoMove);
    } else {
        assert(path[0] == w.descent[0]);
        assert(w.descent[0].parent == root);
        assert(root < w.descent[0].child);
        assert(leaf != root);
    }
}

/// One choice of a side has so many points and one visit more, and the others are as they were.
pub open spec fn gains(
    before: Seq<MoveNode<u32>>,
    after: Seq<MoveNode<u32>>,
    i: int,
    points: u32,
) -> bool {
    &&& after.len() == before.len()
    &&& 0 <= i < before.len()
    &&& after[i].total_score == before[i].total_score.wrapping_add(points)
    &&& after[i].visits == before[i].visits.wrapping_add(1)
    &&& after[i].move_choice == before[i].move_choice
    &&& forall|k: int| 0 <= k < before.len() && k != i ==> #[trigger] after[k] == before[k]
}

/// Where listing outcomes leaves the state alone, the score that a round credits to the choices on
/// its path is that of the state at the end of the path: the one that the instructions of all nodes
/// on it, the last included, make of the state that the round started in. Every node on the path has
/// one visit more, and no more workers below it than before.
#[verifier::rlimit(40)]
pub proof fn a_round_scores_the_end_of_its_path<B: Battle, A: Arithmetic>(
    before: SharedTree<B::Instruction>,
    after: SharedTree<B::Instruction>,
    root: u32,
    root_eval: Single,
    state: B,
    end: B,
)
    requires
        before.wf(),
        before@.nodes.contains_key(root),
        walk::generates_quietly::<B>(),
        iterates::<B, A>(before, after, root, root_eval, state, end),
    ensures
        exists|path: Seq<PathStep>, states: Seq<B>, score: Single, points_1: u32, points_2: u32|
            {
                let leaf = walk::end_of(root, path);
                &&& walk::is_path(after@, root, path)
                &&& states.len() == path.len() + 1
                &&& states[0] == state
                &&& forall|k: int|
                    0 <= k < path.len() ==> engine::applies(
                        states[k],
                        after@.nodes[(#[trigger] path[k]).child].instructions,
                        states[k + 1],
                    )
                &&& #[trigger] walk::may_be_worth::<B, A>(
                    states[path.len() as int],
                    root_eval,
                    score,
                )
                &&& #[trigger] scores_as::<A>(score, points_1, points_2)
                &&& forall|k: int|
                    0 <= k < path.len() ==> {
                        let h = (#[trigger] path[k]).parent;
                        let (a, b) = (before@.nodes[h], after@.nodes[h]);
                        &&& before@.nodes.contains_key(h)
                        &&& b.times_visited == a.times_visited.wrapping_add(1)
                        &&& b.virtual_losses == a.virtual_losses
                        &&& a.options is Some ==> {
                            &&& gains(
                                a.options->0.s1,
                                b.options->0.s1,
                                path[k].s1_index as int,
                                points_1,
                            )
                            &&& gains(
                                a.options->0.s2,
                                b.options->0.s2,
                                path[k].s2_index as int,
                                points_2,
                            )
                        }
                        &&& a.options is None ==> k == path.len() - 1
                    }
                &&& if before@.nodes.contains_key(leaf) {
                    &&& after@.nodes[leaf].times_visited
                        == before@.nodes[leaf].times_visited.wrapping_add(1)
                    &&& after@.nodes[leaf].virtual_losses == before@.nodes[leaf].virtual_losses
                } else {
                    after@.nodes[leaf].times_visited == 1 && after@.nodes[leaf].virtual_losses == 0
                }
            },
{
    let t = choose|t: Round<B>| #[trigger]
        is_round::<B, A>(before, after, root, root_eval, state, end, t);
    let w = t.down;
    let path = w.path();
    let n = w.descent.len() as int;
    a_round_only_credits::<B, A>(before, after, root, root_eval, state, end, t);
    let states = round_states::<B, A>(before, after, root, root_eval, state, end, t);
    before.is_a_tree();
    walk::paths_ascend(before@, root, w.descent);
    loading_is_quiet(before@, root, w.descent);
    loaded_nodes(before@, root, w.descent);
    walk::paths_ascend(t.middle@, root, path);
    assert forall|k: int| 0 <= k < path.len() implies {
        let h = (#[trigger] path[k]).parent;
        let (a, b) = (before@.nodes[h], after@.nodes[h]);
        &&& before@.nodes.contains_key(h)
        &&& b.times_visited == a.times_visited.wrapping_add(1)
        &&& b.virtual_losses == a.virtual_losses
        &&& a.options is Some ==> {
            &&& gains(a.options->0.s1, b.options->0.s1, path[k].s1_index as int, t.points_1)
            &&& gains(a.options->0.s2, b.options->0.s2, path[k].s2_index as int, t.points_2)
        }
        &&& a.options is None ==> k == path.len() - 1
    } by {
        let h = path[k].parent;
        if k < n {
            assert(path[k] == w.descent[k]);
            assert(before@.nodes.contains_key(h));
            assert(h < w.descent[k].child);
            assert(h != w.found.leaf);
            assert(before@.nodes[h].options is Some);
            assert(before@.nodes[h].has_pair(path[k].s1_index, path[k].s2_index));
        } else {
            assert(h == w.found.leaf);
            assert(before@.nodes[h].options is Some ==> t.options.s1.len()
                == before@.nodes[h].options->0.s1.len());
        }
    }
    assert(scores_as::<A>(t.score, t.points_1, t.points_2));
    assert(walk::may_be_worth::<B, A>(states[path.len() as int], root_eval, t.score));
}

/// The states that a round goes through on its way down.
proof fn round_states<B: Battle, A: Arithmetic>(
    before: SharedTree<B::Instruction>,
    after: SharedTree<B::Instruction>,
    root: u32,
    root_eval: Single,
    state: B,
    end: B,
    t: Round<B>,
) -> (states: Seq<B>)
    requires
        before.wf(),
        before@.nodes.contains_key(root),
        walk::generates_quietly::<B>(),
        is_round::<B, A>(before, after, root, root_eval, state, end, t),
    ensures
        ({
            let path = t.down.path();
            &&& walk::is_path(after@, root, path)
            &&& t.begun.target == walk::end_of(root, path)
            &&& states.len() == path.len() + 1
            &&& states[0] == state
            &&& states[path.len() as int] == t.begun.state
            &&& forall|k: int|
                0 <= k < path.len() ==> engine::applies(
                    states[k],
                    after@.nodes[(#[trigger] path[k]).child].instructions,
                    states[k + 1],
                )
        }),
{
    let w = t.down;
    let path = w.path();
    let n = w.descent.len() as int;
    let target = t.begun.target;
    let lower = with_visit(t.middle@, target);
    let down = choose|states: Seq<B>| #[trigger]
        walk::goes_down(before@, w.descent, states) && states[0] == state && states.last()
            == w.found.state;
    before.is_a_tree();
    walk::paths_ascend(before@, root, w.descent);
    loading_is_quiet(before@, root, w.descent);
    walk::paths_ascend(t.middle@, root, path);
    assert(w.next.0 == w.found.state);
    assert(w.selected@.nodes.dom() =~= before@.nodes.dom());
    assert(w.marked@.nodes.dom() =~= before@.nodes.dom());
    assert(t.middle@.nodes.contains_key(root)) by {
        if path.len() > 0 {
            assert(path[0].parent == root);
        }
    }
    visiting_is_quiet(t.middle@, root, path, target);
    settled_nodes(lower, root, path, t.points_1, t.points_2);
    assert(lower.nodes.dom().contains(root));
    walk::paths_stay(lower, after@, root, path);
    let states = match w.next.1 {
        Some(_) => down.push(t.begun.state),
        None => down,
    };
    if let Some(child) = w.next.1 {
        assert(w.marked@.nodes.dom().contains(root));
        walk::paths_stay(before@, w.marked@, root, w.descent);
        expansion_leads_to::<B, A>(
            w.marked,
            w.expanded,
            root,
            w.descent,
            w.found,
            w.next.0,
            child,
        );
    }
    assert forall|h: u32| #[trigger] t.middle@.nodes.contains_key(h) implies after@.nodes[h].instructions
        == t.middle@.nodes[h].instructions by {
        assert(lower.nodes.dom().contains(h));
        assert(lower.nodes.contains_key(h));
        if h != target && mcts::is_left(path, 0, h) {
            let k = choose|k: int| 0 <= k < path.len() && (#[trigger] path[k]).parent == h;
        }
    }
    assert forall|k: int| 0 <= k < path.len() implies engine::applies(
        states[k],
        after@.nodes[(#[trigger] path[k]).child].instructions,
        states[k + 1],
    ) by {
        let h = path[k].child;
        assert(t.middle@.nodes.contains_key(h));
        if k < n {
            assert(path[k] == w.descent[k]);
            assert(before@.nodes.contains_key(h));
            assert(w.marked@.nodes.dom().contains(h));
            assert(w.marked@.nodes.contains_key(h));
        }
    }
    states
}

/// What a round leaves as it was: the likelihoods and instructions of nodes, the moves of the choices
/// of its last step, and children.
proof fn round_keeps_what_is_there<B: Battle, A: Arithmetic>(
    before: SharedTree<B::Instruction>,
    after: SharedTree<B::Instruction>,
    root: u32,
    root_eval: Single,
    state: B,
    end: B,
    t: Round<B>,
)
    requires
        before.wf(),
        before@.nodes.contains_key(root),
        is_round::<B, A>(before, after, root, root_eval, state, end, t),
    ensures
        walk::is_path(after@, root, t.down.path()),
        t.begun.target == walk::end_of(root, t.down.path()),
        after@.children == t.middle@.children,
        forall|h: u32| #[trigger]
            t.middle@.nodes.contains_key(h) ==> {
                &&& after@.nodes[h].percentage == t.middle@.nodes[h].percentage
                &&& after@.nodes[h].instructions == t.middle@.nodes[h].instructions
            },
        forall|h: u32| #[trigger]
            before@.nodes.contains_key(h) ==> after@.nodes[h].instructions
                == before@.nodes[h].instructions,
        t.down.next.1 is Some ==> {
            let leaf = t.down.found.leaf;
            let (i, j) = (t.down.found.s1_index as int, t.down.found.s2_index as int);
            let (o, p) = (t.down.marked@.nodes[leaf].options->0, after@.nodes[leaf].options->0);
            &&& before@.nodes.contains_key(leaf)
            &&& p.s1[i].move_choice == o.s1[i].move_choice
            &&& p.s2[j].move_choice == o.s2[j].move_choice
        },
{
    let w = t.down;
    let path = w.path();
    let n = w.descent.len() as int;
    let target = t.begun.target;
    let leaf = w.found.leaf;
    let lower = with_visit(t.middle@, target);
    before.is_a_tree();
    walk::paths_ascend(before@, root, w.descent);
    loading_is_quiet(before@, root, w.descent);
    loaded_nodes(before@, root, w.descent);
    walk::paths_ascend(t.middle@, root, path);
    assert(w.selected@.nodes.dom() =~= before@.nodes.dom());
    assert(w.marked@.nodes.dom() =~= before@.nodes.dom());
    assert(t.middle@.nodes.contains_key(root)) by {
        if path.len() > 0 {
            assert(path[0].parent == root);
        }
    }
    visiting_is_quiet(t.middle@, root, path, target);
    settled_nodes(lower, root, path, t.points_1, t.points_2);
    assert(lower.nodes.dom().contains(root));
    walk::paths_stay(lower, after@, root, path);
    assert forall|h: u32| #[trigger] t.middle@.nodes.contains_key(h) implies {
        &&& after@.nodes[h].percentage == t.middle@.nodes[h].percentage
        &&& after@.nodes[h].instructions == t.middle@.nodes[h].instructions
    } by {
        assert(lower.nodes.dom().contains(h));
        assert(lower.nodes.contains_key(h));
        if h != target && mcts::is_left(path, 0, h) {
            let k = choose|k: int| 0 <= k < path.len() && (#[trigger] path[k]).parent == h;
        }
    }
    if let Some(child) = w.next.1 {
        assert(w.marked@.nodes.dom().contains(root));
        walk::paths_stay(before@, w.marked@, root, w.descent);
        expansion_leads_to::<B, A>(
            w.marked,
            w.expanded,
            root,
            w.descent,
            w.found,
            w.next.0,
            child,
        );
        assert(path[n].parent == leaf);
        assert(w.marked@.nodes.dom().contains(leaf));
        assert(w.marked@.nodes.contains_key(leaf));
        assert(leaf != child);
        assert(t.middle@.nodes[leaf] == w.marked@.nodes[leaf]);
        assert(after@.nodes[leaf] == settled_node(
            returned(lower.nodes[leaf], n),
            path[n].s1_index,
            path[n].s2_index,
            t.points_1,
            t.points_2,
        ));
    }
    assert forall|h: u32| #[trigger] before@.nodes.contains_key(h) implies after@.nodes[h].instructions
        == before@.nodes[h].instructions by {
        assert(w.marked@.nodes.dom().contains(h));
        assert(w.marked@.nodes.contains_key(h));
        assert(w.selected@.nodes.contains_key(h));
        assert(t.middle@.nodes.contains_key(h));
    }
}

/// Where a round adds nodes, it does so for the choices of the last step of its path, in the state in
/// which that step is taken, and the engine tells outcomes apart by damage just where the path has
/// no more than two steps. The battle goes on in that state, and not both
/// sides wait. Each outcome that the engine lists has become a child, with its likelihood and its
/// instructions.
#[verifier::rlimit(60)]
pub proof fn a_round_expands_at_its_depth<B: Battle, A: Arithmetic>(
    before: SharedTree<B::Instruction>,
    after: SharedTree<B::Instruction>,
    root: u32,
    root_eval: Single,
    state: B,
    end: B,
)
    requires
        before.wf(),
        before@.nodes.contains_key(root),
        iterates::<B, A>(before, after, root, root_eval, state, end),
    ensures
        exists|path: Seq<PathStep>|
            {
                &&& #[trigger] walk::is_path(after@, root, path)
                &&& forall|k: int|
                    0 <= k < path.len() ==> {
                        let h = (#[trigger] path[k]).parent;
                        &&& before@.nodes.contains_key(h)
                        &&& after@.nodes[h].times_visited
                            == before@.nodes[h].times_visited.wrapping_add(1)
                    }
                &&& !before@.nodes.contains_key(walk::end_of(root, path)) ==> exists|
                    states: Seq<B>,
                    at: B,
                    s1_move: MoveChoice,
                    s2_move: MoveChoice,
                    by_damage: bool,
                    next: B,
                    generated: Vec<StateInstructions<B::Instruction>>,
                    ordered: Seq<StateInstructions<B::Instruction>>,
                |
                    {
                        &&& #[trigger] mcts::is_expanded::<B, u32, i8>(
                            after@,
                            path,
                            states,
                            at,
                            s1_move,
                            s2_move,
                            by_damage,
                            next,
                            generated,
                            ordered,
                        )
                        &&& states[0] == state
                        &&& s1_move != MoveChoice::NoMove || s2_move != MoveChoice::NoMove
                        &&& exists|over: Single| #[trigger]
                            call_ensures(B::battle_is_over, (&at,), over) && over.is_equal(
                            Single { bits: 0 },
                        )
                    }
            },
{
    let t = choose|t: Round<B>| #[trigger]
        is_round::<B, A>(before, after, root, root_eval, state, end, t);
    let w = t.down;
    let path = w.path();
    let found = w.found;
    let n = w.descent.len() as int;
    a_round_only_credits::<B, A>(before, after, root, root_eval, state, end, t);
    before.is_a_tree();
    walk::paths_ascend(before@, root, w.descent);
    loading_is_quiet(before@, root, w.descent);
    loaded_nodes(before@, root, w.descent);
    walk::paths_ascend(t.middle@, root, path);
    assert(w.selected@.nodes.dom() =~= before@.nodes.dom());
    assert(w.marked@.nodes.dom() =~= before@.nodes.dom());
    round_keeps_what_is_there::<B, A>(before, after, root, root_eval, state, end, t);
    assert(t.begun.target == walk::end_of(root, path));
    if !before@.nodes.contains_key(t.begun.target) {
        let child = w.next.1->0;
        assert(w.next.1 is Some) by {
            if w.next.1 is None {
                assert(before@.nodes.contains_key(found.leaf));
            }
        }
        let selected = w.marked;
        let grown = w.expanded;
        let descent = w.descent;
        let down = choose|states: Seq<B>| #[trigger]
            walk::goes_down(before@, descent, states) && states[0] == state && states.last()
                == found.state;
        let o = selected@.nodes[found.leaf].options->0;
        let s1_move = o.s1[found.s1_index as int].move_choice;
        let s2_move = o.s2[found.s2_index as int].move_choice;
        let by_damage = descent.len() < 2;
        let next = w.next.0;
        every_outcome_becomes_a_child::<B, A>(
            selected,
            grown,
            found,
            descent.len(),
            s1_move,
            s2_move,
            by_damage,
            next,
            child,
        );
        let key = (found.leaf, found.s1_index, found.s2_index);
        let (generated, ordered) = choose|
            generated: Vec<StateInstructions<B::Instruction>>,
            ordered: Seq<StateInstructions<B::Instruction>>,
        |
            {
                let nodes = grown@.children[key];
                &&& #[trigger] call_ensures(
                    B::generate_instructions_from_move_pair,
                    (found.state, s1_move, s2_move, by_damage),
                    (next, generated),
                )
                &&& #[trigger] ordered.to_multiset() == generated@.to_multiset()
                &&& nodes.len() == ordered.len() == generated@.len()
                &&& forall|i: int|
                    0 <= i < nodes.len() ==> {
                        &&& grown@.nodes.contains_key(#[trigger] nodes[i])
                        &&& grown@.nodes[nodes[i]].percentage == ordered[i].percentage
                        &&& grown@.nodes[nodes[i]].instructions == ordered[i].instruction_list@
                    }
            };
        let last = path[path.len() - 1];
        assert(last.key() == key);
        assert forall|k: int| 0 <= k < path.len() - 1 implies engine::applies(
            down[k],
            after@.nodes[(#[trigger] path[k]).child].instructions,
            down[k + 1],
        ) by {
            assert(path[k] == descent[k]);
            assert(before@.nodes.contains_key(path[k].child));
        }
        assert(mcts::is_expanded::<B, u32, i8>(
            after@,
            path,
            down,
            found.state,
            s1_move,
            s2_move,
            by_damage,
            next,
            generated,
            ordered,
        ));
    }
}

/// One visit more leaves a tree a tree, and a path a path.
pub proof fn visiting_is_quiet<I>(tree: SharedView<I>, root: u32, path: Seq<PathStep>, h: u32)
    requires
        tree.is_tree(),
        walk::is_path(tree, root, path),
        tree.nodes.contains_key(h),
        tree.nodes.contains_key(root),
    ensures
        with_visit(tree, h).is_tree(),
        walk::is_path(with_visit(tree, h), root, path),
        with_visit(tree, h).nodes.dom() == tree.nodes.dom(),
{
    let after = with_visit(tree, h);
    assert(after.nodes.dom() =~= tree.nodes.dom());
    assert forall|k: (u32, u8, u8), i: int|
        #![trigger after.children[k][i]]
        after.children.contains_key(k) && 0 <= i < after.children[k].len() implies k.0
        < after.children[k][i] && after.nodes.contains_key(after.children[k][i]) by {
        let c = tree.children[k][i];
        assert(tree.nodes.contains_key(c));
    }
    walk::paths_stay(tree, after, root, path);
}

/// Virtual losses leave a tree a tree, and a path a path.
proof fn loading_leaves_a_tree<I>(tree: SharedView<I>, root: u32, path: Seq<PathStep>)
    requires
        tree.is_tree(),
        walk::is_path(tree, root, path),
    ensures
        loaded(tree, path).is_tree(),
        walk::is_path(loaded(tree, path), root, path),
{
    let after = loaded(tree, path);
    loading_is_quiet(tree, root, path);
    loaded_nodes(tree, root, path);
    walk::paths_ascend(tree, root, path);
    assert forall|h: u32| #[trigger] after.nodes.contains_key(h) implies {
        let (o, p) = (tree.nodes[h].options, after.nodes[h].options);
        &&& o is Some <==> p is Some
        &&& o is Some ==> p->0.s1.len() == o->0.s1.len() && p->0.s2.len() == o->0.s2.len()
    } by {
        assert(tree.nodes.dom().contains(h));
        assert(tree.nodes.contains_key(h));
        if mcts::is_left(path, 0, h) {
            let k = choose|k: int| 0 <= k < path.len() && (#[trigger] path[k]).parent == h;
            assert(tree.nodes[h].has_pair(path[k].s1_index, path[k].s2_index));
        }
    }
    assert forall|k: (u32, u8, u8)| #[trigger] after.children.contains_key(k) implies {
        &&& after.nodes.contains_key(k.0)
        &&& after.nodes[k.0].has_pair(k.1, k.2)
        &&& 0 < after.children[k].len()
    } by {
        assert(tree.children.contains_key(k));
        assert(after.nodes.dom().contains(k.0));
    }
    assert forall|k: (u32, u8, u8), i: int|
        #![trigger after.children[k][i]]
        after.children.contains_key(k) && 0 <= i < after.children[k].len() implies k.0
        < after.children[k][i] && after.nodes.contains_key(after.children[k][i]) by {
        assert(tree.children.contains_key(k));
        let c = tree.children[k][i];
        assert(after.nodes.dom().contains(c));
    }
    assert(tree.nodes.dom().contains(root));
    walk::paths_stay(tree, after, root, path);
}

/// Coming back from a path with a score makes up for having gone down it. Every choice on the path
/// has the score and one visit more than before the first virtual loss, every node on it one visit
/// more, no virtual loss is left, and all else is as it was. Where taking instructions back undoes
/// them, the state is the one in which the first step was taken.
pub proof fn the_way_back_undoes_the_way_down<B: Battle>(
    tree: SharedView<B::Instruction>,
    root: u32,
    path: Seq<PathStep>,
    down: Seq<B>,
    back: Seq<B>,
    points_1: u32,
    points_2: u32,
)
    requires
        tree.is_tree(),
        walk::is_path(tree, root, path),
        walk::goes_down(tree, path, down),
        walk::comes_back(loaded(tree, path), path, back),
        back.last() == down.last(),
    ensures
        ({
            let leaf = walk::end_of(root, path);
            let after = settled(with_visit(loaded(tree, path), leaf), path, points_1, points_2);
            &&& after.children == tree.children
            &&& after.nodes.dom() == tree.nodes.dom()
            &&& forall|k: int|
                0 <= k < path.len() ==> after.nodes[(#[trigger] path[k]).parent] == credited_node(
                    tree.nodes[path[k].parent],
                    path[k].s1_index,
                    path[k].s2_index,
                    points_1,
                    points_2,
                )
            &&& after.nodes[leaf] == visited_node(tree.nodes[leaf])
            &&& forall|h: u32| #[trigger]
                tree.nodes.contains_key(h) && h != leaf && !mcts::is_left(path, 0, h)
                    ==> after.nodes[h] == tree.nodes[h]
            &&& walk::undoes::<B>() ==> back[0] == down[0]
        }),
{
    let leaf = walk::end_of(root, path);
    let middle = loaded(tree, path);
    let lower = with_visit(middle, leaf);
    let after = settled(lower, path, points_1, points_2);
    loading_is_quiet(tree, root, path);
    loaded_nodes(tree, root, path);
    loading_leaves_a_tree(tree, root, path);
    walk::paths_ascend(tree, root, path);
    assert(tree.nodes.dom().contains(leaf));
    assert(tree.nodes.dom().contains(root));
    visiting_is_quiet(middle, root, path, leaf);
    settled_nodes(lower, root, path, points_1, points_2);
    assert forall|k: int| 0 <= k < path.len() implies after.nodes[(#[trigger] path[k]).parent]
        == credited_node(
        tree.nodes[path[k].parent],
        path[k].s1_index,
        path[k].s2_index,
        points_1,
        points_2,
    ) by {
        marks_cancel(
            tree.nodes[path[k].parent],
            k,
            path[k].s1_index,
            path[k].s2_index,
            points_1,
            points_2,
        );
    }
    assert forall|h: u32| #[trigger]
        tree.nodes.contains_key(h) && h != leaf && !mcts::is_left(path, 0, h) implies after.nodes[h]
        == tree.nodes[h] by {
        assert(lower.nodes.dom().contains(h));
        assert(lower.nodes.contains_key(h));
    }
    if walk::undoes::<B>() {
        assert forall|k: int| 0 <= k < path.len() implies engine::reverses(
            back[k + 1],
            tree.nodes[(#[trigger] path[k]).child].instructions,
            back[k],
        ) by {
            assert(tree.nodes.contains_key(path[k].child));
        }
        assert(walk::comes_back(tree, path, back));
        walk::the_way_back_restores(tree, path, down, back);
    }
}

/// What one worker marks and what another settles at one choice do not depend on who comes first.
proof fn marks_and_results_commute(m: MoveNode<u32>, points: u32)
    ensures
        m.with_loss().with_result(points).without_loss() == m.with_result(
            points,
        ).without_loss().with_loss(),
{
}

/// What one worker marks and what another settles at one side do not depend on who comes first.
proof fn sides_commute(side: Seq<MoveNode<u32>>, i: int, j: int, points: u32)
    requires
        0 <= i < side.len(),
        0 <= j < side.len(),
    ensures
        ({
            let marked = side.update(i, side[i].with_loss());
            let settled = side.update(j, side[j].with_result(points).without_loss());
            marked.update(j, marked[j].with_result(points).without_loss()) == settled.update(
                i,
                settled[i].with_loss(),
            )
        }),
{
    let marked = side.update(i, side[i].with_loss());
    let settled = side.update(j, side[j].with_result(points).without_loss());
    marks_and_results_commute(side[i], points);
    assert(marked.update(j, marked[j].with_result(points).without_loss()) =~= settled.update(
        i,
        settled[i].with_loss(),
    ));
}

/// Where one worker takes a step and another comes back from one, the tree does not depend on who
/// comes first.
pub proof fn workers_commute<I>(
    tree: SharedView<I>,
    going: PathStep,
    coming: PathStep,
    points_1: u32,
    points_2: u32,
)
    requires
        tree.nodes.contains_key(going.parent),
        tree.nodes.contains_key(going.child),
        tree.nodes.contains_key(coming.parent),
        tree.nodes.contains_key(coming.child),
        going.parent != going.child,
        coming.parent != coming.child,
        tree.nodes[going.parent].has_pair(going.s1_index, going.s2_index),
        tree.nodes[coming.parent].has_pair(coming.s1_index, coming.s2_index),
    ensures
        settled_step(with_loss(tree, going), coming, points_1, points_2) == with_loss(
            settled_step(tree, coming, points_1, points_2),
            going,
        ),
{
    let a = settled_step(with_loss(tree, going), coming, points_1, points_2);
    let b = with_loss(settled_step(tree, coming, points_1, points_2), going);
    if going.parent == coming.parent {
        let o = tree.nodes[going.parent].options->0;
        sides_commute(o.s1, going.s1_index as int, coming.s1_index as int, points_1);
        sides_commute(o.s2, going.s2_index as int, coming.s2_index as int, points_2);
    }
    assert forall|h: u32| #[trigger] a.nodes.contains_key(h) implies a.nodes[h] == b.nodes[h] by {
        assert(a.nodes[h].options == b.nodes[h].options);
        assert(a.nodes[h].virtual_losses == b.nodes[h].virtual_losses);
    }
    assert(a.nodes =~= b.nodes);
}

/// Where taking instructions back undoes them, and listing outcomes leaves the state alone, a worker
/// comes back to the state in which it started, whatever other workers have done to the tree in the
/// meantime, as long as the instructions on its path have stayed the same.
pub proof fn the_way_back_ends_at_the_root<B: Battle, A: Arithmetic>(
    before: SharedTree<B::Instruction>,
    middle: SharedTree<B::Instruction>,
    later: SharedView<B::Instruction>,
    root: u32,
    state: B,
    begun: Begun<B>,
    w: WayDown<B>,
    way_back: Seq<B>,
)
    requires
        before.wf(),
        walk::undoes::<B>(),
        walk::generates_quietly::<B>(),
        goes_like::<B, A>(before, middle, root, state, begun, w),
        forall|k: int|
            0 <= k < w.path().len() ==> later.nodes[(
            #[trigger] w.path()[k]).child].instructions
                == middle@.nodes[w.path()[k].child].instructions,
        walk::comes_back(later, w.path(), way_back),
        way_back.last() == begun.state,
    ensures
        way_back[0] == state,
{
    let path = w.path();
    let n = w.descent.len() as int;
    let down = choose|states: Seq<B>| #[trigger]
        walk::goes_down(before@, w.descent, states) && states[0] == state && states.last()
            == w.found.state;
    before.is_a_tree();
    walk::paths_ascend(before@, root, w.descent);
    loading_is_quiet(before@, root, w.descent);
    assert(w.next.0 == w.found.state);
    assert(w.selected@.nodes.dom() =~= before@.nodes.dom());
    assert(w.marked@.nodes.dom() =~= before@.nodes.dom());
    let all = match w.next.1 {
        Some(_) => down.push(begun.state),
        None => down,
    };
    if let Some(child) = w.next.1 {
        assert(w.marked@.nodes.dom().contains(root));
        walk::paths_stay(before@, w.marked@, root, w.descent);
        expansion_leads_to::<B, A>(
            w.marked,
            w.expanded,
            root,
            w.descent,
            w.found,
            w.next.0,
            child,
        );
    }
    assert forall|k: int| 0 <= k < path.len() implies engine::applies(
        all[k],
        later.nodes[(#[trigger] path[k]).child].instructions,
        all[k + 1],
    ) by {
        if k < n {
            assert(path[k] == w.descent[k]);
            let h = path[k].child;
            assert(before@.nodes.contains_key(h));
            assert(w.marked@.nodes.dom().contains(h));
            assert(w.marked@.nodes.contains_key(h));
            assert(middle@.nodes[h].instructions == before@.nodes[h].instructions);
        }
    }
    assert(walk::goes_down(later, path, all));
    walk::the_way_back_restores(later, path, all, way_back);
}

/// Where taking instructions back undoes them, and listing outcomes leaves the state alone, an
/// iteration ends in the state in which it started.
pub proof fn a_round_restores_the_state<B: Battle, A: Arithmetic>(
    before: SharedTree<B::Instruction>,
    after: SharedTree<B::Instruction>,
    root: u32,
    root_eval: Single,
    state: B,
    end: B,
)
    requires
        before.wf(),
        walk::undoes::<B>(),
        walk::generates_quietly::<B>(),
        iterates::<B, A>(before, after, root, root_eval, state, end),
    ensures
        end == state,
{
    let t = choose|t: Round<B>| #[trigger]
        is_round::<B, A>(before, after, root, root_eval, state, end, t);
    the_way_back_ends_at_the_root::<B, A>(
        before,
        t.middle,
        t.middle@,
        root,
        state,
        t.begun,
        t.down,
        t.way_back,
    );
}

/// The root of a search.
pub open spec fn planted<I>(
    side_one_options: Seq<MoveChoice>,
    side_two_options: Seq<MoveChoice>,
) -> NodeView<u32, i8, I> {
    tree::reached::<u32, i8, I>(Single { bits: HUNDRED }, Seq::<I>::empty(), 0i8).with_options(
        OptionsView::fresh(side_one_options, side_two_options, 0u32),
    )
}

/// There is room for a root with so many options.
pub open spec fn can_plant<I>(memory: MemoryView, count: nat) -> bool {
    let listed = memory.after_list::<I>(0);
    &&& memory.has_list::<I>(0)
    &&& listed.has_block::<MoveNode<u32>>(count)
    &&& listed.after_block::<MoveNode<u32>>(count).has_nodes::<Node<u32, i8, I>>(1)
}

/// Adds a root with these options to a tree.
pub fn new_root_in<I>(
    tree: &mut SharedTree<I>,
    side_one_options: &[MoveChoice],
    side_two_options: &[MoveChoice],
) -> (r: Result<u32, SearchError>)
    requires
        old(tree).wf(),
        side_one_options@.len() <= 255,
        side_two_options@.len() <= 255,
    ensures
        final(tree).wf(),
        r is Ok <==> can_plant::<I>(
            old(tree).memory(),
            side_one_options@.len() + side_two_options@.len(),
        ),
        r matches Err(e) ==> e == SearchError::ArenaFull && final(tree)@ == old(tree)@,
        r matches Ok(root) ==> {
            &&& forall|h: u32| #[trigger] old(tree)@.nodes.contains_key(h) ==> h < root
            &&& final(tree)@ == old(tree)@.with_node(
                root,
                planted::<I>(side_one_options@, side_two_options@),
            )
            &&& final(tree).memory() == old(tree).memory().after_list::<I>(0).after_block::<
                MoveNode<u32>,
            >(side_one_options@.len() + side_two_options@.len()).after_nodes::<Node<u32, i8, I>>(1)
        },
{
    let list: Vec<I> = Vec::new();
    assert(list@ =~= Seq::<I>::empty());
    tree.add_root_with_options(
        Single { bits: HUNDRED },
        list,
        0i8,
        side_one_options,
        side_two_options,
        0u32,
    )
}

/// What is reported of the choices of one side.
pub open spec fn reports<A: Arithmetic>(
    side: Seq<MoveNode<u32>>,
    result: Seq<MctsSideResult>,
) -> bool {
    &&& result.len() == side.len()
    &&& forall|i: int|
        0 <= i < side.len() ==> {
            &&& (#[trigger] result[i]).move_choice == side[i].move_choice
            &&& result[i].visits == side[i].visits
            &&& call_ensures(A::from_scaled, (side[i].total_score,), result[i].total_score)
        }
}

/// Reports on the choices of one side.
fn side_results<A: Arithmetic>(side: &[MoveNode<u32>]) -> (r: Vec<MctsSideResult>)
    ensures
        reports::<A>(side@, r@),
        r@.len() == side@.len(),
        forall|i: int|
            0 <= i < side@.len() ==> {
                &&& (#[trigger] r@[i]).move_choice == side@[i].move_choice
                &&& r@[i].visits == side@[i].visits
                &&& call_ensures(A::from_scaled, (side@[i].total_score,), r@[i].total_score)
            },
{
    let mut r: Vec<MctsSideResult> = Vec::new();
    let mut i: usize = 0;
    while i < side.len()
        invariant
            i <= side@.len(),
            r@.len() == i,
            forall|k: int|
                0 <= k < i ==> {
                    &&& (#[trigger] r@[k]).move_choice == side@[k].move_choice
                    &&& r@[k].visits == side@[k].visits
                    &&& call_ensures(A::from_scaled, (side@[k].total_score,), r@[k].total_score)
                },
        decreases side@.len() - i,
    {
        r.push(
            MctsSideResult {
                move_choice: side[i].move_choice,
                total_score: side[i].total_score_f32::<A>(),
                visits: side[i].visits,
            },
        );
        i = i + 1;
    }
    r
}

/// Reports on the root of a search.
pub fn results<A: Arithmetic, I>(tree: &SharedTree<I>, root: u32) -> (r: MctsResult)
    requires
        tree.wf(),
        tree@.nodes.contains_key(root),
        tree@.nodes[root].options is Some,
    ensures
        reports::<A>(tree@.nodes[root].options->0.s1, r.s1@),
        reports::<A>(tree@.nodes[root].options->0.s2, r.s2@),
        r.iteration_count == tree@.nodes[root].times_visited,
{
    let options = tree.options(root);
    MctsResult {
        s1: side_results::<A>(options.s1()),
        s2: side_results::<A>(options.s2()),
        iteration_count: tree.node(root).times_visited,
    }
}

/// A report on a root gives, for every choice of either side and in the same order, the choice
/// itself, its visits, and the number that its total stands for.
pub proof fn reports_give_every_choice_its_own<A: Arithmetic>(
    side: Seq<MoveNode<u32>>,
    result: Seq<MctsSideResult>,
    number: spec_fn(u32) -> Single,
)
    requires
        reports::<A>(side, result),
        forall|total: u32, x: Single| #[trigger]
            call_ensures(A::from_scaled, (total,), x) ==> x == number(total),
    ensures
        result.map_values(|r: MctsSideResult| r.move_choice) == mcts::choices_of(side),
        result.map_values(|r: MctsSideResult| r.visits) == mcts::visits_of(side),
        result.map_values(|r: MctsSideResult| r.total_score) == mcts::totals_of(side).map_values(
            number,
        ),
{
    assert(result.map_values(|r: MctsSideResult| r.move_choice) =~= mcts::choices_of(side));
    assert(result.map_values(|r: MctsSideResult| r.visits) =~= mcts::visits_of(side));
    assert(result.map_values(|r: MctsSideResult| r.total_score) =~= mcts::totals_of(
        side,
    ).map_values(number));
}

/// What a worker does next.
#[derive(Clone, Copy, PartialEq, Eq, Structural, Debug)]
pub enum WorkerStep {
    /// Look whether the deadline has passed.
    CheckDeadline,
    /// Run one iteration.
    Iterate,
    /// Stop.
    Stop,
}

/// Where a worker stands between two looks at the clock.
pub struct Worker {
    step: WorkerStep,
    left: u32,
}

impl Worker {
    /// What the worker does next.
    pub closed spec fn spec_step(self) -> WorkerStep {
        self.step
    }

    /// How many iterations are left of the batch at hand.
    pub closed spec fn left(self) -> u32 {
        self.left
    }

    /// A worker that iterates has iterations left, but no more than a batch has.
    pub open spec fn wf(self) -> bool {
        &&& self.left() <= MCTS_DEADLINE_CHECK_INTERVAL
        &&& self.spec_step() == WorkerStep::Iterate <==> 0 < self.left()
    }

    /// A worker looks at the clock first.
    pub fn new() -> (r: Self)
        ensures
            r.wf(),
            r.spec_step() == WorkerStep::CheckDeadline,
    {
        Worker { step: WorkerStep::CheckDeadline, left: 0 }
    }

    /// What the worker does next.
    pub fn step(&self) -> (r: WorkerStep)
        ensures
            r == self.spec_step(),
    {
        self.step
    }

    /// The worker has looked at the clock: it starts a batch if there is time, and stops otherwise.
    pub fn checked(&mut self, in_time: bool)
        requires
            old(self).wf(),
            old(self).spec_step() == WorkerStep::CheckDeadline,
        ensures
            final(self).wf(),
            final(self).spec_step() == (if in_time {
                WorkerStep::Iterate
            } else {
                WorkerStep::Stop
            }),
            in_time ==> final(self).left() == MCTS_DEADLINE_CHECK_INTERVAL,
            in_time ==> final(self).left() == 1_000,
    {
        if in_time {
            self.step = WorkerStep::Iterate;
            self.left = MCTS_DEADLINE_CHECK_INTERVAL;
        } else {
            self.step = WorkerStep::Stop;
        }
    }

    /// The worker has run an iteration, and `claimed` iterations had been claimed before it. The
    /// batch ends where it is used up, or where enough have been claimed.
    pub fn iterated(&mut self, claimed: u32)
        requires
            old(self).wf(),
            old(self).spec_step() == WorkerStep::Iterate,
        ensures
            final(self).wf(),
            final(self).spec_step() == (if claimed >= MCTS_MAX_ITERATIONS_PER_TREE || old(
                self,
            ).left() == 1 {
                WorkerStep::CheckDeadline
            } else {
                WorkerStep::Iterate
            }),
            final(self).spec_step() == WorkerStep::Iterate ==> final(self).left() == old(self).left()
                - 1,
            final(self).spec_step() == WorkerStep::Iterate <==> claimed < 10_000_000 && 1 < old(
                self,
            ).left(),
    {
        if claimed >= MCTS_MAX_ITERATIONS_PER_TREE || self.left == 1 {
            self.step = WorkerStep::CheckDeadline;
            self.left = 0;
        } else {
            self.left = self.left - 1;
        }
    }
}

/// How many iterations have been claimed after one more: each claims as many as a batch has.
pub fn claim(claimed: u32) -> (r: u32)
    ensures
        r == claimed.wrapping_add(MCTS_DEADLINE_CHECK_INTERVAL),
        r == claimed.wrapping_add(1_000),
{
    claimed.wrapping_add(MCTS_DEADLINE_CHECK_INTERVAL)
}

} // verus!
