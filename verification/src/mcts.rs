//! The search of a single worker.

use crate::child_map::LocalChildMap;
use crate::choice::{first_best, pick, running_sums, sort_by_likelihood};
use crate::clock::{elapsed, now};
use crate::engine::{seeded_rng, Arithmetic, Battle, MoveChoice, StateInstructions};
use crate::single::{Single, HUNDRED, INFINITY, LOWEST, ONE};
use crate::tree::{MemoryView, MoveNode, Node, NodeView, OptionsView, SearchError, Tree, TreeView};
use crate::walk::{
    can_choose, ensure_options, rollout, should_expand, PathStep, Selected, MCTS_DAMAGE_BRANCH_DEPTH,
};
use crate::{choice, clock, engine, tree, walk};
use rand::rngs::SmallRng;
use std::time::Instant;
use vstd::prelude::*;

verus! {

/// A search looks at the clock once in so many iterations.
pub const MCTS_DEADLINE_CHECK_INTERVAL: u32 = 1_000;

/// A search stops after this many iterations, whatever the clock says. Beyond about three times as
/// many, a total score has grown so large that adding to it changes nothing any more.
pub const MCTS_MAX_ITERATIONS: u32 = 10_000_000;

/// The tree of a search by a single worker.
pub type SearchTree<I> = Tree<Single, (), I, LocalChildMap>;

impl MoveNode<Single> {
    /// A choice that has not been tried yet.
    pub fn from_move_choice(move_choice: MoveChoice) -> (r: Self)
        ensures
            r == tree::untried(move_choice, Single { bits: 0 }),
    {
        MoveNode { move_choice, total_score: Single { bits: 0 }, visits: 0 }
    }

    /// The upper confidence bound of the choice may be `score`.
    pub open spec fn may_score<A: Arithmetic>(self, parent_visits: u32, score: Single) -> bool {
        if self.visits == 0 {
            score == Single { bits: INFINITY }
        } else {
            call_ensures(A::upper_bound, (self.total_score, self.visits, parent_visits), score)
        }
    }

    /// The upper confidence bound of the choice; a choice that has not been tried yet comes first.
    pub fn ucb1<A: Arithmetic>(&self, parent_visits: u32) -> (r: Single)
        ensures
            self.may_score::<A>(parent_visits, r),
            self.visits == 0 ==> r == (Single { bits: INFINITY }),
            self.visits != 0 ==> call_ensures(
                A::upper_bound,
                (self.total_score, self.visits, parent_visits),
                r,
            ),
    {
        if self.visits == 0 {
            return Single { bits: INFINITY };
        }
        A::upper_bound(self.total_score, self.visits, parent_visits)
    }

    /// The mean of all scores.
    pub fn average_score<A: Arithmetic>(&self) -> (r: Single)
        ensures
            call_ensures(A::mean, (self.total_score, self.visits), r),
    {
        A::mean(self.total_score, self.visits)
    }
}

/// How a choice at the root has done.
#[derive(Clone, Copy)]
pub struct MctsSideResult {
    pub move_choice: MoveChoice,
    pub total_score: Single,
    pub visits: u32,
}

impl MctsSideResult {
    /// The mean of all scores, or zero if there are none.
    pub fn average_score<A: Arithmetic>(&self) -> (r: Single)
        ensures
            self.visits == 0 ==> r == (Single { bits: 0 }),
            self.visits != 0 ==> call_ensures(A::mean, (self.total_score, self.visits), r),
    {
        if self.visits == 0 {
            return Single { bits: 0 };
        }
        A::mean(self.total_score, self.visits)
    }
}

/// What a search has found out.
pub struct MctsResult {
    pub s1: Vec<MctsSideResult>,
    pub s2: Vec<MctsSideResult>,
    pub iteration_count: u32,
}

/// These may be the upper confidence bounds of the choices.
pub open spec fn are_scores<A: Arithmetic>(
    side: Seq<MoveNode<Single>>,
    parent_visits: u32,
    scores: Seq<Single>,
) -> bool {
    &&& scores.len() == side.len()
    &&& forall|i: int|
        0 <= i < side.len() ==> side[i].may_score::<A>(parent_visits, #[trigger] scores[i])
}

/// A side may make this choice: the first of those with the greatest upper confidence bound.
pub open spec fn is_choice<A: Arithmetic>(
    side: Seq<MoveNode<Single>>,
    parent_visits: u32,
    r: u8,
) -> bool {
    exists|scores: Seq<Single>, best: usize| #[trigger]
        choice::is_first_best(scores, best as int) && are_scores::<A>(side, parent_visits, scores) && r
            == best as u8
}

impl<I> Node<Single, (), I> {
    /// The first of the choices with the greatest upper confidence bound.
    pub fn maximize_ucb_for_side<A: Arithmetic>(&self, side_map: &[MoveNode<Single>]) -> (r: u8)
        ensures
            is_choice::<A>(side_map@, self.times_visited, r),
            exists|scores: Seq<Single>, best: usize|
                {
                    &&& r == best as u8
                    &&& #[trigger] choice::is_first_best(scores, best as int)
                    &&& scores.len() == side_map@.len()
                    &&& forall|i: int|
                        0 <= i < scores.len() ==> if side_map@[i].visits == 0 {
                            #[trigger] scores[i] == (Single { bits: INFINITY })
                        } else {
                            call_ensures(
                                A::upper_bound,
                                (
                                    side_map@[i].total_score,
                                    side_map@[i].visits,
                                    self.times_visited,
                                ),
                                scores[i],
                            )
                        }
                },
    {
        let mut scores: Vec<Single> = Vec::new();
        let mut i: usize = 0;
        while i < side_map.len()
            invariant
                i <= side_map@.len(),
                scores@.len() == i,
                forall|k: int|
                    0 <= k < i ==> side_map@[k].may_score::<A>(
                        self.times_visited,
                        #[trigger] scores@[k],
                    ),
            decreases side_map@.len() - i,
        {
            scores.push(side_map[i].ucb1::<A>(self.times_visited));
            i = i + 1;
        }
        let best = first_best(scores.as_slice());
        #[verifier::truncate]
        (best as u8)
    }
}

/// Both sides may make these choices at a node.
pub open spec fn is_pair<A: Arithmetic, I>(
    node: NodeView<Single, (), I>,
    s1_index: u8,
    s2_index: u8,
) -> bool {
    &&& node.options is Some
    &&& is_choice::<A>(node.options->0.s1, node.times_visited, s1_index)
    &&& is_choice::<A>(node.options->0.s2, node.times_visited, s2_index)
}

/// Where the upper confidence bound of a choice is a function of its total, its visits and those of
/// the node, a side makes the choice whose bound is greatest for as many visits as the node has had;
/// of equal ones the first. Choices that have not been tried count as infinite.
pub proof fn the_greatest_bound_is_chosen<A: Arithmetic>(
    side: Seq<MoveNode<Single>>,
    times_visited: u32,
    bound: spec_fn(Single, u32, u32) -> Single,
    r: u8,
)
    requires
        is_choice::<A>(side, times_visited, r),
        0 < side.len() <= 255,
        forall|total: Single, visits: u32, parents: u32, s: Single| #[trigger]
            call_ensures(A::upper_bound, (total, visits, parents), s) ==> s == bound(
                total,
                visits,
                parents,
            ) && s.is_greater(Single { bits: LOWEST }),
    ensures
        ({
            let rank = |i: int|
                if side[i].visits == 0 {
                    INFINITY as int
                } else {
                    bound(side[i].total_score, side[i].visits, times_visited).rank()
                };
            &&& r < side.len()
            &&& forall|i: int|
                0 <= i < side.len() ==> {
                    &&& #[trigger] rank(i) <= rank(r as int)
                    &&& i < r ==> rank(i) < rank(r as int)
                }
        }),
{
    let (scores, best) = choose|scores: Seq<Single>, best: usize| #[trigger]
        choice::is_first_best(scores, best as int) && are_scores::<A>(side, times_visited, scores) && r
            == best as u8;
    let rank = |i: int|
        if side[i].visits == 0 {
            INFINITY as int
        } else {
            bound(side[i].total_score, side[i].visits, times_visited).rank()
        };
    assert forall|i: int| 0 <= i < scores.len() implies (#[trigger] scores[i]).is_greater(
        Single { bits: LOWEST },
    ) && scores[i].rank() == rank(i) by {
        assert(side[i].may_score::<A>(times_visited, scores[i]));
    }
    assert(scores[0].is_greater(Single { bits: LOWEST }));
    assert(best < 255);
    assert forall|i: int| 0 <= i < side.len() implies {
        &&& #[trigger] rank(i) <= rank(r as int)
        &&& i < r ==> rank(i) < rank(r as int)
    } by {
        assert(scores[i].rank() == rank(i));
        assert(scores[r as int].rank() == rank(r as int));
    }
}

/// A choice is made whose bound exceeds that of every other from so many visits of the node on, as
/// soon as the node has had them: choices that are tried less often than others do not stay behind.
pub proof fn neglected_choices_are_made<A: Arithmetic>(
    side: Seq<MoveNode<Single>>,
    times_visited: u32,
    bound: spec_fn(Single, u32, u32) -> Single,
    neglected: int,
    often: u32,
    r: u8,
)
    requires
        is_choice::<A>(side, times_visited, r),
        0 <= neglected < side.len() <= 255,
        forall|i: int| 0 <= i < side.len() ==> 0 < (#[trigger] side[i]).visits,
        forall|total: Single, visits: u32, parents: u32, s: Single| #[trigger]
            call_ensures(A::upper_bound, (total, visits, parents), s) ==> s == bound(
                total,
                visits,
                parents,
            ) && s.is_greater(Single { bits: LOWEST }),
        forall|i: int, parents: u32|
            0 <= i < side.len() && i != neglected && often <= parents ==> #[trigger] bound(
                side[i].total_score,
                side[i].visits,
                parents,
            ).rank() < bound(
                side[neglected].total_score,
                side[neglected].visits,
                parents,
            ).rank(),
        often <= times_visited,
    ensures
        r == neglected,
{
    the_greatest_bound_is_chosen::<A>(side, times_visited, bound, r);
    let rank = |i: int|
        if side[i].visits == 0 {
            INFINITY as int
        } else {
            bound(side[i].total_score, side[i].visits, times_visited).rank()
        };
    assert(rank(neglected) <= rank(r as int));
    let _ = side[r as int];
    let _ = side[neglected];
}

/// At a node no choice of either side has a greater bound than the one that is given, for as many
/// visits as the node has had.
/// Choices that have not been tried count as infinite.
pub open spec fn prefers<I>(
    bound: spec_fn(Single, u32, u32) -> Single,
    node: NodeView<Single, (), I>,
    s1_index: u8,
    s2_index: u8,
) -> bool {
    let o = node.options->0;
    let rank = |m: MoveNode<Single>|
        if m.visits == 0 {
            INFINITY as int
        } else {
            bound(m.total_score, m.visits, node.times_visited).rank()
        };
    &&& s1_index < o.s1.len()
    &&& s2_index < o.s2.len()
    &&& forall|i: int|
        0 <= i < o.s1.len() ==> rank(#[trigger] o.s1[i]) <= rank(o.s1[s1_index as int])
    &&& forall|j: int|
        0 <= j < o.s2.len() ==> rank(#[trigger] o.s2[j]) <= rank(o.s2[s2_index as int])
}

/// At a node each side makes the choice whose bound is greatest for as many visits as the node has
/// had.
pub proof fn pairs_have_the_greatest_bounds<A: Arithmetic, I>(
    node: NodeView<Single, (), I>,
    bound: spec_fn(Single, u32, u32) -> Single,
    s1_index: u8,
    s2_index: u8,
)
    requires
        is_pair::<A, I>(node, s1_index, s2_index),
        0 < node.options->0.s1.len() <= 255,
        0 < node.options->0.s2.len() <= 255,
        forall|total: Single, visits: u32, parents: u32, s: Single| #[trigger]
            call_ensures(A::upper_bound, (total, visits, parents), s) ==> s == bound(
                total,
                visits,
                parents,
            ) && s.is_greater(Single { bits: LOWEST }),
    ensures
        prefers(bound, node, s1_index, s2_index),
{
    let o = node.options->0;
    let visits = node.times_visited;
    the_greatest_bound_is_chosen::<A>(o.s1, visits, bound, s1_index);
    the_greatest_bound_is_chosen::<A>(o.s2, visits, bound, s2_index);
    let rank = |m: MoveNode<Single>|
        if m.visits == 0 {
            INFINITY as int
        } else {
            bound(m.total_score, m.visits, visits).rank()
        };
    let rank_1 = |i: int|
        if o.s1[i].visits == 0 {
            INFINITY as int
        } else {
            bound(o.s1[i].total_score, o.s1[i].visits, visits).rank()
        };
    let rank_2 = |i: int|
        if o.s2[i].visits == 0 {
            INFINITY as int
        } else {
            bound(o.s2[i].total_score, o.s2[i].visits, visits).rank()
        };
    assert forall|i: int| 0 <= i < o.s1.len() implies rank(#[trigger] o.s1[i]) <= rank(
        o.s1[s1_index as int],
    ) by {
        assert(rank_1(i) <= rank_1(s1_index as int));
    }
    assert forall|i: int| 0 <= i < o.s2.len() implies rank(#[trigger] o.s2[i]) <= rank(
        o.s2[s2_index as int],
    ) by {
        assert(rank_2(i) <= rank_2(s2_index as int));
    }
}

/// A step that the search may take: to a child that may come about by choices that both sides may
/// make.
pub open spec fn is_step<A: Arithmetic, I>(tree: TreeView<Single, (), I>, step: PathStep) -> bool {
    &&& is_pair::<A, I>(tree.nodes[step.parent], step.s1_index, step.s2_index)
    &&& exists|i: int| #[trigger]
        walk::may_sample::<A>(walk::likelihoods(tree, tree.children[step.key()]), i)
            && tree.children[step.key()][i] == step.child
}

/// The search may go down this path, which takes `state` to `at`.
pub open spec fn descends<B: Battle, A: Arithmetic>(
    tree: TreeView<Single, (), B::Instruction>,
    root: u32,
    state: B,
    path: Seq<PathStep>,
    at: B,
) -> bool {
    &&& walk::is_path(tree, root, path)
    &&& forall|k: int| 0 <= k < path.len() ==> is_step::<A, B::Instruction>(tree, #[trigger] path[k])
    &&& exists|states: Seq<B>| #[trigger]
        walk::goes_down(tree, path, states) && states[0] == state && states.last() == at
}

/// The node has these options, and memory was taken for them if it had none before.
pub open spec fn is_offered<I>(
    before: SearchTree<I>,
    after: SearchTree<I>,
    h: u32,
    options: OptionsView<Single>,
) -> bool {
    &&& after@ == before@.with_node(h, before@.nodes[h].with_options(options))
    &&& after.memory() == (if before@.nodes[h].options is Some {
        before.memory()
    } else {
        before.memory().after_block::<MoveNode<Single>>(options.s1.len() + options.s2.len())
    })
}

/// A descent may end at a node that has options, with choices that no child is filed for. Only the
/// options of that node may be new.
pub open spec fn selects<B: Battle, A: Arithmetic>(
    before: SearchTree<B::Instruction>,
    after: SearchTree<B::Instruction>,
    root: u32,
    state: B,
    path: Seq<PathStep>,
    found: Selected<B>,
) -> bool {
    &&& descends::<B, A>(before@, root, state, path, found.state)
    &&& found.leaf == walk::end_of(root, path)
    &&& exists|options: OptionsView<Single>| #[trigger]
        walk::offers(before@.nodes[found.leaf], found.state, Single { bits: 0 }, options)
            && is_offered(before, after, found.leaf, options)
    &&& is_pair::<A, B::Instruction>(after@.nodes[found.leaf], found.s1_index, found.s2_index)
    &&& !after@.children.contains_key((found.leaf, found.s1_index, found.s2_index))
}

/// A descent may end at a node that cannot be given options.
pub open spec fn fails_to_select<B: Battle, A: Arithmetic>(
    before: SearchTree<B::Instruction>,
    root: u32,
    state: B,
    e: SearchError,
) -> bool {
    exists|path: Seq<PathStep>, at: B, options: OptionsView<Single>|
        {
            &&& #[trigger] descends::<B, A>(before@, root, state, path, at)
            &&& #[trigger] walk::offers(
                before@.nodes[walk::end_of(root, path)],
                at,
                Single { bits: 0 },
                options,
            )
            &&& walk::offer_result::<B, Single, (), LocalChildMap>(before, walk::end_of(root, path), options)
                == Err::<(), SearchError>(e)
        }
}

/// Samples one of the nodes that a pair of choices leads to.
pub fn sample_node<A: Arithmetic, I>(
    rng: &mut SmallRng,
    tree: &SearchTree<I>,
    nodes: &Vec<u32>,
) -> (r: usize)
    requires
        tree.wf(),
        0 < nodes@.len(),
        forall|i: int| 0 <= i < nodes@.len() ==> tree@.nodes.contains_key(#[trigger] nodes@[i]),
    ensures
        walk::may_sample::<A>(walk::likelihoods(tree@, nodes@), r as int),
        nodes@.len() == 1 ==> *final(rng) == *old(rng),
        // a single draw from the generator decides
        nodes@.len() > 1 ==> exists|draw: &mut SmallRng|
            *draw == *old(rng) && *final(draw) == *final(rng) && #[trigger] walk::is_sampled::<A>(
                walk::likelihoods(tree@, nodes@),
                draw,
                r as int,
            ),
{
    if nodes.len() == 1 {
        return 0;
    }
    let ghost from = *rng;
    let roll = A::roll(rng);
    assert(engine::is_roll::<A>(roll));
    assert(exists|draw: &mut SmallRng|
        *draw == from && *final(draw) == *rng && #[trigger] call_ensures(A::roll, (draw,), roll));
    let mut percentages: Vec<Single> = Vec::new();
    let mut i: usize = 0;
    while i < nodes.len()
        invariant
            tree.wf(),
            i <= nodes@.len(),
            percentages@.len() == i,
            forall|k: int| 0 <= k < nodes@.len() ==> tree@.nodes.contains_key(#[trigger] nodes@[k]),
            forall|k: int|
                0 <= k < i ==> #[trigger] percentages@[k] == tree@.nodes[nodes@[k]].percentage,
        decreases nodes@.len() - i,
    {
        percentages.push(tree.node(nodes[i]).percentage);
        i = i + 1;
    }
    let sums = running_sums::<A>(percentages.as_slice());
    let r = pick(sums.as_slice(), roll);
    proof {
        assert(percentages@ =~= walk::likelihoods(tree@, nodes@));
        assert(choice::is_pick(sums@, roll, r as int));
        let draw = choose|draw: &mut SmallRng|
            *draw == from && *final(draw) == *rng && #[trigger] call_ensures(A::roll, (draw,), roll);
        assert(walk::is_sampled::<A>(walk::likelihoods(tree@, nodes@), draw, r as int));
    }
    r
}

/// Walks down from the root, to a pair of choices that no child is filed for yet.
#[verifier::spinoff_prover]
pub fn selection<B: Battle, A: Arithmetic>(
    tree: &mut SearchTree<B::Instruction>,
    root: u32,
    state: B,
    path: &mut Vec<PathStep>,
    rng: &mut SmallRng,
) -> (r: Result<Selected<B>, SearchError>)
    requires
        old(tree).wf(),
        old(tree)@.nodes.contains_key(root),
        old(path)@.len() == 0,
    ensures
        final(tree).wf(),
        r matches Ok(found) ==> selects::<B, A>(
            *old(tree),
            *final(tree),
            root,
            state,
            final(path)@,
            found,
        ),
        // one draw from the generator decides each step that may lead to several nodes
        r is Ok ==> exists|rngs: Seq<SmallRng>| #[trigger]
            walk::is_record(rngs, final(path)@.len(), *old(rng), *final(rng)) && forall|k: int|
                0 <= k < final(path)@.len() ==> {
                    let nodes = old(tree)@.children[(#[trigger] final(path)@[k]).key()];
                    if nodes.len() == 1 {
                        rngs[k + 1] == rngs[k]
                    } else {
                        exists|draw: &mut SmallRng, i: int|
                            {
                                &&& *draw == rngs[k]
                                &&& *final(draw) == rngs[k + 1]
                                &&& #[trigger] walk::is_sampled::<A>(walk::likelihoods(old(tree)@, nodes), draw, i)
                                &&& nodes[i] == final(path)@[k].child
                            }
                    }
                },
        r matches Err(e) ==> fails_to_select::<B, A>(*old(tree), root, state, e) && *final(tree)
            == *old(tree),
{
    let ghost before = *tree;
    let ghost mut states: Seq<B> = seq![state];
    let ghost mut rngs: Seq<SmallRng> = seq![*rng];
    let mut at = state;
    let mut current = root;
    loop
        invariant
            *tree == before,
            before == *old(tree),
            before.wf(),
            current == walk::end_of(root, path@),
            before@.nodes.contains_key(current),
            walk::is_path(before@, root, path@),
            forall|k: int|
                0 <= k < path@.len() ==> is_step::<A, B::Instruction>(before@, #[trigger] path@[k]),
            walk::goes_down(before@, path@, states),
            states[0] == state,
            states.last() == at,
            walk::is_record(rngs, path@.len(), *old(rng), *rng),
            forall|k: int|
                0 <= k < path@.len() ==> {
                    let nodes = before@.children[(#[trigger] path@[k]).key()];
                    if nodes.len() == 1 {
                        rngs[k + 1] == rngs[k]
                    } else {
                        exists|draw: &mut SmallRng, i: int|
                            {
                                &&& *draw == rngs[k]
                                &&& *final(draw) == rngs[k + 1]
                                &&& #[trigger] walk::is_sampled::<A>(walk::likelihoods(before@, nodes), draw, i)
                                &&& nodes[i] == path@[k].child
                            }
                    }
                },
        decreases u32::MAX - current,
    {
        proof {
            tree.is_a_tree();
            assert(descends::<B, A>(before@, root, state, path@, at));
        }
        match ensure_options(tree, current, &at, Single { bits: 0 }) {
            Ok(_) => {},
            Err(e) => {
                return Err(e);
            },
        }
        let ghost ready = *tree;
        proof {
            tree.is_a_tree();
        }
        let node = tree.node(current);
        let options = tree.options(current);
        let s1_index = node.maximize_ucb_for_side::<A>(options.s1());
        let s2_index = node.maximize_ucb_for_side::<A>(options.s2());
        proof {
            assert(is_pair::<A, B::Instruction>(tree@.nodes[current], s1_index, s2_index));
        }
        match tree.children_of(current, s1_index, s2_index) {
            Some(nodes) => {
                let ghost key = (current, s1_index, s2_index);
                proof {
                    assert(tree@.children == before@.children);
                    assert(before@.nodes[current].options is Some);
                    assert(*tree == before);
                    assert forall|i: int| 0 <= i < nodes@.len() implies before@.nodes.contains_key(
                        #[trigger] nodes@[i],
                    ) by {
                        assert(before@.children[key][i] == nodes@[i]);
                    }
                }
                let i = sample_node::<A, B::Instruction>(rng, tree, &nodes);
                let child = nodes[i];
                let list = tree.instructions(child);
                let step = PathStep { parent: current, child, s1_index, s2_index };
                let ghost from = at;
                let ghost walked = path@;
                at = at.apply_instructions(list);
                path.push(step);
                proof {
                    assert(engine::applies(from, before@.nodes[child].instructions, at));
                    assert(before@.children[key][i as int] == child);
                    assert(path@.drop_last() =~= walked);
                    assert(path@.last() == step);
                    let further = states.push(at);
                    assert forall|k: int| 0 <= k < path@.len() implies engine::applies(
                        further[k],
                        before@.nodes[(#[trigger] path@[k]).child].instructions,
                        further[k + 1],
                    ) by {
                        if k < walked.len() {
                            assert(path@[k] == walked[k]);
                        }
                    }
                    assert(step.key() == key);
                    assert(walk::may_sample::<A>(walk::likelihoods(before@, before@.children[key]), i as int));
                    assert(is_step::<A, B::Instruction>(before@, step));
                    assert forall|k: int| 0 <= k < path@.len() implies is_step::<A, B::Instruction>(
                        before@,
                        #[trigger] path@[k],
                    ) by {
                        if k < walked.len() {
                            assert(path@[k] == walked[k]);
                        }
                    }
                    states = further;
                }
                proof {
                    let drawn = rngs.push(*rng);
                    assert forall|k: int| 0 <= k < path@.len() implies {
                        let nodes = before@.children[(#[trigger] path@[k]).key()];
                        if nodes.len() == 1 {
                            drawn[k + 1] == drawn[k]
                        } else {
                            exists|draw: &mut SmallRng, i: int|
                                {
                                    &&& *draw == drawn[k]
                                    &&& *final(draw) == drawn[k + 1]
                                    &&& #[trigger] walk::is_sampled::<A>(walk::likelihoods(before@, nodes), draw, i)
                                    &&& nodes[i] == path@[k].child
                                }
                        }
                    } by {
                        if k < walked.len() {
                            assert(path@[k] == walked[k]);
                        } else {
                            assert(path@[k] == step);
                        }
                    }
                    rngs = drawn;
                }
                current = child;
            },
            None => {
                proof {
                    assert(exists|options: OptionsView<Single>| #[trigger]
                        walk::offers(before@.nodes[current], at, Single { bits: 0 }, options)
                            && is_offered(before, *tree, current, options));
                }
                return Ok(Selected { state: at, leaf: current, s1_index, s2_index });
            },
        }
    }
}

/// On its way down, a search makes the choices with the greatest bounds at every node that it
/// leaves and at the one where it ends.
pub proof fn descents_follow_the_greatest_bounds<B: Battle, A: Arithmetic>(
    before: SearchTree<B::Instruction>,
    after: SearchTree<B::Instruction>,
    root: u32,
    state: B,
    path: Seq<PathStep>,
    found: Selected<B>,
    bound: spec_fn(Single, u32, u32) -> Single,
)
    requires
        before.wf(),
        after.wf(),
        selects::<B, A>(before, after, root, state, path, found),
        forall|total: Single, visits: u32, parents: u32, s: Single| #[trigger]
            call_ensures(A::upper_bound, (total, visits, parents), s) ==> s == bound(
                total,
                visits,
                parents,
            ) && s.is_greater(Single { bits: LOWEST }),
    ensures
        forall|k: int|
            0 <= k < path.len() ==> prefers(
                bound,
                before@.nodes[(#[trigger] path[k]).parent],
                path[k].s1_index,
                path[k].s2_index,
            ),
        after@.nodes[found.leaf].can_choose() ==> prefers(
            bound,
            after@.nodes[found.leaf],
            found.s1_index,
            found.s2_index,
        ),
        !after@.children.contains_key((found.leaf, found.s1_index, found.s2_index)),
{
    before.is_a_tree();
    after.is_a_tree();
    walk::paths_ascend(before@, root, path);
    assert forall|k: int| 0 <= k < path.len() implies prefers(
        bound,
        before@.nodes[(#[trigger] path[k]).parent],
        path[k].s1_index,
        path[k].s2_index,
    ) by {
        assert(is_step::<A, B::Instruction>(before@, path[k]));
        pairs_have_the_greatest_bounds::<A, B::Instruction>(
            before@.nodes[path[k].parent],
            bound,
            path[k].s1_index,
            path[k].s2_index,
        );
    }
    if after@.nodes[found.leaf].can_choose() {
        assert(after@.nodes.contains_key(found.leaf));
        pairs_have_the_greatest_bounds::<A, B::Instruction>(
            after@.nodes[found.leaf],
            bound,
            found.s1_index,
            found.s2_index,
        );
    }
}

/// A descent ends in the state that the instructions of the nodes on its way make of the one that it
/// started in, at the node where its path ends. If that node had no options, it has got those that
/// the state offers, none of which has been tried.
pub proof fn descents_reach_the_state_of_their_leaf<B: Battle, A: Arithmetic>(
    before: SearchTree<B::Instruction>,
    after: SearchTree<B::Instruction>,
    root: u32,
    state: B,
    path: Seq<PathStep>,
    found: Selected<B>,
)
    requires
        before.wf(),
        selects::<B, A>(before, after, root, state, path, found),
    ensures
        found.leaf == (if path.len() == 0 {
            root
        } else {
            path[path.len() - 1].child
        }),
        exists|states: Seq<B>|
            {
                &&& states.len() == path.len() + 1
                &&& states[0] == state
                &&& #[trigger] states.last() == found.state
                &&& forall|k: int|
                    0 <= k < path.len() ==> engine::applies(
                        states[k],
                        before@.nodes[(#[trigger] path[k]).child].instructions,
                        states[k + 1],
                    )
            },
        before@.nodes[found.leaf].options is None ==> exists|
            s1: Vec<MoveChoice>,
            s2: Vec<MoveChoice>,
        |
            {
                &&& #[trigger] call_ensures(B::get_all_options, (&found.state,), (s1, s2))
                &&& choices_of(after@.nodes[found.leaf].options->0.s1) == s1@
                &&& choices_of(after@.nodes[found.leaf].options->0.s2) == s2@
                &&& walk::total_visits(after@.nodes[found.leaf].options->0.s1) == 0
                &&& walk::total_visits(after@.nodes[found.leaf].options->0.s2) == 0
            },
{
    before.is_a_tree();
    walk::paths_ascend(before@, root, path);
    let states = choose|states: Seq<B>| #[trigger]
        walk::goes_down(before@, path, states) && states[0] == state && states.last()
            == found.state;
    assert(states.last() == found.state);
    if before@.nodes[found.leaf].options is None {
        let (s1, s2) = choose|s1: Vec<MoveChoice>, s2: Vec<MoveChoice>|
            #[trigger] call_ensures(B::get_all_options, (&found.state,), (s1, s2)) && after@.nodes[found.leaf].options
                == Some(OptionsView::fresh(s1@, s2@, Single { bits: 0 }));
        walk::untried_is_unvisited(s1@, Single { bits: 0 });
        walk::untried_is_unvisited(s2@, Single { bits: 0 });
        let o = after@.nodes[found.leaf].options->0;
        assert(choices_of(o.s1) =~= s1@);
        assert(choices_of(o.s2) =~= s2@);
    }
}

/// A side that has choices, but no more than a block can hold, makes one of them.
proof fn choice_is_there<A: Arithmetic>(side: Seq<MoveNode<Single>>, parent_visits: u32, r: u8)
    requires
        is_choice::<A>(side, parent_visits, r),
        0 < side.len() <= 255,
    ensures
        r < side.len(),
{
    let (scores, best) = choose|scores: Seq<Single>, best: usize| #[trigger]
        choice::is_first_best(scores, best as int) && are_scores::<A>(side, parent_visits, scores) && r
            == best as u8;
    assert(best < 255);
}

/// What expanding a node for a pair of choices may come to: nothing where the choices do not lead
/// on; else their outcomes become its children, and one of them is sampled.
pub open spec fn expands<B: Battle, A: Arithmetic>(
    before: SearchTree<B::Instruction>,
    after: SearchTree<B::Instruction>,
    found: Selected<B>,
    depth: nat,
    r: Result<(B, Option<u32>), SearchError>,
) -> bool {
    let options = before@.nodes[found.leaf].options->0;
    let s1_move = options.s1[found.s1_index as int].move_choice;
    let s2_move = options.s2[found.s2_index as int].move_choice;
    exists|over: Single| #[trigger]
        call_ensures(B::battle_is_over, (&found.state,), over) && if walk::leads_on(
            over,
            depth,
            s1_move,
            s2_move,
        ) {
            exists|
                next: B,
                generated: Vec<StateInstructions<B::Instruction>>,
                ordered: Seq<StateInstructions<B::Instruction>>,
            |
                {
                    &&& #[trigger] walk::generates(
                        found.state,
                        s1_move,
                        s2_move,
                        depth,
                        next,
                        generated,
                    )
                    &&& #[trigger] walk::is_ordering(generated@, ordered)
                    &&& branches_out::<B, A>(before, after, found, next, ordered, r)
                }
        } else {
            r == Ok::<(B, Option<u32>), SearchError>((found.state, None)) && after == before
        }
}

/// What filing these outcomes as the children of a node may come to.
pub open spec fn branches_out<B: Battle, A: Arithmetic>(
    before: SearchTree<B::Instruction>,
    after: SearchTree<B::Instruction>,
    found: Selected<B>,
    next: B,
    outcomes: Seq<StateInstructions<B::Instruction>>,
    r: Result<(B, Option<u32>), SearchError>,
) -> bool {
    if outcomes.len() == 0 {
        r == Err::<(B, Option<u32>), SearchError>(SearchError::NoOutcome) && after@ == before@
    } else if can_branch_out(before.memory(), outcomes) {
        exists|child: u32| #[trigger]
            adds_children::<A, B::Instruction>(
                before@,
                after@,
                (found.leaf, found.s1_index, found.s2_index),
                outcomes,
                child,
            ) && r == Ok::<(B, Option<u32>), SearchError>((next, Some(child))) && after.memory()
                == before.memory().after_lists::<B::Instruction>(
                tree::list_lens(outcomes),
            ).after_nodes::<Node<Single, (), B::Instruction>>(outcomes.len())
    } else {
        r == Err::<(B, Option<u32>), SearchError>(SearchError::ArenaFull) && after@ == before@
    }
}

/// There is room for a node for each outcome.
pub open spec fn can_branch_out<I>(memory: MemoryView, outcomes: Seq<StateInstructions<I>>) -> bool {
    let lens = tree::list_lens(outcomes);
    memory.has_lists::<I>(lens) && memory.after_lists::<I>(lens).has_nodes::<Node<Single, (), I>>(
        outcomes.len(),
    )
}

/// Each outcome has become a child that is filed under `key`, and `child` may be sampled of them.
pub open spec fn adds_children<A: Arithmetic, I>(
    before: TreeView<Single, (), I>,
    after: TreeView<Single, (), I>,
    key: (u32, u8, u8),
    outcomes: Seq<StateInstructions<I>>,
    child: u32,
) -> bool {
    exists|children: Seq<u32>, i: int|
        {
            &&& #[trigger] after.grown_by(before, children, outcomes, ())
            &&& after.children == before.children.insert(key, children)
            &&& #[trigger] walk::may_sample::<A>(walk::likelihoods(after, children), i)
            &&& child == children[i]
        }
}

/// Adds the outcomes of the choices that a descent ended with to the tree, and samples one.
pub fn expand<B: Battle, A: Arithmetic>(
    tree: &mut SearchTree<B::Instruction>,
    found: Selected<B>,
    depth: usize,
    rng: &mut SmallRng,
) -> (r: Result<(B, Option<u32>), SearchError>)
    requires
        old(tree).wf(),
        old(tree)@.nodes.contains_key(found.leaf),
        old(tree)@.nodes[found.leaf].has_pair(found.s1_index, found.s2_index),
    ensures
        final(tree).wf(),
        expands::<B, A>(*old(tree), *final(tree), found, depth as nat, r),
        // one draw from the generator decides which of several children is sampled
        match r {
            Ok((_, Some(child))) => {
                let nodes = final(tree)@.children[(found.leaf, found.s1_index, found.s2_index)];
                if nodes.len() == 1 {
                    nodes[0] == child && *final(rng) == *old(rng)
                } else {
                    exists|draw: &mut SmallRng, i: int|
                        {
                            &&& *draw == *old(rng)
                            &&& *final(draw) == *final(rng)
                            &&& #[trigger] walk::is_sampled::<A>(walk::likelihoods(final(tree)@, nodes), draw, i)
                            &&& nodes[i] == child
                        }
                }
            },
            _ => *final(rng) == *old(rng),
        },
{
    let ghost before = *tree;
    let ghost given = found;
    let options = tree.options(found.leaf);
    let s1_move = options.s1()[found.s1_index as usize].move_choice;
    let s2_move = options.s2()[found.s2_index as usize].move_choice;
    let over = found.state.battle_is_over();
    // if the battle is over or both sides wait there is no need to expand
    if !should_expand(over, depth, s1_move, s2_move) {
        return Ok((found.state, None));
    }
    let should_branch_on_damage = depth < MCTS_DAMAGE_BRANCH_DEPTH;
    let (next, generated) = found.state.generate_instructions_from_move_pair(
        s1_move,
        s2_move,
        should_branch_on_damage,
    );
    let ghost listed = generated;
    assert(walk::generates(given.state, s1_move, s2_move, depth as nat, next, listed));
    // put the most likely branches first
    let outcomes = sort_by_likelihood(generated);
    let ghost ordered = outcomes@;
    assert(walk::is_ordering(listed@, ordered));
    match tree.add_children(found.leaf, found.s1_index, found.s2_index, outcomes, ()) {
        Err(e) => {
            assert(branches_out::<B, A>(
                before,
                *tree,
                given,
                next,
                ordered,
                Err::<(B, Option<u32>), SearchError>(e),
            ));
            Err(e)
        },
        Ok(children) => {
            proof {
                assert forall|i: int| 0 <= i < children@.len() implies tree@.nodes.contains_key(
                    #[trigger] children@[i],
                ) by {
                    assert(children@.contains(children@[i]));
                }
            }
            // this is the node that the rollout will be done on
            let i = sample_node::<A, B::Instruction>(rng, tree, &children);
            let child = children[i];
            assert(adds_children::<A, B::Instruction>(
                before@,
                tree@,
                (given.leaf, given.s1_index, given.s2_index),
                ordered,
                child,
            ));
            assert(branches_out::<B, A>(
                before,
                *tree,
                given,
                next,
                ordered,
                Ok::<(B, Option<u32>), SearchError>((next, Some(child))),
            ));
            Ok((next, Some(child)))
        },
    }
}

/// Where an expansion samples a child, the battle goes on, unless this is the root, and not
/// both sides wait. The engine is asked for the outcomes of the very choices, told apart by damage
/// at depths zero and one alone. Each outcome it lists, and nothing else, becomes a node of its own
/// with its likelihood and its instructions, the more likely before the less; these nodes are filed
/// for the choices, and the child is one of them.
pub proof fn every_outcome_becomes_a_child<B: Battle, A: Arithmetic>(
    before: SearchTree<B::Instruction>,
    after: SearchTree<B::Instruction>,
    found: Selected<B>,
    depth: nat,
    s1_move: MoveChoice,
    s2_move: MoveChoice,
    by_damage: bool,
    next: B,
    child: u32,
)
    requires
        expands::<B, A>(before, after, found, depth, Ok((next, Some(child)))),
        s1_move == before@.nodes[found.leaf].options->0.s1[found.s1_index as int].move_choice,
        s2_move == before@.nodes[found.leaf].options->0.s2[found.s2_index as int].move_choice,
        by_damage <==> depth < 2,
    ensures
        s1_move != MoveChoice::NoMove || s2_move != MoveChoice::NoMove,
        depth > 0 ==> exists|over: Single| #[trigger]
            call_ensures(B::battle_is_over, (&found.state,), over) && over.is_equal(
                Single { bits: 0 },
            ),
        exists|
            generated: Vec<StateInstructions<B::Instruction>>,
            ordered: Seq<StateInstructions<B::Instruction>>,
        |
            {
                let nodes = after@.children[(found.leaf, found.s1_index, found.s2_index)];
                &&& #[trigger] call_ensures(
                    B::generate_instructions_from_move_pair,
                    (found.state, s1_move, s2_move, by_damage),
                    (next, generated),
                )
                &&& #[trigger] ordered.to_multiset() == generated@.to_multiset()
                &&& 0 < nodes.len() == ordered.len() == generated@.len()
                &&& nodes.contains(child)
                &&& forall|i: int|
                    0 <= i < nodes.len() ==> {
                        &&& !before@.nodes.contains_key(#[trigger] nodes[i])
                        &&& after@.nodes.contains_key(nodes[i])
                        &&& after@.nodes[nodes[i]].percentage == ordered[i].percentage
                        &&& after@.nodes[nodes[i]].instructions == ordered[i].instruction_list@
                        &&& after@.nodes[nodes[i]].times_visited == 0
                        &&& after@.nodes[nodes[i]].options is None
                    }
                &&& forall|i: int, j: int|
                    0 <= i < j < nodes.len() ==> {
                        &&& #[trigger] nodes[i] != #[trigger] nodes[j]
                        &&& after@.nodes[nodes[i]].percentage.total_rank()
                            >= after@.nodes[nodes[j]].percentage.total_rank()
                    }
            },
        forall|h: u32| #[trigger]
            before@.nodes.contains_key(h) ==> after@.nodes.contains_key(h) && after@.nodes[h]
                == before@.nodes[h],
        forall|k: (u32, u8, u8)| k != (found.leaf, found.s1_index, found.s2_index) ==> (
        #[trigger] after@.children.contains_key(k) <==> before@.children.contains_key(k)) && (
        before@.children.contains_key(k) ==> after@.children[k] == before@.children[k]),
{
    let key = (found.leaf, found.s1_index, found.s2_index);
    let (next_2, generated, ordered) = choose|
        next_2: B,
        generated: Vec<StateInstructions<B::Instruction>>,
        ordered: Seq<StateInstructions<B::Instruction>>,
    |
        {
            &&& #[trigger] walk::generates(found.state, s1_move, s2_move, depth, next_2, generated)
            &&& #[trigger] walk::is_ordering(generated@, ordered)
            &&& branches_out::<B, A>(before, after, found, next_2, ordered, Ok((next, Some(child))))
        };
    let (nodes, i) = choose|nodes: Seq<u32>, i: int|
        {
            &&& #[trigger] after@.grown_by(before@, nodes, ordered, ())
            &&& after@.children == before@.children.insert(key, nodes)
            &&& #[trigger] walk::may_sample::<A>(walk::likelihoods(after@, nodes), i)
            &&& child == nodes[i]
        };
    assert(ordered.to_multiset() == generated@.to_multiset());
    assert(nodes[i] == child);
    assert forall|k: int| 0 <= k < nodes.len() implies after@.nodes.contains_key(
        #[trigger] nodes[k],
    ) && !before@.nodes.contains_key(nodes[k]) by {
        assert(nodes.contains(nodes[k]));
    }
    assert forall|k: int, l: int| 0 <= k < l < nodes.len() implies {
        &&& #[trigger] nodes[k] != #[trigger] nodes[l]
        &&& after@.nodes[nodes[k]].percentage.total_rank()
            >= after@.nodes[nodes[l]].percentage.total_rank()
    } by {
        assert(ordered[k].percentage.total_rank() >= ordered[l].percentage.total_rank());
    }
}

/// Where an expansion gives no child, the tree and the state stay as they are, and the battle is
/// over, at a node other than the root, or both sides wait.
pub proof fn nothing_is_added_where_nothing_follows<B: Battle, A: Arithmetic>(
    before: SearchTree<B::Instruction>,
    after: SearchTree<B::Instruction>,
    found: Selected<B>,
    depth: nat,
    next: B,
)
    requires
        expands::<B, A>(before, after, found, depth, Ok((next, None))),
    ensures
        after == before,
        next == found.state,
        ({
            let o = before@.nodes[found.leaf].options->0;
            ||| o.s1[found.s1_index as int].move_choice == MoveChoice::NoMove
                && o.s2[found.s2_index as int].move_choice == MoveChoice::NoMove
            ||| depth > 0 && exists|over: Single| #[trigger]
                call_ensures(B::battle_is_over, (&found.state,), over) && !over.is_equal(
                    Single { bits: 0 },
                )
        }),
{
}

/// An expansion that fails leaves the tree as it was, and fails because the engine lists no outcomes
/// for the choices, or because there is no room for those that it lists.
pub proof fn expansions_fail_for_want_of_outcomes_or_room<B: Battle, A: Arithmetic>(
    before: SearchTree<B::Instruction>,
    after: SearchTree<B::Instruction>,
    found: Selected<B>,
    depth: nat,
    s1_move: MoveChoice,
    s2_move: MoveChoice,
    by_damage: bool,
    e: SearchError,
)
    requires
        expands::<B, A>(before, after, found, depth, Err(e)),
        s1_move == before@.nodes[found.leaf].options->0.s1[found.s1_index as int].move_choice,
        s2_move == before@.nodes[found.leaf].options->0.s2[found.s2_index as int].move_choice,
        by_damage <==> depth < 2,
    ensures
        after@ == before@,
        exists|next: B, generated: Vec<StateInstructions<B::Instruction>>| #[trigger]
            call_ensures(
                B::generate_instructions_from_move_pair,
                (found.state, s1_move, s2_move, by_damage),
                (next, generated),
            ) && e == (if generated@.len() == 0 {
                SearchError::NoOutcome
            } else {
                SearchError::ArenaFull
            }),
{
    let (next, generated, ordered) = choose|
        next: B,
        generated: Vec<StateInstructions<B::Instruction>>,
        ordered: Seq<StateInstructions<B::Instruction>>,
    |
        {
            &&& #[trigger] walk::generates(found.state, s1_move, s2_move, depth, next, generated)
            &&& #[trigger] walk::is_ordering(generated@, ordered)
            &&& branches_out::<B, A>(before, after, found, next, ordered, Err(e))
        };
}

/// One visit more, and a score of which side two gets what is left to one.
pub open spec fn is_credited<A: Arithmetic, I>(
    before: NodeView<Single, (), I>,
    after: NodeView<Single, (), I>,
    step: PathStep,
    score: Single,
) -> bool {
    let (i, j) = (step.s1_index as int, step.s2_index as int);
    let (s1, s2) = (before.options->0.s1, before.options->0.s2);
    exists|total_1: Single, raised: Single, total_2: Single|
        {
            &&& #[trigger] call_ensures(A::plus, (s1[i].total_score, score), total_1)
            &&& #[trigger] call_ensures(A::plus, (s2[j].total_score, Single { bits: ONE }), raised)
            &&& #[trigger] call_ensures(A::minus, (raised, score), total_2)
            &&& after == (NodeView {
                times_visited: (before.times_visited + 1) as u32,
                options: Some(
                    OptionsView {
                        s1: s1.update(
                            i,
                            MoveNode {
                                total_score: total_1,
                                visits: (s1[i].visits + 1) as u32,
                                ..s1[i]
                            },
                        ),
                        s2: s2.update(
                            j,
                            MoveNode {
                                total_score: total_2,
                                visits: (s2[j].visits + 1) as u32,
                                ..s2[j]
                            },
                        ),
                    },
                ),
                ..before
            })
        }
}

/// The node from which a path leads to a leaf.
pub open spec fn start_of(path: Seq<PathStep>, leaf: u32) -> u32 {
    if path.len() == 0 {
        leaf
    } else {
        path[0].parent
    }
}

/// The node is left by some step of a path, from step `from` on.
pub open spec fn is_left(path: Seq<PathStep>, from: int, h: u32) -> bool {
    exists|k: int| from <= k < path.len() && (#[trigger] path[k]).parent == h
}

/// Every node that a path leaves from step `from` on is credited, the leaf has one visit more, and
/// nothing else has changed.
pub open spec fn credits_from<A: Arithmetic, I>(
    before: TreeView<Single, (), I>,
    after: TreeView<Single, (), I>,
    path: Seq<PathStep>,
    from: int,
    leaf: u32,
    score: Single,
) -> bool {
    &&& after.children == before.children
    &&& after.nodes.dom() == before.nodes.dom()
    &&& forall|k: int|
        from <= k < path.len() ==> is_credited::<A, I>(
            before.nodes[path[k].parent],
            after.nodes[path[k].parent],
            #[trigger] path[k],
            score,
        )
    &&& after.nodes[leaf] == (NodeView {
        times_visited: (before.nodes[leaf].times_visited + 1) as u32,
        ..before.nodes[leaf]
    })
    &&& forall|h: u32| #[trigger]
        before.nodes.contains_key(h) && h != leaf && !is_left(path, from, h) ==> after.nodes[h]
            == before.nodes[h]
}

/// All visits that a node or its options have had can be counted further.
pub open spec fn can_count_on<S, V, I>(tree: TreeView<S, V, I>) -> bool {
    forall|h: u32| #[trigger]
        tree.nodes.contains_key(h) ==> tree.nodes[h].times_visited < u32::MAX && (
        tree.nodes[h].options matches Some(o) ==> {
            &&& forall|i: int| 0 <= i < o.s1.len() ==> (#[trigger] o.s1[i]).visits < u32::MAX
            &&& forall|i: int| 0 <= i < o.s2.len() ==> (#[trigger] o.s2[i]).visits < u32::MAX
        })
}

/// Credits a score to every choice on a path, and takes the state back to where the path started.
pub fn backpropagate<B: Battle, A: Arithmetic>(
    tree: &mut SearchTree<B::Instruction>,
    path: &Vec<PathStep>,
    leaf: u32,
    score: Single,
    state: B,
) -> (r: B)
    requires
        old(tree).wf(),
        walk::is_path(old(tree)@, start_of(path@, leaf), path@),
        leaf == walk::end_of(start_of(path@, leaf), path@),
        can_count_on(old(tree)@),
    ensures
        final(tree).wf(),
        final(tree).memory() == old(tree).memory(),
        credits_from::<A, B::Instruction>(old(tree)@, final(tree)@, path@, 0, leaf, score),
        exists|states: Seq<B>| #[trigger]
            walk::comes_back(old(tree)@, path@, states) && states.last() == state && states[0] == r,
{
    let ghost before = *tree;
    let ghost n = path@.len() as int;
    proof {
        tree.is_a_tree();
        walk::paths_ascend(tree@, start_of(path@, leaf), path@);
    }
    let visited = tree.node(leaf).times_visited;
    tree.set_counts(leaf, visited + 1, ());
    let ghost mut states: Seq<B> = Seq::new(path@.len() + 1, |k: int| state);
    let mut at = state;
    let mut k: usize = path.len();
    proof {
        assert(tree@.nodes.dom() =~= before@.nodes.dom());
    }
    while k > 0
        invariant
            tree.wf(),
            before.wf(),
            before@.is_tree(),
            tree.memory() == before.memory(),
            n == path@.len(),
            k <= n,
            walk::is_path(before@, start_of(path@, leaf), path@),
            leaf == walk::end_of(start_of(path@, leaf), path@),
            can_count_on(before@),
            before@.nodes.contains_key(leaf),
            forall|l: int|
                0 <= l < n ==> {
                    &&& before@.nodes.contains_key((#[trigger] path@[l]).parent)
                    &&& before@.nodes.contains_key(path@[l].child)
                    &&& before@.nodes[path@[l].parent].has_pair(path@[l].s1_index, path@[l].s2_index)
                    &&& path@[l].parent < path@[l].child
                    &&& path@[l].child <= leaf
                },
            forall|l: int, m: int|
                0 <= l < m < n ==> (#[trigger] path@[l]).child <= (#[trigger] path@[m]).parent,
            credits_from::<A, B::Instruction>(before@, tree@, path@, k as int, leaf, score),
            states.len() == n + 1,
            states[n] == state,
            states[k as int] == at,
            forall|l: int|
                k <= l < n ==> engine::reverses(
                    states[l + 1],
                    before@.nodes[(#[trigger] path@[l]).child].instructions,
                    states[l],
                ),
        decreases k,
    {
        let ghost came_from = at;
        k = k - 1;
        let step = path[k];
        proof {
            assert(path@[k as int] == step);
            assert(!is_left(path@, k + 1, step.parent)) by {
                if is_left(path@, k + 1, step.parent) {
                    let l = choose|l: int| k + 1 <= l < n && (#[trigger] path@[l]).parent == step.parent;
                    assert(path@[k as int].child <= path@[l].parent);
                }
            }
            assert(tree@.nodes[step.parent] == before@.nodes[step.parent]);
            assert(tree@.nodes.contains_key(step.parent));
        }
        let node = tree.node(step.parent);
        let times_visited = node.times_visited;
        let options = tree.options(step.parent);
        let s1_move = options.s1()[step.s1_index as usize];
        let s2_move = options.s2()[step.s2_index as usize];
        let total_1 = A::plus(s1_move.total_score, score);
        let raised = A::plus(s2_move.total_score, Single { bits: ONE });
        let total_2 = A::minus(raised, score);
        tree.set_move(
            step.parent,
            false,
            step.s1_index,
            MoveNode {
                move_choice: s1_move.move_choice,
                total_score: total_1,
                visits: s1_move.visits + 1,
            },
        );
        tree.set_move(
            step.parent,
            true,
            step.s2_index,
            MoveNode {
                move_choice: s2_move.move_choice,
                total_score: total_2,
                visits: s2_move.visits + 1,
            },
        );
        tree.set_counts(step.parent, times_visited + 1, ());
        proof {
            assert(tree@.nodes.dom() =~= before@.nodes.dom());
            assert(is_credited::<A, B::Instruction>(
                before@.nodes[step.parent],
                tree@.nodes[step.parent],
                step,
                score,
            ));
            assert forall|l: int| k <= l < n implies is_credited::<A, B::Instruction>(
                before@.nodes[path@[l].parent],
                tree@.nodes[path@[l].parent],
                #[trigger] path@[l],
                score,
            ) by {
                if l > k {
                    assert(path@[k as int].child <= path@[l].parent);
                }
            }
            assert forall|h: u32| #[trigger]
                before@.nodes.contains_key(h) && h != leaf && !is_left(path@, k as int, h) implies tree@.nodes[h]
                == before@.nodes[h] by {
                assert(path@[k as int].parent != h);
                if is_left(path@, k + 1, h) {
                    let l = choose|l: int| k + 1 <= l < n && (#[trigger] path@[l]).parent == h;
                    assert(is_left(path@, k as int, h));
                }
            }
            assert(tree@.nodes[step.child].instructions == before@.nodes[step.child].instructions) by {
                if step.child != leaf && is_left(path@, k + 1, step.child) {
                    let l = choose|l: int| k + 1 <= l < n && (#[trigger] path@[l]).parent == step.child;
                    assert(is_credited::<A, B::Instruction>(
                        before@.nodes[path@[l].parent],
                        tree@.nodes[path@[l].parent],
                        path@[l],
                        score,
                    ));
                }
            }
        }
        let list = tree.instructions(step.child);
        at = at.reverse_instructions(list);
        proof {
            assert(engine::reverses(came_from, before@.nodes[step.child].instructions, at));
            let further = states.update(k as int, at);
            assert forall|l: int| k <= l < n implies engine::reverses(
                further[l + 1],
                before@.nodes[(#[trigger] path@[l]).child].instructions,
                further[l],
            ) by {
                if l == k {
                    assert(path@[l] == step);
                }
            }
            states = further;
        }
    }
    proof {
        assert(walk::comes_back(before@, path@, states));
    }
    at
}

/// Both sides have made equally many choices at the node, and no more than it was visited.
pub open spec fn tallies<S, V, I>(node: NodeView<S, V, I>) -> bool {
    node.options matches Some(o) ==> walk::total_visits(o.s1) == walk::total_visits(o.s2) && walk::total_visits(o.s1)
        <= node.times_visited
}

/// At every node both sides have made equally many choices.
pub open spec fn all_tally<S, V, I>(tree: TreeView<S, V, I>) -> bool {
    forall|h: u32| #[trigger] tree.nodes.contains_key(h) ==> tallies(tree.nodes[h])
}

/// No node was visited more than `n` times.
pub open spec fn visited_at_most<S, V, I>(tree: TreeView<S, V, I>, n: int) -> bool {
    forall|h: u32| #[trigger] tree.nodes.contains_key(h) ==> tree.nodes[h].times_visited <= n
}

/// One iteration: what it has found on its way, and what it has made of it.
pub struct Trace<B: Battle> {
    pub descent: Seq<PathStep>,
    pub found: Selected<B>,
    pub selected: SearchTree<B::Instruction>,
    pub next: (B, Option<u32>),
    pub expanded: SearchTree<B::Instruction>,
    pub bottom: B,
    pub score: Single,
}

impl<B: Battle> Trace<B> {
    /// The way from the root to the node that is scored.
    pub open spec fn path(self) -> Seq<PathStep> {
        match self.next.1 {
            Some(child) => self.descent.push(
                PathStep {
                    parent: self.found.leaf,
                    child,
                    s1_index: self.found.s1_index,
                    s2_index: self.found.s2_index,
                },
            ),
            None => self.descent,
        }
    }

    /// The node that is scored.
    pub open spec fn target(self) -> u32 {
        match self.next.1 {
            Some(child) => child,
            None => self.found.leaf,
        }
    }
}

/// An iteration may run like this: descend, expand, score the state at the bottom, credit the
/// score to all choices on the way, and take the state back to the root.
pub open spec fn is_trace<B: Battle, A: Arithmetic>(
    before: SearchTree<B::Instruction>,
    after: SearchTree<B::Instruction>,
    root: u32,
    root_eval: Single,
    state: B,
    end: B,
    t: Trace<B>,
) -> bool {
    &&& t.selected.wf()
    &&& t.expanded.wf()
    &&& selects::<B, A>(before, t.selected, root, state, t.descent, t.found)
    &&& t.selected@.nodes[t.found.leaf].has_pair(t.found.s1_index, t.found.s2_index)
    &&& expands::<B, A>(t.selected, t.expanded, t.found, t.descent.len(), Ok(t.next))
    &&& match t.next.1 {
        Some(child) => engine::applies(t.next.0, t.expanded@.nodes[child].instructions, t.bottom),
        None => t.bottom == t.next.0,
    }
    &&& walk::may_be_worth::<B, A>(t.bottom, root_eval, t.score)
    &&& credits_from::<A, B::Instruction>(
        t.expanded@,
        after@,
        t.path(),
        0,
        t.target(),
        t.score,
    )
    &&& after.memory() == t.expanded.memory()
    &&& exists|states: Seq<B>| #[trigger]
        walk::comes_back(t.expanded@, t.path(), states) && states.last() == t.bottom && states[0]
            == end
}

/// An iteration may end like this.
pub open spec fn iterates<B: Battle, A: Arithmetic>(
    before: SearchTree<B::Instruction>,
    after: SearchTree<B::Instruction>,
    root: u32,
    root_eval: Single,
    state: B,
    end: B,
) -> bool {
    exists|t: Trace<B>| #[trigger] is_trace::<B, A>(before, after, root, root_eval, state, end, t)
}

/// An iteration may fail like this: a node cannot be given options, a side has none there, or the
/// node gets no children.
pub open spec fn fails_to_iterate<B: Battle, A: Arithmetic>(
    before: SearchTree<B::Instruction>,
    root: u32,
    state: B,
    e: SearchError,
) -> bool {
    ||| fails_to_select::<B, A>(before, root, state, e)
    ||| e == SearchError::NoOptions && exists|
        selected: SearchTree<B::Instruction>,
        descent: Seq<PathStep>,
        found: Selected<B>,
    |
        #[trigger] selects::<B, A>(before, selected, root, state, descent, found)
            && !selected@.nodes[found.leaf].can_choose()
    ||| exists|
        selected: SearchTree<B::Instruction>,
        expanded: SearchTree<B::Instruction>,
        descent: Seq<PathStep>,
        found: Selected<B>,
    |
        #[trigger] selects::<B, A>(before, selected, root, state, descent, found)
            && selected@.nodes[found.leaf].can_choose() && #[trigger] expands::<B, A>(
            selected,
            expanded,
            found,
            descent.len(),
            Err(e),
        )
}

/// What selection leaves behind: nothing but options that have not been tried.
pub(crate) proof fn selection_is_quiet<B: Battle, A: Arithmetic>(
    before: SearchTree<B::Instruction>,
    after: SearchTree<B::Instruction>,
    root: u32,
    state: B,
    path: Seq<PathStep>,
    found: Selected<B>,
)
    requires
        before.wf(),
        all_tally(before@),
        selects::<B, A>(before, after, root, state, path, found),
    ensures
        all_tally(after@),
        before@.nodes.contains_key(found.leaf),
        after@.nodes.dom() == before@.nodes.dom(),
        after@.children == before@.children,
        forall|h: u32| #[trigger]
            before@.nodes.contains_key(h) ==> after@.nodes[h].times_visited
                == before@.nodes[h].times_visited && after@.nodes[h].instructions
                == before@.nodes[h].instructions,
        walk::is_path(after@, root, path),
{
    before.is_a_tree();
    walk::paths_ascend(before@, root, path);
    let options = choose|options: OptionsView<Single>| #[trigger]
        walk::offers(before@.nodes[found.leaf], found.state, Single { bits: 0 }, options)
            && is_offered(before, after, found.leaf, options);
    assert(after@.nodes.dom() =~= before@.nodes.dom());
    assert forall|h: u32| #[trigger] after@.nodes.contains_key(h) implies tallies(after@.nodes[h]) by {
        assert(tallies(before@.nodes[h]));
        if h == found.leaf && before@.nodes[h].options is None {
            let (s1, s2) = choose|s1: Vec<MoveChoice>, s2: Vec<MoveChoice>|
                #[trigger] call_ensures(B::get_all_options, (&found.state,), (s1, s2)) && options
                    == OptionsView::fresh(s1@, s2@, Single { bits: 0 });
            walk::untried_is_unvisited(s1@, Single { bits: 0 });
            walk::untried_is_unvisited(s2@, Single { bits: 0 });
        }
    }
    walk::paths_stay(before@, after@, root, path);
}

/// What expansion leaves behind: nodes that have not been visited, as children of the leaf.
pub(crate) proof fn expansion_is_quiet<B: Battle, A: Arithmetic>(
    before: SearchTree<B::Instruction>,
    after: SearchTree<B::Instruction>,
    root: u32,
    path: Seq<PathStep>,
    found: Selected<B>,
    next: (B, Option<u32>),
)
    requires
        before.wf(),
        all_tally(before@),
        walk::is_path(before@, root, path),
        found.leaf == walk::end_of(root, path),
        before@.nodes.contains_key(found.leaf),
        !before@.children.contains_key((found.leaf, found.s1_index, found.s2_index)),
        expands::<B, A>(before, after, found, path.len(), Ok(next)),
    ensures
        all_tally(after@),
        forall|h: u32| #[trigger]
            before@.nodes.contains_key(h) ==> after@.nodes.contains_key(h) && after@.nodes[h]
                == before@.nodes[h],
        forall|h: u32| #[trigger]
            after@.nodes.contains_key(h) && !before@.nodes.contains_key(h)
                ==> after@.nodes[h].times_visited == 0,
        forall|k: (u32, u8, u8)| #[trigger]
            before@.children.contains_key(k) ==> after@.children.contains_key(k)
                && after@.children[k] == before@.children[k],
        match next.1 {
            Some(child) => {
                let step = PathStep {
                    parent: found.leaf,
                    child,
                    s1_index: found.s1_index,
                    s2_index: found.s2_index,
                };
                walk::is_path(after@, root, path.push(step))
            },
            None => walk::is_path(after@, root, path),
        },
{
    let key = (found.leaf, found.s1_index, found.s2_index);
    if let Some(child) = next.1 {
        let outcomes = expansion_adds_children::<B, A>(
            before,
            after,
            found,
            path.len(),
            next.0,
            child,
        );
        added_children_are_quiet::<A, B::Instruction>(before@, after@, key, outcomes, child);
        before.is_a_tree();
        walk::paths_ascend(before@, root, path);
        walk::paths_stay(before@, after@, root, path);
        let step = PathStep {
            parent: found.leaf,
            child,
            s1_index: found.s1_index,
            s2_index: found.s2_index,
        };
        assert(path.push(step).drop_last() =~= path);
        assert(step.key() == key);
    }
}

/// Where an expansion samples a child, the outcomes have become children.
pub(crate) proof fn expansion_adds_children<B: Battle, A: Arithmetic>(
    before: SearchTree<B::Instruction>,
    after: SearchTree<B::Instruction>,
    found: Selected<B>,
    depth: nat,
    end: B,
    child: u32,
) -> (outcomes: Seq<StateInstructions<B::Instruction>>)
    requires
        expands::<B, A>(before, after, found, depth, Ok((end, Some(child)))),
    ensures
        adds_children::<A, B::Instruction>(
            before@,
            after@,
            (found.leaf, found.s1_index, found.s2_index),
            outcomes,
            child,
        ),
{
    let options = before@.nodes[found.leaf].options->0;
    let s1_move = options.s1[found.s1_index as int].move_choice;
    let s2_move = options.s2[found.s2_index as int].move_choice;
    let (next, generated, outcomes) = choose|
        next: B,
        generated: Vec<StateInstructions<B::Instruction>>,
        outcomes: Seq<StateInstructions<B::Instruction>>,
    |
        {
            &&& #[trigger] walk::generates(found.state, s1_move, s2_move, depth, next, generated)
            &&& #[trigger] walk::is_ordering(generated@, outcomes)
            &&& branches_out::<B, A>(before, after, found, next, outcomes, Ok((end, Some(child))))
        };
    outcomes
}

/// Nodes that an expansion adds have no options.
pub(crate) proof fn new_nodes_have_no_options<B: Battle, A: Arithmetic>(
    before: SearchTree<B::Instruction>,
    after: SearchTree<B::Instruction>,
    found: Selected<B>,
    depth: nat,
    next: (B, Option<u32>),
    h: u32,
)
    requires
        expands::<B, A>(before, after, found, depth, Ok(next)),
        after@.nodes.contains_key(h),
        !before@.nodes.contains_key(h),
    ensures
        after@.nodes[h].options is None,
{
    if let Some(child) = next.1 {
        let outcomes = expansion_adds_children::<B, A>(before, after, found, depth, next.0, child);
        let (children, i) = choose|children: Seq<u32>, i: int|
            {
                &&& #[trigger] after@.grown_by(before@, children, outcomes, ())
                &&& #[trigger] walk::may_sample::<A>(walk::likelihoods(after@, children), i)
            };
        assert(children.contains(h));
        let c = choose|c: int| 0 <= c < children.len() && children[c] == h;
        assert(after@.nodes[children[c]].options is None);
    }
}

/// New children have no visits and no options, and leave all other nodes alone.
proof fn added_children_are_quiet<A: Arithmetic, I>(
    before: TreeView<Single, (), I>,
    after: TreeView<Single, (), I>,
    key: (u32, u8, u8),
    outcomes: Seq<StateInstructions<I>>,
    child: u32,
)
    requires
        all_tally(before),
        !before.children.contains_key(key),
        adds_children::<A, I>(before, after, key, outcomes, child),
    ensures
        all_tally(after),
        forall|h: u32| #[trigger]
            before.nodes.contains_key(h) ==> after.nodes.contains_key(h) && after.nodes[h]
                == before.nodes[h],
        forall|h: u32| #[trigger]
            after.nodes.contains_key(h) && !before.nodes.contains_key(h)
                ==> after.nodes[h].times_visited == 0,
        forall|k: (u32, u8, u8)| #[trigger]
            before.children.contains_key(k) ==> after.children.contains_key(k) && after.children[k]
                == before.children[k],
        after.children.contains_key(key),
        after.children[key].contains(child),
{
    let (children, i) = choose|children: Seq<u32>, i: int|
        {
            &&& #[trigger] after.grown_by(before, children, outcomes, ())
            &&& after.children == before.children.insert(key, children)
            &&& #[trigger] walk::may_sample::<A>(walk::likelihoods(after, children), i)
            &&& child == children[i]
        };
    assert forall|h: u32| #[trigger]
        after.nodes.contains_key(h) && !before.nodes.contains_key(h) implies after.nodes[h].times_visited
        == 0 && after.nodes[h].options is None by {
        assert(children.contains(h));
        let c = choose|c: int| 0 <= c < children.len() && children[c] == h;
        assert(after.nodes[children[c]].times_visited == 0);
    }
    assert(children[i] == child);
}

/// Crediting a score keeps the tallies, and adds no more than one visit anywhere.
proof fn credit_keeps_tallies<A: Arithmetic, I>(
    before: TreeView<Single, (), I>,
    after: TreeView<Single, (), I>,
    root: u32,
    path: Seq<PathStep>,
    leaf: u32,
    score: Single,
)
    requires
        before.is_tree(),
        all_tally(before),
        can_count_on(before),
        walk::is_path(before, root, path),
        leaf == walk::end_of(root, path),
        credits_from::<A, I>(before, after, path, 0, leaf, score),
    ensures
        all_tally(after),
        forall|h: u32| #[trigger]
            before.nodes.contains_key(h) ==> after.nodes[h].times_visited
                <= before.nodes[h].times_visited + 1,
        after.nodes[root].times_visited == before.nodes[root].times_visited + 1,
        path.len() > 0 ==> walk::total_visits(after.nodes[root].options->0.s1)
            == walk::total_visits(before.nodes[root].options->0.s1) + 1,
{
    walk::paths_ascend(before, root, path);
    assert forall|h: u32| #[trigger] before.nodes.contains_key(h) implies tallies(after.nodes[h])
        && after.nodes[h].times_visited <= before.nodes[h].times_visited + 1 by {
        assert(tallies(before.nodes[h]));
        if h != leaf && is_left(path, 0, h) {
            let k = choose|k: int| 0 <= k < path.len() && (#[trigger] path[k]).parent == h;
            credit_keeps_tally::<A, I>(before.nodes[h], after.nodes[h], path[k], score);
        }
    }
    if path.len() > 0 {
        credit_keeps_tally::<A, I>(before.nodes[root], after.nodes[root], path[0], score);
    }
}

/// Crediting a score at one node keeps its tally.
proof fn credit_keeps_tally<A: Arithmetic, I>(
    before: NodeView<Single, (), I>,
    after: NodeView<Single, (), I>,
    step: PathStep,
    score: Single,
)
    requires
        tallies(before),
        before.has_pair(step.s1_index, step.s2_index),
        before.times_visited < u32::MAX,
        is_credited::<A, I>(before, after, step, score),
    ensures
        tallies(after),
        after.times_visited == before.times_visited + 1,
        walk::total_visits(after.options->0.s1) == walk::total_visits(before.options->0.s1) + 1,
{
    let (i, j) = (step.s1_index as int, step.s2_index as int);
    let (s1, s2) = (before.options->0.s1, before.options->0.s2);
    let (t1, t2) = (after.options->0.s1, after.options->0.s2);
    walk::visits_add_up(s1, i);
    walk::visits_add_up(s2, j);
    walk::total_after_update(s1, i, t1[i]);
    walk::total_after_update(s2, j, t2[j]);
    assert(t1 =~= s1.update(i, t1[i]));
    assert(t2 =~= s2.update(j, t2[j]));
}

/// Visits can be counted further where the tallies agree and no node has run out.
pub(crate) proof fn tallies_leave_room<S, V, I>(tree: TreeView<S, V, I>)
    requires
        all_tally(tree),
        visited_at_most(tree, u32::MAX - 1),
    ensures
        can_count_on(tree),
{
    assert forall|h: u32| #[trigger] tree.nodes.contains_key(h) implies tree.nodes[h].times_visited
        < u32::MAX && (tree.nodes[h].options matches Some(o) ==> {
        &&& forall|i: int| 0 <= i < o.s1.len() ==> (#[trigger] o.s1[i]).visits < u32::MAX
        &&& forall|i: int| 0 <= i < o.s2.len() ==> (#[trigger] o.s2[i]).visits < u32::MAX
    }) by {
        assert(tallies(tree.nodes[h]));
        if let Some(o) = tree.nodes[h].options {
            assert forall|i: int| 0 <= i < o.s1.len() implies (#[trigger] o.s1[i]).visits < u32::MAX by {
                walk::visits_add_up(o.s1, i);
            }
            assert forall|i: int| 0 <= i < o.s2.len() implies (#[trigger] o.s2[i]).visits < u32::MAX by {
                walk::visits_add_up(o.s2, i);
            }
        }
    }
}

/// The choices of a side, in order.
pub open spec fn choices_of<S>(side: Seq<MoveNode<S>>) -> Seq<MoveChoice> {
    Seq::new(side.len(), |i: int| side[i].move_choice)
}

/// None of these choices is to wait.
pub open spec fn never_waits(choices: Seq<MoveChoice>) -> bool {
    forall|i: int| 0 <= i < choices.len() ==> #[trigger] choices[i] != MoveChoice::NoMove
}

/// Some side never waits at the node, so both sides make a choice each time it is passed.
pub open spec fn always_moves<S, V, I>(node: NodeView<S, V, I>) -> bool {
    node.options matches Some(o) && (never_waits(choices_of(o.s1)) || never_waits(
        choices_of(o.s2),
    ))
}

/// Nodes stay where they are, and keep the choices that they offer.
pub open spec fn keeps_choices<S, V, I>(
    before: TreeView<S, V, I>,
    after: TreeView<S, V, I>,
) -> bool {
    forall|h: u32| #[trigger]
        before.nodes.contains_key(h) ==> after.nodes.contains_key(h) && (
        before.nodes[h].options matches Some(o) ==> {
            &&& after.nodes[h].options is Some
            &&& choices_of(after.nodes[h].options->0.s1) == choices_of(o.s1)
            &&& choices_of(after.nodes[h].options->0.s2) == choices_of(o.s2)
        })
}

/// Crediting a score changes no choices.
proof fn credit_keeps_choices<A: Arithmetic, I>(
    before: TreeView<Single, (), I>,
    after: TreeView<Single, (), I>,
    root: u32,
    path: Seq<PathStep>,
    leaf: u32,
    score: Single,
)
    requires
        before.is_tree(),
        walk::is_path(before, root, path),
        leaf == walk::end_of(root, path),
        credits_from::<A, I>(before, after, path, 0, leaf, score),
    ensures
        keeps_choices(before, after),
{
    walk::paths_ascend(before, root, path);
    assert forall|h: u32| #[trigger] before.nodes.contains_key(h) implies after.nodes.contains_key(h)
        && (before.nodes[h].options matches Some(o) ==> {
        &&& after.nodes[h].options is Some
        &&& choices_of(after.nodes[h].options->0.s1) == choices_of(o.s1)
        &&& choices_of(after.nodes[h].options->0.s2) == choices_of(o.s2)
    }) by {
        assert(after.nodes.dom().contains(h));
        if let Some(o) = before.nodes[h].options {
            if h != leaf && is_left(path, 0, h) {
                let k = choose|k: int| 0 <= k < path.len() && (#[trigger] path[k]).parent == h;
                assert(is_credited::<A, I>(before.nodes[h], after.nodes[h], path[k], score));
                assert(choices_of(after.nodes[h].options->0.s1) =~= choices_of(o.s1));
                assert(choices_of(after.nodes[h].options->0.s2) =~= choices_of(o.s2));
            }
        }
    }
}

/// An iteration keeps the tallies and the choices, and adds no more than one visit anywhere, and
/// one at the root.
pub(crate) proof fn a_trace_keeps_the_books<B: Battle, A: Arithmetic>(
    before: SearchTree<B::Instruction>,
    after: SearchTree<B::Instruction>,
    root: u32,
    root_eval: Single,
    state: B,
    end: B,
    t: Trace<B>,
)
    requires
        before.wf(),
        before@.nodes.contains_key(root),
        all_tally(before@),
        visited_at_most(before@, u32::MAX - 1),
        is_trace::<B, A>(before, after, root, root_eval, state, end, t),
    ensures
        all_tally(after@),
        keeps_choices(before@, after@),
        after@.nodes[root].times_visited == before@.nodes[root].times_visited + 1,
        always_moves(before@.nodes[root]) ==> walk::total_visits(
            after@.nodes[root].options->0.s1,
        ) == walk::total_visits(before@.nodes[root].options->0.s1) + 1,
        forall|n: int| #[trigger]
            visited_at_most(before@, n) && 0 <= n ==> visited_at_most(after@, n + 1),
{
    let (selected, grown) = (t.selected, t.expanded);
    let path = t.path();
    selection_is_quiet::<B, A>(before, selected, root, state, t.descent, t.found);
    expansion_is_quiet::<B, A>(selected, grown, root, t.descent, t.found, t.next);
    grown.is_a_tree();
    walk::paths_ascend(grown@, root, path);
    assert forall|n: int| #[trigger] visited_at_most(before@, n) && 0 <= n implies visited_at_most(
        grown@,
        n,
    ) by {
        assert forall|h: u32| #[trigger] grown@.nodes.contains_key(h) implies grown@.nodes[h].times_visited
            <= n by {
            if selected@.nodes.contains_key(h) {
                assert(before@.nodes.dom().contains(h));
            }
        }
    }
    tallies_leave_room(grown@);
    credit_keeps_tallies::<A, B::Instruction>(grown@, after@, root, path, t.target(), t.score);
    credit_keeps_choices::<A, B::Instruction>(grown@, after@, root, path, t.target(), t.score);
    assert forall|n: int| #[trigger] visited_at_most(before@, n) && 0 <= n implies visited_at_most(
        after@,
        n + 1,
    ) by {
        assert(visited_at_most(grown@, n));
        assert forall|h: u32| #[trigger] after@.nodes.contains_key(h) implies after@.nodes[h].times_visited
            <= n + 1 by {
            assert(grown@.nodes.dom().contains(h));
        }
    }
    assert forall|h: u32| #[trigger] before@.nodes.contains_key(h) implies selected@.nodes.contains_key(
        h,
    ) && (before@.nodes[h].options is Some ==> selected@.nodes[h].options
        == before@.nodes[h].options) by {
        assert(selected@.nodes.dom().contains(h));
    }
    assert(selected@.nodes.contains_key(root));
    if always_moves(before@.nodes[root]) && path.len() == 0 {
        let o = selected@.nodes[root].options->0;
        let (i, j) = (t.found.s1_index as int, t.found.s2_index as int);
        assert(choices_of(o.s1)[i] != MoveChoice::NoMove || choices_of(o.s2)[j] != MoveChoice::NoMove);
    }
}

/// An iteration changes no likelihoods, and leads through children that stay where they are.
proof fn a_trace_keeps_likelihoods<B: Battle, A: Arithmetic>(
    before: SearchTree<B::Instruction>,
    after: SearchTree<B::Instruction>,
    root: u32,
    root_eval: Single,
    state: B,
    end: B,
    t: Trace<B>,
)
    requires
        before.wf(),
        all_tally(before@),
        is_trace::<B, A>(before, after, root, root_eval, state, end, t),
    ensures
        forall|k: int|
            0 <= k < t.descent.len() ==> {
                let key = (#[trigger] t.descent[k]).key();
                &&& after@.children[key] == before@.children[key]
                &&& walk::likelihoods(after@, after@.children[key]) == walk::likelihoods(
                    before@,
                    before@.children[key],
                )
            },
        t.next.1 is Some ==> {
            let key = (t.found.leaf, t.found.s1_index, t.found.s2_index);
            &&& after@.children[key] == t.expanded@.children[key]
            &&& walk::likelihoods(after@, after@.children[key]) == walk::likelihoods(
                t.expanded@,
                t.expanded@.children[key],
            )
        },
{
    let (selected, grown) = (t.selected, t.expanded);
    selection_is_quiet::<B, A>(before, selected, root, state, t.descent, t.found);
    expansion_is_quiet::<B, A>(selected, grown, root, t.descent, t.found, t.next);
    before.is_a_tree();
    grown.is_a_tree();
    walk::paths_ascend(before@, root, t.descent);
    walk::paths_ascend(grown@, root, t.path());
    assert forall|h: u32| #[trigger] grown@.nodes.contains_key(h) implies after@.nodes[h].percentage
        == grown@.nodes[h].percentage by {
        if h != t.target() && is_left(t.path(), 0, h) {
            let k = choose|k: int| 0 <= k < t.path().len() && (#[trigger] t.path()[k]).parent == h;
            assert(is_credited::<A, B::Instruction>(
                grown@.nodes[h],
                after@.nodes[h],
                t.path()[k],
                t.score,
            ));
        }
    }
    assert forall|h: u32| #[trigger] before@.nodes.contains_key(h) implies after@.nodes[h].percentage
        == before@.nodes[h].percentage by {
        assert(selected@.nodes.dom().contains(h));
        assert(selected@.nodes.contains_key(h));
        assert(grown@.nodes.contains_key(h));
    }
    assert forall|k: int| 0 <= k < t.descent.len() implies {
        let key = (#[trigger] t.descent[k]).key();
        &&& after@.children[key] == before@.children[key]
        &&& walk::likelihoods(after@, after@.children[key]) == walk::likelihoods(
            before@,
            before@.children[key],
        )
    } by {
        let key = t.descent[k].key();
        walk::steps_have_children(before@, root, t.descent, k);
        let nodes = before@.children[key];
        assert forall|i: int| 0 <= i < nodes.len() implies after@.nodes[#[trigger] nodes[i]].percentage
            == before@.nodes[nodes[i]].percentage by {
            let c = before@.children[key][i];
            assert(before@.nodes.contains_key(c));
        }
        assert(walk::likelihoods(after@, nodes) =~= walk::likelihoods(before@, nodes));
    }
    if t.next.1 is Some {
        let key = (t.found.leaf, t.found.s1_index, t.found.s2_index);
        let n = t.descent.len() as int;
        assert(t.path()[n].key() == key);
        walk::steps_have_children(grown@, root, t.path(), n);
        let nodes = grown@.children[key];
        assert forall|i: int| 0 <= i < nodes.len() implies after@.nodes[#[trigger] nodes[i]].percentage
            == grown@.nodes[nodes[i]].percentage by {
            let c = grown@.children[key][i];
            assert(grown@.nodes.contains_key(c));
        }
        assert(walk::likelihoods(after@, nodes) =~= walk::likelihoods(grown@, nodes));
    }
}

/// Runs one iteration.
#[verifier::rlimit(60)]
pub fn do_mcts<B: Battle, A: Arithmetic>(
    tree: &mut SearchTree<B::Instruction>,
    root: u32,
    state: B,
    root_eval: Single,
    path: &mut Vec<PathStep>,
    rng: &mut SmallRng,
) -> (r: Result<B, SearchError>)
    requires
        old(tree).wf(),
        old(tree)@.nodes.contains_key(root),
        all_tally(old(tree)@),
        visited_at_most(old(tree)@, u32::MAX - 1),
    ensures
        final(tree).wf(),
        r matches Ok(end) ==> {
            &&& iterates::<B, A>(*old(tree), *final(tree), root, root_eval, state, end)
            &&& all_tally(final(tree)@)
            &&& keeps_choices(old(tree)@, final(tree)@)
            &&& final(tree)@.nodes[root].times_visited == old(tree)@.nodes[root].times_visited + 1
            &&& always_moves(old(tree)@.nodes[root]) ==> walk::total_visits(
                final(tree)@.nodes[root].options->0.s1,
            ) == walk::total_visits(old(tree)@.nodes[root].options->0.s1) + 1
            &&& forall|n: int| #[trigger]
                visited_at_most(old(tree)@, n) && 0 <= n ==> visited_at_most(final(tree)@, n + 1)
            &&& walk::undoes::<B>() && walk::generates_quietly::<B>() ==> end == state
        },
        // one draw from the generator decides each step that may lead to several nodes
        r is Ok ==> exists|rngs: Seq<SmallRng>| #[trigger]
            walk::is_record(rngs, final(path)@.len(), *old(rng), *final(rng)) && forall|k: int|
                0 <= k < final(path)@.len() ==> {
                    let nodes = final(tree)@.children[(#[trigger] final(path)@[k]).key()];
                    if nodes.len() == 1 {
                        rngs[k + 1] == rngs[k]
                    } else {
                        exists|draw: &mut SmallRng, i: int|
                            {
                                &&& *draw == rngs[k]
                                &&& *final(draw) == rngs[k + 1]
                                &&& #[trigger] walk::is_sampled::<A>(walk::likelihoods(final(tree)@, nodes), draw, i)
                                &&& nodes[i] == final(path)@[k].child
                            }
                    }
                },
        r matches Err(e) ==> fails_to_iterate::<B, A>(*old(tree), root, state, e),
{
    let ghost before = *tree;
    path.clear();
    let found = match selection::<B, A>(tree, root, state, path, rng) {
        Ok(found) => found,
        Err(e) => {
            return Err(e);
        },
    };
    let ghost turned = *rng;
    let ghost chosen = found;
    let ghost selected = *tree;
    let ghost descent = path@;
    proof {
        selection_is_quiet::<B, A>(before, selected, root, state, descent, chosen);
    }
    let leaf = found.leaf;
    let s1_index = found.s1_index;
    let s2_index = found.s2_index;
    if !can_choose(tree, leaf) {
        return Err(SearchError::NoOptions);
    }
    proof {
        selected.is_a_tree();
        let node = selected@.nodes[leaf];
        choice_is_there::<A>(node.options->0.s1, node.times_visited, s1_index);
        choice_is_there::<A>(node.options->0.s2, node.times_visited, s2_index);
    }
    let (next, expanded) = match expand::<B, A>(tree, found, path.len(), rng) {
        Ok(e) => e,
        Err(e) => {
            return Err(e);
        },
    };
    let ghost grown = *tree;
    let ghost reached = (next, expanded);
    proof {
        expansion_is_quiet::<B, A>(selected, grown, root, descent, chosen, reached);
    }
    let ghost came = next;
    let mut bottom = next;
    let mut target = leaf;
    if let Some(child) = expanded {
        proof {
            grown.is_a_tree();
            walk::paths_ascend(
                grown@,
                root,
                descent.push(PathStep { parent: leaf, child, s1_index, s2_index }),
            );
            let _ = descent.push(PathStep { parent: leaf, child, s1_index, s2_index })[descent.len() as int];
        }
        bottom = bottom.apply_instructions(tree.instructions(child));
        assert(engine::applies(came, grown@.nodes[child].instructions, bottom));
        path.push(PathStep { parent: leaf, child, s1_index, s2_index });
        target = child;
    }
    let ghost low = bottom;
    let score = rollout::<B, A>(&bottom, root_eval);
    let ghost t = Trace {
        descent,
        found: chosen,
        selected,
        next: reached,
        expanded: grown,
        bottom: low,
        score,
    };
    proof {
        grown.is_a_tree();
        walk::paths_ascend(grown@, root, path@);
        assert(visited_at_most(grown@, u32::MAX - 1)) by {
            assert forall|h: u32| #[trigger] grown@.nodes.contains_key(h) implies grown@.nodes[h].times_visited
                <= u32::MAX - 1 by {
                if selected@.nodes.contains_key(h) {
                    assert(before@.nodes.dom().contains(h));
                }
            }
        }
        tallies_leave_room(grown@);
        assert(root == start_of(path@, target));
    }
    let end = backpropagate::<B, A>(tree, path, target, score, bottom);
    proof {
        assert(t.path() =~= path@);
        assert(t.target() == target);
        assert(is_trace::<B, A>(before, *tree, root, root_eval, state, end, t));
        if walk::undoes::<B>() && walk::generates_quietly::<B>() {
            an_iteration_restores_the_state::<B, A>(before, *tree, root, root_eval, state, end);
        }
        a_trace_keeps_the_books::<B, A>(before, *tree, root, root_eval, state, end, t);
        a_trace_keeps_likelihoods::<B, A>(before, *tree, root, root_eval, state, end, t);
        let rngs = choose|rngs: Seq<SmallRng>| #[trigger]
            walk::is_record(rngs, descent.len(), *old(rng), turned) && forall|k: int|
                0 <= k < descent.len() ==> {
                    let nodes = before@.children[(#[trigger] descent[k]).key()];
                    if nodes.len() == 1 {
                        rngs[k + 1] == rngs[k]
                    } else {
                        exists|draw: &mut SmallRng, i: int|
                            {
                                &&& *draw == rngs[k]
                                &&& *final(draw) == rngs[k + 1]
                                &&& #[trigger] walk::is_sampled::<A>(walk::likelihoods(before@, nodes), draw, i)
                                &&& nodes[i] == descent[k].child
                            }
                    }
                };
        let drawn = if path@.len() == descent.len() {
            rngs
        } else {
            rngs.push(*rng)
        };
        assert forall|k: int| 0 <= k < path@.len() implies {
            let nodes = tree@.children[(#[trigger] path@[k]).key()];
            if nodes.len() == 1 {
                drawn[k + 1] == drawn[k]
            } else {
                exists|draw: &mut SmallRng, i: int|
                    {
                        &&& *draw == drawn[k]
                        &&& *final(draw) == drawn[k + 1]
                        &&& #[trigger] walk::is_sampled::<A>(walk::likelihoods(tree@, nodes), draw, i)
                        &&& nodes[i] == path@[k].child
                    }
            }
        } by {
            if k < descent.len() {
                assert(path@[k] == descent[k]);
            }
        }
        assert(walk::is_record(drawn, path@.len(), *old(rng), *rng));
    }
    Ok(end)
}

/// Where taking instructions back undoes them, and listing outcomes leaves the state alone, an
/// iteration ends in the state in which it started.
pub proof fn an_iteration_restores_the_state<B: Battle, A: Arithmetic>(
    before: SearchTree<B::Instruction>,
    after: SearchTree<B::Instruction>,
    root: u32,
    root_eval: Single,
    state: B,
    end: B,
)
    requires
        before.wf(),
        walk::undoes::<B>(),
        walk::generates_quietly::<B>(),
        iterates::<B, A>(before, after, root, root_eval, state, end),
    ensures
        end == state,
{
    let t = choose|t: Trace<B>| #[trigger]
        is_trace::<B, A>(before, after, root, root_eval, state, end, t);
    let down = choose|states: Seq<B>| #[trigger]
        walk::goes_down(before@, t.descent, states) && states[0] == state && states.last()
            == t.found.state;
    let back = choose|states: Seq<B>| #[trigger]
        walk::comes_back(t.expanded@, t.path(), states) && states.last() == t.bottom && states[0]
            == end;
    before.is_a_tree();
    walk::paths_ascend(before@, root, t.descent);
    assert(t.next.0 == t.found.state);
    assert forall|h: u32| #[trigger] before@.nodes.contains_key(h) implies t.expanded@.nodes[h].instructions
        == before@.nodes[h].instructions by {
        assert(t.selected@.nodes.contains_key(h));
    }
    assert forall|k: int| 0 <= k < t.descent.len() implies engine::applies(
        down[k],
        t.expanded@.nodes[(#[trigger] t.descent[k]).child].instructions,
        down[k + 1],
    ) by {
        assert(before@.nodes.contains_key(t.descent[k].child));
    }
    let all = match t.next.1 {
        Some(_) => down.push(t.bottom),
        None => down,
    };
    assert forall|k: int| 0 <= k < t.path().len() implies engine::applies(
        all[k],
        t.expanded@.nodes[(#[trigger] t.path()[k]).child].instructions,
        all[k + 1],
    ) by {
        if k < t.descent.len() {
            assert(t.path()[k] == t.descent[k]);
        }
    }
    assert(walk::goes_down(t.expanded@, t.path(), all));
    walk::the_way_back_restores(t.expanded@, t.path(), all, back);
}

/// One choice of a side has been visited once more, and the others as often as before.
pub open spec fn is_visited<S>(before: Seq<MoveNode<S>>, after: Seq<MoveNode<S>>, i: int) -> bool {
    &&& after.len() == before.len()
    &&& 0 <= i < before.len()
    &&& after[i].move_choice == before[i].move_choice
    &&& after[i].visits == before[i].visits + 1
    &&& forall|k: int| 0 <= k < before.len() && k != i ==> #[trigger] after[k] == before[k]
}

/// A path has left the node by this step: the node and a choice of either side have one visit more.
/// Only the last node that is left may have had no options before.
pub open spec fn is_passed<I>(
    before: NodeView<Single, (), I>,
    after: NodeView<Single, (), I>,
    step: PathStep,
    last: bool,
) -> bool {
    let (i, j) = (step.s1_index as int, step.s2_index as int);
    &&& after.times_visited == before.times_visited + 1
    &&& after.options is Some
    &&& before.options is Some ==> {
        &&& is_visited(before.options->0.s1, after.options->0.s1, i)
        &&& is_visited(before.options->0.s2, after.options->0.s2, j)
    }
    &&& before.options is None ==> {
        &&& last
        &&& walk::total_visits(after.options->0.s1) == 1
        &&& walk::total_visits(after.options->0.s2) == 1
        &&& after.options->0.s1[i].visits == 1
        &&& after.options->0.s2[j].visits == 1
    }
}

/// A node that gets options, if it has none, and is then credited, has been passed.
proof fn a_credit_passes<A: Arithmetic, I>(
    before: NodeView<Single, (), I>,
    ready: NodeView<Single, (), I>,
    after: NodeView<Single, (), I>,
    step: PathStep,
    last: bool,
    score: Single,
)
    requires
        tallies(ready),
        ready.has_pair(step.s1_index, step.s2_index),
        ready.times_visited < u32::MAX,
        ready.times_visited == before.times_visited,
        before.options is Some ==> ready.options == before.options,
        before.options is None ==> {
            &&& last
            &&& walk::total_visits(ready.options->0.s1) == 0
            &&& walk::total_visits(ready.options->0.s2) == 0
            &&& ready.options->0.s1[step.s1_index as int].total_score == (Single { bits: 0 })
            &&& ready.options->0.s2[step.s2_index as int].total_score == (Single { bits: 0 })
        },
        is_credited::<A, I>(ready, after, step, score),
    ensures
        is_passed(before, after, step, last),
        may_gain::<A, I>(before, after, step, score),
{
    let (i, j) = (step.s1_index as int, step.s2_index as int);
    let (s1, s2) = (ready.options->0.s1, ready.options->0.s2);
    let (t1, t2) = (after.options->0.s1, after.options->0.s2);
    walk::visits_add_up(s1, i);
    walk::visits_add_up(s2, j);
    walk::total_after_update(s1, i, t1[i]);
    walk::total_after_update(s2, j, t2[j]);
    assert(t1 =~= s1.update(i, t1[i]));
    assert(t2 =~= s2.update(j, t2[j]));
    assert(may_share::<A>(
        s1[i].total_score,
        s2[j].total_score,
        t1[i].total_score,
        t2[j].total_score,
        score,
    ));
}

/// An iteration goes down one path from the root and comes back: every node that the path leaves,
/// and the choice of either side by which it does, has one visit more; so has the node where the
/// path ends; no other node has been visited, and no other choice.
pub proof fn an_iteration_visits_one_path<B: Battle, A: Arithmetic>(
    before: SearchTree<B::Instruction>,
    after: SearchTree<B::Instruction>,
    root: u32,
    root_eval: Single,
    state: B,
    end: B,
)
    requires
        before.wf(),
        before@.nodes.contains_key(root),
        all_tally(before@),
        visited_at_most(before@, u32::MAX - 1),
        iterates::<B, A>(before, after, root, root_eval, state, end),
    ensures
        exists|path: Seq<PathStep>|
            {
                let leaf = walk::end_of(root, path);
                &&& #[trigger] walk::is_path(after@, root, path)
                &&& forall|k: int|
                    0 <= k < path.len() ==> {
                        let h = (#[trigger] path[k]).parent;
                        &&& before@.nodes.contains_key(h)
                        &&& is_passed(
                            before@.nodes[h],
                            after@.nodes[h],
                            path[k],
                            k == path.len() - 1,
                        )
                    }
                &&& if before@.nodes.contains_key(leaf) {
                    &&& after@.nodes[leaf].times_visited == before@.nodes[leaf].times_visited + 1
                    &&& before@.nodes[leaf].options is Some ==> after@.nodes[leaf].options
                        == before@.nodes[leaf].options
                } else {
                    after@.nodes[leaf].times_visited == 1 && after@.nodes[leaf].options is None
                }
                &&& forall|h: u32|
                    #![trigger before@.nodes.contains_key(h)]
                    before@.nodes.contains_key(h) && h != leaf && !is_left(path, 0, h)
                        ==> after@.nodes[h] == before@.nodes[h]
                &&& forall|h: u32|
                    #![trigger after@.nodes.contains_key(h)]
                    after@.nodes.contains_key(h) && !before@.nodes.contains_key(h) && h != leaf
                        ==> after@.nodes[h].times_visited == 0
            },
{
    let t = choose|t: Trace<B>| #[trigger]
        is_trace::<B, A>(before, after, root, root_eval, state, end, t);
    a_trace_visits_its_path::<B, A>(before, after, root, root_eval, state, end, t);
}

/// A trace visits its path, and credits its score there.
#[verifier::rlimit(60)]
proof fn a_trace_visits_its_path<B: Battle, A: Arithmetic>(
    before: SearchTree<B::Instruction>,
    after: SearchTree<B::Instruction>,
    root: u32,
    root_eval: Single,
    state: B,
    end: B,
    t: Trace<B>,
)
    requires
        before.wf(),
        before@.nodes.contains_key(root),
        all_tally(before@),
        visited_at_most(before@, u32::MAX - 1),
        is_trace::<B, A>(before, after, root, root_eval, state, end, t),
    ensures
        ({
            let path = t.path();
            let leaf = walk::end_of(root, path);
            &&& walk::is_path(after@, root, path)
            &&& leaf == t.target()
            &&& forall|k: int|
                0 <= k < path.len() ==> {
                    let h = (#[trigger] path[k]).parent;
                    &&& before@.nodes.contains_key(h)
                    &&& is_passed(before@.nodes[h], after@.nodes[h], path[k], k == path.len() - 1)
                    &&& may_gain::<A, B::Instruction>(
                        before@.nodes[h],
                        after@.nodes[h],
                        path[k],
                        t.score,
                    )
                }
            &&& if before@.nodes.contains_key(leaf) {
                &&& after@.nodes[leaf].times_visited == before@.nodes[leaf].times_visited + 1
                &&& before@.nodes[leaf].options is Some ==> after@.nodes[leaf].options
                    == before@.nodes[leaf].options
            } else {
                after@.nodes[leaf].times_visited == 1 && after@.nodes[leaf].options is None
            }
            &&& forall|h: u32|
                #![trigger before@.nodes.contains_key(h)]
                before@.nodes.contains_key(h) && h != leaf && !is_left(path, 0, h)
                    ==> after@.nodes[h] == before@.nodes[h]
            &&& forall|h: u32|
                #![trigger after@.nodes.contains_key(h)]
                after@.nodes.contains_key(h) && !before@.nodes.contains_key(h) && h != leaf
                    ==> after@.nodes[h].times_visited == 0
        }),
{
    let (selected, grown) = (t.selected, t.expanded);
    let found = t.found;
    let path = t.path();
    let leaf = t.target();
    selection_is_quiet::<B, A>(before, selected, root, state, t.descent, found);
    expansion_is_quiet::<B, A>(selected, grown, root, t.descent, found, t.next);
    before.is_a_tree();
    selected.is_a_tree();
    grown.is_a_tree();
    walk::paths_ascend(before@, root, t.descent);
    walk::paths_ascend(grown@, root, path);
    let options = choose|options: OptionsView<Single>| #[trigger]
        walk::offers(before@.nodes[found.leaf], found.state, Single { bits: 0 }, options)
            && is_offered(before, selected, found.leaf, options);
    assert(leaf == walk::end_of(root, path));
    assert forall|h: u32| #[trigger] before@.nodes.contains_key(h) implies {
        &&& grown@.nodes.contains_key(h)
        &&& grown@.nodes[h].times_visited == before@.nodes[h].times_visited
        &&& h != found.leaf || before@.nodes[h].options is Some ==> grown@.nodes[h] == before@.nodes[h]
    } by {
        assert(selected@.nodes.dom().contains(h));
        assert(selected@.nodes.contains_key(h));
    }
    assert(before@.nodes.dom().contains(root));
    assert(after@.nodes.dom().contains(root));
    walk::paths_stay(grown@, after@, root, path);
    assert forall|k: int| 0 <= k < path.len() implies {
        let h = (#[trigger] path[k]).parent;
        &&& before@.nodes.contains_key(h)
        &&& is_passed(before@.nodes[h], after@.nodes[h], path[k], k == path.len() - 1)
        &&& may_gain::<A, B::Instruction>(before@.nodes[h], after@.nodes[h], path[k], t.score)
    } by {
        let h = path[k].parent;
        if k < t.descent.len() {
            assert(path[k] == t.descent[k]);
        }
        assert(before@.nodes.contains_key(h));
        if before@.nodes[h].options is None {
            let (s1, s2) = choose|s1: Vec<MoveChoice>, s2: Vec<MoveChoice>|
                #[trigger] call_ensures(B::get_all_options, (&found.state,), (s1, s2)) && options
                    == OptionsView::fresh(s1@, s2@, Single { bits: 0 });
            walk::untried_is_unvisited(s1@, Single { bits: 0 });
            walk::untried_is_unvisited(s2@, Single { bits: 0 });
        }
        assert(tallies(grown@.nodes[h]));
        a_credit_passes::<A, B::Instruction>(
            before@.nodes[h],
            grown@.nodes[h],
            after@.nodes[h],
            path[k],
            k == path.len() - 1,
            t.score,
        );
    }
    if !before@.nodes.contains_key(leaf) {
        assert(!selected@.nodes.dom().contains(leaf));
        new_nodes_have_no_options::<B, A>(selected, grown, found, t.descent.len(), t.next, leaf);
    }
    assert forall|h: u32| #[trigger]
        before@.nodes.contains_key(h) && h != leaf && !is_left(path, 0, h) implies after@.nodes[h]
        == before@.nodes[h] by {
        assert(h != found.leaf) by {
            if h == found.leaf {
                assert(path[t.descent.len() as int].parent == h);
            }
        }
        assert(grown@.nodes.contains_key(h));
    }
    assert forall|h: u32| #[trigger]
        after@.nodes.contains_key(h) && !before@.nodes.contains_key(h) && h != leaf implies after@.nodes[h].times_visited
        == 0 by {
        assert(grown@.nodes.dom().contains(h));
        assert(grown@.nodes.contains_key(h));
        assert(!selected@.nodes.dom().contains(h));
        assert(!is_left(path, 0, h)) by {
            if is_left(path, 0, h) {
                let k = choose|k: int| 0 <= k < path.len() && (#[trigger] path[k]).parent == h;
                assert(before@.nodes.contains_key(path[k].parent));
            }
        }
    }
}

/// Side one has a score more in its total, and side two what is left of it to one.
pub open spec fn may_share<A: Arithmetic>(
    old_1: Single,
    old_2: Single,
    new_1: Single,
    new_2: Single,
    score: Single,
) -> bool {
    &&& call_ensures(A::plus, (old_1, score), new_1)
    &&& exists|raised: Single| #[trigger]
        call_ensures(A::plus, (old_2, Single { bits: ONE }), raised) && call_ensures(
            A::minus,
            (raised, score),
            new_2,
        )
}

/// A score has been added to the totals of the choices of a step, which start from zero where the
/// node had no options.
pub open spec fn may_gain<A: Arithmetic, I>(
    before: NodeView<Single, (), I>,
    after: NodeView<Single, (), I>,
    step: PathStep,
    score: Single,
) -> bool {
    let (i, j) = (step.s1_index as int, step.s2_index as int);
    let (new_1, new_2) = (
        after.options->0.s1[i].total_score,
        after.options->0.s2[j].total_score,
    );
    match before.options {
        Some(o) => may_share::<A>(o.s1[i].total_score, o.s2[j].total_score, new_1, new_2, score),
        None => may_share::<A>(Single { bits: 0 }, Single { bits: 0 }, new_1, new_2, score),
    }
}

/// Where listing outcomes leaves the state alone, the score that an iteration credits to the choices
/// on its path is that of the state at the end of the path: the one that the instructions of all
/// nodes on it, the last included, make of the state that the iteration started in.
#[verifier::rlimit(60)]
pub proof fn an_iteration_scores_the_end_of_its_path<B: Battle, A: Arithmetic>(
    before: SearchTree<B::Instruction>,
    after: SearchTree<B::Instruction>,
    root: u32,
    root_eval: Single,
    state: B,
    end: B,
)
    requires
        before.wf(),
        before@.nodes.contains_key(root),
        all_tally(before@),
        visited_at_most(before@, u32::MAX - 1),
        walk::generates_quietly::<B>(),
        iterates::<B, A>(before, after, root, root_eval, state, end),
    ensures
        exists|path: Seq<PathStep>, states: Seq<B>, score: Single|
            {
                &&& walk::is_path(after@, root, path)
                &&& states.len() == path.len() + 1
                &&& states[0] == state
                &&& forall|k: int|
                    0 <= k < path.len() ==> engine::applies(
                        states[k],
                        after@.nodes[(#[trigger] path[k]).child].instructions,
                        states[k + 1],
                    )
                &&& #[trigger] walk::may_be_worth::<B, A>(
                    states[path.len() as int],
                    root_eval,
                    score,
                )
                &&& forall|k: int|
                    0 <= k < path.len() ==> {
                        let h = (#[trigger] path[k]).parent;
                        &&& before@.nodes.contains_key(h)
                        &&& is_passed(
                            before@.nodes[h],
                            after@.nodes[h],
                            path[k],
                            k == path.len() - 1,
                        )
                        &&& may_gain::<A, B::Instruction>(
                            before@.nodes[h],
                            after@.nodes[h],
                            path[k],
                            score,
                        )
                    }
                &&& after@.nodes[walk::end_of(root, path)].times_visited == 1 + (
                if before@.nodes.contains_key(walk::end_of(root, path)) {
                    before@.nodes[walk::end_of(root, path)].times_visited as int
                } else {
                    0
                })
            },
{
    let t = choose|t: Trace<B>| #[trigger]
        is_trace::<B, A>(before, after, root, root_eval, state, end, t);
    let path = t.path();
    let found = t.found;
    a_trace_visits_its_path::<B, A>(before, after, root, root_eval, state, end, t);
    selection_is_quiet::<B, A>(before, t.selected, root, state, t.descent, found);
    expansion_is_quiet::<B, A>(t.selected, t.expanded, root, t.descent, found, t.next);
    before.is_a_tree();
    t.expanded.is_a_tree();
    walk::paths_ascend(before@, root, t.descent);
    walk::paths_ascend(t.expanded@, root, path);
    let down = choose|states: Seq<B>| #[trigger]
        walk::goes_down(before@, t.descent, states) && states[0] == state && states.last()
            == found.state;
    assert(t.next.0 == found.state);
    let states = match t.next.1 {
        Some(_) => down.push(t.bottom),
        None => down,
    };
    assert(states[path.len() as int] == t.bottom);
    assert forall|h: u32| #[trigger] t.expanded@.nodes.contains_key(h) implies after@.nodes[h].instructions
        == t.expanded@.nodes[h].instructions by {
        if h != t.target() && is_left(path, 0, h) {
            let k = choose|k: int| 0 <= k < path.len() && (#[trigger] path[k]).parent == h;
            assert(is_credited::<A, B::Instruction>(
                t.expanded@.nodes[h],
                after@.nodes[h],
                path[k],
                t.score,
            ));
        }
    }
    assert forall|k: int| 0 <= k < path.len() implies engine::applies(
        states[k],
        after@.nodes[(#[trigger] path[k]).child].instructions,
        states[k + 1],
    ) by {
        let child = path[k].child;
        if k < t.descent.len() {
            assert(path[k] == t.descent[k]);
            assert(before@.nodes.contains_key(child));
            assert(t.selected@.nodes.dom().contains(child));
            assert(t.selected@.nodes.contains_key(child));
        }
    }
    assert(walk::may_be_worth::<B, A>(states[path.len() as int], root_eval, t.score));
}

/// What a trace leaves as it was: the likelihoods and instructions of nodes, the moves of choices,
/// and children.
proof fn trace_keeps_what_is_there<B: Battle, A: Arithmetic>(
    before: SearchTree<B::Instruction>,
    after: SearchTree<B::Instruction>,
    root: u32,
    root_eval: Single,
    state: B,
    end: B,
    t: Trace<B>,
)
    requires
        before.wf(),
        all_tally(before@),
        is_trace::<B, A>(before, after, root, root_eval, state, end, t),
    ensures
        after@.children == t.expanded@.children,
        forall|h: u32| #[trigger]
            t.expanded@.nodes.contains_key(h) ==> {
                &&& after@.nodes[h].percentage == t.expanded@.nodes[h].percentage
                &&& after@.nodes[h].instructions == t.expanded@.nodes[h].instructions
            },
        forall|h: u32| #[trigger]
            before@.nodes.contains_key(h) ==> after@.nodes[h].instructions
                == before@.nodes[h].instructions,
        t.selected@.nodes[t.found.leaf].options is Some ==> {
            let (o, p) = (
                t.selected@.nodes[t.found.leaf].options->0,
                after@.nodes[t.found.leaf].options->0,
            );
            &&& p.s1[t.found.s1_index as int].move_choice
                == o.s1[t.found.s1_index as int].move_choice
            &&& p.s2[t.found.s2_index as int].move_choice
                == o.s2[t.found.s2_index as int].move_choice
        },
{
    let (selected, grown) = (t.selected, t.expanded);
    let path = t.path();
    selection_is_quiet::<B, A>(before, selected, root, state, t.descent, t.found);
    expansion_is_quiet::<B, A>(selected, grown, root, t.descent, t.found, t.next);
    before.is_a_tree();
    grown.is_a_tree();
    walk::paths_ascend(before@, root, t.descent);
    walk::paths_ascend(grown@, root, path);
    assert forall|h: u32| #[trigger] grown@.nodes.contains_key(h) implies {
        &&& after@.nodes[h].percentage == grown@.nodes[h].percentage
        &&& after@.nodes[h].instructions == grown@.nodes[h].instructions
    } by {
        if h != t.target() && is_left(path, 0, h) {
            let k = choose|k: int| 0 <= k < path.len() && (#[trigger] path[k]).parent == h;
            assert(is_credited::<A, B::Instruction>(
                grown@.nodes[h],
                after@.nodes[h],
                path[k],
                t.score,
            ));
        }
    }
    assert forall|h: u32| #[trigger] before@.nodes.contains_key(h) implies after@.nodes[h].instructions
        == before@.nodes[h].instructions by {
        assert(selected@.nodes.dom().contains(h));
        assert(selected@.nodes.contains_key(h));
        assert(grown@.nodes.contains_key(h));
    }
    let leaf = t.found.leaf;
    assert(selected@.nodes.dom().contains(leaf));
    assert(grown@.nodes[leaf] == selected@.nodes[leaf]);
    if leaf != t.target() && is_left(path, 0, leaf) {
        let k = choose|k: int| 0 <= k < path.len() && (#[trigger] path[k]).parent == leaf;
        assert(is_credited::<A, B::Instruction>(
            grown@.nodes[leaf],
            after@.nodes[leaf],
            path[k],
            t.score,
        ));
    }
}

/// The children that are filed for the last step of a path are what the engine lists for it in state
/// `at`, which the instructions along the path lead to.
pub open spec fn is_expanded<B: Battle, S, V>(
    tree: TreeView<S, V, B::Instruction>,
    path: Seq<PathStep>,
    states: Seq<B>,
    at: B,
    s1_move: MoveChoice,
    s2_move: MoveChoice,
    by_damage: bool,
    next: B,
    generated: Vec<StateInstructions<B::Instruction>>,
    ordered: Seq<StateInstructions<B::Instruction>>,
) -> bool {
    let last = path[path.len() - 1];
    let o = tree.nodes[last.parent].options->0;
    let nodes = tree.children[(last.parent, last.s1_index, last.s2_index)];
    &&& 0 < path.len() == states.len()
    &&& states[path.len() - 1] == at
    &&& forall|k: int|
        0 <= k < path.len() - 1 ==> engine::applies(
            states[k],
            tree.nodes[(#[trigger] path[k]).child].instructions,
            states[k + 1],
        )
    &&& s1_move == o.s1[last.s1_index as int].move_choice
    &&& s2_move == o.s2[last.s2_index as int].move_choice
    &&& by_damage <==> path.len() <= 2
    &&& call_ensures(
        B::generate_instructions_from_move_pair,
        (at, s1_move, s2_move, by_damage),
        (next, generated),
    )
    &&& ordered.to_multiset() == generated@.to_multiset()
    &&& nodes.len() == ordered.len() == generated@.len()
    &&& forall|i: int|
        0 <= i < nodes.len() ==> {
            &&& tree.nodes[#[trigger] nodes[i]].percentage == ordered[i].percentage
            &&& tree.nodes[nodes[i]].instructions == ordered[i].instruction_list@
        }
}

/// Where an iteration adds nodes, it does so for the choices of the last step of its path, in the state in
/// which that step is taken, and the engine tells outcomes apart by damage just where the path has
/// no more than two steps. The battle goes on in that state, or the step is the first, and not both
/// sides wait. Each outcome that the engine lists has become a child, with its likelihood and its
/// instructions.
#[verifier::rlimit(60)]
pub proof fn an_iteration_expands_at_its_depth<B: Battle, A: Arithmetic>(
    before: SearchTree<B::Instruction>,
    after: SearchTree<B::Instruction>,
    root: u32,
    root_eval: Single,
    state: B,
    end: B,
)
    requires
        before.wf(),
        before@.nodes.contains_key(root),
        all_tally(before@),
        visited_at_most(before@, u32::MAX - 1),
        iterates::<B, A>(before, after, root, root_eval, state, end),
    ensures
        exists|path: Seq<PathStep>|
            {
                &&& #[trigger] walk::is_path(after@, root, path)
                &&& forall|k: int|
                    0 <= k < path.len() ==> {
                        let h = (#[trigger] path[k]).parent;
                        &&& before@.nodes.contains_key(h)
                        &&& after@.nodes[h].times_visited == before@.nodes[h].times_visited + 1
                    }
                &&& !before@.nodes.contains_key(walk::end_of(root, path)) ==> exists|
                    states: Seq<B>,
                    at: B,
                    s1_move: MoveChoice,
                    s2_move: MoveChoice,
                    by_damage: bool,
                    next: B,
                    generated: Vec<StateInstructions<B::Instruction>>,
                    ordered: Seq<StateInstructions<B::Instruction>>,
                |
                    {
                        &&& #[trigger] is_expanded::<B, Single, ()>(
                            after@,
                            path,
                            states,
                            at,
                            s1_move,
                            s2_move,
                            by_damage,
                            next,
                            generated,
                            ordered,
                        )
                        &&& states[0] == state
                        &&& s1_move != MoveChoice::NoMove || s2_move != MoveChoice::NoMove
                        &&& exists|over: Single| #[trigger]
                            call_ensures(B::battle_is_over, (&at,), over) && (over.is_equal(
                            Single { bits: 0 },
                        ) || path.len() == 1)
                    }
            },
{
    let t = choose|t: Trace<B>| #[trigger]
        is_trace::<B, A>(before, after, root, root_eval, state, end, t);
    let path = t.path();
    let found = t.found;
    let n = t.descent.len() as int;
    a_trace_visits_its_path::<B, A>(before, after, root, root_eval, state, end, t);
    selection_is_quiet::<B, A>(before, t.selected, root, state, t.descent, found);
    expansion_is_quiet::<B, A>(t.selected, t.expanded, root, t.descent, found, t.next);
    before.is_a_tree();
    t.expanded.is_a_tree();
    walk::paths_ascend(before@, root, t.descent);
    walk::paths_ascend(t.expanded@, root, path);
    trace_keeps_what_is_there::<B, A>(before, after, root, root_eval, state, end, t);
    if !before@.nodes.contains_key(t.target()) {
        let child = t.next.1->0;
        assert(t.next.1 is Some);
        let selected = t.selected;
        let grown = t.expanded;
        let descent = t.descent;
        let down = choose|states: Seq<B>| #[trigger]
            walk::goes_down(before@, descent, states) && states[0] == state && states.last()
                == found.state;
        let o = selected@.nodes[found.leaf].options->0;
        let s1_move = o.s1[found.s1_index as int].move_choice;
        let s2_move = o.s2[found.s2_index as int].move_choice;
        let by_damage = descent.len() < 2;
        let next = t.next.0;
        every_outcome_becomes_a_child::<B, A>(
            selected,
            grown,
            found,
            descent.len(),
            s1_move,
            s2_move,
            by_damage,
            next,
            child,
        );
        let key = (found.leaf, found.s1_index, found.s2_index);
        let (generated, ordered) = choose|
            generated: Vec<StateInstructions<B::Instruction>>,
            ordered: Seq<StateInstructions<B::Instruction>>,
        |
            {
                let nodes = grown@.children[key];
                &&& #[trigger] call_ensures(
                    B::generate_instructions_from_move_pair,
                    (found.state, s1_move, s2_move, by_damage),
                    (next, generated),
                )
                &&& #[trigger] ordered.to_multiset() == generated@.to_multiset()
                &&& nodes.len() == ordered.len() == generated@.len()
                &&& forall|i: int|
                    0 <= i < nodes.len() ==> {
                        &&& grown@.nodes.contains_key(#[trigger] nodes[i])
                        &&& grown@.nodes[nodes[i]].percentage == ordered[i].percentage
                        &&& grown@.nodes[nodes[i]].instructions == ordered[i].instruction_list@
                    }
            };
        let last = path[path.len() - 1];
        assert(last.key() == key);
        assert forall|k: int| 0 <= k < path.len() - 1 implies engine::applies(
            down[k],
            after@.nodes[(#[trigger] path[k]).child].instructions,
            down[k + 1],
        ) by {
            assert(path[k] == descent[k]);
            assert(before@.nodes.contains_key(path[k].child));
        }
        assert(is_expanded::<B, Single, ()>(
            after@,
            path,
            down,
            found.state,
            s1_move,
            s2_move,
            by_damage,
            next,
            generated,
            ordered,
        ));
    }
}

/// Tree and state number `k + 1` are what an iteration makes of those before.
pub open spec fn is_turn<B: Battle, A: Arithmetic>(
    trees: Seq<SearchTree<B::Instruction>>,
    states: Seq<B>,
    root: u32,
    root_eval: Single,
    k: int,
) -> bool {
    trees[k].wf() && iterates::<B, A>(
        trees[k],
        trees[k + 1],
        root,
        root_eval,
        states[k],
        states[k + 1],
    )
}

/// Each tree and state is what an iteration makes of the one before.
pub open spec fn is_run<B: Battle, A: Arithmetic>(
    trees: Seq<SearchTree<B::Instruction>>,
    states: Seq<B>,
    root: u32,
    root_eval: Single,
) -> bool {
    &&& trees.len() == states.len()
    &&& forall|k: int|
        0 <= k < trees.len() - 1 ==> #[trigger] is_turn::<B, A>(trees, states, root, root_eval, k)
}

/// `n` iterations may lead from one tree and state to another.
pub open spec fn searches<B: Battle, A: Arithmetic>(
    n: nat,
    before: SearchTree<B::Instruction>,
    after: SearchTree<B::Instruction>,
    root: u32,
    root_eval: Single,
    state: B,
    end: B,
) -> bool {
    exists|trees: Seq<SearchTree<B::Instruction>>, states: Seq<B>|
        {
            &&& #[trigger] is_run::<B, A>(trees, states, root, root_eval)
            &&& trees.len() == n + 1
            &&& trees[0] == before
            &&& trees[n as int] == after
            &&& states[0] == state
            &&& states[n as int] == end
        }
}

/// One more iteration makes a longer search.
proof fn search_goes_on<B: Battle, A: Arithmetic>(
    n: nat,
    before: SearchTree<B::Instruction>,
    middle: SearchTree<B::Instruction>,
    after: SearchTree<B::Instruction>,
    root: u32,
    root_eval: Single,
    state: B,
    at: B,
    end: B,
)
    requires
        searches::<B, A>(n, before, middle, root, root_eval, state, at),
        middle.wf(),
        iterates::<B, A>(middle, after, root, root_eval, at, end),
    ensures
        searches::<B, A>(n + 1, before, after, root, root_eval, state, end),
{
    let (trees, states) = choose|trees: Seq<SearchTree<B::Instruction>>, states: Seq<B>|
        {
            &&& #[trigger] is_run::<B, A>(trees, states, root, root_eval)
            &&& trees.len() == n + 1
            &&& trees[0] == before
            &&& trees[n as int] == middle
            &&& states[0] == state
            &&& states[n as int] == at
        };
    let (more, further) = (trees.push(after), states.push(end));
    assert forall|k: int| 0 <= k < more.len() - 1 implies #[trigger] is_turn::<B, A>(
        more,
        further,
        root,
        root_eval,
        k,
    ) by {
        if k < n {
            assert(is_turn::<B, A>(trees, states, root, root_eval, k));
        }
    }
    assert(is_run::<B, A>(more, further, root, root_eval));
}

/// Two searches, one after the other, make a longer one.
proof fn searches_add_up<B: Battle, A: Arithmetic>(
    n: nat,
    m: nat,
    before: SearchTree<B::Instruction>,
    middle: SearchTree<B::Instruction>,
    after: SearchTree<B::Instruction>,
    root: u32,
    root_eval: Single,
    state: B,
    at: B,
    end: B,
)
    requires
        searches::<B, A>(n, before, middle, root, root_eval, state, at),
        searches::<B, A>(m, middle, after, root, root_eval, at, end),
    ensures
        searches::<B, A>(n + m, before, after, root, root_eval, state, end),
{
    let (t1, s1) = choose|trees: Seq<SearchTree<B::Instruction>>, states: Seq<B>|
        {
            &&& #[trigger] is_run::<B, A>(trees, states, root, root_eval)
            &&& trees.len() == n + 1
            &&& trees[0] == before
            &&& trees[n as int] == middle
            &&& states[0] == state
            &&& states[n as int] == at
        };
    let (t2, s2) = choose|trees: Seq<SearchTree<B::Instruction>>, states: Seq<B>|
        {
            &&& #[trigger] is_run::<B, A>(trees, states, root, root_eval)
            &&& trees.len() == m + 1
            &&& trees[0] == middle
            &&& trees[m as int] == after
            &&& states[0] == at
            &&& states[m as int] == end
        };
    let (trees, states) = (t1.drop_last() + t2, s1.drop_last() + s2);
    assert forall|k: int| 0 <= k < trees.len() - 1 implies #[trigger] is_turn::<B, A>(
        trees,
        states,
        root,
        root_eval,
        k,
    ) by {
        if k < n {
            assert(is_turn::<B, A>(t1, s1, root, root_eval, k));
        } else {
            assert(is_turn::<B, A>(t2, s2, root, root_eval, k - n));
        }
    }
    assert(is_run::<B, A>(trees, states, root, root_eval));
}

/// Where taking instructions back undoes them, and listing outcomes leaves the state alone, a
/// search ends in the state in which it started.
pub proof fn a_search_restores_the_state<B: Battle, A: Arithmetic>(
    n: nat,
    before: SearchTree<B::Instruction>,
    after: SearchTree<B::Instruction>,
    root: u32,
    root_eval: Single,
    state: B,
    end: B,
)
    requires
        walk::undoes::<B>(),
        walk::generates_quietly::<B>(),
        searches::<B, A>(n, before, after, root, root_eval, state, end),
    ensures
        end == state,
{
    let (trees, states) = choose|trees: Seq<SearchTree<B::Instruction>>, states: Seq<B>|
        {
            &&& #[trigger] is_run::<B, A>(trees, states, root, root_eval)
            &&& trees.len() == n + 1
            &&& trees[0] == before
            &&& trees[n as int] == after
            &&& states[0] == state
            &&& states[n as int] == end
        };
    a_run_restores_the_state::<B, A>(trees, states, root, root_eval, n as int);
}

/// Each state of a run is the first one.
proof fn a_run_restores_the_state<B: Battle, A: Arithmetic>(
    trees: Seq<SearchTree<B::Instruction>>,
    states: Seq<B>,
    root: u32,
    root_eval: Single,
    k: int,
)
    requires
        walk::undoes::<B>(),
        walk::generates_quietly::<B>(),
        is_run::<B, A>(trees, states, root, root_eval),
        0 <= k < states.len(),
    ensures
        states[k] == states[0],
    decreases k,
{
    if k > 0 {
        a_run_restores_the_state::<B, A>(trees, states, root, root_eval, k - 1);
        assert(is_turn::<B, A>(trees, states, root, root_eval, k - 1));
        an_iteration_restores_the_state::<B, A>(
            trees[k - 1],
            trees[k],
            root,
            root_eval,
            states[k - 1],
            states[k],
        );
    }
}

/// What is reported of the choices of one side.
pub open spec fn reports(side: Seq<MoveNode<Single>>, result: Seq<MctsSideResult>) -> bool {
    &&& result.len() == side.len()
    &&& forall|i: int|
        0 <= i < side.len() ==> #[trigger] result[i] == (MctsSideResult {
            move_choice: side[i].move_choice,
            total_score: side[i].total_score,
            visits: side[i].visits,
        })
}

/// Reports on the choices of one side.
fn side_results(side: &[MoveNode<Single>]) -> (r: Vec<MctsSideResult>)
    ensures
        reports(side@, r@),
        r@.len() == side@.len(),
        forall|i: int|
            0 <= i < side@.len() ==> {
                &&& (#[trigger] r@[i]).move_choice == side@[i].move_choice
                &&& r@[i].total_score == side@[i].total_score
                &&& r@[i].visits == side@[i].visits
            },
{
    let mut r: Vec<MctsSideResult> = Vec::new();
    let mut i: usize = 0;
    while i < side.len()
        invariant
            i <= side@.len(),
            r@.len() == i,
            forall|k: int|
                0 <= k < i ==> #[trigger] r@[k] == (MctsSideResult {
                    move_choice: side@[k].move_choice,
                    total_score: side@[k].total_score,
                    visits: side@[k].visits,
                }),
        decreases side@.len() - i,
    {
        r.push(
            MctsSideResult {
                move_choice: side[i].move_choice,
                total_score: side[i].total_score,
                visits: side[i].visits,
            },
        );
        i = i + 1;
    }
    r
}

/// What a search has come to.
pub struct Searched<B> {
    pub state: B,
    pub result: MctsResult,
    pub root: u32,
}

/// The root of a search.
pub open spec fn planted<I>(
    side_one_options: Seq<MoveChoice>,
    side_two_options: Seq<MoveChoice>,
) -> NodeView<Single, (), I> {
    tree::reached::<Single, (), I>(
        Single { bits: HUNDRED },
        Seq::<I>::empty(),
        (),
    ).with_options(
        OptionsView::fresh(side_one_options, side_two_options, Single { bits: 0 }),
    )
}

/// There is room for a root with so many options.
pub open spec fn can_plant<I>(memory: MemoryView, count: nat) -> bool {
    let rooted = memory.after_list::<I>(0).after_nodes::<Node<Single, (), I>>(1);
    &&& memory.has_list::<I>(0)
    &&& memory.after_list::<I>(0).has_nodes::<Node<Single, (), I>>(1)
    &&& rooted.has_block::<MoveNode<Single>>(count)
}

/// The memory once a root with so many options is stored.
pub open spec fn after_planting<I>(memory: MemoryView, count: nat) -> MemoryView {
    memory.after_list::<I>(0).after_nodes::<Node<Single, (), I>>(1).after_block::<MoveNode<Single>>(
        count,
    )
}

/// What is reported of a root.
pub open spec fn reports_on<I>(root: NodeView<Single, (), I>, result: MctsResult) -> bool {
    &&& root.options is Some
    &&& reports(root.options->0.s1, result.s1@)
    &&& reports(root.options->0.s2, result.s2@)
    &&& result.iteration_count == root.times_visited
}

/// Adds a root to a tree.
fn plant<I>(
    tree: &mut SearchTree<I>,
    side_one_options: &[MoveChoice],
    side_two_options: &[MoveChoice],
) -> (r: Result<u32, SearchError>)
    requires
        old(tree).wf(),
        side_one_options@.len() <= 255,
        side_two_options@.len() <= 255,
    ensures
        final(tree).wf(),
        r is Ok <==> can_plant::<I>(
            old(tree).memory(),
            side_one_options@.len() + side_two_options@.len(),
        ),
        r matches Err(e) ==> e == SearchError::ArenaFull,
        r matches Ok(root) ==> is_start(
            *old(tree),
            *final(tree),
            root,
            side_one_options@,
            side_two_options@,
        ),
{
    let ghost before = *tree;
    let list: Vec<I> = Vec::new();
    assert(list@ =~= Seq::<I>::empty());
    let root = match tree.add_root(Single { bits: HUNDRED }, list, ()) {
        Ok(root) => root,
        Err(e) => {
            return Err(e);
        },
    };
    match tree.set_options(root, side_one_options, side_two_options, Single { bits: 0 }) {
        Ok(_) => {},
        Err(e) => {
            return Err(e);
        },
    }
    proof {
        assert(tree@.nodes =~= before@.with_node(
            root,
            planted::<I>(side_one_options@, side_two_options@),
        ).nodes);
    }
    Ok(root)
}

/// One of the next iterations of a batch may fail.
pub open spec fn fails_in_batch<B: Battle, A: Arithmetic>(
    start: SearchTree<B::Instruction>,
    root: u32,
    root_eval: Single,
    state: B,
    e: SearchError,
) -> bool {
    exists|n: nat, middle: SearchTree<B::Instruction>, at: B| #[trigger]
        fails_after::<B, A>(n, start, middle, root, root_eval, state, at, e) && n
            < MCTS_DEADLINE_CHECK_INTERVAL
}

/// Runs a batch of iterations if `elapsed` nanoseconds leave time for it, and says whether the
/// search goes on: it does not where the time is up, and where the root has been visited as often
/// as a search may visit it.
pub fn run_batch<B: Battle, A: Arithmetic>(
    tree: &mut SearchTree<B::Instruction>,
    root: u32,
    state: B,
    root_eval: Single,
    path: &mut Vec<PathStep>,
    rng: &mut SmallRng,
    elapsed: u128,
    max_nanos: u128,
) -> (r: Result<(B, bool), SearchError>)
    requires
        old(tree).wf(),
        old(tree)@.nodes.contains_key(root),
        all_tally(old(tree)@),
        visited_at_most(old(tree)@, u32::MAX - MCTS_DEADLINE_CHECK_INTERVAL),
    ensures
        final(tree).wf(),
        elapsed >= max_nanos ==> r == Ok::<(B, bool), SearchError>((state, false)) && *final(tree)
            == *old(tree) && *final(rng) == *old(rng),
        elapsed < max_nanos ==> (r matches Ok(end) ==> {
            &&& searches::<B, A>(
                MCTS_DEADLINE_CHECK_INTERVAL as nat,
                *old(tree),
                *final(tree),
                root,
                root_eval,
                state,
                end.0,
            )
            &&& end.1 <==> old(tree)@.nodes[root].times_visited + MCTS_DEADLINE_CHECK_INTERVAL
                != MCTS_MAX_ITERATIONS
            &&& final(tree)@.nodes[root].times_visited == old(tree)@.nodes[root].times_visited
                + MCTS_DEADLINE_CHECK_INTERVAL
            &&& all_tally(final(tree)@)
            &&& keeps_choices(old(tree)@, final(tree)@)
            &&& always_moves(old(tree)@.nodes[root]) ==> walk::total_visits(
                final(tree)@.nodes[root].options->0.s1,
            ) == walk::total_visits(old(tree)@.nodes[root].options->0.s1)
                + MCTS_DEADLINE_CHECK_INTERVAL
            &&& forall|n: int| #[trigger]
                visited_at_most(old(tree)@, n) && 0 <= n ==> visited_at_most(
                    final(tree)@,
                    n + MCTS_DEADLINE_CHECK_INTERVAL,
                )
        }),
        r matches Err(e) ==> elapsed < max_nanos && fails_in_batch::<B, A>(
            *old(tree),
            root,
            root_eval,
            state,
            e,
        ),
{
    if elapsed >= max_nanos {
        return Ok((state, false));
    }
    let ghost start = *tree;
    let ghost given = state;
    let mut at = state;
    let mut i: u32 = 0;
    proof {
        assert(is_run::<B, A>(seq![start], seq![given], root, root_eval));
        assert(searches::<B, A>(0, start, *tree, root, root_eval, given, at));
    }
    while i < MCTS_DEADLINE_CHECK_INTERVAL
        invariant
            given == state,
            start == *old(tree),
            start@.nodes.contains_key(root),
            elapsed < max_nanos,
            tree.wf(),
            all_tally(tree@),
            visited_at_most(tree@, u32::MAX - MCTS_DEADLINE_CHECK_INTERVAL + i),
            forall|n: int| #[trigger]
                visited_at_most(start@, n) && 0 <= n ==> visited_at_most(tree@, n + i),
            keeps_choices(start@, tree@),
            tree@.nodes.contains_key(root),
            i <= MCTS_DEADLINE_CHECK_INTERVAL,
            tree@.nodes[root].times_visited == start@.nodes[root].times_visited + i,
            always_moves(start@.nodes[root]) ==> walk::total_visits(
                tree@.nodes[root].options->0.s1,
            ) == walk::total_visits(start@.nodes[root].options->0.s1) + i,
            searches::<B, A>(i as nat, start, *tree, root, root_eval, given, at),
        decreases MCTS_DEADLINE_CHECK_INTERVAL - i,
    {
        let ghost middle = *tree;
        let ghost was = at;
        proof {
            assert(start@.nodes.contains_key(root));
            assert(always_moves(start@.nodes[root]) ==> always_moves(tree@.nodes[root]));
        }
        match do_mcts::<B, A>(tree, root, at, root_eval, path, rng) {
            Ok(end) => {
                at = end;
                proof {
                    search_goes_on::<B, A>(
                        i as nat,
                        start,
                        middle,
                        *tree,
                        root,
                        root_eval,
                        given,
                        was,
                        at,
                    );
                }
            },
            Err(e) => {
                proof {
                    assert(fails_after::<B, A>(
                        i as nat,
                        start,
                        middle,
                        root,
                        root_eval,
                        given,
                        was,
                        e,
                    ));
                }
                return Err(e);
            },
        }
        i = i + 1;
    }
    let more = tree.node(root).times_visited != MCTS_MAX_ITERATIONS;
    Ok((at, more))
}

/// A search keeps to the clock: each batch starts after a reading that leaves time for it, and after
/// the last batch the time is up, unless the search has run as long as it may.
pub open spec fn keeps_time(
    start: Instant,
    readings: Seq<u128>,
    max_nanos: u128,
    batches: int,
) -> bool {
    &&& forall|i: int| 0 <= i < readings.len() ==> clock::is_reading(start, #[trigger] readings[i])
    &&& forall|i: int| 0 <= i < batches ==> #[trigger] readings[i] < max_nanos
    &&& if batches * MCTS_DEADLINE_CHECK_INTERVAL == MCTS_MAX_ITERATIONS {
        readings.len() == batches
    } else {
        readings.len() == batches + 1 && readings.last() >= max_nanos
    }
}

/// A search of so many iterations may have kept to the clock.
pub open spec fn is_timed(iteration_count: u32, max_nanos: u128) -> bool {
    exists|start: Instant, readings: Seq<u128>| #[trigger]
        keeps_time(
            start,
            readings,
            max_nanos,
            iteration_count as int / MCTS_DEADLINE_CHECK_INTERVAL as int,
        )
}

/// A search that has run fewer iterations than it may stops because its time is up, and one that has
/// run any had time left before the last thousand of them.
pub proof fn searches_keep_to_the_clock(iteration_count: u32, max_nanos: u128)
    requires
        is_timed(iteration_count, max_nanos),
    ensures
        iteration_count < 10_000_000 ==> exists|start: Instant, nanos: u128| #[trigger]
            clock::is_reading(start, nanos) && nanos >= max_nanos,
        1_000 <= iteration_count ==> exists|start: Instant, nanos: u128| #[trigger]
            clock::is_reading(start, nanos) && nanos < max_nanos,
        max_nanos == 0 ==> iteration_count < 1_000,
{
    let batches = iteration_count as int / 1_000;
    let (start, readings) = choose|start: Instant, readings: Seq<u128>| #[trigger]
        keeps_time(start, readings, max_nanos, batches);
    if iteration_count < 10_000_000 {
        assert(clock::is_reading(start, readings[batches]));
        assert(readings[batches] >= max_nanos);
    }
    if 1_000 <= iteration_count {
        assert(clock::is_reading(start, readings[batches - 1]));
        assert(readings[batches - 1] < max_nanos);
    }
}

/// Searches from a new root, for as long as the clock allows.
pub fn perform_mcts_inner<B: Battle, A: Arithmetic>(
    tree: &mut SearchTree<B::Instruction>,
    state: B,
    side_one_options: &[MoveChoice],
    side_two_options: &[MoveChoice],
    max_nanos: u128,
) -> (r: Result<Searched<B>, SearchError>)
    requires
        old(tree).wf(),
        all_tally(old(tree)@),
        visited_at_most(old(tree)@, u32::MAX - MCTS_MAX_ITERATIONS - 1),
        side_one_options@.len() <= 255,
        side_two_options@.len() <= 255,
    ensures
        final(tree).wf(),
        r matches Ok(s) ==> {
            &&& forall|h: u32| #[trigger] old(tree)@.nodes.contains_key(h) ==> h < s.root
            &&& final(tree)@.nodes.contains_key(s.root)
            &&& reports_on(final(tree)@.nodes[s.root], s.result)
        },
        r matches Ok(s) ==> {
            let o = final(tree)@.nodes[s.root].options->0;
            &&& s.result.s1@.len() == o.s1.len()
            &&& s.result.s2@.len() == o.s2.len()
            &&& forall|i: int|
                0 <= i < o.s1.len() ==> {
                    &&& (#[trigger] s.result.s1@[i]).move_choice == o.s1[i].move_choice
                    &&& s.result.s1@[i].total_score == o.s1[i].total_score
                    &&& s.result.s1@[i].visits == o.s1[i].visits
                }
            &&& forall|i: int|
                0 <= i < o.s2.len() ==> {
                    &&& (#[trigger] s.result.s2@[i]).move_choice == o.s2[i].move_choice
                    &&& s.result.s2@[i].total_score == o.s2[i].total_score
                    &&& s.result.s2@[i].visits == o.s2[i].visits
                }
        },
        r matches Ok(s) ==> {
            &&& choices_of(final(tree)@.nodes[s.root].options->0.s1) == side_one_options@
            &&& choices_of(final(tree)@.nodes[s.root].options->0.s2) == side_two_options@
        },
        r matches Ok(s) ==> {
            &&& s.result.iteration_count <= MCTS_MAX_ITERATIONS
            &&& s.result.iteration_count % MCTS_DEADLINE_CHECK_INTERVAL == 0
            &&& is_timed(s.result.iteration_count, max_nanos)
            &&& max_nanos == 0 ==> s.result.iteration_count == 0
        },
        r matches Ok(s) ==> (never_waits(side_one_options@) || never_waits(side_two_options@)
            ==> walk::total_visits(final(tree)@.nodes[s.root].options->0.s1)
            == s.result.iteration_count),
        r matches Ok(s) ==> {
            &&& all_tally(final(tree)@)
            &&& forall|n: int| #[trigger]
                visited_at_most(old(tree)@, n) && 0 <= n ==> visited_at_most(
                    final(tree)@,
                    n + s.result.iteration_count,
                )
        },
        r matches Ok(s) ==> is_searched::<B, A>(
            *old(tree),
            *final(tree),
            state,
            side_one_options@,
            side_two_options@,
            s,
        ),
        r matches Err(e) ==> {
            ||| e == SearchError::ArenaFull && !can_plant::<B::Instruction>(
                old(tree).memory(),
                side_one_options@.len() + side_two_options@.len(),
            )
            ||| 0 < max_nanos && fails_to_search::<B, A>(
                *old(tree),
                state,
                side_one_options@,
                side_two_options@,
                e,
            )
        },
        max_nanos == 0 ==> (r is Ok <==> can_plant::<B::Instruction>(
            old(tree).memory(),
            side_one_options@.len() + side_two_options@.len(),
        )),
        !can_plant::<B::Instruction>(
            old(tree).memory(),
            side_one_options@.len() + side_two_options@.len(),
        ) ==> r == Err::<Searched<B>, SearchError>(SearchError::ArenaFull),
{
    let ghost before = *tree;
    let root = match plant(tree, side_one_options, side_two_options) {
        Ok(root) => root,
        Err(e) => {
            return Err(e);
        },
    };
    let ghost start = *tree;
    proof {
        walk::untried_is_unvisited(side_one_options@, Single { bits: 0 });
        walk::untried_is_unvisited(side_two_options@, Single { bits: 0 });
        assert forall|h: u32| #[trigger] tree@.nodes.contains_key(h) implies tallies(tree@.nodes[h])
            && tree@.nodes[h].times_visited <= u32::MAX - MCTS_MAX_ITERATIONS - 1 by {
            if h != root {
                assert(before@.nodes.contains_key(h));
            }
        }
        assert(choices_of(tree@.nodes[root].options->0.s1) =~= side_one_options@);
        assert(choices_of(tree@.nodes[root].options->0.s2) =~= side_two_options@);
        assert forall|n: int| #[trigger] visited_at_most(before@, n) && 0 <= n implies visited_at_most(
            tree@,
            n,
        ) by {
            assert forall|h: u32| #[trigger] tree@.nodes.contains_key(h) implies tree@.nodes[h].times_visited
                <= n by {
                if h != root {
                    assert(before@.nodes.contains_key(h));
                }
            }
        }
    }
    let mut path: Vec<PathStep> = Vec::with_capacity(16);
    let mut rng = seeded_rng();
    let root_eval = state.evaluate();
    let ghost given = state;
    let mut at = state;
    let ghost mut batches: int = 0;
    let ghost mut readings: Seq<u128> = Seq::empty();
    proof {
        assert(is_run::<B, A>(seq![start], seq![given], root, root_eval));
        assert(searches::<B, A>(0, start, *tree, root, root_eval, given, at));
    }
    let start_time = now();
    let mut more = true;
    while more
        invariant
            given == state,
            tree.wf(),
            all_tally(tree@),
            0 <= batches,
            visited_at_most(tree@, u32::MAX - MCTS_MAX_ITERATIONS - 1 + 1_000 * batches),
            forall|n: int| #[trigger]
                visited_at_most(before@, n) && 0 <= n ==> visited_at_most(tree@, n + 1_000 * batches),
            keeps_choices(start@, tree@),
            start@.nodes.contains_key(root),
            tree@.nodes.contains_key(root),
            1_000 * batches <= MCTS_MAX_ITERATIONS,
            more ==> 1_000 * batches < MCTS_MAX_ITERATIONS,
            tree@.nodes[root].times_visited == 1_000 * batches,
            always_moves(start@.nodes[root]) ==> walk::total_visits(
                tree@.nodes[root].options->0.s1,
            ) == 1_000 * batches,
            max_nanos == 0 ==> batches == 0,
            before == *old(tree),
            is_start(before, start, root, side_one_options@, side_two_options@),
            call_ensures(B::evaluate, (&state,), root_eval),
            searches::<B, A>((1_000 * batches) as nat, start, *tree, root, root_eval, given, at),
            start@.nodes[root].options is Some,
            forall|i: int|
                0 <= i < readings.len() ==> clock::is_reading(start_time, #[trigger] readings[i]),
            forall|i: int| 0 <= i < batches ==> #[trigger] readings[i] < max_nanos,
            more ==> readings.len() == batches,
            can_plant::<B::Instruction>(
                before.memory(),
                side_one_options@.len() + side_two_options@.len(),
            ),
            !more ==> keeps_time(start_time, readings, max_nanos, batches),
        decreases MCTS_MAX_ITERATIONS - 1_000 * batches + (if more { 1int } else { 0int }),
    {
        let ghost middle = *tree;
        let ghost was = at;
        let nanos = elapsed(&start_time);
        proof {
            readings = readings.push(nanos);
            assert(start@.nodes.contains_key(root));
            assert(always_moves(start@.nodes[root]) ==> always_moves(tree@.nodes[root]));
        }
        match run_batch::<B, A>(tree, root, at, root_eval, &mut path, &mut rng, nanos, max_nanos) {
            Ok((end, goes_on)) => {
                at = end;
                more = goes_on;
                proof {
                    if nanos < max_nanos {
                        searches_add_up::<B, A>(
                            (1_000 * batches) as nat,
                            1_000,
                            start,
                            middle,
                            *tree,
                            root,
                            root_eval,
                            given,
                            was,
                            at,
                        );
                        batches = batches + 1;
                        assert forall|n: int| #[trigger]
                            visited_at_most(before@, n) && 0 <= n implies visited_at_most(
                            tree@,
                            n + 1_000 * batches,
                        ) by {
                            assert(visited_at_most(middle@, n + 1_000 * (batches - 1)));
                        }
                    }
                }
            },
            Err(e) => {
                proof {
                    let (n, failed, last) = choose|
                        n: nat,
                        failed: SearchTree<B::Instruction>,
                        last: B,
                    | #[trigger]
                        fails_after::<B, A>(n, middle, failed, root, root_eval, was, last, e) && n
                            < MCTS_DEADLINE_CHECK_INTERVAL;
                    searches_add_up::<B, A>(
                        (1_000 * batches) as nat,
                        n,
                        start,
                        middle,
                        failed,
                        root,
                        root_eval,
                        given,
                        was,
                        last,
                    );
                    assert(fails_after::<B, A>(
                        (1_000 * batches) as nat + n,
                        start,
                        failed,
                        root,
                        root_eval,
                        given,
                        last,
                        e,
                    ));
                }
                return Err(e);
            },
        }
    }
    assert(start@.nodes.contains_key(root));
    assert(call_ensures(B::evaluate, (&given,), root_eval));
    let options = tree.options(root);
    let result = MctsResult {
        s1: side_results(options.s1()),
        s2: side_results(options.s2()),
        iteration_count: tree.node(root).times_visited,
    };
    let s = Searched { state: at, result, root };
    proof {
        assert(s.result.iteration_count as int / MCTS_DEADLINE_CHECK_INTERVAL as int == batches);
        assert(is_timed(s.result.iteration_count, max_nanos));
        assert(searches::<B, A>(
            s.result.iteration_count as nat,
            start,
            *tree,
            s.root,
            root_eval,
            state,
            s.state,
        ));
        assert(is_searched::<B, A>(before, *tree, state, side_one_options@, side_two_options@, s));
    }
    Ok(s)
}

/// The tree with a new root that has these options.
pub open spec fn is_start<I>(
    before: SearchTree<I>,
    start: SearchTree<I>,
    root: u32,
    side_one_options: Seq<MoveChoice>,
    side_two_options: Seq<MoveChoice>,
) -> bool {
    &&& forall|h: u32| #[trigger] before@.nodes.contains_key(h) ==> h < root
    &&& start@ == before@.with_node(root, planted::<I>(side_one_options, side_two_options))
    &&& start.memory() == after_planting::<I>(
        before.memory(),
        side_one_options.len() + side_two_options.len(),
    )
}

/// The tree and the state are what the reported number of iterations may make of a tree with a new
/// root and of the given state.
pub open spec fn is_searched<B: Battle, A: Arithmetic>(
    before: SearchTree<B::Instruction>,
    after: SearchTree<B::Instruction>,
    state: B,
    side_one_options: Seq<MoveChoice>,
    side_two_options: Seq<MoveChoice>,
    s: Searched<B>,
) -> bool {
    exists|root_eval: Single, start: SearchTree<B::Instruction>|
        {
            &&& #[trigger] call_ensures(B::evaluate, (&state,), root_eval)
            &&& is_start(before, start, s.root, side_one_options, side_two_options)
            &&& #[trigger] searches::<B, A>(
                s.result.iteration_count as nat,
                start,
                after,
                s.root,
                root_eval,
                state,
                s.state,
            )
        }
}

/// After `n` iterations the next one may fail.
pub open spec fn fails_after<B: Battle, A: Arithmetic>(
    n: nat,
    start: SearchTree<B::Instruction>,
    middle: SearchTree<B::Instruction>,
    root: u32,
    root_eval: Single,
    state: B,
    at: B,
    e: SearchError,
) -> bool {
    &&& searches::<B, A>(n, start, middle, root, root_eval, state, at)
    &&& fails_to_iterate::<B, A>(middle, root, at, e)
}

/// Some iteration of a search from a new root may fail.
pub open spec fn fails_to_search<B: Battle, A: Arithmetic>(
    before: SearchTree<B::Instruction>,
    state: B,
    side_one_options: Seq<MoveChoice>,
    side_two_options: Seq<MoveChoice>,
    e: SearchError,
) -> bool {
    exists|
        n: nat,
        start: SearchTree<B::Instruction>,
        middle: SearchTree<B::Instruction>,
        root: u32,
        root_eval: Single,
        at: B,
    |
        {
            &&& #[trigger] fails_after::<B, A>(n, start, middle, root, root_eval, state, at, e)
            &&& n < MCTS_MAX_ITERATIONS
            &&& call_ensures(B::evaluate, (&state,), root_eval)
            &&& is_start(before, start, root, side_one_options, side_two_options)
        }
}

/// How often the reported choices of one side have been tried.
pub open spec fn total_reported(side: Seq<MctsSideResult>) -> nat
    decreases side.len(),
{
    if side.len() == 0 {
        0
    } else {
        total_reported(side.drop_last()) + side.last().visits as nat
    }
}

/// A report counts the visits that it reports on.
proof fn reports_add_up(side: Seq<MoveNode<Single>>, result: Seq<MctsSideResult>)
    requires
        reports(side, result),
    ensures
        total_reported(result) == walk::total_visits(side),
    decreases side.len(),
{
    if side.len() > 0 {
        let (fore, told) = (side.drop_last(), result.drop_last());
        assert forall|i: int| 0 <= i < fore.len() implies #[trigger] told[i] == (MctsSideResult {
            move_choice: fore[i].move_choice,
            total_score: fore[i].total_score,
            visits: fore[i].visits,
        }) by {
            assert(told[i] == result[i]);
        }
        reports_add_up(fore, told);
        let _ = result[result.len() - 1];
    }
}

/// The choices that are reported on, in order.
pub open spec fn reported_choices(side: Seq<MctsSideResult>) -> Seq<MoveChoice> {
    Seq::new(side.len(), |i: int| side[i].move_choice)
}

/// In the report on a root at which the tallies agree, both sides have made equally many choices,
/// and no more than there were iterations.
pub proof fn reports_tally<I>(root: NodeView<Single, (), I>, result: MctsResult)
    requires
        tallies(root),
        reports_on(root, result),
    ensures
        total_reported(result.s1@) == walk::total_visits(root.options->0.s1),
        total_reported(result.s1@) == total_reported(result.s2@),
        total_reported(result.s1@) <= result.iteration_count,
        reported_choices(result.s1@) == choices_of(root.options->0.s1),
        reported_choices(result.s2@) == choices_of(root.options->0.s2),
{
    reports_add_up(root.options->0.s1, result.s1@);
    reports_add_up(root.options->0.s2, result.s2@);
    assert(reported_choices(result.s1@) =~= choices_of(root.options->0.s1));
    assert(reported_choices(result.s2@) =~= choices_of(root.options->0.s2));
}

/// The totals of the choices of a side, in order.
pub open spec fn totals_of<S>(side: Seq<MoveNode<S>>) -> Seq<S> {
    Seq::new(side.len(), |i: int| side[i].total_score)
}

/// How often each of the choices of a side has been tried, in order.
pub open spec fn visits_of<S>(side: Seq<MoveNode<S>>) -> Seq<u32> {
    Seq::new(side.len(), |i: int| side[i].visits)
}

/// A report on a root gives, for every choice of either side and in the same order, the choice
/// itself, its total score and its visits.
pub proof fn reports_give_every_choice_its_own<I>(root: NodeView<Single, (), I>, result: MctsResult)
    requires
        reports_on(root, result),
    ensures
        result.s1@.map_values(|r: MctsSideResult| r.move_choice) == choices_of(root.options->0.s1),
        result.s1@.map_values(|r: MctsSideResult| r.total_score) == totals_of(root.options->0.s1),
        result.s1@.map_values(|r: MctsSideResult| r.visits) == visits_of(root.options->0.s1),
        result.s2@.map_values(|r: MctsSideResult| r.move_choice) == choices_of(root.options->0.s2),
        result.s2@.map_values(|r: MctsSideResult| r.total_score) == totals_of(root.options->0.s2),
        result.s2@.map_values(|r: MctsSideResult| r.visits) == visits_of(root.options->0.s2),
        result.iteration_count == root.times_visited,
{
    let o = root.options->0;
    assert(result.s1@.map_values(|r: MctsSideResult| r.move_choice) =~= choices_of(o.s1));
    assert(result.s1@.map_values(|r: MctsSideResult| r.total_score) =~= totals_of(o.s1));
    assert(result.s1@.map_values(|r: MctsSideResult| r.visits) =~= visits_of(o.s1));
    assert(result.s2@.map_values(|r: MctsSideResult| r.move_choice) =~= choices_of(o.s2));
    assert(result.s2@.map_values(|r: MctsSideResult| r.total_score) =~= totals_of(o.s2));
    assert(result.s2@.map_values(|r: MctsSideResult| r.visits) =~= visits_of(o.s2));
}

/// Searches in a tree of its own, for as long as the clock allows.
pub fn perform_mcts<B: Battle, A: Arithmetic>(
    state: B,
    side_one_options: Vec<MoveChoice>,
    side_two_options: Vec<MoveChoice>,
    max_nanos: u128,
) -> (r: Result<(B, MctsResult), SearchError>)
    requires
        side_one_options@.len() <= 255,
        side_two_options@.len() <= 255,
    ensures
        r matches Ok((_, result)) ==> {
            &&& reported_choices(result.s1@) == side_one_options@
            &&& reported_choices(result.s2@) == side_two_options@
            &&& total_reported(result.s1@) == total_reported(result.s2@)
            &&& total_reported(result.s1@) <= result.iteration_count
            &&& never_waits(side_one_options@) || never_waits(side_two_options@) ==> total_reported(
                result.s1@,
            ) == result.iteration_count
            &&& result.iteration_count <= MCTS_MAX_ITERATIONS
            &&& result.iteration_count % MCTS_DEADLINE_CHECK_INTERVAL == 0
            &&& is_timed(result.iteration_count, max_nanos)
            &&& max_nanos == 0 ==> result.iteration_count == 0
        },
        r matches Ok((end, result)) ==> exists|
            before: SearchTree<B::Instruction>,
            after: SearchTree<B::Instruction>,
            s: Searched<B>,
        |
            {
                &&& before@.nodes.dom().is_empty()
                &&& before.memory() == MemoryView::untouched()
                &&& #[trigger] is_searched::<B, A>(
                    before,
                    after,
                    state,
                    side_one_options@,
                    side_two_options@,
                    s,
                )
                &&& s.state == end
                &&& s.result == result
                &&& reports_on(after@.nodes[s.root], result)
            },
        r matches Err(e) ==> {
            ||| e == SearchError::NotIndexable && !tree::storable::<Single, (), B::Instruction>()
            ||| e == SearchError::ArenaFull && !can_plant::<B::Instruction>(
                MemoryView::untouched(),
                side_one_options@.len() + side_two_options@.len(),
            )
            ||| 0 < max_nanos && exists|before: SearchTree<B::Instruction>|
                before@.nodes.dom().is_empty() && before.memory() == MemoryView::untouched()
                    && #[trigger] fails_to_search::<B, A>(
                    before,
                    state,
                    side_one_options@,
                    side_two_options@,
                    e,
                )
        },
        !tree::storable::<Single, (), B::Instruction>() ==> r == Err::<(B, MctsResult), SearchError>(
            SearchError::NotIndexable,
        ),
        tree::storable::<Single, (), B::Instruction>() && max_nanos == 0 ==> (r is Ok
            <==> can_plant::<B::Instruction>(
            MemoryView::untouched(),
            side_one_options@.len() + side_two_options@.len(),
        )),
        tree::storable::<Single, (), B::Instruction>() && !can_plant::<B::Instruction>(
            MemoryView::untouched(),
            side_one_options@.len() + side_two_options@.len(),
        ) ==> r == Err::<(B, MctsResult), SearchError>(SearchError::ArenaFull),
{
    let mut tree: SearchTree<B::Instruction> = match Tree::new(LocalChildMap::new()) {
        Ok(tree) => tree,
        Err(e) => {
            return Err(e);
        },
    };
    let ghost before = tree;
    match perform_mcts_inner::<B, A>(
        &mut tree,
        state,
        side_one_options.as_slice(),
        side_two_options.as_slice(),
        max_nanos,
    ) {
        Ok(s) => {
            proof {
                reports_tally(tree@.nodes[s.root], s.result);
                assert(before@.nodes.dom().is_empty());
            }
            Ok((s.state, s.result))
        },
        Err(e) => {
            assert(before@.nodes.dom().is_empty());
            Err(e)
        },
    }
}

} // verus!
