//! What both searches do on their way through a tree.

use crate::child_map::ChildMap;
use crate::engine::{Arithmetic, Battle, MoveChoice, StateInstructions};
use crate::single::{Single, MINUS_ONE, ONE};
use crate::tree::{MoveNode, NodeView, OptionsView, SearchError, Tree, TreeView};
use crate::{choice, engine, tree};
use rand::rngs::SmallRng;
use vstd::prelude::*;

verus! {

/// Outcomes that differ in damage alone are told apart down to this depth.
pub const MCTS_DAMAGE_BRANCH_DEPTH: usize = 2;

/// A step from a node to one of its children.
#[derive(Clone, Copy)]
pub struct PathStep {
    pub parent: u32,
    pub child: u32,
    pub s1_index: u8,
    pub s2_index: u8,
}

impl PathStep {
    /// What the child is filed under.
    pub open spec fn key(self) -> (u32, u8, u8) {
        (self.parent, self.s1_index, self.s2_index)
    }
}

/// Where a descent ended.
pub struct Selected<B> {
    pub state: B,
    pub leaf: u32,
    pub s1_index: u8,
    pub s2_index: u8,
}

/// The node that a path leads to.
pub open spec fn end_of(root: u32, path: Seq<PathStep>) -> u32 {
    if path.len() == 0 {
        root
    } else {
        path.last().child
    }
}

/// Every step starts where the one before it ended, and leads to a child that is filed for it.
pub open spec fn is_path<S, V, I>(tree: TreeView<S, V, I>, root: u32, path: Seq<PathStep>) -> bool
    decreases path.len(),
{
    if path.len() == 0 {
        tree.nodes.contains_key(root)
    } else {
        &&& is_path(tree, root, path.drop_last())
        &&& path.last().parent == end_of(root, path.drop_last())
        &&& tree.children.contains_key(path.last().key())
        &&& tree.children[path.last().key()].contains(path.last().child)
    }
}

/// A path goes through ever higher handles, so it meets no node twice.
pub proof fn paths_ascend<S, V, I>(tree: TreeView<S, V, I>, root: u32, path: Seq<PathStep>)
    requires
        tree.is_tree(),
        is_path(tree, root, path),
    ensures
        forall|k: int|
            0 <= k < path.len() ==> {
                &&& tree.nodes.contains_key((#[trigger] path[k]).parent)
                &&& tree.nodes.contains_key(path[k].child)
                &&& tree.nodes[path[k].parent].has_pair(path[k].s1_index, path[k].s2_index)
                &&& path[k].parent < path[k].child
                &&& path[k].child <= end_of(root, path)
            },
        forall|k: int, l: int|
            0 <= k < l < path.len() ==> (#[trigger] path[k]).child <= (#[trigger] path[l]).parent,
        tree.nodes.contains_key(end_of(root, path)),
        path.len() > 0 ==> path[0].parent == root,
        root <= end_of(root, path),
    decreases path.len(),
{
    if path.len() > 0 {
        let fore = path.drop_last();
        paths_ascend(tree, root, fore);
        let s = path.last();
        let i = choose|i: int|
            0 <= i < tree.children[s.key()].len() && tree.children[s.key()][i] == s.child;
        assert(s.parent < tree.children[s.key()][i]);
        assert forall|k: int| 0 <= k < path.len() implies {
            &&& tree.nodes.contains_key((#[trigger] path[k]).parent)
            &&& tree.nodes.contains_key(path[k].child)
            &&& tree.nodes[path[k].parent].has_pair(path[k].s1_index, path[k].s2_index)
            &&& path[k].parent < path[k].child
            &&& path[k].child <= end_of(root, path)
        } by {
            if k < fore.len() {
                assert(path[k] == fore[k]);
            } else {
                assert(path[k] == s);
            }
        }
        assert forall|k: int, l: int| 0 <= k < l < path.len() implies (#[trigger] path[k]).child
            <= (#[trigger] path[l]).parent by {
            assert(path[k] == fore[k]);
            if l < fore.len() {
                assert(path[l] == fore[l]);
            } else {
                assert(path[l] == s);
            }
        }
        if fore.len() > 0 {
            assert(path[0] == fore[0]);
        }
    }
}

/// Every step of a path leads to a child that is filed for it.
pub proof fn steps_have_children<S, V, I>(
    tree: TreeView<S, V, I>,
    root: u32,
    path: Seq<PathStep>,
    k: int,
)
    requires
        is_path(tree, root, path),
        0 <= k < path.len(),
    ensures
        tree.children.contains_key(path[k].key()),
        tree.children[path[k].key()].contains(path[k].child),
    decreases path.len(),
{
    if k < path.len() - 1 {
        steps_have_children(tree, root, path.drop_last(), k);
    }
}

/// `states[k + 1]` is what `states[k]` becomes by the instructions of step `k`.
pub open spec fn goes_down<B: Battle, S, V>(
    tree: TreeView<S, V, B::Instruction>,
    path: Seq<PathStep>,
    states: Seq<B>,
) -> bool {
    &&& states.len() == path.len() + 1
    &&& forall|k: int|
        0 <= k < path.len() ==> engine::applies(
            states[k],
            tree.nodes[(#[trigger] path[k]).child].instructions,
            states[k + 1],
        )
}

/// `states[k]` is what `states[k + 1]` becomes when the instructions of step `k` are taken back.
pub open spec fn comes_back<B: Battle, S, V>(
    tree: TreeView<S, V, B::Instruction>,
    path: Seq<PathStep>,
    states: Seq<B>,
) -> bool {
    &&& states.len() == path.len() + 1
    &&& forall|k: int|
        0 <= k < path.len() ==> engine::reverses(
            states[k + 1],
            tree.nodes[(#[trigger] path[k]).child].instructions,
            states[k],
        )
}

/// Taking instructions back undoes them.
pub open spec fn undoes<B: Battle>() -> bool {
    forall|before: B, list: Seq<B::Instruction>, after: B, back: B|
        #![trigger engine::applies(before, list, after), engine::reverses(after, list, back)]
        engine::applies(before, list, after) && engine::reverses(after, list, back) ==> back == before
}

/// Where taking instructions back undoes them, the way back from the end of a path leads to the
/// state in which the way down started.
pub proof fn the_way_back_restores<B: Battle, S, V>(
    tree: TreeView<S, V, B::Instruction>,
    path: Seq<PathStep>,
    down: Seq<B>,
    back: Seq<B>,
)
    requires
        undoes::<B>(),
        goes_down(tree, path, down),
        comes_back(tree, path, back),
        down.last() == back.last(),
    ensures
        down == back,
{
    assert forall|k: int| 0 <= k <= path.len() implies down[k] == back[k] by {
        same_states_from(tree, path, down, back, k);
    }
    assert(down =~= back);
}

/// The ways down and back agree from the end of a path up to step `k`.
proof fn same_states_from<B: Battle, S, V>(
    tree: TreeView<S, V, B::Instruction>,
    path: Seq<PathStep>,
    down: Seq<B>,
    back: Seq<B>,
    k: int,
)
    requires
        undoes::<B>(),
        goes_down(tree, path, down),
        comes_back(tree, path, back),
        down.last() == back.last(),
        0 <= k <= path.len(),
    ensures
        down[k] == back[k],
    decreases path.len() - k,
{
    if k < path.len() {
        same_states_from(tree, path, down, back, k + 1);
        let list = tree.nodes[path[k].child].instructions;
        assert(engine::applies(down[k], list, down[k + 1]));
        assert(engine::reverses(back[k + 1], list, back[k]));
    }
}

/// The options of a node: those that it has, or else those that its state has.
pub open spec fn offers<B: Battle, S, V>(
    node: NodeView<S, V, B::Instruction>,
    state: B,
    zero: S,
    options: OptionsView<S>,
) -> bool {
    match node.options {
        Some(o) => options == o,
        None => exists|s1: Vec<MoveChoice>, s2: Vec<MoveChoice>|
            #[trigger] call_ensures(B::get_all_options, (&state,), (s1, s2)) && options
                == OptionsView::fresh(s1@, s2@, zero),
    }
}

/// What comes of giving a node these options.
pub open spec fn offer_result<B: Battle, S, V, C: ChildMap>(
    tree: Tree<S, V, B::Instruction, C>,
    h: u32,
    options: OptionsView<S>,
) -> Result<(), SearchError> {
    if options.s1.len() > 255 || options.s2.len() > 255 {
        Err(SearchError::TooManyOptions)
    } else if tree@.nodes[h].options is None && !tree.memory().has_block::<MoveNode<S>>(
        options.s1.len() + options.s2.len(),
    ) {
        Err(SearchError::ArenaFull)
    } else {
        Ok(())
    }
}

/// Options are refused just where a side has more than 255 of them, or where the node has none yet
/// and the memory has no room for them.
pub proof fn options_are_refused_for_want_of_room<B: Battle, S, V, C: ChildMap>(
    tree: Tree<S, V, B::Instruction, C>,
    h: u32,
    options: OptionsView<S>,
)
    ensures
        offer_result::<B, S, V, C>(tree, h, options) == Err::<(), SearchError>(
            SearchError::TooManyOptions,
        ) <==> options.s1.len() > 255 || options.s2.len() > 255,
        offer_result::<B, S, V, C>(tree, h, options) is Ok ==> tree@.nodes[h].options is Some
            || tree.memory().has_block::<MoveNode<S>>(options.s1.len() + options.s2.len()),
        options.s1.len() <= 255 && options.s2.len() <= 255 && (tree@.nodes[h].options is Some
            || tree.memory().has_block::<MoveNode<S>>(options.s1.len() + options.s2.len()))
            ==> offer_result::<B, S, V, C>(tree, h, options) is Ok,
{
}

/// Gives a node options if it has none yet.
pub fn ensure_options<B: Battle, S: Copy, V: Copy, C: ChildMap>(
    tree: &mut Tree<S, V, B::Instruction, C>,
    h: u32,
    state: &B,
    zero: S,
) -> (r: Result<(), SearchError>)
    requires
        old(tree).wf(),
        old(tree)@.nodes.contains_key(h),
    ensures
        final(tree).wf(),
        exists|options: OptionsView<S>| #[trigger]
            offers(old(tree)@.nodes[h], *state, zero, options) && {
                &&& r == offer_result::<B, S, V, C>(*old(tree), h, options)
                &&& r is Ok ==> {
                    &&& final(tree)@ == old(tree)@.with_node(
                        h,
                        old(tree)@.nodes[h].with_options(options),
                    )
                    &&& old(tree)@.nodes[h].options is None ==> final(tree).memory() == old(
                        tree,
                    ).memory().after_block::<MoveNode<S>>(options.s1.len() + options.s2.len())
                }
            },
        r is Err ==> *final(tree) == *old(tree),
        old(tree)@.nodes[h].options is Some ==> *final(tree) == *old(tree),
{
    proof {
        tree.is_a_tree();
    }
    if tree.node(h).options.is_none() {
        let (s1, s2) = state.get_all_options();
        let ghost options = OptionsView::fresh(s1@, s2@, zero);
        assert(offers(tree@.nodes[h], *state, zero, options));
        match tree.set_options(h, s1.as_slice(), s2.as_slice(), zero) {
            Ok(_) => {},
            Err(e) => {
                return Err(e);
            },
        }
    }
    let ghost given = tree@.nodes[h].options->0;
    proof {
        assert(offers(old(tree)@.nodes[h], *state, zero, given));
        assert(tree@.nodes =~= old(tree)@.with_node(h, old(tree)@.nodes[h].with_options(given)).nodes);
    }
    Ok(())
}

/// Whether both sides have options at a node that has been given some.
pub fn can_choose<S: Copy, V: Copy, I, C: ChildMap>(tree: &Tree<S, V, I, C>, h: u32) -> (r: bool)
    requires
        tree.wf(),
        tree@.nodes.contains_key(h),
        tree@.nodes[h].options is Some,
    ensures
        r == tree@.nodes[h].can_choose(),
{
    let options = tree.options(h);
    options.s1().len() > 0 && options.s2().len() > 0
}

/// What a state is worth.
pub open spec fn may_be_worth<B: Battle, A: Arithmetic>(
    state: B,
    root_eval: Single,
    score: Single,
) -> bool {
    exists|over: Single| #[trigger]
        call_ensures(B::battle_is_over, (&state,), over) && if over.is_equal(Single { bits: 0 }) {
            exists|eval: Single, lead: Single| #[trigger]
                call_ensures(B::evaluate, (&state,), eval) && #[trigger] call_ensures(
                    A::minus,
                    (eval, root_eval),
                    lead,
                ) && call_ensures(A::sigmoid, (lead,), score)
        } else {
            score == decided_score(over)
        }
}

/// The score of a battle that is over.
pub open spec fn decided_score(over: Single) -> Single {
    if over.is_equal(Single { bits: MINUS_ONE }) {
        Single { bits: 0 }
    } else {
        over
    }
}

/// The score of a battle that is over: a battle that side one has lost is worth nothing.
pub fn score_decided(over: Single) -> (r: Single)
    ensures
        r == decided_score(over),
        over.is_equal(Single { bits: MINUS_ONE }) ==> r == (Single { bits: 0 }),
        !over.is_equal(Single { bits: MINUS_ONE }) ==> r == over,
{
    if over.equals(Single { bits: MINUS_ONE }) {
        Single { bits: 0 }
    } else {
        over
    }
}

/// Scores a state: by who has won, or else by how much better it is than the root.
pub fn rollout<B: Battle, A: Arithmetic>(state: &B, root_eval: Single) -> (r: Single)
    ensures
        may_be_worth::<B, A>(*state, root_eval, r),
        exists|over: Single| #[trigger]
            call_ensures(B::battle_is_over, (state,), over) && {
                &&& over.is_equal(Single { bits: 0 }) ==> exists|eval: Single, lead: Single|
                    {
                        &&& #[trigger] call_ensures(B::evaluate, (state,), eval)
                        &&& #[trigger] call_ensures(A::minus, (eval, root_eval), lead)
                        &&& call_ensures(A::sigmoid, (lead,), r)
                    }
                &&& over.is_equal(Single { bits: ONE }) ==> r.is_equal(Single { bits: ONE })
                &&& over.is_equal(Single { bits: MINUS_ONE }) ==> r == (Single { bits: 0 })
            },
{
    let over = state.battle_is_over();
    if over.equals(Single { bits: 0 }) {
        let eval = state.evaluate();
        let lead = A::minus(eval, root_eval);
        A::sigmoid(lead)
    } else {
        score_decided(over)
    }
}

/// A pair of choices leads on: the battle is not over, or this is the root, and not both sides
/// wait.
pub open spec fn leads_on(over: Single, depth: nat, s1_move: MoveChoice, s2_move: MoveChoice) -> bool {
    &&& over.is_equal(Single { bits: 0 }) || depth == 0
    &&& !(s1_move == MoveChoice::NoMove && s2_move == MoveChoice::NoMove)
}

/// Whether a pair of choices leads on.
pub fn should_expand(over: Single, depth: usize, s1_move: MoveChoice, s2_move: MoveChoice) -> (r:
    bool)
    ensures
        r == leads_on(over, depth as nat, s1_move, s2_move),
        s1_move == MoveChoice::NoMove && s2_move == MoveChoice::NoMove ==> !r,
        !over.is_equal(Single { bits: 0 }) && depth > 0 ==> !r,
        (over.is_equal(Single { bits: 0 }) || depth == 0) && (s1_move != MoveChoice::NoMove
            || s2_move != MoveChoice::NoMove) ==> r,
{
    !((!over.equals(Single { bits: 0 }) && depth != 0) || (s1_move == MoveChoice::NoMove && s2_move
        == MoveChoice::NoMove))
}

/// A roll over these likelihoods may come out at `r`; over a single one it always does at it.
pub open spec fn may_sample<A: Arithmetic>(likelihoods: Seq<Single>, r: int) -> bool {
    &&& 0 <= r < likelihoods.len()
    &&& likelihoods.len() == 1 || choice::may_come_about::<A>(likelihoods, r)
}

/// A draw from a generator, over these likelihoods, comes out at `r`: the first running sum that
/// reaches the number that was drawn, or else the last.
pub open spec fn is_sampled<A: Arithmetic>(
    likelihoods: Seq<Single>,
    draw: &mut SmallRng,
    r: int,
) -> bool {
    exists|sums: Seq<Single>, roll: Single|
        {
            &&& #[trigger] call_ensures(A::roll, (draw,), roll)
            &&& choice::are_running_sums::<A>(likelihoods, sums)
            &&& #[trigger] choice::is_pick(sums, roll, r)
        }
}

/// The states of a generator over `n` samples, from the first one to the last.
pub open spec fn is_record(rngs: Seq<SmallRng>, n: nat, first: SmallRng, last: SmallRng) -> bool {
    rngs.len() == n + 1 && rngs[0] == first && rngs[n as int] == last
}

/// How likely each of these nodes is.
pub open spec fn likelihoods<S, V, I>(tree: TreeView<S, V, I>, nodes: Seq<u32>) -> Seq<Single> {
    Seq::new(nodes.len(), |i: int| tree.nodes[nodes[i]].percentage)
}

/// A node is as likely as the outcome that it stands for.
pub proof fn likelihoods_are_percentages<S, V, I>(
    tree: TreeView<S, V, I>,
    nodes: Seq<u32>,
    i: int,
)
    requires
        0 <= i < nodes.len(),
    ensures
        likelihoods(tree, nodes).len() == nodes.len(),
        likelihoods(tree, nodes)[i] == tree.nodes[nodes[i]].percentage,
{
}

/// Outcomes in the order in which they are kept.
pub open spec fn is_ordering<I>(
    generated: Seq<StateInstructions<I>>,
    ordered: Seq<StateInstructions<I>>,
) -> bool {
    &&& ordered.to_multiset() == generated.to_multiset()
    &&& ordered.len() == generated.len()
    &&& choice::is_by_likelihood(ordered)
}

/// The engine may list these outcomes for a pair of choices at this depth.
pub open spec fn generates<B: Battle>(
    state: B,
    s1_move: MoveChoice,
    s2_move: MoveChoice,
    depth: nat,
    next: B,
    generated: Vec<StateInstructions<B::Instruction>>,
) -> bool {
    call_ensures(
        B::generate_instructions_from_move_pair,
        (state, s1_move, s2_move, depth < MCTS_DAMAGE_BRANCH_DEPTH),
        (next, generated),
    )
}

/// Listing outcomes leaves the state as it was.
pub open spec fn generates_quietly<B: Battle>() -> bool {
    forall|
        state: B,
        s1_move: MoveChoice,
        s2_move: MoveChoice,
        depth: nat,
        next: B,
        generated: Vec<StateInstructions<B::Instruction>>,
    | #[trigger]
        generates(state, s1_move, s2_move, depth, next, generated) ==> next == state
}

/// How often the choices of one side have been tried.
pub open spec fn total_visits<S>(side: Seq<MoveNode<S>>) -> nat
    decreases side.len(),
{
    if side.len() == 0 {
        0
    } else {
        total_visits(side.drop_last()) + side.last().visits as nat
    }
}

/// Every choice counts for its visits once.
pub proof fn every_choice_is_counted<S>(side: Seq<MoveNode<S>>, m: MoveNode<S>)
    ensures
        total_visits(Seq::<MoveNode<S>>::empty()) == 0,
        total_visits(side.push(m)) == total_visits(side) + m.visits,
{
    assert(side.push(m).drop_last() =~= side);
}

/// No choice has been tried more often than all of them together.
pub proof fn visits_add_up<S>(side: Seq<MoveNode<S>>, i: int)
    requires
        0 <= i < side.len(),
    ensures
        side[i].visits <= total_visits(side),
    decreases side.len(),
{
    if i < side.len() - 1 {
        visits_add_up(side.drop_last(), i);
    }
}

/// Replacing one choice changes the total by as much as it changes that choice.
pub proof fn total_after_update<S>(side: Seq<MoveNode<S>>, i: int, m: MoveNode<S>)
    requires
        0 <= i < side.len(),
    ensures
        total_visits(side.update(i, m)) == total_visits(side) - side[i].visits + m.visits,
    decreases side.len(),
{
    let after = side.update(i, m);
    if i < side.len() - 1 {
        total_after_update(side.drop_last(), i, m);
        assert(after.drop_last() =~= side.drop_last().update(i, m));
    } else {
        assert(after.drop_last() =~= side.drop_last());
    }
}

/// Choices that have not been tried have no visits.
pub proof fn untried_is_unvisited<S>(choices: Seq<MoveChoice>, zero: S)
    ensures
        total_visits(tree::all_untried(choices, zero)) == 0,
    decreases choices.len(),
{
    let side = tree::all_untried(choices, zero);
    if choices.len() > 0 {
        untried_is_unvisited(choices.drop_last(), zero);
        assert(side.drop_last() =~= tree::all_untried(choices.drop_last(), zero));
    }
}

/// A path stays a path where children are only added.
pub proof fn paths_stay<S, V, I>(
    before: TreeView<S, V, I>,
    after: TreeView<S, V, I>,
    root: u32,
    path: Seq<PathStep>,
)
    requires
        is_path(before, root, path),
        after.nodes.contains_key(root),
        forall|k: (u32, u8, u8)| #[trigger]
            before.children.contains_key(k) ==> after.children.contains_key(k) && after.children[k]
                == before.children[k],
    ensures
        is_path(after, root, path),
    decreases path.len(),
{
    if path.len() > 0 {
        paths_stay(before, after, root, path.drop_last());
    }
}

} // verus!
