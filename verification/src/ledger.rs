//! What the workers of a search owe to the tree at any moment, in whatever order they come and go.
//!
//! A worker that is under way has a path. Its virtual losses stand for that path until it comes
//! back, so the losses in a tree can be counted by the paths of all workers that are under way. What
//! the root has been visited for can be counted by the paths of those that have come back.

use crate::engine::{Arithmetic, Battle, MoveChoice, StateInstructions};
use crate::mcts::{MctsResult, MctsSideResult};
use crate::mcts_threaded::{Begun, SharedTree, SharedView, WayDown};
use crate::single::Single;
use crate::tree::{MoveNode, NodeView, OptionsView, SearchError};
use crate::walk::PathStep;
use crate::{mcts, mcts_threaded, walk};
use vstd::prelude::*;

verus! {

/// The path leads to this node.
pub open spec fn enters(path: Seq<PathStep>, h: u32) -> bool {
    exists|k: int| 0 <= k < path.len() && (#[trigger] path[k]).child == h
}

/// The path takes this choice of one side at this node.
pub open spec fn takes(path: Seq<PathStep>, h: u32, side_two: bool, i: int) -> bool {
    exists|k: int|
        0 <= k < path.len() && (#[trigger] path[k]).parent == h && index_of(path[k], side_two) == i
}

/// The choice of one side in a step.
pub open spec fn index_of(step: PathStep, side_two: bool) -> int {
    if side_two {
        step.s2_index as int
    } else {
        step.s1_index as int
    }
}

/// How many of the workers that are under way went through this node.
pub open spec fn below(pending: Seq<Seq<PathStep>>, h: u32) -> nat
    decreases pending.len(),
{
    if pending.len() == 0 {
        0
    } else {
        below(pending.drop_last(), h) + (if enters(pending.last(), h) {
            1nat
        } else {
            0nat
        })
    }
}

/// How many of the workers that are under way took this choice of one side at this node.
pub open spec fn below_choice(
    pending: Seq<Seq<PathStep>>,
    h: u32,
    side_two: bool,
    i: int,
) -> nat
    decreases pending.len(),
{
    if pending.len() == 0 {
        0
    } else {
        below_choice(pending.drop_last(), h, side_two, i) + (if takes(
            pending.last(),
            h,
            side_two,
            i,
        ) {
            1nat
        } else {
            0nat
        })
    }
}

/// Both sides have made equally many choices at the node, as far as 32 bits can tell.
pub open spec fn is_even<I>(node: NodeView<u32, i8, I>) -> bool {
    node.options matches Some(o) ==> (walk::total_visits(o.s1) - walk::total_visits(o.s2))
        % 0x1_0000_0000 == 0
}

/// The paths of all workers that are under way are paths of the tree, each node has as many virtual
/// losses as there are workers that went through it, as far as 8 bits can tell, and at each node
/// both sides have made equally many choices.
pub open spec fn is_ledger<I>(
    tree: SharedView<I>,
    root: u32,
    pending: Seq<Seq<PathStep>>,
) -> bool {
    &&& tree.is_tree()
    &&& forall|j: int| 0 <= j < pending.len() ==> walk::is_path(tree, root, #[trigger] pending[j])
    &&& forall|h: u32| #[trigger]
        tree.nodes.contains_key(h) ==> (tree.nodes[h].virtual_losses - below(pending, h)) % 256
            == 0
    &&& forall|h: u32| #[trigger] tree.nodes.contains_key(h) ==> is_even(tree.nodes[h])
}

/// How often a choice has been credited: its visits, without those that stand for workers that are
/// under way, as far as 32 bits can tell.
pub open spec fn credited_visits<I>(
    tree: SharedView<I>,
    pending: Seq<Seq<PathStep>>,
    h: u32,
    side_two: bool,
    i: int,
) -> int {
    (tree.nodes[h].options->0.side(side_two)[i].visits - 3 * below_choice(
        pending,
        h,
        side_two,
        i,
    )) % 0x1_0000_0000
}

/// The node has a choice of this number on this side.
pub open spec fn has_choice<I>(
    tree: SharedView<I>,
    h: u32,
    side_two: bool,
    i: int,
) -> bool {
    &&& tree.nodes.contains_key(h)
    &&& tree.nodes[h].options is Some
    &&& 0 <= i < tree.nodes[h].options->0.side(side_two).len()
}

/// Nodes stay where they are, and keep the instructions that lead to them.
pub open spec fn keeps_instructions<I>(before: SharedView<I>, after: SharedView<I>) -> bool {
    forall|h: u32| #[trigger]
        before.nodes.contains_key(h) ==> after.nodes.contains_key(h) && after.nodes[h].instructions
            == before.nodes[h].instructions
}

/// One more path is counted where it leads.
proof fn below_of_push(pending: Seq<Seq<PathStep>>, path: Seq<PathStep>, h: u32)
    ensures
        below(pending.push(path), h) == below(pending, h) + (if enters(path, h) {
            1nat
        } else {
            0nat
        }),
{
    assert(pending.push(path).drop_last() =~= pending);
}

/// One more path is counted at its choices.
proof fn below_choice_of_push(
    pending: Seq<Seq<PathStep>>,
    path: Seq<PathStep>,
    h: u32,
    side_two: bool,
    i: int,
)
    ensures
        below_choice(pending.push(path), h, side_two, i) == below_choice(pending, h, side_two, i) + (
        if takes(path, h, side_two, i) {
            1nat
        } else {
            0nat
        }),
{
    assert(pending.push(path).drop_last() =~= pending);
}

/// A path that is taken out is no longer counted where it leads.
proof fn below_of_remove(pending: Seq<Seq<PathStep>>, j: int, h: u32)
    requires
        0 <= j < pending.len(),
    ensures
        below(pending.remove(j), h) + (if enters(pending[j], h) {
            1nat
        } else {
            0nat
        }) == below(pending, h),
    decreases pending.len(),
{
    if j == pending.len() - 1 {
        assert(pending.remove(j) =~= pending.drop_last());
    } else {
        below_of_remove(pending.drop_last(), j, h);
        assert(pending.remove(j).drop_last() =~= pending.drop_last().remove(j));
        assert(pending.remove(j).last() == pending.last());
    }
}

/// A path that is taken out is no longer counted at its choices.
proof fn below_choice_of_remove(
    pending: Seq<Seq<PathStep>>,
    j: int,
    h: u32,
    side_two: bool,
    i: int,
)
    requires
        0 <= j < pending.len(),
    ensures
        below_choice(pending.remove(j), h, side_two, i) + (if takes(pending[j], h, side_two, i) {
            1nat
        } else {
            0nat
        }) == below_choice(pending, h, side_two, i),
    decreases pending.len(),
{
    if j == pending.len() - 1 {
        assert(pending.remove(j) =~= pending.drop_last());
    } else {
        below_choice_of_remove(pending.drop_last(), j, h, side_two, i);
        assert(pending.remove(j).drop_last() =~= pending.drop_last().remove(j));
        assert(pending.remove(j).last() == pending.last());
    }
}

/// No path that is under way leads to a node that the tree does not have.
proof fn nobody_is_below<I>(
    tree: SharedView<I>,
    root: u32,
    pending: Seq<Seq<PathStep>>,
    h: u32,
)
    requires
        tree.is_tree(),
        forall|j: int|
            0 <= j < pending.len() ==> walk::is_path(tree, root, #[trigger] pending[j]),
        !tree.nodes.contains_key(h),
    ensures
        below(pending, h) == 0,
    decreases pending.len(),
{
    if pending.len() > 0 {
        let fore = pending.drop_last();
        assert forall|j: int| 0 <= j < fore.len() implies walk::is_path(
            tree,
            root,
            #[trigger] fore[j],
        ) by {
            let _ = pending[j];
        }
        nobody_is_below(tree, root, fore, h);
        let last = pending[pending.len() - 1];
        walk::paths_ascend(tree, root, last);
        if enters(last, h) {
            let k = choose|k: int| 0 <= k < last.len() && (#[trigger] last[k]).child == h;
            assert(tree.nodes.contains_key(last[k].child));
        }
    }
}

/// Steps of a path start where the ones before them ended.
proof fn steps_connect<I>(tree: SharedView<I>, root: u32, path: Seq<PathStep>, k: int)
    requires
        walk::is_path(tree, root, path),
        0 <= k < path.len() - 1,
    ensures
        path[k + 1].parent == path[k].child,
    decreases path.len(),
{
    let fore = path.drop_last();
    if k < path.len() - 2 {
        steps_connect(tree, root, fore, k);
        assert(fore[k] == path[k] && fore[k + 1] == path[k + 1]);
    } else {
        assert(fore.last() == path[k]);
        assert(path.last() == path[k + 1]);
    }
}

/// A path leads to every node that it leaves but the first.
proof fn left_node<I>(tree: SharedView<I>, root: u32, path: Seq<PathStep>, k: int)
    requires
        tree.is_tree(),
        walk::is_path(tree, root, path),
        0 <= k < path.len(),
    ensures
        enters(path, path[k].parent) <==> k > 0,
        forall|side_two: bool, i: int| #[trigger]
            takes(path, path[k].parent, side_two, i) <==> i == index_of(path[k], side_two),
{
    walk::paths_ascend(tree, root, path);
    let h = path[k].parent;
    if k > 0 {
        steps_connect(tree, root, path, k - 1);
        assert(path[k - 1].child == h);
    } else if enters(path, h) {
        let m = choose|m: int| 0 <= m < path.len() && (#[trigger] path[m]).child == h;
        if m > 0 {
            assert(path[0].child <= path[m].parent);
        }
    }
    assert forall|side_two: bool, i: int| #[trigger] takes(path, h, side_two, i) <==> i
        == index_of(path[k], side_two) by {
        if takes(path, h, side_two, i) {
            let m = choose|m: int|
                0 <= m < path.len() && (#[trigger] path[m]).parent == h && index_of(
                    path[m],
                    side_two,
                ) == i;
            if m < k {
                assert(path[m].child <= path[k].parent);
            } else if k < m {
                assert(path[k].child <= path[m].parent);
            }
        }
        if i == index_of(path[k], side_two) {
            assert(path[k].parent == h);
        }
    }
}

/// A path of at least one step leads to its end, and takes no choice there.
proof fn end_node<I>(tree: SharedView<I>, root: u32, path: Seq<PathStep>)
    requires
        tree.is_tree(),
        walk::is_path(tree, root, path),
    ensures
        enters(path, walk::end_of(root, path)) <==> path.len() > 0,
        forall|side_two: bool, i: int| !#[trigger] takes(
            path,
            walk::end_of(root, path),
            side_two,
            i,
        ),
{
    walk::paths_ascend(tree, root, path);
    if path.len() > 0 {
        assert(path[path.len() - 1].child == walk::end_of(root, path));
    }
    assert forall|side_two: bool, i: int| !#[trigger] takes(
        path,
        walk::end_of(root, path),
        side_two,
        i,
    ) by {
        if takes(path, walk::end_of(root, path), side_two, i) {
            let m = choose|m: int|
                0 <= m < path.len() && (#[trigger] path[m]).parent == walk::end_of(root, path)
                    && index_of(path[m], side_two) == i;
            assert(path[m].parent < path[m].child);
        }
    }
}

/// A path neither leads to nor takes a choice at a node that it does not leave and end at.
proof fn other_node<I>(tree: SharedView<I>, root: u32, path: Seq<PathStep>, h: u32)
    requires
        walk::is_path(tree, root, path),
        h != walk::end_of(root, path),
        !mcts::is_left(path, 0, h),
    ensures
        !enters(path, h),
        forall|side_two: bool, i: int| !#[trigger] takes(path, h, side_two, i),
{
    if enters(path, h) {
        let m = choose|m: int| 0 <= m < path.len() && (#[trigger] path[m]).child == h;
        if m < path.len() - 1 {
            steps_connect(tree, root, path, m);
            assert(path[m + 1].parent == h);
        }
    }
    assert forall|side_two: bool, i: int| !#[trigger] takes(path, h, side_two, i) by {
        if takes(path, h, side_two, i) {
            let m = choose|m: int|
                0 <= m < path.len() && (#[trigger] path[m]).parent == h && index_of(
                    path[m],
                    side_two,
                ) == i;
        }
    }
}

/// Both sides are offered the same choices.
pub open spec fn same_choices(before: OptionsView<u32>, after: OptionsView<u32>) -> bool {
    &&& mcts::choices_of(after.s1) == mcts::choices_of(before.s1)
    &&& mcts::choices_of(after.s2) == mcts::choices_of(before.s2)
}

/// One virtual loss more where the path leads, three visits more at the choices that it takes.
pub open spec fn is_marked<I>(
    before: NodeView<u32, i8, I>,
    after: NodeView<u32, i8, I>,
    path: Seq<PathStep>,
    h: u32,
) -> bool {
    &&& after.virtual_losses == (if enters(path, h) {
        before.virtual_losses.wrapping_add(1)
    } else {
        before.virtual_losses
    })
    &&& after.instructions == before.instructions
    &&& after.times_visited == before.times_visited
    &&& is_even(before) ==> is_even(after)
    &&& before.options matches Some(o) ==> {
        &&& after.options is Some
        &&& same_choices(o, after.options->0)
        &&& forall|side_two: bool, i: int|
            #![trigger after.options->0.side(side_two)[i]]
            0 <= i < o.side(side_two).len() ==> after.options->0.side(side_two)[i].visits == (
            if takes(path, h, side_two, i) {
                o.side(side_two)[i].visits.wrapping_add(mcts_threaded::VIRTUAL_LOSS_VISITS)
            } else {
                o.side(side_two)[i].visits
            })
        &&& after.options->0.s1.len() == o.s1.len()
        &&& after.options->0.s2.len() == o.s2.len()
    }
}

/// Numbers that are no more than one turn apart leave the same remainder.
proof fn a_turn_changes_nothing(a: int, b: int, m: int)
    requires
        0 < m,
        a == b || a == b + m || a == b - m,
    ensures
        a % m == b % m,
{
    vstd::arithmetic::div_mod::lemma_mod_add_multiples_vanish(b, m);
    vstd::arithmetic::div_mod::lemma_mod_sub_multiples_vanish(b, m);
}

/// Three visits more on both sides.
proof fn both_sides_wait(s1: int, s2: int, v1: u32, v2: u32)
    requires
        (s1 - s2) % 0x1_0000_0000 == 0,
    ensures
        ((s1 - v1 + v1.wrapping_add(3)) - (s2 - v2 + v2.wrapping_add(3))) % 0x1_0000_0000 == 0,
{
    let after = (s1 - v1 + v1.wrapping_add(3)) - (s2 - v2 + v2.wrapping_add(3));
    a_turn_changes_nothing(after, s1 - s2, 0x1_0000_0000);
}

/// Two visits less on both sides.
proof fn both_sides_settle(s1: int, s2: int, v1: u32, v2: u32)
    requires
        (s1 - s2) % 0x1_0000_0000 == 0,
    ensures
        ((s1 - v1 + v1.wrapping_add(1).wrapping_sub(3)) - (s2 - v2 + v2.wrapping_add(
            1,
        ).wrapping_sub(3))) % 0x1_0000_0000 == 0,
{
    let after = (s1 - v1 + v1.wrapping_add(1).wrapping_sub(3)) - (s2 - v2 + v2.wrapping_add(
        1,
    ).wrapping_sub(3));
    a_turn_changes_nothing(after, s1 - s2, 0x1_0000_0000);
}

/// A worker that goes below two choices goes below one of each side.
proof fn losses_are_even<I>(node: NodeView<u32, i8, I>, s1_index: u8, s2_index: u8)
    requires
        node.has_pair(s1_index, s2_index),
        is_even(node),
    ensures
        is_even(mcts_threaded::with_choice_losses(node, s1_index, s2_index)),
{
    let (i, j) = (s1_index as int, s2_index as int);
    let o = node.options->0;
    walk::total_after_update(o.s1, i, o.s1[i].with_loss());
    walk::total_after_update(o.s2, j, o.s2[j].with_loss());
    both_sides_wait(
        walk::total_visits(o.s1) as int,
        walk::total_visits(o.s2) as int,
        o.s1[i].visits,
        o.s2[j].visits,
    );
}

/// A worker that comes back credits one choice of each side.
proof fn results_are_even<I>(
    node: NodeView<u32, i8, I>,
    s1_index: u8,
    s2_index: u8,
    points_1: u32,
    points_2: u32,
)
    requires
        node.has_pair(s1_index, s2_index),
        is_even(node),
    ensures
        is_even(mcts_threaded::settled_node(node, s1_index, s2_index, points_1, points_2)),
{
    let (i, j) = (s1_index as int, s2_index as int);
    let o = node.options->0;
    walk::total_after_update(o.s1, i, o.s1[i].with_result(points_1).without_loss());
    walk::total_after_update(o.s2, j, o.s2[j].with_result(points_2).without_loss());
    both_sides_settle(
        walk::total_visits(o.s1) as int,
        walk::total_visits(o.s2) as int,
        o.s1[i].visits,
        o.s2[j].visits,
    );
}

/// The options that a node is offered are as even as those that it has.
proof fn offers_are_even<B: Battle>(
    node: NodeView<u32, i8, B::Instruction>,
    state: B,
    options: OptionsView<u32>,
)
    requires
        is_even(node),
        walk::offers(node, state, 0u32, options),
    ensures
        is_even(node.with_options(options)),
{
    if node.options is None {
        let (s1, s2) = choose|s1: Vec<MoveChoice>, s2: Vec<MoveChoice>|
            #[trigger] call_ensures(B::get_all_options, (&state,), (s1, s2)) && options
                == OptionsView::fresh(s1@, s2@, 0u32);
        walk::untried_is_unvisited(s1@, 0u32);
        walk::untried_is_unvisited(s2@, 0u32);
    }
}

/// What a worker that has gone down leaves at each node.
proof fn begun_nodes<B: Battle, A: Arithmetic>(
    before: SharedTree<B::Instruction>,
    after: SharedTree<B::Instruction>,
    root: u32,
    state: B,
    begun: Begun<B>,
    w: WayDown<B>,
)
    requires
        before.wf(),
        after@.is_tree(),
        mcts_threaded::goes_like::<B, A>(before, after, root, state, begun, w),
    ensures
        forall|h: u32| #[trigger]
            before@.nodes.contains_key(h) ==> after@.nodes.contains_key(h) && is_marked(
                before@.nodes[h],
                after@.nodes[h],
                w.path(),
                h,
            ),
        forall|h: u32| #[trigger]
            after@.nodes.contains_key(h) && !before@.nodes.contains_key(h) ==> {
                &&& after@.nodes[h].virtual_losses == (if enters(w.path(), h) {
                    1i8
                } else {
                    0i8
                })
                &&& after@.nodes[h].options is None
            },
        forall|k: (u32, u8, u8)| #[trigger]
            before@.children.contains_key(k) ==> after@.children.contains_key(k)
                && after@.children[k] == before@.children[k],
        walk::is_path(after@, root, w.path()),
{
    let descent = w.descent;
    let path = w.path();
    let leaf = w.found.leaf;
    let n = descent.len() as int;
    let marked = mcts_threaded::loaded(before@, descent);
    let options = choose|options: OptionsView<u32>| #[trigger]
        walk::offers(marked.nodes[leaf], w.found.state, 0u32, options)
            && mcts_threaded::is_offered(marked, before.memory(), w.selected, leaf, options);
    before.is_a_tree();
    walk::paths_ascend(before@, root, descent);
    mcts_threaded::loading_is_quiet(before@, root, descent);
    mcts_threaded::loaded_nodes(before@, root, descent);
    assert(marked.nodes.dom().contains(leaf));
    assert(w.selected@.nodes.dom() =~= before@.nodes.dom());
    assert(w.marked@.nodes.dom() =~= before@.nodes.dom());
    assert(w.marked@.nodes.dom().contains(root)) by {
        if n > 0 {
            assert(before@.nodes.contains_key(descent[0].parent));
        }
    }
    walk::paths_stay(before@, w.marked@, root, descent);
    if let Some(child) = w.next.1 {
        let step = PathStep {
            parent: leaf,
            child,
            s1_index: w.found.s1_index,
            s2_index: w.found.s2_index,
        };
        mcts_threaded::expansion_leads_to::<B, A>(
            w.marked,
            w.expanded,
            root,
            descent,
            w.found,
            w.next.0,
            child,
        );
        assert(path == descent.push(step));
        assert(path[n] == step);
        assert(after@.nodes.dom() =~= w.expanded@.nodes.dom());
        assert(after@.nodes.dom().contains(root)) by {
            assert(w.marked@.nodes.contains_key(root));
            assert(w.expanded@.nodes.contains_key(root));
        }
        walk::paths_stay(w.expanded@, after@, root, path);
        walk::paths_ascend(after@, root, path);
    } else {
        assert(after@.nodes.dom().contains(root));
        walk::paths_stay(before@, after@, root, path);
        walk::paths_ascend(after@, root, path);
    }
    assert forall|h: u32| #[trigger] before@.nodes.contains_key(h) implies after@.nodes.contains_key(
        h,
    ) && is_marked(before@.nodes[h], after@.nodes[h], path, h) by {
        assert(w.marked@.nodes.dom().contains(h));
        assert(w.marked@.nodes.contains_key(h));
        assert(w.selected@.nodes.dom().contains(h));
        if mcts::is_left(descent, 0, h) {
            let k = choose|k: int| 0 <= k < descent.len() && (#[trigger] descent[k]).parent == h;
            assert(path[k] == descent[k]);
            left_node(after@, root, path, k);
            assert(h < leaf);
            marked_at_a_step(before@.nodes[h], after@.nodes[h], path, h, k);
        } else if h == leaf {
            if is_even(before@.nodes[leaf]) {
                offers_are_even::<B>(marked.nodes[leaf], w.found.state, options);
                losses_are_even(w.selected@.nodes[leaf], w.found.s1_index, w.found.s2_index);
            }
            if let Some(child) = w.next.1 {
                assert(path[n].parent == leaf);
                left_node(after@, root, path, n);
                marked_at_a_step(before@.nodes[h], after@.nodes[h], path, h, n);
            } else {
                end_node(after@, root, path);
            }
        } else {
            if let Some(child) = w.next.1 {
                assert(h != child);
                assert(!mcts::is_left(path, 0, h)) by {
                    if mcts::is_left(path, 0, h) {
                        let k = choose|k: int| 0 <= k < path.len() && (#[trigger] path[k]).parent == h;
                        if k < n {
                            assert(descent[k] == path[k]);
                        }
                    }
                }
            }
            other_node(after@, root, path, h);
        }
    }
    assert forall|h: u32| #[trigger] after@.nodes.contains_key(h) && !before@.nodes.contains_key(h) implies {
        &&& after@.nodes[h].virtual_losses == (if enters(path, h) {
            1i8
        } else {
            0i8
        })
        &&& after@.nodes[h].options is None
    } by {
        assert(!w.marked@.nodes.dom().contains(h));
        assert(!w.selected@.nodes.dom().contains(h));
        if let Some(child) = w.next.1 {
            assert(w.expanded@.nodes.dom().contains(h));
            assert(w.expanded@.nodes.contains_key(h));
            if h == child {
                end_node(after@, root, path);
            } else {
                assert(!enters(path, h)) by {
                    if enters(path, h) {
                        let k = choose|k: int| 0 <= k < path.len() && (#[trigger] path[k]).child == h;
                        if k < n {
                            assert(path[k] == descent[k]);
                            assert(before@.nodes.contains_key(descent[k].child));
                        }
                    }
                }
            }
        }
    }
}

/// A node that a worker has left by step `k` is marked.
proof fn marked_at_a_step<I>(
    before: NodeView<u32, i8, I>,
    after: NodeView<u32, i8, I>,
    path: Seq<PathStep>,
    h: u32,
    k: int,
)
    requires
        0 <= k < path.len(),
        path[k].parent == h,
        before.options is Some ==> before.has_pair(path[k].s1_index, path[k].s2_index),
        before.options is Some ==> after.options is Some,
        enters(path, h) <==> k > 0,
        forall|side_two: bool, i: int| #[trigger]
            takes(path, h, side_two, i) <==> i == index_of(path[k], side_two),
        before.options is Some ==> after.options == mcts_threaded::with_choice_losses(
            before,
            path[k].s1_index,
            path[k].s2_index,
        ).options,
        after.virtual_losses == mcts_threaded::entered(before, k).virtual_losses,
        after.instructions == before.instructions,
        after.times_visited == before.times_visited,
        before.options is None && is_even(before) ==> is_even(after),
    ensures
        is_marked(before, after, path, h),
{
    if before.options is Some {
        if is_even(before) {
            losses_are_even(before, path[k].s1_index, path[k].s2_index);
        }
        let o = before.options->0;
        let p = after.options->0;
        let (a, b) = (path[k].s1_index as int, path[k].s2_index as int);
        assert(p.s1 == o.s1.update(a, o.s1[a].with_loss()));
        assert(p.s2 == o.s2.update(b, o.s2[b].with_loss()));
        assert(mcts::choices_of(p.s1) =~= mcts::choices_of(o.s1));
        assert(mcts::choices_of(p.s2) =~= mcts::choices_of(o.s2));
        assert forall|side_two: bool, i: int|
            #![trigger p.side(side_two)[i]]
            0 <= i < o.side(side_two).len() implies p.side(side_two)[i].visits == (if takes(
            path,
            h,
            side_two,
            i,
        ) {
            o.side(side_two)[i].visits.wrapping_add(mcts_threaded::VIRTUAL_LOSS_VISITS)
        } else {
            o.side(side_two)[i].visits
        }) by {
            assert(takes(path, h, side_two, i) <==> i == index_of(path[k], side_two));
            if side_two {
                assert(p.side(side_two)[i] == p.s2[i]);
            } else {
                assert(p.side(side_two)[i] == p.s1[i]);
            }
        }
    }
}

/// One more loss for one more worker.
proof fn loss_added(v: i8, n: nat)
    requires
        (v - n) % 256 == 0,
    ensures
        (v.wrapping_add(1) - (n + 1)) % 256 == 0,
{
    a_turn_changes_nothing(v.wrapping_add(1) - (n + 1), v - n, 256);
}

/// One loss less for one worker less.
proof fn loss_removed(v: i8, n: nat)
    requires
        (v - (n + 1)) % 256 == 0,
    ensures
        (v.wrapping_sub(1) - n) % 256 == 0,
{
    a_turn_changes_nothing(v.wrapping_sub(1) - n, v - (n + 1), 256);
}

/// The visits that stand for a worker do not count as credited.
proof fn visits_added(v: u32, n: nat)
    ensures
        (v.wrapping_add(3) - 3 * (n + 1)) % 0x1_0000_0000 == (v - 3 * n) % 0x1_0000_0000,
{
    a_turn_changes_nothing(v.wrapping_add(3) - 3 * (n + 1), v - 3 * n, 0x1_0000_0000);
}

/// A worker that has come back leaves one visit.
proof fn visits_cleared(v: u32, n: nat)
    ensures
        (v.wrapping_add(1).wrapping_sub(3) - 3 * n) % 0x1_0000_0000 == ((v - 3 * (n + 1))
            % 0x1_0000_0000 + 1) % 0x1_0000_0000,
{
    let was = v - 3 * (n + 1);
    a_turn_changes_nothing(v.wrapping_add(1).wrapping_sub(3) - 3 * n, was + 1, 0x1_0000_0000);
    vstd::arithmetic::div_mod::lemma_add_mod_noop(was, 1, 0x1_0000_0000);
}

/// The losses at a node that a worker has gone through, or not, are in order.
proof fn marked_losses_are_booked<I>(
    before: NodeView<u32, i8, I>,
    after: NodeView<u32, i8, I>,
    pending: Seq<Seq<PathStep>>,
    path: Seq<PathStep>,
    h: u32,
)
    requires
        is_marked(before, after, path, h),
        (before.virtual_losses - below(pending, h)) % 256 == 0,
    ensures
        (after.virtual_losses - below(pending.push(path), h)) % 256 == 0,
{
    below_of_push(pending, path, h);
    loss_added(before.virtual_losses, below(pending, h));
}

/// The visits of a choice that a worker has taken, or not, are in order.
proof fn marked_visits_are_booked<I>(
    before: SharedView<I>,
    after: SharedView<I>,
    pending: Seq<Seq<PathStep>>,
    path: Seq<PathStep>,
    h: u32,
    side_two: bool,
    i: int,
)
    requires
        has_choice(before, h, side_two, i),
        after.nodes.contains_key(h),
        is_marked(before.nodes[h], after.nodes[h], path, h),
    ensures
        has_choice(after, h, side_two, i),
        credited_visits(after, pending.push(path), h, side_two, i) == credited_visits(
            before,
            pending,
            h,
            side_two,
            i,
        ),
{
    below_choice_of_push(pending, path, h, side_two, i);
    let _ = after.nodes[h].options->0.side(side_two)[i];
    visits_added(
        before.nodes[h].options->0.side(side_two)[i].visits,
        below_choice(pending, h, side_two, i),
    );
}

/// A worker that goes down is booked under its path: the tree has one loss more wherever it went,
/// and no choice has been credited.
pub proof fn going_down_is_booked<B: Battle, A: Arithmetic>(
    before: SharedTree<B::Instruction>,
    after: SharedTree<B::Instruction>,
    root: u32,
    state: B,
    path: Seq<PathStep>,
    begun: Begun<B>,
    pending: Seq<Seq<PathStep>>,
)
    requires
        before.wf(),
        after.wf(),
        is_ledger(before@, root, pending),
        mcts_threaded::begins::<B, A>(before, after, root, state, path, begun),
    ensures
        is_ledger(after@, root, pending.push(path)),
        keeps_instructions(before@, after@),
        forall|h: u32, side_two: bool, i: int| #[trigger]
            has_choice(before@, h, side_two, i) ==> has_choice(after@, h, side_two, i)
                && credited_visits(after@, pending.push(path), h, side_two, i) == credited_visits(
                before@,
                pending,
                h,
                side_two,
                i,
            ),
{
    let w = choose|w: WayDown<B>| #[trigger]
        mcts_threaded::goes_like::<B, A>(before, after, root, state, begun, w) && path == w.path();
    after.is_a_tree();
    begun_nodes::<B, A>(before, after, root, state, begun, w);
    root_is_there(before@, root, w.descent);
    books_after_going_down(before@, after@, root, path, pending);
}

/// A path starts at a node of the tree.
proof fn root_is_there<I>(tree: SharedView<I>, root: u32, path: Seq<PathStep>)
    requires
        walk::is_path(tree, root, path),
    ensures
        tree.nodes.contains_key(root),
    decreases path.len(),
{
    if path.len() > 0 {
        root_is_there(tree, root, path.drop_last());
    }
}

/// The books are in order once every node is marked.
proof fn books_after_going_down<I>(
    before: SharedView<I>,
    after: SharedView<I>,
    root: u32,
    path: Seq<PathStep>,
    pending: Seq<Seq<PathStep>>,
)
    requires
        is_ledger(before, root, pending),
        before.nodes.contains_key(root),
        after.is_tree(),
        walk::is_path(after, root, path),
        forall|h: u32| #[trigger]
            before.nodes.contains_key(h) ==> after.nodes.contains_key(h) && is_marked(
                before.nodes[h],
                after.nodes[h],
                path,
                h,
            ),
        forall|h: u32| #[trigger]
            after.nodes.contains_key(h) && !before.nodes.contains_key(h) ==> {
                &&& after.nodes[h].virtual_losses == (if enters(path, h) {
                    1i8
                } else {
                    0i8
                })
                &&& after.nodes[h].options is None
            },
        forall|k: (u32, u8, u8)| #[trigger]
            before.children.contains_key(k) ==> after.children.contains_key(k) && after.children[k]
                == before.children[k],
    ensures
        is_ledger(after, root, pending.push(path)),
        keeps_instructions(before, after),
        forall|h: u32, side_two: bool, i: int| #[trigger]
            has_choice(before, h, side_two, i) ==> has_choice(after, h, side_two, i)
                && credited_visits(after, pending.push(path), h, side_two, i) == credited_visits(
                before,
                pending,
                h,
                side_two,
                i,
            ),
{
    let more = pending.push(path);
    assert forall|j: int| 0 <= j < more.len() implies walk::is_path(after, root, #[trigger] more[j]) by {
        if j < pending.len() {
            assert(more[j] == pending[j]);
            walk::paths_stay(before, after, root, pending[j]);
        }
    }
    assert forall|h: u32| #[trigger] after.nodes.contains_key(h) implies (
    after.nodes[h].virtual_losses - below(more, h)) % 256 == 0 by {
        if before.nodes.contains_key(h) {
            marked_losses_are_booked(before.nodes[h], after.nodes[h], pending, path, h);
        } else {
            below_of_push(pending, path, h);
            nobody_is_below(before, root, pending, h);
        }
    }
    assert forall|h: u32, side_two: bool, i: int| #[trigger]
        has_choice(before, h, side_two, i) implies has_choice(after, h, side_two, i)
        && credited_visits(after, more, h, side_two, i) == credited_visits(
        before,
        pending,
        h,
        side_two,
        i,
    ) by {
        marked_visits_are_booked(before, after, pending, path, h, side_two, i);
    }
}

/// What a worker that has come back leaves at each node.
proof fn cleared_nodes<I>(
    tree: SharedView<I>,
    root: u32,
    path: Seq<PathStep>,
    points_1: u32,
    points_2: u32,
)
    requires
        tree.is_tree(),
        walk::is_path(tree, root, path),
    ensures
        ({
            let after = mcts_threaded::settled(
                mcts_threaded::with_visit(tree, walk::end_of(root, path)),
                path,
                points_1,
                points_2,
            );
            &&& after.children == tree.children
            &&& after.nodes.dom() == tree.nodes.dom()
            &&& forall|h: u32| #[trigger]
                tree.nodes.contains_key(h) ==> is_cleared(tree.nodes[h], after.nodes[h], path, h)
        }),
{
    let end = walk::end_of(root, path);
    let lower = mcts_threaded::with_visit(tree, end);
    let after = mcts_threaded::settled(lower, path, points_1, points_2);
    walk::paths_ascend(tree, root, path);
    root_is_there(tree, root, path);
    mcts_threaded::visiting_is_quiet(tree, root, path, end);
    mcts_threaded::settled_nodes(lower, root, path, points_1, points_2);
    assert forall|h: u32| #[trigger] tree.nodes.contains_key(h) implies is_cleared(
        tree.nodes[h],
        after.nodes[h],
        path,
        h,
    ) by {
        assert(lower.nodes.dom().contains(h));
        assert(lower.nodes.contains_key(h));
        if mcts::is_left(path, 0, h) {
            let k = choose|k: int| 0 <= k < path.len() && (#[trigger] path[k]).parent == h;
            left_node(tree, root, path, k);
            cleared_at_a_step(tree.nodes[h], after.nodes[h], path, h, k, points_1, points_2);
        } else if h == end {
            end_node(tree, root, path);
        } else {
            other_node(tree, root, path, h);
        }
    }
}

/// A tree is still a tree once every node is cleared.
proof fn cleared_tree_is_a_tree<I>(tree: SharedView<I>, after: SharedView<I>, path: Seq<PathStep>)
    requires
        tree.is_tree(),
        after.children == tree.children,
        after.nodes.dom() == tree.nodes.dom(),
        forall|h: u32| #[trigger]
            tree.nodes.contains_key(h) ==> is_cleared(tree.nodes[h], after.nodes[h], path, h),
    ensures
        after.is_tree(),
{
    assert forall|k: (u32, u8, u8)| #[trigger] after.children.contains_key(k) implies {
        &&& after.nodes.contains_key(k.0)
        &&& after.nodes[k.0].has_pair(k.1, k.2)
        &&& 0 < after.children[k].len()
    } by {
        assert(tree.children.contains_key(k));
        assert(tree.nodes.contains_key(k.0));
        assert(after.nodes.dom().contains(k.0));
    }
    assert forall|k: (u32, u8, u8), i: int|
        #![trigger after.children[k][i]]
        after.children.contains_key(k) && 0 <= i < after.children[k].len() implies k.0
        < after.children[k][i] && after.nodes.contains_key(after.children[k][i]) by {
        assert(tree.children.contains_key(k));
        let c = tree.children[k][i];
        assert(tree.nodes.contains_key(c));
        assert(after.nodes.dom().contains(c));
    }
    assert forall|h: u32| #[trigger] after.nodes.contains_key(h) implies (
    after.nodes[h].options matches Some(o) ==> o.s1.len() <= 255 && o.s2.len() <= 255) by {
        assert(tree.nodes.dom().contains(h));
        assert(tree.nodes.contains_key(h));
    }
}

/// The losses at a node that a worker has come back from, or not, are in order.
proof fn cleared_losses_are_booked<I>(
    before: NodeView<u32, i8, I>,
    after: NodeView<u32, i8, I>,
    pending: Seq<Seq<PathStep>>,
    j: int,
    h: u32,
)
    requires
        0 <= j < pending.len(),
        is_cleared(before, after, pending[j], h),
        (before.virtual_losses - below(pending, h)) % 256 == 0,
    ensures
        (after.virtual_losses - below(pending.remove(j), h)) % 256 == 0,
{
    below_of_remove(pending, j, h);
    if enters(pending[j], h) {
        loss_removed(before.virtual_losses, below(pending.remove(j), h));
    }
}

/// The visits of a choice that a worker has credited, or not, are in order.
proof fn cleared_visits_are_booked<I>(
    before: SharedView<I>,
    after: SharedView<I>,
    pending: Seq<Seq<PathStep>>,
    j: int,
    h: u32,
    side_two: bool,
    i: int,
)
    requires
        0 <= j < pending.len(),
        has_choice(before, h, side_two, i),
        after.nodes.contains_key(h),
        is_cleared(before.nodes[h], after.nodes[h], pending[j], h),
    ensures
        has_choice(after, h, side_two, i),
        credited_visits(after, pending.remove(j), h, side_two, i) == (credited_visits(
            before,
            pending,
            h,
            side_two,
            i,
        ) + (if takes(pending[j], h, side_two, i) {
            1int
        } else {
            0int
        })) % 0x1_0000_0000,
{
    below_choice_of_remove(pending, j, h, side_two, i);
    let _ = after.nodes[h].options->0.side(side_two)[i];
    visits_cleared(
        before.nodes[h].options->0.side(side_two)[i].visits,
        below_choice(pending.remove(j), h, side_two, i),
    );
}

/// A worker that comes back is struck off: the tree has one loss less wherever it went, and the
/// choices on its path, and no others, have been credited once more.
pub proof fn coming_back_is_booked<I>(
    tree: SharedView<I>,
    after: SharedView<I>,
    root: u32,
    points_1: u32,
    points_2: u32,
    pending: Seq<Seq<PathStep>>,
    j: int,
)
    requires
        is_ledger(tree, root, pending),
        0 <= j < pending.len(),
        after == mcts_threaded::settled(
            mcts_threaded::with_visit(tree, walk::end_of(root, pending[j])),
            pending[j],
            points_1,
            points_2,
        ),
    ensures
        is_ledger(after, root, pending.remove(j)),
        keeps_instructions(tree, after),
        forall|h: u32, side_two: bool, i: int| #[trigger]
            has_choice(tree, h, side_two, i) ==> has_choice(after, h, side_two, i)
                && credited_visits(after, pending.remove(j), h, side_two, i) == (credited_visits(
                tree,
                pending,
                h,
                side_two,
                i,
            ) + (if takes(pending[j], h, side_two, i) {
                1int
            } else {
                0int
            })) % 0x1_0000_0000,
{
    let path = pending[j];
    assert(walk::is_path(tree, root, path));
    cleared_nodes(tree, root, path, points_1, points_2);
    cleared_tree_is_a_tree(tree, after, path);
    root_is_there(tree, root, path);
    books_after_coming_back(tree, after, root, pending, j);
}

/// The books are in order once every node is cleared.
proof fn books_after_coming_back<I>(
    tree: SharedView<I>,
    after: SharedView<I>,
    root: u32,
    pending: Seq<Seq<PathStep>>,
    j: int,
)
    requires
        is_ledger(tree, root, pending),
        tree.nodes.contains_key(root),
        0 <= j < pending.len(),
        after.is_tree(),
        after.children == tree.children,
        after.nodes.dom() == tree.nodes.dom(),
        forall|h: u32| #[trigger]
            tree.nodes.contains_key(h) ==> is_cleared(
                tree.nodes[h],
                after.nodes[h],
                pending[j],
                h,
            ),
    ensures
        is_ledger(after, root, pending.remove(j)),
        keeps_instructions(tree, after),
        forall|h: u32, side_two: bool, i: int| #[trigger]
            has_choice(tree, h, side_two, i) ==> has_choice(after, h, side_two, i)
                && credited_visits(after, pending.remove(j), h, side_two, i) == (credited_visits(
                tree,
                pending,
                h,
                side_two,
                i,
            ) + (if takes(pending[j], h, side_two, i) {
                1int
            } else {
                0int
            })) % 0x1_0000_0000,
{
    let fewer = pending.remove(j);
    assert(after.nodes.dom().contains(root));
    assert forall|m: int| 0 <= m < fewer.len() implies walk::is_path(
        after,
        root,
        #[trigger] fewer[m],
    ) by {
        let l = if m < j {
            m
        } else {
            m + 1
        };
        assert(fewer[m] == pending[l]);
        assert(walk::is_path(tree, root, pending[l]));
        walk::paths_stay(tree, after, root, pending[l]);
    }
    assert forall|h: u32| #[trigger] after.nodes.contains_key(h) implies (
    after.nodes[h].virtual_losses - below(fewer, h)) % 256 == 0 by {
        assert(tree.nodes.dom().contains(h));
        assert(tree.nodes.contains_key(h));
        cleared_losses_are_booked(tree.nodes[h], after.nodes[h], pending, j, h);
    }
    assert forall|h: u32, side_two: bool, i: int| #[trigger]
        has_choice(tree, h, side_two, i) implies has_choice(after, h, side_two, i)
        && credited_visits(after, fewer, h, side_two, i) == (credited_visits(
        tree,
        pending,
        h,
        side_two,
        i,
    ) + (if takes(pending[j], h, side_two, i) {
        1int
    } else {
        0int
    })) % 0x1_0000_0000 by {
        assert(after.nodes.dom().contains(h));
        cleared_visits_are_booked(tree, after, pending, j, h, side_two, i);
    }
}

/// One virtual loss less where the path leads; two visits less at the choices that it takes, which
/// are three for the worker that has left and one for its score.
pub open spec fn is_cleared<I>(
    before: NodeView<u32, i8, I>,
    after: NodeView<u32, i8, I>,
    path: Seq<PathStep>,
    h: u32,
) -> bool {
    &&& after.virtual_losses == (if enters(path, h) {
        before.virtual_losses.wrapping_sub(1)
    } else {
        before.virtual_losses
    })
    &&& after.instructions == before.instructions
    &&& is_even(before) ==> is_even(after)
    &&& after.options is Some <==> before.options is Some
    &&& before.options matches Some(o) ==> {
        &&& same_choices(o, after.options->0)
        &&& forall|side_two: bool, i: int|
            #![trigger after.options->0.side(side_two)[i]]
            0 <= i < o.side(side_two).len() ==> after.options->0.side(side_two)[i].visits == (
            if takes(path, h, side_two, i) {
                o.side(side_two)[i].visits.wrapping_add(1).wrapping_sub(
                    mcts_threaded::VIRTUAL_LOSS_VISITS,
                )
            } else {
                o.side(side_two)[i].visits
            })
        &&& after.options->0.s1.len() == o.s1.len()
        &&& after.options->0.s2.len() == o.s2.len()
    }
}

/// A node that a worker comes back to over step `k` is cleared.
proof fn cleared_at_a_step<I>(
    before: NodeView<u32, i8, I>,
    after: NodeView<u32, i8, I>,
    path: Seq<PathStep>,
    h: u32,
    k: int,
    points_1: u32,
    points_2: u32,
)
    requires
        0 <= k < path.len(),
        path[k].parent == h,
        before.has_pair(path[k].s1_index, path[k].s2_index),
        enters(path, h) <==> k > 0,
        forall|side_two: bool, i: int| #[trigger]
            takes(path, h, side_two, i) <==> i == index_of(path[k], side_two),
        after == mcts_threaded::settled_node(
            mcts_threaded::returned(before, k),
            path[k].s1_index,
            path[k].s2_index,
            points_1,
            points_2,
        ),
    ensures
        is_cleared(before, after, path, h),
{
    if is_even(before) {
        results_are_even(
            mcts_threaded::returned(before, k),
            path[k].s1_index,
            path[k].s2_index,
            points_1,
            points_2,
        );
    }
    let o = before.options->0;
    let p = after.options->0;
    let (a, b) = (path[k].s1_index as int, path[k].s2_index as int);
    assert(p.s1 == o.s1.update(a, o.s1[a].with_result(points_1).without_loss()));
    assert(p.s2 == o.s2.update(b, o.s2[b].with_result(points_2).without_loss()));
    assert(mcts::choices_of(p.s1) =~= mcts::choices_of(o.s1));
    assert(mcts::choices_of(p.s2) =~= mcts::choices_of(o.s2));
    assert forall|side_two: bool, i: int|
        #![trigger p.side(side_two)[i]]
        0 <= i < o.side(side_two).len() implies p.side(side_two)[i].visits == (if takes(
        path,
        h,
        side_two,
        i,
    ) {
        o.side(side_two)[i].visits.wrapping_add(1).wrapping_sub(mcts_threaded::VIRTUAL_LOSS_VISITS)
    } else {
        o.side(side_two)[i].visits
    }) by {
        assert(takes(path, h, side_two, i) <==> i == index_of(path[k], side_two));
        if side_two {
            assert(p.side(side_two)[i] == p.s2[i]);
        } else {
            assert(p.side(side_two)[i] == p.s1[i]);
        }
    }
}

/// A worker that is under way can come back, whatever other workers have done in the meantime: its
/// path is still a path from the root to the node that it is to score.
pub proof fn a_worker_can_come_back<I>(
    tree: SharedView<I>,
    root: u32,
    pending: Seq<Seq<PathStep>>,
    j: int,
)
    requires
        is_ledger(tree, root, pending),
        0 <= j < pending.len(),
    ensures
        ({
            let target = walk::end_of(root, pending[j]);
            &&& mcts::start_of(pending[j], target) == root
            &&& walk::is_path(tree, mcts::start_of(pending[j], target), pending[j])
            &&& target == walk::end_of(mcts::start_of(pending[j], target), pending[j])
        }),
{
    walk::paths_ascend(tree, root, pending[j]);
}

/// Once all workers have come back, no node has a virtual loss, and every choice has been visited
/// as often as it has been credited.
pub proof fn an_idle_tree_has_no_losses<I>(tree: SharedView<I>, root: u32)
    requires
        is_ledger(tree, root, Seq::<Seq<PathStep>>::empty()),
    ensures
        forall|h: u32| #[trigger] tree.nodes.contains_key(h) ==> tree.nodes[h].virtual_losses == 0,
        forall|h: u32, side_two: bool, i: int| #[trigger]
            has_choice(tree, h, side_two, i) ==> tree.nodes[h].options->0.side(side_two)[i].visits
                == credited_visits(tree, Seq::<Seq<PathStep>>::empty(), h, side_two, i),
{
    assert forall|h: u32| #[trigger] tree.nodes.contains_key(h) implies tree.nodes[h].virtual_losses
        == 0 by {
        assert(below(Seq::<Seq<PathStep>>::empty(), h) == 0);
    }
    assert forall|h: u32, side_two: bool, i: int| #[trigger]
        has_choice(tree, h, side_two, i) implies tree.nodes[h].options->0.side(side_two)[i].visits
        == credited_visits(tree, Seq::<Seq<PathStep>>::empty(), h, side_two, i) by {
        assert(below_choice(Seq::<Seq<PathStep>>::empty(), h, side_two, i) == 0);
    }
}

/// The books of a tree without virtual losses, at which both sides have made equally many choices,
/// are in order before any worker has set out.
pub proof fn an_unmarked_tree_is_in_order<I>(tree: SharedView<I>, root: u32)
    requires
        tree.is_tree(),
        forall|h: u32| #[trigger]
            tree.nodes.contains_key(h) ==> tree.nodes[h].virtual_losses == 0 && is_even(tree.nodes[h]),
    ensures
        is_ledger(tree, root, Seq::<Seq<PathStep>>::empty()),
{
    assert forall|h: u32| #[trigger] tree.nodes.contains_key(h) implies (
    tree.nodes[h].virtual_losses - below(Seq::<Seq<PathStep>>::empty(), h)) % 256 == 0 by {
        assert(below(Seq::<Seq<PathStep>>::empty(), h) == 0);
    }
}

/// A search starts with its books in order: before its root was added, no node had a virtual loss,
/// and both sides had made equally many choices at each.
pub proof fn a_new_root_is_in_order<I>(
    before: SharedView<I>,
    after: SharedView<I>,
    root: u32,
    side_one_options: Seq<MoveChoice>,
    side_two_options: Seq<MoveChoice>,
)
    requires
        before.is_tree(),
        forall|h: u32| #[trigger]
            before.nodes.contains_key(h) ==> before.nodes[h].virtual_losses == 0 && is_even(
                before.nodes[h],
            ),
        !before.nodes.contains_key(root),
        side_one_options.len() <= 255,
        side_two_options.len() <= 255,
        after == before.with_node(
            root,
            mcts_threaded::planted::<I>(side_one_options, side_two_options),
        ),
    ensures
        is_ledger(after, root, Seq::<Seq<PathStep>>::empty()),
{
    walk::untried_is_unvisited(side_one_options, 0u32);
    walk::untried_is_unvisited(side_two_options, 0u32);
    assert forall|k: (u32, u8, u8), i: int|
        #![trigger after.children[k][i]]
        after.children.contains_key(k) && 0 <= i < after.children[k].len() implies k.0
        < after.children[k][i] && after.nodes.contains_key(after.children[k][i]) by {
        let c = before.children[k][i];
        assert(before.nodes.contains_key(c));
    }
    an_unmarked_tree_is_in_order(after, root);
}

/// A worker sets out: `later` are the paths of the workers that are under way then.
pub open spec fn sets_out<B: Battle, A: Arithmetic>(
    before: SharedTree<B::Instruction>,
    after: SharedTree<B::Instruction>,
    root: u32,
    pending: Seq<Seq<PathStep>>,
    later: Seq<Seq<PathStep>>,
) -> bool {
    exists|state: B, path: Seq<PathStep>, begun: Begun<B>| #[trigger]
        mcts_threaded::begins::<B, A>(before, after, root, state, path, begun) && later
            == pending.push(path)
}

/// A worker comes back: `later` are the paths of the workers that are under way then.
pub open spec fn gets_back<I>(
    before: SharedView<I>,
    after: SharedView<I>,
    root: u32,
    pending: Seq<Seq<PathStep>>,
    later: Seq<Seq<PathStep>>,
) -> bool {
    exists|j: int, points_1: u32, points_2: u32|
        {
            &&& 0 <= j < pending.len()
            &&& after == #[trigger] mcts_threaded::settled(
                mcts_threaded::with_visit(before, walk::end_of(root, pending[j])),
                pending[j],
                points_1,
                points_2,
            )
            &&& later == pending.remove(j)
        }
}

/// Between tree number `k` and the next, one worker sets out or comes back.
pub open spec fn is_move<B: Battle, A: Arithmetic>(
    trees: Seq<SharedTree<B::Instruction>>,
    books: Seq<Seq<Seq<PathStep>>>,
    root: u32,
    k: int,
) -> bool {
    ||| sets_out::<B, A>(trees[k], trees[k + 1], root, books[k], books[k + 1])
    ||| gets_back(trees[k]@, trees[k + 1]@, root, books[k], books[k + 1])
}

/// In whatever order workers set out and come back, the books stay in order.
pub proof fn books_stay_in_order<B: Battle, A: Arithmetic>(
    trees: Seq<SharedTree<B::Instruction>>,
    books: Seq<Seq<Seq<PathStep>>>,
    root: u32,
    k: int,
)
    requires
        trees.len() == books.len(),
        0 <= k < trees.len(),
        forall|i: int| 0 <= i < trees.len() ==> (#[trigger] trees[i]).wf(),
        is_ledger(trees[0]@, root, books[0]),
        forall|i: int| 0 <= i < trees.len() - 1 ==> #[trigger] is_move::<B, A>(trees, books, root, i),
    ensures
        is_ledger(trees[k]@, root, books[k]),
    decreases k,
{
    if k > 0 {
        let (before, after) = (trees[k - 1], trees[k]);
        let pending = books[k - 1];
        books_stay_in_order::<B, A>(trees, books, root, k - 1);
        assert(is_move::<B, A>(trees, books, root, k - 1));
        if sets_out::<B, A>(before, after, root, pending, books[k]) {
            let (state, path, begun) = choose|state: B, path: Seq<PathStep>, begun: Begun<B>| #[trigger]
                mcts_threaded::begins::<B, A>(before, after, root, state, path, begun) && books[k]
                    == pending.push(path);
            going_down_is_booked::<B, A>(before, after, root, state, path, begun, pending);
        } else {
            let (j, points_1, points_2) = choose|j: int, points_1: u32, points_2: u32|
                {
                    &&& 0 <= j < pending.len()
                    &&& after@ == #[trigger] mcts_threaded::settled(
                        mcts_threaded::with_visit(before@, walk::end_of(root, pending[j])),
                        pending[j],
                        points_1,
                        points_2,
                    )
                    &&& books[k] == pending.remove(j)
                };
            coming_back_is_booked(before@, after@, root, points_1, points_2, pending, j);
        }
    }
}

/// A report counts the visits that it reports on.
proof fn reports_add_up<A: Arithmetic>(side: Seq<MoveNode<u32>>, result: Seq<MctsSideResult>)
    requires
        mcts_threaded::reports::<A>(side, result),
    ensures
        mcts::total_reported(result) == walk::total_visits(side),
    decreases side.len(),
{
    if side.len() > 0 {
        let (fore, told) = (side.drop_last(), result.drop_last());
        assert forall|i: int| 0 <= i < fore.len() implies {
            &&& (#[trigger] told[i]).move_choice == fore[i].move_choice
            &&& told[i].visits == fore[i].visits
            &&& call_ensures(A::from_scaled, (fore[i].total_score,), told[i].total_score)
        } by {
            assert(told[i] == result[i]);
        }
        reports_add_up::<A>(fore, told);
        let _ = result[result.len() - 1];
    }
}

/// In the report on the root of a search, both sides have made equally many choices, as far as 32
/// bits can tell.
pub proof fn reports_are_even<A: Arithmetic, I>(
    tree: SharedView<I>,
    root: u32,
    pending: Seq<Seq<PathStep>>,
    result: MctsResult,
)
    requires
        is_ledger(tree, root, pending),
        tree.nodes.contains_key(root),
        tree.nodes[root].options is Some,
        mcts_threaded::reports::<A>(tree.nodes[root].options->0.s1, result.s1@),
        mcts_threaded::reports::<A>(tree.nodes[root].options->0.s2, result.s2@),
    ensures
        (mcts::total_reported(result.s1@) - mcts::total_reported(result.s2@)) % 0x1_0000_0000 == 0,
{
    reports_add_up::<A>(tree.nodes[root].options->0.s1, result.s1@);
    reports_add_up::<A>(tree.nodes[root].options->0.s2, result.s2@);
}

/// The books are in order, and the root is visited and its choices are credited as the paths of the
/// workers that have come back say, as far as 32 bits can tell.
pub open spec fn is_tally<I>(
    tree: SharedView<I>,
    root: u32,
    pending: Seq<Seq<PathStep>>,
    done: Seq<Seq<PathStep>>,
) -> bool {
    &&& is_ledger(tree, root, pending)
    &&& tree.nodes.contains_key(root)
    &&& tree.nodes[root].options is Some
    &&& (tree.nodes[root].times_visited - done.len()) % 0x1_0000_0000 == 0
    &&& forall|d: int| 0 <= d < done.len() ==> walk::is_path(tree, root, #[trigger] done[d])
    &&& forall|side_two: bool, i: int| #[trigger]
        has_choice(tree, root, side_two, i) ==> (credited_visits(tree, pending, root, side_two, i)
            - below_choice(done, root, side_two, i)) % 0x1_0000_0000 == 0
}

/// A worker that goes down leaves the tally of the root as it is.
pub proof fn going_down_is_not_tallied<B: Battle, A: Arithmetic>(
    before: SharedTree<B::Instruction>,
    after: SharedTree<B::Instruction>,
    root: u32,
    state: B,
    path: Seq<PathStep>,
    begun: Begun<B>,
    pending: Seq<Seq<PathStep>>,
    done: Seq<Seq<PathStep>>,
)
    requires
        before.wf(),
        after.wf(),
        is_tally(before@, root, pending, done),
        mcts_threaded::begins::<B, A>(before, after, root, state, path, begun),
    ensures
        is_tally(after@, root, pending.push(path), done),
        same_choices(before@.nodes[root].options->0, after@.nodes[root].options->0),
{
    going_down_is_booked::<B, A>(before, after, root, state, path, begun, pending);
    let w = choose|w: WayDown<B>| #[trigger]
        mcts_threaded::goes_like::<B, A>(before, after, root, state, begun, w) && path == w.path();
    after.is_a_tree();
    begun_nodes::<B, A>(before, after, root, state, begun, w);
    assert(is_marked(before@.nodes[root], after@.nodes[root], path, root));
    let (o, p) = (before@.nodes[root].options->0, after@.nodes[root].options->0);
    assert(mcts::choices_of(p.s1).len() == mcts::choices_of(o.s1).len());
    assert(mcts::choices_of(p.s2).len() == mcts::choices_of(o.s2).len());
    assert forall|d: int| 0 <= d < done.len() implies walk::is_path(
        after@,
        root,
        #[trigger] done[d],
    ) by {
        walk::paths_stay(before@, after@, root, done[d]);
    }
    assert forall|side_two: bool, i: int| #[trigger] has_choice(after@, root, side_two, i) implies (
    credited_visits(after@, pending.push(path), root, side_two, i) - below_choice(
        done,
        root,
        side_two,
        i,
    )) % 0x1_0000_0000 == 0 by {
        assert(has_choice(before@, root, side_two, i));
    }
}

/// One visit more for one more path.
proof fn visit_counted(v: u32, n: nat)
    requires
        (v - n) % 0x1_0000_0000 == 0,
    ensures
        (v.wrapping_add(1) - (n + 1)) % 0x1_0000_0000 == 0,
{
    a_turn_changes_nothing(v.wrapping_add(1) - (n + 1), v - n, 0x1_0000_0000);
}

/// One credit more for one more path.
proof fn credit_counted(c: int, n: nat, more: nat)
    requires
        (c - n) % 0x1_0000_0000 == 0,
        0 <= c < 0x1_0000_0000,
        more <= 1,
    ensures
        ((c + more) % 0x1_0000_0000 - (n + more)) % 0x1_0000_0000 == 0,
{
    a_turn_changes_nothing(
        (c + more) % 0x1_0000_0000 - (n + more),
        c - n,
        0x1_0000_0000,
    );
}

/// A worker that comes back visits the root once.
proof fn the_root_is_visited<I>(
    tree: SharedView<I>,
    root: u32,
    path: Seq<PathStep>,
    points_1: u32,
    points_2: u32,
)
    requires
        tree.is_tree(),
        walk::is_path(tree, root, path),
    ensures
        mcts_threaded::settled(
            mcts_threaded::with_visit(tree, walk::end_of(root, path)),
            path,
            points_1,
            points_2,
        ).nodes[root].times_visited == tree.nodes[root].times_visited.wrapping_add(1),
{
    let end = walk::end_of(root, path);
    let lower = mcts_threaded::with_visit(tree, end);
    walk::paths_ascend(tree, root, path);
    root_is_there(tree, root, path);
    mcts_threaded::visiting_is_quiet(tree, root, path, end);
    mcts_threaded::settled_nodes(lower, root, path, points_1, points_2);
    if path.len() > 0 {
        assert(path[0].parent == root);
        assert(path[0].child <= end);
        assert(lower.nodes[root] == tree.nodes[root]);
    }
}

/// A worker that comes back is tallied at the root.
pub proof fn coming_back_is_tallied<I>(
    tree: SharedView<I>,
    after: SharedView<I>,
    root: u32,
    points_1: u32,
    points_2: u32,
    pending: Seq<Seq<PathStep>>,
    j: int,
    done: Seq<Seq<PathStep>>,
)
    requires
        is_tally(tree, root, pending, done),
        0 <= j < pending.len(),
        after == mcts_threaded::settled(
            mcts_threaded::with_visit(tree, walk::end_of(root, pending[j])),
            pending[j],
            points_1,
            points_2,
        ),
    ensures
        is_tally(after, root, pending.remove(j), done.push(pending[j])),
        same_choices(tree.nodes[root].options->0, after.nodes[root].options->0),
{
    let path = pending[j];
    let more = done.push(path);
    assert(walk::is_path(tree, root, path));
    coming_back_is_booked(tree, after, root, points_1, points_2, pending, j);
    cleared_nodes(tree, root, path, points_1, points_2);
    the_root_is_visited(tree, root, path, points_1, points_2);
    visit_counted(tree.nodes[root].times_visited, done.len());
    assert(after.nodes.dom().contains(root));
    assert(is_cleared(tree.nodes[root], after.nodes[root], path, root));
    assert forall|d: int| 0 <= d < more.len() implies walk::is_path(after, root, #[trigger] more[d]) by {
        if d < done.len() {
            assert(more[d] == done[d]);
        }
        walk::paths_stay(tree, after, root, more[d]);
    }
    assert forall|side_two: bool, i: int| #[trigger] has_choice(after, root, side_two, i) implies (
    credited_visits(after, pending.remove(j), root, side_two, i) - below_choice(
        more,
        root,
        side_two,
        i,
    )) % 0x1_0000_0000 == 0 by {
        assert(has_choice(tree, root, side_two, i));
        below_choice_of_push(done, path, root, side_two, i);
        credit_counted(
            credited_visits(tree, pending, root, side_two, i),
            below_choice(done, root, side_two, i),
            if takes(path, root, side_two, i) {
                1nat
            } else {
                0nat
            },
        );
    }
}

/// How many of these paths leave the root.
pub open spec fn departures(done: Seq<Seq<PathStep>>) -> nat
    decreases done.len(),
{
    if done.len() == 0 {
        0
    } else {
        departures(done.drop_last()) + (if done.last().len() > 0 {
            1nat
        } else {
            0nat
        })
    }
}

/// How many of these paths take one of the first `n` choices of one side at a node.
spec fn below_choices(done: Seq<Seq<PathStep>>, h: u32, side_two: bool, n: nat) -> nat
    decreases n,
{
    if n == 0 {
        0
    } else {
        below_choices(done, h, side_two, (n - 1) as nat) + below_choice(
            done,
            h,
            side_two,
            n - 1,
        )
    }
}

/// A path that takes one choice is counted once.
proof fn one_choice_counts_once(
    done: Seq<Seq<PathStep>>,
    path: Seq<PathStep>,
    h: u32,
    side_two: bool,
    n: nat,
    taken: int,
)
    requires
        forall|i: int| #[trigger] takes(path, h, side_two, i) <==> i == taken,
    ensures
        below_choices(done.push(path), h, side_two, n) == below_choices(done, h, side_two, n) + (
        if 0 <= taken < n {
            1nat
        } else {
            0nat
        }),
    decreases n,
{
    if n > 0 {
        one_choice_counts_once(done, path, h, side_two, (n - 1) as nat, taken);
        below_choice_of_push(done, path, h, side_two, n - 1);
    }
}

/// Each path that leaves the root takes one choice of each side there.
proof fn departures_take_choices<I>(
    tree: SharedView<I>,
    root: u32,
    done: Seq<Seq<PathStep>>,
    side_two: bool,
)
    requires
        tree.is_tree(),
        tree.nodes.contains_key(root),
        tree.nodes[root].options is Some,
        forall|d: int| 0 <= d < done.len() ==> walk::is_path(tree, root, #[trigger] done[d]),
    ensures
        below_choices(
            done,
            root,
            side_two,
            tree.nodes[root].options->0.side(side_two).len(),
        ) == departures(done),
        departures(done) <= done.len(),
        forall|i: int| #[trigger] below_choice(done, root, side_two, i) <= done.len(),
    decreases done.len(),
{
    let n = tree.nodes[root].options->0.side(side_two).len();
    if done.len() == 0 {
        no_path_takes_a_choice(done, root, side_two, n);
        assert forall|i: int| #[trigger] below_choice(done, root, side_two, i) <= done.len() by {}
    } else {
        let fore = done.drop_last();
        let path = done.last();
        assert forall|d: int| 0 <= d < fore.len() implies walk::is_path(
            tree,
            root,
            #[trigger] fore[d],
        ) by {
            assert(fore[d] == done[d]);
        }
        departures_take_choices(tree, root, fore, side_two);
        assert(done =~= fore.push(path));
        assert(walk::is_path(tree, root, done[done.len() - 1]));
        let taken = if path.len() > 0 {
            index_of(path[0], side_two)
        } else {
            -1
        };
        assert forall|i: int| #[trigger] takes(path, root, side_two, i) <==> i == taken
            && path.len() > 0 by {
            if path.len() > 0 {
                walk::paths_ascend(tree, root, path);
                left_node(tree, root, path, 0);
            }
        }
        if path.len() > 0 {
            walk::paths_ascend(tree, root, path);
            assert(tree.nodes[path[0].parent].has_pair(path[0].s1_index, path[0].s2_index));
            one_choice_counts_once(fore, path, root, side_two, n, taken);
        } else {
            no_choice_counts_nothing(fore, path, root, side_two, n);
        }
        assert forall|i: int| #[trigger] below_choice(done, root, side_two, i) <= done.len() by {
            below_choice_of_push(fore, path, root, side_two, i);
        }
    }
}

/// A path that takes no choice is not counted.
proof fn no_choice_counts_nothing(
    done: Seq<Seq<PathStep>>,
    path: Seq<PathStep>,
    h: u32,
    side_two: bool,
    n: nat,
)
    requires
        forall|i: int| !#[trigger] takes(path, h, side_two, i),
    ensures
        below_choices(done.push(path), h, side_two, n) == below_choices(done, h, side_two, n),
    decreases n,
{
    if n > 0 {
        no_choice_counts_nothing(done, path, h, side_two, (n - 1) as nat);
        below_choice_of_push(done, path, h, side_two, n - 1);
    }
}

/// Without paths no choice is taken.
proof fn no_path_takes_a_choice(done: Seq<Seq<PathStep>>, h: u32, side_two: bool, n: nat)
    requires
        done.len() == 0,
    ensures
        below_choices(done, h, side_two, n) == 0,
    decreases n,
{
    if n > 0 {
        no_path_takes_a_choice(done, h, side_two, (n - 1) as nat);
    }
}

/// The visits of a side are those of its choices together.
proof fn visits_are_summed(
    side: Seq<MoveNode<u32>>,
    done: Seq<Seq<PathStep>>,
    h: u32,
    side_two: bool,
)
    requires
        forall|i: int|
            0 <= i < side.len() ==> (#[trigger] side[i]).visits == below_choice(
                done,
                h,
                side_two,
                i,
            ),
    ensures
        walk::total_visits(side) == below_choices(done, h, side_two, side.len()),
    decreases side.len(),
{
    if side.len() > 0 {
        let fore = side.drop_last();
        assert forall|i: int| 0 <= i < fore.len() implies (#[trigger] fore[i]).visits
            == below_choice(done, h, side_two, i) by {
            assert(fore[i] == side[i]);
        }
        visits_are_summed(fore, done, h, side_two);
        let _ = side[side.len() - 1];
    }
}

/// Once all workers have come back, the root has been visited as often as one of them did, and the
/// choices of each side have been visited as often as a worker left the root, as long as 32 bits can
/// count them.
pub proof fn an_idle_root_is_tallied<I>(
    tree: SharedView<I>,
    root: u32,
    done: Seq<Seq<PathStep>>,
)
    requires
        is_tally(tree, root, Seq::<Seq<PathStep>>::empty(), done),
        done.len() <= u32::MAX,
    ensures
        tree.nodes[root].times_visited == done.len(),
        walk::total_visits(tree.nodes[root].options->0.s1) == departures(done),
        walk::total_visits(tree.nodes[root].options->0.s2) == departures(done),
        departures(done) <= done.len(),
{
    let none = Seq::<Seq<PathStep>>::empty();
    let o = tree.nodes[root].options->0;
    departures_take_choices(tree, root, done, false);
    departures_take_choices(tree, root, done, true);
    assert forall|side_two: bool, i: int| #[trigger] has_choice(tree, root, side_two, i) implies o.side(
        side_two,
    )[i].visits == below_choice(done, root, side_two, i) by {
        assert(below_choice(none, root, side_two, i) == 0);
        let v = o.side(side_two)[i].visits;
        assert(credited_visits(tree, none, root, side_two, i) == v);
    }
    assert forall|i: int| 0 <= i < o.s1.len() implies (#[trigger] o.s1[i]).visits == below_choice(
        done,
        root,
        false,
        i,
    ) by {
        assert(has_choice(tree, root, false, i));
    }
    assert forall|i: int| 0 <= i < o.s2.len() implies (#[trigger] o.s2[i]).visits == below_choice(
        done,
        root,
        true,
        i,
    ) by {
        assert(has_choice(tree, root, true, i));
    }
    visits_are_summed(o.s1, done, root, false);
    visits_are_summed(o.s2, done, root, true);
}

/// The battle is not over in this state.
pub open spec fn goes_on<B: Battle>(state: B) -> bool {
    forall|over: Single| #[trigger]
        call_ensures(B::battle_is_over, (&state,), over) ==> over.is_equal(Single { bits: 0 })
}

/// A worker leaves a root at which some side never waits, where the battle is not over.
pub proof fn workers_leave_the_root<B: Battle, A: Arithmetic>(
    before: SharedTree<B::Instruction>,
    after: SharedTree<B::Instruction>,
    root: u32,
    state: B,
    path: Seq<PathStep>,
    begun: Begun<B>,
)
    requires
        mcts_threaded::begins::<B, A>(before, after, root, state, path, begun),
        mcts::always_moves(before@.nodes[root]),
        goes_on(state),
    ensures
        path.len() > 0,
{
    let w = choose|w: WayDown<B>| #[trigger]
        mcts_threaded::goes_like::<B, A>(before, after, root, state, begun, w) && path == w.path();
    if path.len() == 0 {
        assert(w.next.1 is None);
        assert(w.descent.len() == 0);
        let marked = mcts_threaded::loaded(before@, w.descent);
        assert(marked == before@);
        let states = choose|states: Seq<B>| #[trigger]
            walk::goes_down(before@, w.descent, states) && states[0] == state && states.last()
                == w.found.state;
        assert(w.found.state == state);
        let o = before@.nodes[root].options->0;
        let (i, j) = (w.found.s1_index as int, w.found.s2_index as int);
        let p = w.marked@.nodes[root].options->0;
        assert(w.selected@.nodes[root].options->0 == o);
        assert(p.s1[i].move_choice == mcts::choices_of(o.s1)[i]);
        assert(p.s2[j].move_choice == mcts::choices_of(o.s2)[j]);
        let over = choose|over: Single| #[trigger]
            call_ensures(B::battle_is_over, (&w.found.state,), over) && if mcts_threaded::leads_on(
                over,
                p.s1[i].move_choice,
                p.s2[j].move_choice,
            ) {
                exists|
                    next: B,
                    generated: Vec<StateInstructions<B::Instruction>>,
                    ordered: Seq<StateInstructions<B::Instruction>>,
                |
                    {
                        &&& #[trigger] walk::generates(
                            w.found.state,
                            p.s1[i].move_choice,
                            p.s2[j].move_choice,
                            w.descent.len(),
                            next,
                            generated,
                        )
                        &&& #[trigger] walk::is_ordering(generated@, ordered)
                        &&& mcts_threaded::branches_out::<B, A>(
                            w.marked,
                            w.expanded,
                            w.found,
                            next,
                            ordered,
                            Ok(w.next),
                        )
                    }
            } else {
                Ok::<(B, Option<u32>), SearchError>(w.next) == Ok::<(B, Option<u32>), SearchError>(
                    (w.found.state, None),
                ) && w.expanded == w.marked
            };
        assert(mcts_threaded::leads_on(over, p.s1[i].move_choice, p.s2[j].move_choice));
    }
}

/// A worker sets out from this state, or one comes back; `done` are the paths of those that have
/// come back before, and `later_done` of those that have come back then.
pub open spec fn comes_or_goes<B: Battle, A: Arithmetic>(
    before: SharedTree<B::Instruction>,
    after: SharedTree<B::Instruction>,
    root: u32,
    state: B,
    books: (Seq<Seq<PathStep>>, Seq<Seq<PathStep>>),
    logs: (Seq<Seq<PathStep>>, Seq<Seq<PathStep>>),
) -> bool {
    ||| exists|path: Seq<PathStep>, begun: Begun<B>| #[trigger]
        mcts_threaded::begins::<B, A>(before, after, root, state, path, begun) && books.1
            == books.0.push(path) && logs.1 == logs.0
    ||| exists|j: int, points_1: u32, points_2: u32|
        {
            &&& 0 <= j < books.0.len()
            &&& after@ == #[trigger] mcts_threaded::settled(
                mcts_threaded::with_visit(before@, walk::end_of(root, books.0[j])),
                books.0[j],
                points_1,
                points_2,
            )
            &&& books.1 == books.0.remove(j)
            &&& logs.1 == logs.0.push(books.0[j])
        }
}

/// What happens in a search that starts from `state`: `books` are the paths of the workers that are
/// under way, and `logs` of those that have come back.
pub open spec fn is_history<B: Battle, A: Arithmetic>(
    trees: Seq<SharedTree<B::Instruction>>,
    books: Seq<Seq<Seq<PathStep>>>,
    logs: Seq<Seq<Seq<PathStep>>>,
    root: u32,
    state: B,
) -> bool {
    &&& 0 < trees.len()
    &&& books.len() == trees.len()
    &&& logs.len() == trees.len()
    &&& forall|k: int| 0 <= k < trees.len() ==> (#[trigger] trees[k]).wf()
    &&& forall|k: int|
        0 <= k < trees.len() - 1 ==> comes_or_goes::<B, A>(
            #[trigger] trees[k],
            trees[k + 1],
            root,
            state,
            (books[k], books[k + 1]),
            (logs[k], logs[k + 1]),
        )
}

/// All of these paths leave the root.
pub open spec fn all_depart(paths: Seq<Seq<PathStep>>) -> bool {
    forall|d: int| 0 <= d < paths.len() ==> (#[trigger] paths[d]).len() > 0
}

/// In whatever order workers set out and come back, the tally of the root stays in order; and where
/// some side never waits at the root and the battle is not over, all workers leave it.
pub proof fn tallies_stay_in_order<B: Battle, A: Arithmetic>(
    trees: Seq<SharedTree<B::Instruction>>,
    books: Seq<Seq<Seq<PathStep>>>,
    logs: Seq<Seq<Seq<PathStep>>>,
    root: u32,
    state: B,
    k: int,
)
    requires
        is_history::<B, A>(trees, books, logs, root, state),
        is_tally(trees[0]@, root, books[0], logs[0]),
        0 <= k < trees.len(),
    ensures
        is_tally(trees[k]@, root, books[k], logs[k]),
        same_choices(trees[0]@.nodes[root].options->0, trees[k]@.nodes[root].options->0),
        mcts::always_moves(trees[0]@.nodes[root]) && goes_on(state) && all_depart(books[0])
            && all_depart(logs[0]) ==> all_depart(books[k]) && all_depart(logs[k]),
    decreases k,
{
    if k > 0 {
        let (before, after) = (trees[k - 1], trees[k]);
        let (pending, done) = (books[k - 1], logs[k - 1]);
        tallies_stay_in_order::<B, A>(trees, books, logs, root, state, k - 1);
        if exists|path: Seq<PathStep>, begun: Begun<B>| #[trigger]
            mcts_threaded::begins::<B, A>(before, after, root, state, path, begun) && books[k]
                == pending.push(path) && logs[k] == done {
            let (path, begun) = choose|path: Seq<PathStep>, begun: Begun<B>| #[trigger]
                mcts_threaded::begins::<B, A>(before, after, root, state, path, begun) && books[k]
                    == pending.push(path) && logs[k] == done;
            going_down_is_not_tallied::<B, A>(
                before,
                after,
                root,
                state,
                path,
                begun,
                pending,
                done,
            );
            if mcts::always_moves(before@.nodes[root]) && goes_on(state) {
                workers_leave_the_root::<B, A>(before, after, root, state, path, begun);
            }
        } else {
            let (j, points_1, points_2) = choose|j: int, points_1: u32, points_2: u32|
                {
                    &&& 0 <= j < pending.len()
                    &&& after@ == #[trigger] mcts_threaded::settled(
                        mcts_threaded::with_visit(before@, walk::end_of(root, pending[j])),
                        pending[j],
                        points_1,
                        points_2,
                    )
                    &&& books[k] == pending.remove(j)
                    &&& logs[k] == done.push(pending[j])
                };
            coming_back_is_tallied(
                before@,
                after@,
                root,
                points_1,
                points_2,
                pending,
                j,
                done,
            );
            if all_depart(pending) && all_depart(done) {
                assert forall|d: int| 0 <= d < books[k].len() implies (
                #[trigger] books[k][d]).len() > 0 by {
                    let _ = pending[if d < j {
                        d
                    } else {
                        d + 1
                    }];
                }
            }
        }
    }
}

/// Where all paths leave the root, as many do as there are.
proof fn all_departures_count(done: Seq<Seq<PathStep>>)
    requires
        all_depart(done),
    ensures
        departures(done) == done.len(),
    decreases done.len(),
{
    if done.len() > 0 {
        let fore = done.drop_last();
        assert forall|d: int| 0 <= d < fore.len() implies (#[trigger] fore[d]).len() > 0 by {
            assert(fore[d] == done[d]);
        }
        all_departures_count(fore);
        let _ = done[done.len() - 1];
    }
}

/// A search starts with the tally of its root in order.
pub proof fn a_new_root_is_tallied<I>(
    before: SharedView<I>,
    after: SharedView<I>,
    root: u32,
    side_one_options: Seq<MoveChoice>,
    side_two_options: Seq<MoveChoice>,
)
    requires
        before.is_tree(),
        forall|h: u32| #[trigger]
            before.nodes.contains_key(h) ==> before.nodes[h].virtual_losses == 0 && is_even(
                before.nodes[h],
            ),
        !before.nodes.contains_key(root),
        side_one_options.len() <= 255,
        side_two_options.len() <= 255,
        after == before.with_node(
            root,
            mcts_threaded::planted::<I>(side_one_options, side_two_options),
        ),
    ensures
        is_tally(after, root, Seq::<Seq<PathStep>>::empty(), Seq::<Seq<PathStep>>::empty()),
{
    let none = Seq::<Seq<PathStep>>::empty();
    a_new_root_is_in_order(before, after, root, side_one_options, side_two_options);
    assert forall|side_two: bool, i: int| #[trigger] has_choice(after, root, side_two, i) implies (
    credited_visits(after, none, root, side_two, i) - below_choice(none, root, side_two, i))
        % 0x1_0000_0000 == 0 by {
        assert(below_choice(none, root, side_two, i) == 0);
        assert(after.nodes[root].options->0.side(side_two)[i].visits == 0);
    }
}

/// The report of a shared search whose workers have all come back, no more of them than 32 bits can
/// count: it reports on the choices that it was given; both sides have made equally many, and no
/// more than there were iterations; and where some side never waits and the battle is not over,
/// exactly as many.
pub proof fn reports_tally_with_iterations<B: Battle, A: Arithmetic>(
    empty: SharedView<B::Instruction>,
    trees: Seq<SharedTree<B::Instruction>>,
    books: Seq<Seq<Seq<PathStep>>>,
    logs: Seq<Seq<Seq<PathStep>>>,
    root: u32,
    state: B,
    side_one_options: Seq<MoveChoice>,
    side_two_options: Seq<MoveChoice>,
    result: MctsResult,
)
    requires
        empty.nodes.dom().is_empty(),
        empty.children.dom().is_empty(),
        side_one_options.len() <= 255,
        side_two_options.len() <= 255,
        is_history::<B, A>(trees, books, logs, root, state),
        trees[0]@ == empty.with_node(
            root,
            mcts_threaded::planted::<B::Instruction>(side_one_options, side_two_options),
        ),
        books[0].len() == 0,
        logs[0].len() == 0,
        books.last().len() == 0,
        logs.last().len() <= u32::MAX,
        mcts_threaded::reports::<A>(trees.last()@.nodes[root].options->0.s1, result.s1@),
        mcts_threaded::reports::<A>(trees.last()@.nodes[root].options->0.s2, result.s2@),
        result.iteration_count == trees.last()@.nodes[root].times_visited,
    ensures
        mcts::reported_choices(result.s1@) == side_one_options,
        mcts::reported_choices(result.s2@) == side_two_options,
        result.iteration_count == logs.last().len(),
        mcts::total_reported(result.s1@) == mcts::total_reported(result.s2@),
        mcts::total_reported(result.s1@) <= result.iteration_count,
        (mcts::never_waits(side_one_options) || mcts::never_waits(side_two_options)) && goes_on(
            state,
        ) ==> mcts::total_reported(result.s1@) == result.iteration_count,
{
    let none = Seq::<Seq<PathStep>>::empty();
    let n = trees.len() - 1;
    assert(books[0] =~= none);
    assert(logs[0] =~= none);
    assert(books.last() =~= none);
    assert(empty.is_tree());
    a_new_root_is_tallied(empty, trees[0]@, root, side_one_options, side_two_options);
    tallies_stay_in_order::<B, A>(trees, books, logs, root, state, n);
    an_idle_root_is_tallied(trees.last()@, root, logs.last());
    let o = trees.last()@.nodes[root].options->0;
    reports_add_up::<A>(o.s1, result.s1@);
    reports_add_up::<A>(o.s2, result.s2@);
    let start = trees[0]@.nodes[root].options->0;
    assert(mcts::choices_of(start.s1) =~= side_one_options);
    assert(mcts::choices_of(start.s2) =~= side_two_options);
    assert forall|i: int| 0 <= i < result.s1@.len() implies (#[trigger] result.s1@[i]).move_choice
        == mcts::choices_of(o.s1)[i] by {}
    assert forall|i: int| 0 <= i < result.s2@.len() implies (#[trigger] result.s2@[i]).move_choice
        == mcts::choices_of(o.s2)[i] by {}
    assert(mcts::choices_of(o.s1).len() == side_one_options.len());
    assert(mcts::choices_of(o.s2).len() == side_two_options.len());
    assert(mcts::reported_choices(result.s1@) =~= side_one_options);
    assert(mcts::reported_choices(result.s2@) =~= side_two_options);
    if (mcts::never_waits(side_one_options) || mcts::never_waits(side_two_options)) && goes_on(state) {
        all_departures_count(logs.last());
    }
}

} // verus!
