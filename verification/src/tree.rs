//! The tree that a search grows, and the memory that it lies in.

use crate::child_map::{child_key, ChildMap};
use crate::engine::{MoveChoice, StateInstructions};
use crate::perf::move_options::NodeOptions;
use crate::perf::virt_arena;
use crate::perf::virt_arena::{
    is_indexable, Arena, ArenaPool, Cursor, Handle, NodeOptionsHandle, PoolView, SliceHandle, Values,
    INITIAL_OFFSET,
};
use crate::single::Single;
use vstd::prelude::*;

verus! {

broadcast use vstd::layout::align_nonzero;

/// How one choice of one side has done so far.
pub struct MoveNode<S> {
    pub move_choice: MoveChoice,
    pub total_score: S,
    pub visits: u32,
}

impl<S: Copy> Clone for MoveNode<S> {
    fn clone(&self) -> (r: Self)
        ensures
            r == *self,
    {
        MoveNode {
            move_choice: self.move_choice,
            total_score: self.total_score,
            visits: self.visits,
        }
    }
}

impl<S: Copy> Copy for MoveNode<S> {

}

/// A state that the search has reached.
pub struct Node<S, V, I> {
    pub times_visited: u32,
    /// How likely this node was as a result of the parent.
    pub percentage: Single,
    /// The instructions that led to this node from the parent.
    pub instruction_list: SliceHandle<I>,
    /// How the choices in this state have done; missing until the node is first looked at.
    pub options: Option<NodeOptionsHandle<MoveNode<S>>>,
    /// How many workers are below this node.
    pub virtual_losses: V,
}

/// How the choices of both sides have done.
pub struct OptionsView<S> {
    pub s1: Seq<MoveNode<S>>,
    pub s2: Seq<MoveNode<S>>,
}

/// What a node amounts to.
pub struct NodeView<S, V, I> {
    pub times_visited: u32,
    pub percentage: Single,
    pub instructions: Seq<I>,
    pub options: Option<OptionsView<S>>,
    pub virtual_losses: V,
}

/// What a tree amounts to: its nodes by their handles, and for a node and a pair of choices the
/// handles of the nodes that they lead to.
pub struct TreeView<S, V, I> {
    pub nodes: Map<u32, NodeView<S, V, I>>,
    pub children: Map<(u32, u8, u8), Seq<u32>>,
}

/// Why a search could not go on.
#[derive(Clone, Copy, PartialEq, Eq, Structural, Debug)]
pub enum SearchError {
    /// The arena has no room left.
    ArenaFull,
    /// A side has more options than a block can hold.
    TooManyOptions,
    /// A side has no options.
    NoOptions,
    /// A pair of choices has no outcome.
    NoOutcome,
    /// Nodes or instructions have sizes with which 4 byte handles cannot tell them apart.
    NotIndexable,
}

/// Nodes, their instructions and their options, in one arena of a pool, and the map from nodes to
/// their children.
pub struct Tree<S, V, I, C> {
    pool: ArenaPool,
    arena: Arena,
    nodes: Values<Node<S, V, I>>,
    lists: Values<I>,
    blocks: Values<NodeOptions<MoveNode<S>>>,
    children: C,
}

impl<S, V, I> NodeView<S, V, I> {
    /// Both sides have options at the node.
    pub open spec fn can_choose(self) -> bool {
        self.options matches Some(o) && 0 < o.s1.len() && 0 < o.s2.len()
    }

    /// The node has options, and these are among them.
    pub open spec fn has_pair(self, s1_index: u8, s2_index: u8) -> bool {
        self.options matches Some(o) && s1_index < o.s1.len() && s2_index < o.s2.len()
    }
}

/// The number under which the children of a node are filed.
pub open spec fn key_of(k: (u32, u8, u8)) -> u64 {
    crate::child_map::spec_child_key(k.0, k.1, k.2) as u64
}

/// What is left of the memory of a tree.
pub struct MemoryView {
    pub pool: PoolView,
    pub cursor: Cursor,
}

impl MemoryView {
    /// The memory of a tree in which nothing is stored, and which takes its slices from this pool.
    pub open spec fn over(pool: PoolView) -> Self {
        MemoryView { pool, cursor: Cursor { offset: INITIAL_OFFSET as int, rem_len: 0 } }
    }

    /// The memory of a tree with a pool of its own, in which nothing is stored.
    pub open spec fn untouched() -> Self {
        Self::over(PoolView { used: INITIAL_OFFSET as int, committed: 0 })
    }

    /// `len` bytes can be had at a multiple of `align`.
    pub open spec fn has(self, align: nat, len: int) -> bool {
        self.cursor.room(self.pool, align as int, len)
    }

    /// The memory once `len` bytes have been taken at a multiple of `align`.
    pub open spec fn after(self, align: nat, len: int) -> Self {
        MemoryView {
            pool: self.cursor.pool_after(self.pool, align as int, len),
            cursor: self.cursor.after(self.pool, align as int, len),
        }
    }

    /// A list of `len` instructions can be stored.
    pub open spec fn has_list<I>(self, len: nat) -> bool {
        &&& self.has(vstd::layout::align_of::<I>(), virt_arena::bytes::<I>(len))
        &&& len <= u32::MAX
    }

    /// The memory once a list of `len` instructions is stored.
    pub open spec fn after_list<I>(self, len: nat) -> Self {
        self.after(vstd::layout::align_of::<I>(), virt_arena::bytes::<I>(len))
    }

    /// Lists of these lengths can be stored one after the other.
    pub open spec fn has_lists<I>(self, lens: Seq<nat>) -> bool
        decreases lens.len(),
    {
        lens.len() == 0 || (self.has_lists::<I>(lens.drop_last()) && self.after_lists::<I>(
            lens.drop_last(),
        ).has_list::<I>(lens.last()))
    }

    /// The memory once lists of these lengths are stored one after the other.
    pub open spec fn after_lists<I>(self, lens: Seq<nat>) -> Self
        decreases lens.len(),
    {
        if lens.len() == 0 {
            self
        } else {
            self.after_lists::<I>(lens.drop_last()).after_list::<I>(lens.last())
        }
    }

    /// `count` nodes can be stored next to each other.
    pub open spec fn has_nodes<N>(self, count: nat) -> bool {
        &&& self.has(vstd::layout::align_of::<N>(), virt_arena::bytes::<N>(count))
        &&& count <= u32::MAX
    }

    /// The memory once `count` nodes are stored next to each other.
    pub open spec fn after_nodes<N>(self, count: nat) -> Self {
        self.after(vstd::layout::align_of::<N>(), virt_arena::bytes::<N>(count))
    }

    /// The options of a node, `count` for both sides together, can be stored.
    pub open spec fn has_block<T>(self, count: nat) -> bool {
        self.has(vstd::layout::align_of::<T>(), virt_arena::block_bytes::<T>(count))
    }

    /// The memory once the options of a node are stored.
    pub open spec fn after_block<T>(self, count: nat) -> Self {
        self.after(vstd::layout::align_of::<T>(), virt_arena::block_bytes::<T>(count))
    }
}

impl<S, V, I, C: ChildMap> Tree<S, V, I, C> {
    /// What is left of the memory.
    pub closed spec fn memory(self) -> MemoryView {
        MemoryView { pool: self.pool@, cursor: self.arena.cursor() }
    }

    /// The slice that is filed for a node and a pair of choices.
    closed spec fn branch(self, k: (u32, u8, u8)) -> SliceHandle<Node<S, V, I>> {
        let e = self.children.entries()[key_of(k)];
        SliceHandle::of(e.0, e.1)
    }

    /// What a stored node amounts to.
    closed spec fn node_view(self, n: Node<S, V, I>) -> NodeView<S, V, I> {
        NodeView {
            times_visited: n.times_visited,
            percentage: n.percentage,
            instructions: self.lists.slice(n.instruction_list),
            options: match n.options {
                Some(o) => Some(
                    OptionsView {
                        s1: self.blocks@[o.spec_index()].first(),
                        s2: self.blocks@[o.spec_index()].second(),
                    },
                ),
                None => None,
            },
            virtual_losses: n.virtual_losses,
        }
    }

    /// What the tree amounts to.
    pub closed spec fn view(self) -> TreeView<S, V, I> {
        TreeView {
            nodes: Map::new(
                |h: u32| self.nodes@.contains_key(h),
                |h: u32| self.node_view(self.nodes@[h]),
            ),
            children: Map::new(
                |k: (u32, u8, u8)| self.children.entries().contains_key(key_of(k)),
                |k: (u32, u8, u8)|
                    Seq::new(self.branch(k).spec_len(), |i: int| self.branch(k).key(i)),
            ),
        }
    }

    /// A stored node refers to instructions and options that are stored too.
    spec fn node_ok(self, n: Node<S, V, I>) -> bool {
        &&& self.lists.holds_slice(n.instruction_list)
        &&& n.options matches Some(o) ==> self.blocks@.contains_key(o.spec_index())
            && self.blocks@[o.spec_index()].wf()
    }

    /// The children of a node are stored after it, and are filed under options that it has.
    spec fn branch_ok(self, k: (u32, u8, u8)) -> bool {
        &&& self.nodes@.contains_key(k.0)
        &&& self.node_view(self.nodes@[k.0]).has_pair(k.1, k.2)
        &&& 0 < self.branch(k).spec_len()
        &&& self.nodes.holds_slice(self.branch(k))
        &&& k.0 < self.branch(k).first()
    }

    /// No two nodes share a block of options.
    spec fn blocks_differ(self) -> bool {
        forall|g: u32, h: u32|
            #![trigger self.nodes@[g], self.nodes@[h]]
            self.nodes@.contains_key(g) && self.nodes@.contains_key(h) && g != h
                && self.nodes@[g].options is Some && self.nodes@[h].options is Some
                ==> self.nodes@[g].options->0.spec_index() != self.nodes@[h].options->0.spec_index()
    }

    /// The arena is in order, takes its slices from the pool, and stands behind everything that is
    /// stored.
    spec fn memory_ok(self) -> bool {
        &&& self.pool.wf()
        &&& self.arena.wf()
        &&& self.arena.fits(self.pool)
        &&& self.nodes.wf()
        &&& self.lists.wf()
        &&& self.blocks.wf()
        &&& self.arena.cursor().is_behind(self.nodes@.dom())
        &&& self.arena.cursor().is_behind(self.lists@.dom())
        &&& self.arena.cursor().is_behind(self.blocks@.dom())
        &&& storable::<S, V, I>()
    }

    /// Everything that the tree refers to is stored in it, and children are stored after their
    /// parents.
    pub closed spec fn wf(self) -> bool {
        &&& self.memory_ok()
        &&& forall|h: u32| #[trigger] self.nodes@.contains_key(h) ==> self.node_ok(self.nodes@[h])
        &&& self.blocks_differ()
        &&& forall|k: (u32, u8, u8)|
            self.children.entries().contains_key(#[trigger] key_of(k)) ==> self.branch_ok(k)
    }
}

/// Nodes have handles of their own where they stand next to each other, and instructions have a size,
/// so that lists of them can be told apart.
pub open spec fn storable<S, V, I>() -> bool {
    virt_arena::indexable::<Node<S, V, I>>() && 0 < vstd::layout::size_of::<I>()
}

impl<S, V, I> TreeView<S, V, I> {
    /// Children are filed for options that their parent has, their handles ascend from above
    /// their parent's, and no side has more than 255 options.
    pub open spec fn is_tree(self) -> bool {
        &&& forall|k: (u32, u8, u8)| #[trigger]
            self.children.contains_key(k) ==> {
                &&& self.nodes.contains_key(k.0)
                &&& self.nodes[k.0].has_pair(k.1, k.2)
                &&& 0 < self.children[k].len()
            }
        &&& forall|k: (u32, u8, u8), i: int|
            #![trigger self.children[k][i]]
            self.children.contains_key(k) && 0 <= i < self.children[k].len() ==> k.0
                < self.children[k][i] && self.nodes.contains_key(self.children[k][i])
        &&& forall|h: u32| #[trigger]
            self.nodes.contains_key(h) ==> (self.nodes[h].options matches Some(o) ==> o.s1.len()
                <= 255 && o.s2.len() <= 255)
    }
}

impl<S: Copy, V: Copy, I, C: ChildMap> Tree<S, V, I, C> {
    /// What is stored in a tree is a tree.
    pub proof fn is_a_tree(self)
        requires
            self.wf(),
        ensures
            self@.is_tree(),
    {
        let v = self@;
        assert forall|k: (u32, u8, u8)| #[trigger] v.children.contains_key(k) implies {
            &&& v.nodes.contains_key(k.0)
            &&& v.nodes[k.0].has_pair(k.1, k.2)
            &&& 0 < v.children[k].len()
        } by {
            assert(self.children.entries().contains_key(key_of(k)));
            assert(self.branch_ok(k));
        }
        assert forall|k: (u32, u8, u8), i: int|
            #![trigger v.children[k][i]]
            v.children.contains_key(k) && 0 <= i < v.children[k].len() implies k.0
            < v.children[k][i] && v.nodes.contains_key(v.children[k][i]) by {
            assert(self.children.entries().contains_key(key_of(k)));
            assert(self.branch_ok(k));
            self.nodes.slice_is_held(self.branch(k));
            assert(self.nodes@.contains_key(self.branch(k).key(i)));
            let d = virt_arena::stride::<Node<S, V, I>>();
            assert(0 <= i * d) by (nonlinear_arith)
                requires
                    0 <= i,
                    0 <= d,
            ;
        }
        assert forall|h: u32| #[trigger] v.nodes.contains_key(h) implies (
        v.nodes[h].options matches Some(o) ==> o.s1.len() <= 255 && o.s2.len() <= 255) by {
            assert(self.node_ok(self.nodes@[h]));
            if self.nodes@[h].options is Some {
                self.blocks@[self.nodes@[h].options->0.spec_index()].sections_are_short();
            }
        }
    }

    /// A tree without nodes, with a pool of its own.
    pub fn new(children: C) -> (r: Result<Self, SearchError>)
        requires
            children.entries().dom().is_empty(),
        ensures
            r is Ok <==> storable::<S, V, I>(),
            r matches Err(e) ==> e == SearchError::NotIndexable,
            r matches Ok(t) ==> {
                &&& t.wf()
                &&& t@.nodes == Map::<u32, NodeView<S, V, I>>::empty()
                &&& t@.children == Map::<(u32, u8, u8), Seq<u32>>::empty()
                &&& t.memory() == MemoryView::untouched()
            },
    {
        Tree::new_in(ArenaPool::new(), children)
    }

    /// A tree without nodes, which lies in this pool.
    pub fn new_in(pool: ArenaPool, children: C) -> (r: Result<Self, SearchError>)
        requires
            pool.wf(),
            children.entries().dom().is_empty(),
        ensures
            r is Ok <==> storable::<S, V, I>(),
            r matches Err(e) ==> e == SearchError::NotIndexable,
            r matches Ok(t) ==> {
                &&& t.wf()
                &&& t@.nodes == Map::<u32, NodeView<S, V, I>>::empty()
                &&& t@.children == Map::<(u32, u8, u8), Seq<u32>>::empty()
                &&& t.memory() == MemoryView::over(pool@)
            },
    {
        if !is_indexable::<Node<S, V, I>>() || core::mem::size_of::<I>() == 0 {
            return Err(SearchError::NotIndexable);
        }
        let arena = pool.sub_arena();
        let t = Tree {
            pool,
            arena,
            nodes: Values::new(),
            lists: Values::new(),
            blocks: Values::new(),
            children,
        };
        assert(t@.nodes =~= Map::<u32, NodeView<S, V, I>>::empty());
        assert(t@.children =~= Map::<(u32, u8, u8), Seq<u32>>::empty());
        Ok(t)
    }

    /// Reads a node.
    pub fn node(&self, h: u32) -> (r: &Node<S, V, I>)
        requires
            self.wf(),
            self@.nodes.contains_key(h),
        ensures
            r.times_visited == self@.nodes[h].times_visited,
            r.percentage == self@.nodes[h].percentage,
            r.virtual_losses == self@.nodes[h].virtual_losses,
            r.options is Some <==> self@.nodes[h].options is Some,
    {
        Handle::from_index(h).resolve(&self.nodes)
    }

    /// Reads the instructions that lead to a node.
    pub fn instructions(&self, h: u32) -> (r: &[I])
        requires
            self.wf(),
            self@.nodes.contains_key(h),
        ensures
            r@ == self@.nodes[h].instructions,
    {
        let node = Handle::<Node<S, V, I>>::from_index(h).resolve(&self.nodes);
        proof {
            assert(self.node_ok(self.nodes@[h]));
        }
        node.instruction_list.resolve(&self.lists)
    }

    /// Reads the options of a node that has some.
    pub fn options(&self, h: u32) -> (r: &NodeOptions<MoveNode<S>>)
        requires
            self.wf(),
            self@.nodes.contains_key(h),
            self@.nodes[h].options is Some,
        ensures
            r.wf(),
            r.first() == self@.nodes[h].options->0.s1,
            r.second() == self@.nodes[h].options->0.s2,
    {
        let node = Handle::<Node<S, V, I>>::from_index(h).resolve(&self.nodes);
        proof {
            assert(self.node_ok(self.nodes@[h]));
        }
        match node.options {
            Some(o) => o.resolve(&self.blocks),
            None => {
                proof {
                    assert(false);
                }
                vstd::pervasive::unreached()
            },
        }
    }

    /// The handles of a slice of nodes.
    fn handles(&self, slice: SliceHandle<Node<S, V, I>>) -> (r: Vec<u32>)
        requires
            self.memory_ok(),
            self.nodes.holds_slice(slice),
        ensures
            r@ == Seq::new(slice.spec_len(), |i: int| slice.key(i)),
    {
        proof {
            self.nodes.slice_is_held(slice);
            assert forall|i: int| 0 <= i < slice.spec_len() implies
                #[trigger] crate::perf::slots::run_key(
                slice.first(),
                virt_arena::stride::<Node<S, V, I>>(),
                i,
            ) <= u32::MAX by {
                assert(self.nodes@.contains_key(slice.key(i)));
            }
        }
        let listed = slice.iter();
        let mut r: Vec<u32> = Vec::new();
        let mut i: usize = 0;
        while i < listed.len()
            invariant
                i <= listed@.len(),
                listed@.len() == slice.spec_len(),
                r@.len() == i,
                forall|k: int| 0 <= k < listed@.len() ==> (#[trigger] listed@[k]).spec_index() == slice.key(k),
                forall|k: int| 0 <= k < i ==> #[trigger] r@[k] == slice.key(k),
            decreases listed@.len() - i,
        {
            r.push(listed[i].index());
            i = i + 1;
        }
        assert(r@ =~= Seq::new(slice.spec_len(), |i: int| slice.key(i)));
        r
    }

    /// Looks up the children of a node for a pair of choices.
    pub fn children_of(&self, h: u32, s1_index: u8, s2_index: u8) -> (r: Option<Vec<u32>>)
        requires
            self.wf(),
        ensures
            r is Some <==> self@.children.contains_key((h, s1_index, s2_index)),
            r matches Some(c) ==> c@ == self@.children[(h, s1_index, s2_index)],
    {
        let ghost k = (h, s1_index, s2_index);
        let key = child_key(h, s1_index, s2_index);
        assert(key == key_of(k));
        match self.children.find(key) {
            None => None,
            Some(e) => {
                let slice = SliceHandle::<Node<S, V, I>>::from_parts(e.0, e.1);
                proof {
                    assert(self.branch_ok(k));
                    assert(self.branch(k) == slice);
                }
                Some(self.handles(slice))
            },
        }
    }
}

impl<S, V, I> TreeView<S, V, I> {
    /// The tree with one node replaced.
    pub open spec fn with_node(self, h: u32, n: NodeView<S, V, I>) -> Self {
        TreeView { nodes: self.nodes.insert(h, n), children: self.children }
    }
}

impl<S: Copy, V: Copy, I, C: ChildMap> Tree<S, V, I, C> {
    /// Blocks stay apart where nodes keep theirs, and new nodes have none.
    proof fn blocks_stay_apart(self, before: Self)
        requires
            before.blocks_differ(),
            forall|h: u32| #[trigger]
                self.nodes@.contains_key(h) ==> self.nodes@[h].options is None || (
                before.nodes@.contains_key(h) && self.nodes@[h].options == before.nodes@[h].options),
        ensures
            self.blocks_differ(),
    {
        assert forall|g: u32, h: u32|
            #![trigger self.nodes@[g], self.nodes@[h]]
            self.nodes@.contains_key(g) && self.nodes@.contains_key(h) && g != h
                && self.nodes@[g].options is Some && self.nodes@[h].options is Some implies
            self.nodes@[g].options->0.spec_index() != self.nodes@[h].options->0.spec_index() by {
            let _ = before.nodes@[g];
            let _ = before.nodes@[h];
        }
    }

    /// A node reads the same where its instructions and options are still there.
    proof fn node_is_kept(self, before: Self, n: Node<S, V, I>)
        requires
            before.memory_ok(),
            before.node_ok(n),
            self.lists.extends(before.lists),
            n.options matches Some(o) ==> self.blocks@.contains_key(o.spec_index())
                && self.blocks@[o.spec_index()] == before.blocks@[o.spec_index()],
        ensures
            self.node_ok(n),
            self.node_view(n) == before.node_view(n),
    {
        self.lists.slice_reads_the_same(before.lists, n.instruction_list);
    }

    /// Changes how often a node was visited, and how many workers are below it.
    pub fn set_counts(&mut self, h: u32, times_visited: u32, virtual_losses: V)
        requires
            old(self).wf(),
            old(self)@.nodes.contains_key(h),
        ensures
            final(self).wf(),
            final(self)@ == old(self)@.with_node(
                h,
                NodeView { times_visited, virtual_losses, ..old(self)@.nodes[h] },
            ),
            final(self).memory() == old(self).memory(),
    {
        let ghost before = *self;
        let node = self.nodes.resolve_mut(Handle::from_index(h));
        node.times_visited = times_visited;
        node.virtual_losses = virtual_losses;
        proof {
            assert(self.nodes@.dom() =~= before.nodes@.dom());
            self.lists.growth_is_reflexive();
            assert forall|g: u32| #[trigger] self.nodes@.contains_key(g) implies self.node_ok(
                self.nodes@[g],
            ) by {
                assert(before.nodes@.contains_key(g));
                assert(before.node_ok(before.nodes@[g]));
            }
            self.blocks_stay_apart(before);
            assert forall|k: (u32, u8, u8)|
                self.children.entries().contains_key(#[trigger] key_of(k)) implies self.branch_ok(
                k,
            ) by {
                assert(before.branch_ok(k));
                self.nodes.slices_stay(before.nodes, self.branch(k));
            }
            assert(self@.nodes =~= before@.with_node(
                h,
                NodeView { times_visited, virtual_losses, ..before@.nodes[h] },
            ).nodes);
            assert(self@.children =~= before@.children);
        }
    }
}

impl<S> OptionsView<S> {
    /// One side with one option replaced.
    pub open spec fn with_move(self, side_two: bool, index: int, m: MoveNode<S>) -> Self {
        if side_two {
            OptionsView { s1: self.s1, s2: self.s2.update(index, m) }
        } else {
            OptionsView { s1: self.s1.update(index, m), s2: self.s2 }
        }
    }

    /// The options of one side.
    pub open spec fn side(self, side_two: bool) -> Seq<MoveNode<S>> {
        if side_two {
            self.s2
        } else {
            self.s1
        }
    }
}

impl<S, V, I> NodeView<S, V, I> {
    /// The node with its options replaced.
    pub open spec fn with_options(self, options: OptionsView<S>) -> Self {
        NodeView { options: Some(options), ..self }
    }
}

impl<S: Copy, V: Copy, I, C: ChildMap> Tree<S, V, I, C> {
    /// Replaces what is known of one option of a node.
    pub fn set_move(&mut self, h: u32, side_two: bool, index: u8, m: MoveNode<S>)
        requires
            old(self).wf(),
            old(self)@.nodes.contains_key(h),
            old(self)@.nodes[h].options is Some,
            index < old(self)@.nodes[h].options->0.side(side_two).len(),
        ensures
            final(self).wf(),
            final(self)@ == old(self)@.with_node(
                h,
                old(self)@.nodes[h].with_options(
                    old(self)@.nodes[h].options->0.with_move(side_two, index as int, m),
                ),
            ),
            final(self).memory() == old(self).memory(),
    {
        let ghost before = *self;
        let found = Handle::<Node<S, V, I>>::from_index(h).resolve(&self.nodes).options;
        proof {
            assert(self.node_ok(self.nodes@[h]));
        }
        if let Some(o) = found {
            let block = self.blocks.options_mut(o);
            if side_two {
                let side = block.s2_mut();
                side[index as usize] = m;
            } else {
                let side = block.s1_mut();
                side[index as usize] = m;
            }
            proof {
                assert(self.blocks@.dom() =~= before.blocks@.dom());
                self.lists.growth_is_reflexive();
                assert forall|g: u32| #[trigger] self.nodes@.contains_key(g) implies self.node_ok(
                    self.nodes@[g],
                ) && (g != h ==> self.node_view(self.nodes@[g]) == before.node_view(
                    before.nodes@[g],
                )) by {
                    assert(before.node_ok(before.nodes@[g]));
                    if g != h {
                        let _ = before.nodes@[h];
                        self.node_is_kept(before, before.nodes@[g]);
                    }
                }
                assert forall|k: (u32, u8, u8)|
                    self.children.entries().contains_key(#[trigger] key_of(k)) implies self.branch_ok(
                    k,
                ) by {
                    assert(before.branch_ok(k));
                }
                assert(self@.nodes =~= before@.with_node(
                    h,
                    before@.nodes[h].with_options(
                        before@.nodes[h].options->0.with_move(side_two, index as int, m),
                    ),
                ).nodes);
                assert(self@.children =~= before@.children);
            }
        }
    }
}

/// A choice that has not been tried yet.
pub open spec fn untried<S>(choice: MoveChoice, zero: S) -> MoveNode<S> {
    MoveNode { move_choice: choice, total_score: zero, visits: 0 }
}

/// Choices that have not been tried yet.
pub open spec fn all_untried<S>(choices: Seq<MoveChoice>, zero: S) -> Seq<MoveNode<S>> {
    Seq::new(choices.len(), |i: int| untried(choices[i], zero))
}

impl<S> OptionsView<S> {
    /// Options of which none has been tried yet.
    pub open spec fn fresh(s1: Seq<MoveChoice>, s2: Seq<MoveChoice>, zero: S) -> Self {
        OptionsView { s1: all_untried(s1, zero), s2: all_untried(s2, zero) }
    }
}

impl<S: Copy, V: Copy, I, C: ChildMap> Tree<S, V, I, C> {
    /// Stores options of which none has been tried yet, where there is room for them.
    fn add_block(&mut self, s1: &[MoveChoice], s2: &[MoveChoice], zero: S) -> (r: Option<
        NodeOptionsHandle<MoveNode<S>>,
    >)
        requires
            old(self).memory_ok(),
            s1@.len() <= 255,
            s2@.len() <= 255,
        ensures
            final(self).memory_ok(),
            r is Some <==> old(self).memory().has_block::<MoveNode<S>>(s1@.len() + s2@.len()),
            r is None ==> *final(self) == *old(self),
            r matches Some(o) ==> {
                let block = final(self).blocks@[o.spec_index()];
                &&& final(self).blocks.stored_options(old(self).blocks, o, block)
                &&& block.wf()
                &&& block.first() == all_untried(s1@, zero)
                &&& block.second() == all_untried(s2@, zero)
                &&& final(self).nodes == old(self).nodes
                &&& final(self).lists == old(self).lists
                &&& final(self).children == old(self).children
                &&& final(self).memory() == old(self).memory().after_block::<MoveNode<S>>(
                    s1@.len() + s2@.len(),
                )
            },
    {
        let ghost before = *self;
        if !self.arena.can_store_options::<MoveNode<S>>(
            &self.pool,
            s1.len() as u16 + s2.len() as u16,
        ) {
            return None;
        }
        let ctor = |choice: MoveChoice| -> (m: MoveNode<S>)
            ensures
                m == untried(choice, zero),
            { MoveNode { move_choice: choice, total_score: zero, visits: 0 } };
        proof {
            self.arena.cursor().behind_is_clear(self.pool@, self.blocks@.dom());
        }
        let o = NodeOptions::new_in(
            &mut self.arena,
            &mut self.pool,
            &mut self.blocks,
            s1,
            s2,
            ctor,
        );
        proof {
            let align = vstd::layout::align_of::<MoveNode<S>>();
            let len = virt_arena::block_bytes::<MoveNode<S>>(s1@.len() + s2@.len());
            before.moves_on(align, len);
            let block = self.blocks@[o.spec_index()];
            assert(block.first() =~= all_untried(s1@, zero));
            assert(block.second() =~= all_untried(s2@, zero));
        }
        Some(o)
    }

    /// Gives a node without options the options that its state has.
    pub fn set_options(&mut self, h: u32, s1: &[MoveChoice], s2: &[MoveChoice], zero: S) -> (r:
        Result<(), SearchError>)
        requires
            old(self).wf(),
            old(self)@.nodes.contains_key(h),
            old(self)@.nodes[h].options is None,
        ensures
            final(self).wf(),
            r == (if s1@.len() > 255 || s2@.len() > 255 {
                Err(SearchError::TooManyOptions)
            } else if !old(self).memory().has_block::<MoveNode<S>>(s1@.len() + s2@.len()) {
                Err(SearchError::ArenaFull)
            } else {
                Ok(())
            }),
            r is Err ==> *final(self) == *old(self),
            r is Ok ==> {
                &&& final(self)@ == old(self)@.with_node(
                    h,
                    old(self)@.nodes[h].with_options(OptionsView::fresh(s1@, s2@, zero)),
                )
                &&& final(self).memory() == old(self).memory().after_block::<MoveNode<S>>(
                    s1@.len() + s2@.len(),
                )
            },
    {
        let ghost before = *self;
        if s1.len() > 255 || s2.len() > 255 {
            return Err(SearchError::TooManyOptions);
        }
        let o = match self.add_block(s1, s2, zero) {
            Some(o) => o,
            None => {
                return Err(SearchError::ArenaFull);
            },
        };
        let node = self.nodes.resolve_mut(Handle::from_index(h));
        node.options = Some(o);
        proof {
            assert(self.nodes@.dom() =~= before.nodes@.dom());
            self.lists.growth_is_reflexive();
            assert forall|g: u32| #[trigger] self.nodes@.contains_key(g) implies self.node_ok(
                self.nodes@[g],
            ) && (g != h ==> self.node_view(self.nodes@[g]) == before.node_view(before.nodes@[g])) by {
                assert(before.nodes@.contains_key(g));
                assert(before.node_ok(before.nodes@[g]));
                if g != h {
                    self.node_is_kept(before, before.nodes@[g]);
                }
            }
            assert(self.blocks_differ()) by {
                assert forall|f: u32, g: u32|
                    #![trigger self.nodes@[f], self.nodes@[g]]
                    self.nodes@.contains_key(f) && self.nodes@.contains_key(g) && f != g
                        && self.nodes@[f].options is Some && self.nodes@[g].options is Some implies
                    self.nodes@[f].options->0.spec_index() != self.nodes@[g].options->0.spec_index() by {
                    assert(before.nodes@.contains_key(f) && before.nodes@.contains_key(g));
                    assert(before.node_ok(before.nodes@[f]));
                    assert(before.node_ok(before.nodes@[g]));
                }
            }
            assert forall|k: (u32, u8, u8)|
                self.children.entries().contains_key(#[trigger] key_of(k)) implies self.branch_ok(
                k,
            ) by {
                assert(before.branch_ok(k));
                self.nodes.slices_stay(before.nodes, self.branch(k));
            }
            assert(self.node_view(self.nodes@[h]) == before@.nodes[h].with_options(
                OptionsView::fresh(s1@, s2@, zero),
            ));
            assert(self@.nodes =~= before@.with_node(
                h,
                before@.nodes[h].with_options(OptionsView::fresh(s1@, s2@, zero)),
            ).nodes);
            assert(self@.children =~= before@.children);
        }
        Ok(())
    }
}

/// A node that has just been reached.
pub open spec fn reached<S, V, I>(percentage: Single, list: Seq<I>, virtual_losses: V) -> NodeView<
    S,
    V,
    I,
> {
    NodeView { times_visited: 0, percentage, instructions: list, options: None, virtual_losses }
}

impl<S: Copy, V: Copy, I, C: ChildMap> Tree<S, V, I, C> {
    /// Whatever is taken lies behind everything that is stored.
    proof fn moves_on(self, align: nat, len: int)
        requires
            self.memory_ok(),
            0 < align,
            0 <= len,
        ensures
            ({
                let after = self.memory().after(align, len).cursor;
                &&& after.is_behind(self.nodes@.dom())
                &&& after.is_behind(self.lists@.dom())
                &&& after.is_behind(self.blocks@.dom())
            }),
    {
        let cursor = self.arena.cursor();
        cursor.requests_move_on(self.pool@, align as int, len, self.nodes@.dom());
        cursor.requests_move_on(self.pool@, align as int, len, self.lists@.dom());
        cursor.requests_move_on(self.pool@, align as int, len, self.blocks@.dom());
    }

    /// A tree reads the same where only lists have been added.
    proof fn lists_were_added(self, before: Self)
        requires
            before.wf(),
            self.memory_ok(),
            self.nodes == before.nodes,
            self.blocks == before.blocks,
            self.children == before.children,
            self.lists.extends(before.lists),
        ensures
            self.wf(),
            self@ == before@,
    {
        assert forall|g: u32| #[trigger] self.nodes@.contains_key(g) implies self.node_ok(
            self.nodes@[g],
        ) && self.node_view(self.nodes@[g]) == before.node_view(before.nodes@[g]) by {
            assert(before.node_ok(before.nodes@[g]));
            self.node_is_kept(before, before.nodes@[g]);
        }
        self.blocks_stay_apart(before);
        assert forall|k: (u32, u8, u8)|
            self.children.entries().contains_key(#[trigger] key_of(k)) implies self.branch_ok(k) by {
            assert(before.branch_ok(k));
        }
        assert(self@.nodes =~= before@.nodes);
        assert(self@.children =~= before@.children);
    }

    /// A tree reads the same but for new nodes, where new nodes have been added.
    proof fn nodes_were_added(self, before: Self)
        requires
            before.wf(),
            self.memory_ok(),
            self.lists == before.lists,
            self.blocks == before.blocks,
            self.children == before.children,
            self.nodes.grown_from(before.nodes),
            forall|k: u32| #[trigger] before.nodes@.contains_key(k) ==> self.nodes@.contains_key(k)
                && self.nodes@[k] == before.nodes@[k],
            forall|k: u32| #[trigger] self.nodes@.contains_key(k) && !before.nodes@.contains_key(k)
                ==> self.lists.holds_slice(self.nodes@[k].instruction_list)
                && self.nodes@[k].options is None,
        ensures
            self.wf(),
            forall|k: u32| #[trigger] before@.nodes.contains_key(k) ==> self@.nodes.contains_key(k)
                && self@.nodes[k] == before@.nodes[k],
            self@.children == before@.children,
    {
        self.lists.growth_is_reflexive();
        assert forall|g: u32| #[trigger] self.nodes@.contains_key(g) implies self.node_ok(
            self.nodes@[g],
        ) by {
            if before.nodes@.contains_key(g) {
                assert(before.node_ok(before.nodes@[g]));
            }
        }
        self.blocks_stay_apart(before);
        assert forall|k: (u32, u8, u8)|
            self.children.entries().contains_key(#[trigger] key_of(k)) implies self.branch_ok(k) by {
            assert(before.branch_ok(k));
            self.nodes.slices_stay(before.nodes, self.branch(k));
        }
        assert forall|k: u32| #[trigger] before@.nodes.contains_key(k) implies self@.nodes.contains_key(
            k,
        ) && self@.nodes[k] == before@.nodes[k] by {
            assert(before.nodes@.contains_key(k));
        }
        assert(self@.children =~= before@.children);
    }

    /// Stores a list of instructions, where there is room for it.
    fn add_list(&mut self, list: Vec<I>) -> (r: Option<SliceHandle<I>>)
        requires
            old(self).memory_ok(),
        ensures
            final(self).memory_ok(),
            r is Some <==> old(self).memory().has_list::<I>(list@.len()),
            r is None ==> *final(self) == *old(self),
            r matches Some(s) ==> {
                &&& final(self).lists.stored_slice(old(self).lists, s, list@)
                &&& final(self).nodes == old(self).nodes
                &&& final(self).blocks == old(self).blocks
                &&& final(self).children == old(self).children
                &&& final(self).memory() == old(self).memory().after_list::<I>(list@.len())
            },
    {
        let ghost before = *self;
        let ghost len = list@.len();
        if !self.arena.can_store::<I>(&self.pool, list.len()) {
            return None;
        }
        proof {
            self.arena.cursor().behind_is_clear(self.pool@, self.lists@.dom());
        }
        let s = self.arena.alloc_slice(&mut self.pool, &mut self.lists, list);
        proof {
            before.moves_on(vstd::layout::align_of::<I>(), virt_arena::bytes::<I>(len));
        }
        Some(s)
    }

    /// Adds a node that is nobody's child.
    pub fn add_root(&mut self, percentage: Single, list: Vec<I>, virtual_losses: V) -> (r: Result<
        u32,
        SearchError,
    >)
        requires
            old(self).wf(),
        ensures
            final(self).wf(),
            r is Ok <==> old(self).memory().has_list::<I>(list@.len())
                && old(self).memory().after_list::<I>(list@.len()).has_nodes::<Node<S, V, I>>(1),
            r matches Err(e) ==> e == SearchError::ArenaFull && final(self)@ == old(self)@,
            r matches Ok(h) ==> {
                &&& forall|g: u32| #[trigger] old(self)@.nodes.contains_key(g) ==> g < h
                &&& final(self)@ == old(self)@.with_node(h, reached(percentage, list@, virtual_losses))
                &&& final(self).memory() == old(self).memory().after_list::<I>(
                    list@.len(),
                ).after_nodes::<Node<S, V, I>>(1)
            },
    {
        let ghost before = *self;
        let ghost given = list@;
        let instruction_list = match self.add_list(list) {
            Some(s) => s,
            None => {
                return Err(SearchError::ArenaFull);
            },
        };
        let ghost middle = *self;
        proof {
            self.lists_were_added(before);
            self.arena.cursor().behind_is_clear(self.pool@, self.nodes@.dom());
        }
        if !self.arena.can_store::<Node<S, V, I>>(&self.pool, 1) {
            return Err(SearchError::ArenaFull);
        }
        let h = self.arena.alloc_one(
            &mut self.pool,
            &mut self.nodes,
            Node { times_visited: 0, percentage, instruction_list, options: None, virtual_losses },
        );
        proof {
            middle.moves_on(
                vstd::layout::align_of::<Node<S, V, I>>(),
                virt_arena::bytes::<Node<S, V, I>>(1),
            );
            self.nodes.extension_is_growth(middle.nodes);
            self.nodes_were_added(middle);
            assert forall|g: u32| #[trigger] before@.nodes.contains_key(g) implies g < h.spec_index() by {
                assert(middle.nodes@.contains_key(g));
            }
            assert(self@.nodes =~= before@.nodes.insert(
                h.spec_index(),
                reached(percentage, given, virtual_losses),
            ));
        }
        Ok(h.index())
    }
}

impl<S: Copy, V: Copy, I, C: ChildMap> Tree<S, V, I, C> {
    /// Adds a node that is nobody's child, and that has options from the start; they are stored
    /// before it.
    pub fn add_root_with_options(
        &mut self,
        percentage: Single,
        list: Vec<I>,
        virtual_losses: V,
        s1: &[MoveChoice],
        s2: &[MoveChoice],
        zero: S,
    ) -> (r: Result<u32, SearchError>)
        requires
            old(self).wf(),
        ensures
            final(self).wf(),
            r is Ok <==> s1@.len() <= 255 && s2@.len() <= 255 && ({
                let listed = old(self).memory().after_list::<I>(list@.len());
                &&& old(self).memory().has_list::<I>(list@.len())
                &&& listed.has_block::<MoveNode<S>>(s1@.len() + s2@.len())
                &&& listed.after_block::<MoveNode<S>>(s1@.len() + s2@.len()).has_nodes::<
                    Node<S, V, I>,
                >(1)
            }),
            r matches Err(e) ==> final(self)@ == old(self)@ && e == (if s1@.len() > 255
                || s2@.len() > 255 {
                SearchError::TooManyOptions
            } else {
                SearchError::ArenaFull
            }),
            r matches Ok(h) ==> {
                &&& forall|g: u32| #[trigger] old(self)@.nodes.contains_key(g) ==> g < h
                &&& final(self)@ == old(self)@.with_node(
                    h,
                    reached(percentage, list@, virtual_losses).with_options(
                        OptionsView::fresh(s1@, s2@, zero),
                    ),
                )
                &&& final(self).memory() == old(self).memory().after_list::<I>(
                    list@.len(),
                ).after_block::<MoveNode<S>>(s1@.len() + s2@.len()).after_nodes::<Node<S, V, I>>(1)
            },
    {
        let ghost before = *self;
        if s1.len() > 255 || s2.len() > 255 {
            return Err(SearchError::TooManyOptions);
        }
        let ghost given = list@;
        let instruction_list = match self.add_list(list) {
            Some(s) => s,
            None => {
                return Err(SearchError::ArenaFull);
            },
        };
        let ghost listed = *self;
        proof {
            self.lists_were_added(before);
        }
        let o = match self.add_block(s1, s2, zero) {
            Some(o) => o,
            None => {
                return Err(SearchError::ArenaFull);
            },
        };
        let ghost middle = *self;
        proof {
            self.block_was_added(listed, o);
            self.arena.cursor().behind_is_clear(self.pool@, self.nodes@.dom());
        }
        if !self.arena.can_store::<Node<S, V, I>>(&self.pool, 1) {
            return Err(SearchError::ArenaFull);
        }
        let h = self.arena.alloc_one(
            &mut self.pool,
            &mut self.nodes,
            Node {
                times_visited: 0,
                percentage,
                instruction_list,
                options: Some(o),
                virtual_losses,
            },
        );
        proof {
            middle.moves_on(
                vstd::layout::align_of::<Node<S, V, I>>(),
                virt_arena::bytes::<Node<S, V, I>>(1),
            );
            self.nodes.extension_is_growth(middle.nodes);
            self.lists.growth_is_reflexive();
            assert forall|g: u32| #[trigger] before@.nodes.contains_key(g) implies g < h.spec_index() by {
                assert(middle.nodes@.contains_key(g));
            }
            assert forall|g: u32| #[trigger] self.nodes@.contains_key(g) implies self.node_ok(
                self.nodes@[g],
            ) by {
                if g != h.spec_index() {
                    assert(middle.nodes@.contains_key(g));
                    assert(middle.node_ok(middle.nodes@[g]));
                }
            }
            assert(self.blocks_differ()) by {
                assert forall|f: u32, g: u32|
                    #![trigger self.nodes@[f], self.nodes@[g]]
                    self.nodes@.contains_key(f) && self.nodes@.contains_key(g) && f != g
                        && self.nodes@[f].options is Some && self.nodes@[g].options is Some implies
                    self.nodes@[f].options->0.spec_index() != self.nodes@[g].options->0.spec_index() by {
                    if f != h.spec_index() {
                        assert(listed.nodes@.contains_key(f));
                        assert(listed.node_ok(listed.nodes@[f]));
                    }
                    if g != h.spec_index() {
                        assert(listed.nodes@.contains_key(g));
                        assert(listed.node_ok(listed.nodes@[g]));
                    }
                }
            }
            assert forall|k: (u32, u8, u8)|
                self.children.entries().contains_key(#[trigger] key_of(k)) implies self.branch_ok(
                k,
            ) by {
                assert(middle.branch_ok(k));
                self.nodes.slices_stay(middle.nodes, self.branch(k));
            }
            assert(self@.nodes =~= before@.nodes.insert(
                h.spec_index(),
                reached(percentage, given, virtual_losses).with_options(
                    OptionsView::fresh(s1@, s2@, zero),
                ),
            ));
            assert(self@.children =~= before@.children);
        }
        Ok(h.index())
    }

    /// A tree reads the same where only a block of options has been added.
    proof fn block_was_added(self, before: Self, o: NodeOptionsHandle<MoveNode<S>>)
        requires
            before.wf(),
            self.memory_ok(),
            self.nodes == before.nodes,
            self.lists == before.lists,
            self.children == before.children,
            self.blocks.stored_options(before.blocks, o, self.blocks@[o.spec_index()]),
        ensures
            self.wf(),
            self@ == before@,
    {
        self.lists.growth_is_reflexive();
        assert forall|g: u32| #[trigger] self.nodes@.contains_key(g) implies self.node_ok(
            self.nodes@[g],
        ) && self.node_view(self.nodes@[g]) == before.node_view(before.nodes@[g]) by {
            assert(before.node_ok(before.nodes@[g]));
            self.node_is_kept(before, before.nodes@[g]);
        }
        self.blocks_stay_apart(before);
        assert forall|k: (u32, u8, u8)|
            self.children.entries().contains_key(#[trigger] key_of(k)) implies self.branch_ok(k) by {
            assert(before.branch_ok(k));
        }
        assert(self@.nodes =~= before@.nodes);
        assert(self@.children =~= before@.children);
    }
}

/// How many instructions each outcome has.
pub open spec fn list_lens<I>(outcomes: Seq<StateInstructions<I>>) -> Seq<nat> {
    Seq::new(outcomes.len(), |i: int| outcomes[i].instruction_list@.len())
}

impl<S, V, I> TreeView<S, V, I> {
    /// Each outcome has become a node, with a handle above all others, in order.
    pub open spec fn grown_by(
        self,
        before: Self,
        fresh: Seq<u32>,
        outcomes: Seq<StateInstructions<I>>,
        virtual_losses: V,
    ) -> bool {
        &&& fresh.len() == outcomes.len()
        &&& forall|i: int, j: int|
            0 <= i < j < fresh.len() ==> #[trigger] fresh[i] < #[trigger] fresh[j]
        &&& forall|g: u32, i: int|
            #![trigger before.nodes.contains_key(g), fresh[i]]
            before.nodes.contains_key(g) && 0 <= i < fresh.len() ==> g < fresh[i]
        &&& forall|g: u32| #[trigger]
            self.nodes.contains_key(g) <==> before.nodes.contains_key(g) || fresh.contains(g)
        &&& forall|g: u32| #[trigger] before.nodes.contains_key(g) ==> self.nodes[g] == before.nodes[g]
        &&& forall|i: int|
            0 <= i < fresh.len() ==> self.nodes[#[trigger] fresh[i]] == reached::<S, V, I>(
                outcomes[i].percentage,
                outcomes[i].instruction_list@,
                virtual_losses,
            )
    }
}

impl<S: Copy, V: Copy, I, C: ChildMap> Tree<S, V, I, C> {
    /// Adds a node for each outcome of a pair of choices, and files them as its children. Returns
    /// the children that are then filed.
    pub fn add_children(
        &mut self,
        h: u32,
        s1_index: u8,
        s2_index: u8,
        outcomes: Vec<StateInstructions<I>>,
        virtual_losses: V,
    ) -> (r: Result<Vec<u32>, SearchError>)
        requires
            old(self).wf(),
            old(self)@.nodes.contains_key(h),
            old(self)@.nodes[h].has_pair(s1_index, s2_index),
        ensures
            final(self).wf(),
            r is Ok <==> 0 < outcomes@.len() && old(self).memory().has_lists::<I>(
                list_lens(outcomes@),
            ) && old(self).memory().after_lists::<I>(list_lens(outcomes@)).has_nodes::<
                Node<S, V, I>,
            >(outcomes@.len()),
            r matches Err(e) ==> {
                &&& e == (if outcomes@.len() == 0 {
                    SearchError::NoOutcome
                } else {
                    SearchError::ArenaFull
                })
                &&& final(self)@ == old(self)@
            },
            r matches Ok(c) ==> {
                let k = (h, s1_index, s2_index);
                &&& C::keeps_first() && old(self)@.children.contains_key(k) ==> {
                    &&& c@ == old(self)@.children[k]
                    &&& final(self)@.children == old(self)@.children
                    &&& exists|fresh: Seq<u32>| #[trigger]
                        final(self)@.grown_by(old(self)@, fresh, outcomes@, virtual_losses)
                }
                &&& !(C::keeps_first() && old(self)@.children.contains_key(k)) ==> {
                    &&& final(self)@.grown_by(old(self)@, c@, outcomes@, virtual_losses)
                    &&& final(self)@.children == old(self)@.children.insert(k, c@)
                }
            },
            r is Ok ==> final(self).memory() == old(self).memory().after_lists::<I>(
                list_lens(outcomes@),
            ).after_nodes::<Node<S, V, I>>(outcomes@.len()),
    {
        let ghost before = *self;
        let ghost given = outcomes@;
        let ghost lens = list_lens(given);
        let n = outcomes.len();
        if n == 0 {
            return Err(SearchError::NoOutcome);
        }
        let mut fresh: Vec<Node<S, V, I>> = Vec::new();
        proof {
            self.lists.growth_is_reflexive();
            assert(lens.take(0) =~= Seq::<nat>::empty());
        }
        for o in it: outcomes
            invariant
                before == *old(self),
                given == outcomes@,
                0 < n,
                before.wf(),
                n == given.len(),
                it.seq() == given,
                lens == list_lens(given),
                self.memory_ok(),
                self.nodes == before.nodes,
                self.blocks == before.blocks,
                self.children == before.children,
                self.lists.extends(before.lists),
                fresh@.len() == it.index(),
                forall|i: int|
                    0 <= i < it.index() ==> {
                        &&& (#[trigger] fresh@[i]).times_visited == 0
                        &&& fresh@[i].percentage == given[i].percentage
                        &&& fresh@[i].options is None
                        &&& fresh@[i].virtual_losses == virtual_losses
                        &&& self.lists.holds_slice(fresh@[i].instruction_list)
                        &&& self.lists.slice(fresh@[i].instruction_list) == given[i].instruction_list@
                    },
                before.memory().has_lists::<I>(lens.take(it.index() as int)),
                self.memory() == before.memory().after_lists::<I>(lens.take(it.index() as int)),
        {
            let ghost k = it.index() as int;
            proof {
                assert(lens.take(k + 1).drop_last() =~= lens.take(k));
                assert(lens.take(k + 1).last() == given[k].instruction_list@.len());
            }
            let ghost middle = *self;
            let instruction_list = match self.add_list(o.instruction_list) {
                Some(s) => s,
                None => {
                    proof {
                        self.lists_were_added(before);
                        before.memory().lists_stay_refused::<I>(lens, k + 1);
                    }
                    return Err(SearchError::ArenaFull);
                },
            };
            proof {
                self.lists.extension_is_growth(middle.lists);
                middle.lists.extension_is_growth(before.lists);
                self.lists.growth_adds_up(middle.lists, before.lists);
                assert forall|i: int| 0 <= i < k implies {
                    &&& self.lists.holds_slice((#[trigger] fresh@[i]).instruction_list)
                    &&& self.lists.slice(fresh@[i].instruction_list) == given[i].instruction_list@
                } by {
                    self.lists.slice_reads_the_same(middle.lists, fresh@[i].instruction_list);
                }
            }
            fresh.push(
                Node {
                    times_visited: 0,
                    percentage: o.percentage,
                    instruction_list,
                    options: None,
                    virtual_losses,
                },
            );
        }
        proof {
            assert(lens.take(n as int) =~= lens);
            self.lists_were_added(before);
        }
        if !self.arena.can_store::<Node<S, V, I>>(&self.pool, n) {
            return Err(SearchError::ArenaFull);
        }
        let ghost middle = *self;
        let ghost made = fresh@;
        proof {
            self.arena.cursor().behind_is_clear(self.pool@, self.nodes@.dom());
        }
        let slice = self.arena.alloc_slice(&mut self.pool, &mut self.nodes, fresh);
        let ghost added = *self;
        proof {
            middle.moves_on(
                vstd::layout::align_of::<Node<S, V, I>>(),
                virt_arena::bytes::<Node<S, V, I>>(n as nat),
            );
            self.nodes.slice_is_held(slice);
            self.nodes.extension_is_growth(middle.nodes);
            assert forall|i: int| 0 <= i < n implies self.nodes@[#[trigger] slice.key(i)] == made[i] by {
                assert(self.nodes@.contains_key(slice.key(i)));
                assert(self.nodes.slice(slice)[i] == made[i]);
            }
            assert forall|k: u32| #[trigger]
                self.nodes@.contains_key(k) && !middle.nodes@.contains_key(k) implies self.lists.holds_slice(
                self.nodes@[k].instruction_list,
            ) && self.nodes@[k].options is None by {
                assert(slice.covers(k));
                let i = choose|i: int| 0 <= i < slice.spec_len() && k == #[trigger] slice.key(i);
                assert(self.nodes@[slice.key(i)] == made[i]);
            }
            self.nodes_were_added(middle);
            self.slice_is_fresh(before, slice, made, given, virtual_losses);
        }
        let key = child_key(h, s1_index, s2_index);
        let ghost k = (h, s1_index, s2_index);
        assert(key == key_of(k));
        let filed = self.children.file(key, (slice.first_index(), slice.len() as u32));
        let kept = SliceHandle::<Node<S, V, I>>::from_parts(filed.0, filed.1);
        proof {
            SliceHandle::<Node<S, V, I>>::is_its_parts(slice.first(), slice.spec_len() as u32);
            assert forall|j: (u32, u8, u8)|
                self.children.entries().contains_key(#[trigger] key_of(j)) implies self.branch_ok(j)
                && (key_of(j) != key_of(k) ==> added.children.entries().contains_key(key_of(j))
                && self.branch(j) == added.branch(j)) by {
                crate::child_map::child_keys_differ(j, k);
                if added.children.entries().contains_key(key_of(j)) {
                    assert(added.branch_ok(j));
                }
                if j == k {
                    assert(slice.key(0) == slice.first() + 0 * virt_arena::stride::<
                        Node<S, V, I>,
                    >());
                    assert(0 * virt_arena::stride::<Node<S, V, I>>() == 0)
                        by (nonlinear_arith);
                    assert(before@.nodes.contains_key(h));
                    assert(middle.nodes@.contains_key(h));
                    assert(h < slice.key(0));
                    assert(added.node_view(added.nodes@[h]) == before@.nodes[h]) by {
                        assert(added@.nodes[h] == before@.nodes[h]);
                    }
                }
            }
            assert(self@.nodes =~= added@.nodes);
            assert(self.branch_ok(k));
            assert(kept == self.branch(k));
            self.blocks_stay_apart(added);
            assert forall|g: u32| #[trigger] self.nodes@.contains_key(g) implies self.node_ok(
                self.nodes@[g],
            ) by {
                assert(added.node_ok(added.nodes@[g]));
            }
            if C::keeps_first() && before@.children.contains_key(k) {
                assert(self@.children =~= before@.children);
            } else {
                assert(kept == slice);
                let c = Seq::new(slice.spec_len(), |i: int| slice.key(i));
                assert forall|j: (u32, u8, u8)| #[trigger]
                    self@.children.contains_key(j) == before@.children.insert(k, c).contains_key(j) by {
                    crate::child_map::child_keys_differ(j, k);
                    let _ = key_of(j);
                }
                assert forall|j: (u32, u8, u8)| self@.children.contains_key(j) implies
                    #[trigger] self@.children[j] == before@.children.insert(k, c)[j] by {
                    crate::child_map::child_keys_differ(j, k);
                    let _ = key_of(j);
                    if j != k {
                        assert(self.branch(j) == added.branch(j));
                        assert(self@.children[j] =~= before@.children[j]);
                    }
                }
                assert(self@.children =~= before@.children.insert(k, c));
            }
        }
        Ok(self.handles(kept))
    }

    /// The handles of a slice of new nodes lead to what the outcomes say.
    proof fn slice_is_fresh(
        self,
        before: Self,
        slice: SliceHandle<Node<S, V, I>>,
        made: Seq<Node<S, V, I>>,
        outcomes: Seq<StateInstructions<I>>,
        virtual_losses: V,
    )
        requires
            before.wf(),
            self.wf(),
            self.nodes.stored_slice(before.nodes, slice, made),
            forall|g: u32, k: u32|
                #![trigger before.nodes@.contains_key(g), slice.covers(k)]
                before.nodes@.contains_key(g) && slice.covers(k) ==> g < k,
            made.len() == outcomes.len(),
            forall|k: u32| #[trigger] before@.nodes.contains_key(k) ==> self@.nodes.contains_key(k)
                && self@.nodes[k] == before@.nodes[k],
            forall|i: int|
                0 <= i < made.len() ==> {
                    &&& (#[trigger] made[i]).times_visited == 0
                    &&& made[i].percentage == outcomes[i].percentage
                    &&& made[i].options is None
                    &&& made[i].virtual_losses == virtual_losses
                    &&& self.lists.slice(made[i].instruction_list) == outcomes[i].instruction_list@
                },
        ensures
            self@.grown_by(
                before@,
                Seq::new(slice.spec_len(), |i: int| slice.key(i)),
                outcomes,
                virtual_losses,
            ),
    {
        let fresh = Seq::new(slice.spec_len(), |i: int| slice.key(i));
        let d = virt_arena::stride::<Node<S, V, I>>();
        self.nodes.slice_is_held(slice);
        assert forall|i: int, j: int| 0 <= i < j < fresh.len() implies #[trigger] fresh[i]
            < #[trigger] fresh[j] by {
            assert(self.nodes@.contains_key(slice.key(i)));
            assert(self.nodes@.contains_key(slice.key(j)));
            assert(i * d < j * d) by (nonlinear_arith)
                requires
                    0 <= i < j,
                    0 < d,
            ;
        }
        assert forall|g: u32, i: int|
            #![trigger before@.nodes.contains_key(g), fresh[i]]
            before@.nodes.contains_key(g) && 0 <= i < fresh.len() implies g < fresh[i] by {
            assert(before.nodes@.contains_key(g));
            assert(slice.covers(slice.key(i)));
        }
        assert forall|g: u32| #[trigger] self@.nodes.contains_key(g) <==> before@.nodes.contains_key(g)
            || fresh.contains(g) by {
            assert(self.nodes@.contains_key(g) <==> before.nodes@.contains_key(g) || slice.covers(g));
            if slice.covers(g) {
                let i = choose|i: int| 0 <= i < slice.spec_len() && g == #[trigger] slice.key(i);
                assert(fresh[i] == g);
            }
            if fresh.contains(g) {
                let i = choose|i: int| 0 <= i < fresh.len() && fresh[i] == g;
                assert(g == slice.key(i));
            }
        }
        assert forall|i: int| 0 <= i < fresh.len() implies self@.nodes[#[trigger] fresh[i]]
            == reached::<S, V, I>(
            outcomes[i].percentage,
            outcomes[i].instruction_list@,
            virtual_losses,
        ) by {
            assert(self.nodes@.contains_key(slice.key(i)));
            assert(self.nodes.slice(slice)[i] == made[i]);
            assert(self.nodes@[slice.key(i)] == made[i]);
        }
    }
}

impl MemoryView {
    /// Lists cannot be stored where not even the first few of them can.
    pub proof fn lists_stay_refused<I>(self, lens: Seq<nat>, k: int)
        requires
            0 <= k <= lens.len(),
            !self.has_lists::<I>(lens.take(k)),
        ensures
            !self.has_lists::<I>(lens),
        decreases lens.len() - k,
    {
        if k < lens.len() {
            assert(lens.take(k + 1).drop_last() =~= lens.take(k));
            self.lists_stay_refused::<I>(lens, k + 1);
        } else {
            assert(lens.take(k) =~= lens);
        }
    }
}

} // verus!
