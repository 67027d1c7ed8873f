use poke_mcts::engine::MoveChoice;
use poke_mcts::perf::align::{align_gap, next_multiple_of};
use poke_mcts::perf::chain_arena;
use poke_mcts::perf::concurrent_arena;
use poke_mcts::perf::concurrent_arena::ConcurrentArena;
use poke_mcts::perf::move_options::NodeOptions;
use poke_mcts::perf::virt_arena;
use poke_mcts::perf::virt_arena::{ArenaPool, CommitRange, Handle, Values};

#[derive(Debug, PartialEq)]
struct MoveNode(MoveChoice, f32, u32);

#[test]
fn perf_node_options() {
    let mut block = ConcurrentArena::new(0x7f00_0000_1004);
    let mut ar = block.sub_arena();
    let mut vals = concurrent_arena::Values::<NodeOptions<MoveNode>>::new();
    // we don't expect to instantiate this with empty lists, but the logic should handle it.
    let s1: &[MoveChoice] = &[];
    let s2: &[MoveChoice] = &[];
    let a = ar.alloc_node_options(&mut block, &mut vals, s1, s2, |mc| MoveNode(mc, 0., 0));
    let a = a.resolve(&vals);
    assert_eq!(a.s1().len(), 0);
    assert_eq!(a.s2().len(), 0);

    let s1 = &[MoveChoice::NoMove, MoveChoice::NoMove];
    let s2 = &[MoveChoice::NoMove];
    let h = ar.alloc_node_options(&mut block, &mut vals, s1, s2, |mc| MoveNode(mc, 2., 3));
    let a = h.resolve(&vals);
    assert_eq!(&a.s1().iter().map(|n| n.0).collect::<Vec<_>>(), s1);
    assert_eq!(&a.s2().iter().map(|n| n.0).collect::<Vec<_>>(), s2);
    vals.options_mut(h).s2_mut()[0].2 += 2;
    let a = h.resolve(&vals);
    assert_eq!(&a.s1().iter().map(|n| n.0).collect::<Vec<_>>(), s1);
    assert_eq!(&a.s2().iter().map(|n| n.0).collect::<Vec<_>>(), s2);
    assert_eq!(a.s2()[0], MoveNode(MoveChoice::NoMove, 2., 5));

    let s1 = &[MoveChoice::NoMove, MoveChoice::NoMove];
    let s2 = &[
        MoveChoice::NoMove,
        MoveChoice::NoMove,
        MoveChoice::NoMove,
        MoveChoice::NoMove,
    ];
    let h = ar.alloc_node_options(&mut block, &mut vals, s1, s2, |mc| MoveNode(mc, 2., 3));
    let a = h.resolve(&vals);
    assert_eq!(&a.s1().iter().map(|n| n.0).collect::<Vec<_>>(), s1);
    assert_eq!(&a.s2().iter().map(|n| n.0).collect::<Vec<_>>(), s2);
    vals.options_mut(h).s1_mut()[1].2 += 2;
    let a = h.resolve(&vals);
    assert_eq!(&a.s1().iter().map(|n| n.0).collect::<Vec<_>>(), s1);
    assert_eq!(&a.s2().iter().map(|n| n.0).collect::<Vec<_>>(), s2);
    assert_eq!(a.s1()[0].2, 3);
    assert_eq!(a.s1()[1].2, 5);
}

#[test]
fn mod_node_options() {
    let mut pool = ArenaPool::new();
    let mut ar = pool.sub_arena();
    let mut vals = virt_arena::Values::<NodeOptions<MoveNode>>::new();
    // we don't expect to instantiate this with empty lists, but the logic should handle it.
    let s1: &[MoveChoice] = &[];
    let s2: &[MoveChoice] = &[];
    let a = NodeOptions::new_in(&mut ar, &mut pool, &mut vals, s1, s2, |mc| {
        MoveNode(mc, 0., 0)
    });
    let a = a.resolve(&vals);
    assert_eq!(a.s1().len(), 0);
    assert_eq!(a.s2().len(), 0);

    let s1 = &[MoveChoice::NoMove, MoveChoice::NoMove];
    let s2 = &[MoveChoice::NoMove];
    let a = NodeOptions::new_in(&mut ar, &mut pool, &mut vals, s1, s2, |mc| {
        MoveNode(mc, 2., 3)
    });
    let a = a.resolve(&vals);
    assert_eq!(&a.s1().iter().map(|n| n.0).collect::<Vec<_>>(), s1);
    assert_eq!(&a.s2().iter().map(|n| n.0).collect::<Vec<_>>(), s2);

    let s1 = &[MoveChoice::NoMove, MoveChoice::NoMove];
    let s2 = &[
        MoveChoice::NoMove,
        MoveChoice::NoMove,
        MoveChoice::NoMove,
        MoveChoice::NoMove,
    ];
    let a = NodeOptions::new_in(&mut ar, &mut pool, &mut vals, s1, s2, |mc| {
        MoveNode(mc, 2., 3)
    });
    let a = a.resolve(&vals);
    assert_eq!(&a.s1().iter().map(|n| n.0).collect::<Vec<_>>(), s1);
    assert_eq!(&a.s2().iter().map(|n| n.0).collect::<Vec<_>>(), s2);
}

#[test]
fn chained_node_options() {
    let mut pool = chain_arena::ArenaPool::new();
    let mut ar = pool.sub_arena();
    let mut vals = chain_arena::Values::<NodeOptions<MoveNode>>::new();
    let s1 = [MoveChoice::Action(4), MoveChoice::NoMove];
    let s2 = [MoveChoice::Action(9)];
    assert!(ar.can_store_options::<MoveNode>(&pool, 3));
    let none = ar.alloc_node_options(&mut pool, &mut vals, &[], &[], |mc| MoveNode(mc, 0., 0));
    let some = ar.alloc_node_options(&mut pool, &mut vals, &s1, &s2, |mc| MoveNode(mc, 2., 3));
    assert_eq!(none.resolve(&vals).s1().len(), 0);
    assert_eq!(none.resolve(&vals).s2().len(), 0);
    let a = some.resolve(&vals);
    assert_eq!(a.s1(), &[MoveNode(s1[0], 2., 3), MoveNode(s1[1], 2., 3)]);
    assert_eq!(a.s2(), &[MoveNode(s2[0], 2., 3)]);
}

#[test]
fn options_keep_their_sides() {
    let s1 = [MoveChoice::Action(1), MoveChoice::Action(2)];
    let s2 = [MoveChoice::Action(3)];
    let mut o = NodeOptions::new(&s1, &s2, |mc| (mc, 0u32));
    o.s2_mut()[0].1 = 7;
    o.s1_mut()[1].1 = 8;
    assert_eq!(o.s1(), &[(s1[0], 0), (s1[1], 8)]);
    assert_eq!(o.s2(), &[(s2[0], 7)]);
}

#[test]
fn gaps_reach_the_next_boundary() {
    assert_eq!(align_gap(8, 8), 0);
    assert_eq!(align_gap(9, 8), 7);
    assert_eq!(align_gap(15, 8), 1);
    assert_eq!(next_multiple_of(0, 4), 0);
    assert_eq!(next_multiple_of(5, 4), 8);
    assert_eq!(next_multiple_of(2, 1), 2);
}

#[test]
fn handles_start_behind_the_first_bytes() {
    let mut pool = ArenaPool::new();
    let mut ar = pool.sub_arena();
    let mut vals = Values::<u32>::new();
    assert!(ar.can_store::<u32>(&pool, 1));
    let a = ar.alloc_one(&mut pool, &mut vals, 10);
    let b = ar.alloc_one(&mut pool, &mut vals, 20);
    // offset eight, in units of two bytes
    assert_eq!(a.index(), virt_arena::LEAST_INDEX);
    assert_eq!(a.index(), 4);
    assert_eq!(b.index(), 6);
    assert_eq!(*a.resolve(&vals), 10);
    assert_eq!(*b.resolve(&vals), 20);
    *vals.resolve_mut(a) = 11;
    assert_eq!(*a.resolve(&vals), 11);
    assert_eq!(*b.resolve(&vals), 20);
    assert!(a == Handle::from_index(4));
    assert!(a != b);
    pool.reset_and_free();
    let mut small = pool.sub_arena();
    let mut shorts = Values::<u16>::new();
    assert_eq!(small.alloc_one(&mut pool, &mut shorts, 1).index(), 4);
    assert_eq!(small.alloc_one(&mut pool, &mut shorts, 2).index(), 5);
}

#[test]
fn one_arena_takes_values_of_many_types() {
    let mut pool = ArenaPool::new();
    let mut ar = pool.sub_arena();
    let mut bytes = Values::<u8>::new();
    let mut longs = Values::<u64>::new();
    let mut units = Values::<()>::new();
    let a = ar.alloc_one(&mut pool, &mut bytes, 1);
    let b = ar.alloc_one(&mut pool, &mut bytes, 2);
    let c = ar.alloc_one(&mut pool, &mut longs, 3);
    let d = ar.alloc_one(&mut pool, &mut units, ());
    let e = ar.alloc_one(&mut pool, &mut units, ());
    // bytes are padded to two, eight bytes start at a multiple of eight
    assert_eq!((a.index(), b.index(), c.index()), (4, 5, 8));
    // what has no size takes no place
    assert_eq!((d.index(), e.index()), (12, 12));
    assert!(d == e);
    assert_eq!((*a.resolve(&bytes), *b.resolve(&bytes)), (1, 2));
    assert_eq!(*c.resolve(&longs), 3);
    assert_eq!(*e.resolve(&units), ());
}

#[test]
fn slices_read_back() {
    let mut pool = ArenaPool::new();
    let mut ar = pool.sub_arena();
    let mut vals = Values::<u64>::new();
    let empty = ar.alloc_slice(&mut pool, &mut vals, vec![]);
    let s = ar.alloc_slice(&mut pool, &mut vals, vec![5, 6, 7]);
    let t = ar.alloc_slice(&mut pool, &mut vals, vec![8]);
    assert_eq!(empty.len(), 0);
    assert_eq!(empty.resolve(&vals), &[] as &[u64]);
    assert_eq!(s.len(), 3);
    assert_eq!(s.resolve(&vals), &[5, 6, 7]);
    assert_eq!(t.resolve(&vals), &[8]);
    let read: Vec<u64> = s.iter().iter().map(|h| *h.resolve(&vals)).collect();
    assert_eq!(read, vec![5, 6, 7]);
    let at: Vec<u32> = s.iter().iter().map(|h| h.index()).collect();
    assert_eq!(at, vec![4, 8, 12]);
}

#[test]
fn slices_of_odd_and_empty_values_read_back() {
    let mut pool = ArenaPool::new();
    let mut ar = pool.sub_arena();
    let mut triples = Values::<[u8; 3]>::new();
    let s = ar.alloc_slice(&mut pool, &mut triples, vec![[1, 2, 3], [4, 5, 6]]);
    assert_eq!(s.resolve(&triples), &[[1, 2, 3], [4, 5, 6]]);
    // six bytes, three bytes and a gap, six bytes
    let t = ar.alloc_slice(&mut pool, &mut triples, vec![[7, 8, 9]]);
    let u = ar.alloc_slice(&mut pool, &mut triples, vec![[0, 0, 1], [0, 0, 2]]);
    assert_eq!((s.first_index(), t.first_index(), u.first_index()), (4, 7, 9));
    assert_eq!(t.resolve(&triples), &[[7, 8, 9]]);
    assert_eq!(u.resolve(&triples), &[[0, 0, 1], [0, 0, 2]]);
    assert_eq!(s.resolve(&triples), &[[1, 2, 3], [4, 5, 6]]);
    let mut units = Values::<()>::new();
    let v = ar.alloc_slice(&mut pool, &mut units, vec![(), (), ()]);
    let w = ar.alloc_slice(&mut pool, &mut units, vec![()]);
    assert_eq!(v.resolve(&units), &[(), (), ()]);
    assert_eq!(w.resolve(&units), &[()]);
    assert_eq!((v.first_index(), w.first_index()), (12, 12));
    let at: Vec<u32> = v.iter().iter().map(|h| h.index()).collect();
    assert_eq!(at, vec![12, 12, 12]);
}

#[test]
fn values_without_size_commit_nothing() {
    let mut pool = ArenaPool::new();
    let mut ar = pool.sub_arena();
    let mut units = Values::<()>::new();
    let a = ar.alloc_one(&mut pool, &mut units, ());
    let b = ar.alloc_one(&mut pool, &mut units, ());
    assert!(a == b);
    assert_eq!(a.index(), 4);
    assert_eq!(*a.resolve(&units), ());
    assert_eq!(pool.retained_size(), 0);
    assert!(!virt_arena::is_indexable::<()>() && !virt_arena::is_indexable::<u8>());
    assert!(virt_arena::is_indexable::<[u8; 6]>());
}

#[test]
fn arenas_of_one_pool_take_different_slices() {
    let mut pool = ArenaPool::new();
    let mut vals = Values::<u64>::new();
    let mut a = pool.sub_arena();
    let mut b = pool.sub_arena();
    let x = a.alloc_one(&mut pool, &mut vals, 1);
    let y = b.alloc_one(&mut pool, &mut vals, 2);
    let z = a.alloc_slice(&mut pool, &mut vals, vec![3, 4]);
    assert!(y.index() - x.index() >= 0x40_0000);
    // a handle leads to its value, whichever arena made it
    assert_eq!(*x.resolve(&vals), 1);
    assert_eq!(*y.resolve(&vals), 2);
    assert_eq!(z.resolve(&vals), &[3, 4]);
    assert_eq!(z.first_index(), x.index() + 4);
}

#[test]
fn slices_are_committed_in_steps() {
    let mut pool = ArenaPool::new();
    assert_eq!(pool.retained_size(), 0);
    let first = pool.alloc_slice(1);
    assert_eq!(first.offset, 8);
    assert_eq!(first.len, 1 << 23);
    assert!(first.commit == Some(CommitRange { start: 0, len: 1 << 28 }));
    assert_eq!(pool.retained_size(), 1 << 28);
    let second = pool.alloc_slice((1 << 23) + 1);
    assert_eq!(second.offset, 8 + (1 << 23));
    assert_eq!(second.len, (1 << 23) + 2);
    assert!(second.commit == None);
    let third = pool.alloc_slice(1 << 28);
    assert!(third.commit == Some(CommitRange { start: 1 << 28, len: 1 << 28 }));
    assert_eq!(pool.retained_size(), 2 << 28);
}

#[test]
fn every_slice_is_committed_to_its_end() {
    let mut pool = ArenaPool::new();
    // a whole step, behind the first bytes: one step is too little
    let first = pool.alloc_slice(virt_arena::COMMIT_SIZE);
    assert!(first.commit == Some(CommitRange { start: 0, len: 2 << 28 }));
    assert!(first.offset + first.len <= pool.retained_size());
    let second = pool.alloc_slice(virt_arena::COMMIT_SIZE);
    assert!(second.commit == Some(CommitRange { start: 2 << 28, len: 1 << 28 }));
    assert!(second.offset + second.len <= pool.retained_size());
    let third = pool.alloc_slice(3 * virt_arena::COMMIT_SIZE - 8);
    assert!(third.commit == Some(CommitRange { start: 3 << 28, len: 3 << 28 }));
    assert!(third.offset + third.len <= pool.retained_size());
}

#[test]
fn as_much_is_committed_as_a_slice_has() {
    let mut pool = ArenaPool::new();
    let first = pool.alloc_slice(209_715_200);
    assert!(first.commit == Some(CommitRange { start: 0, len: 1 << 28 }));
    // the part past what is committed would fit into one step
    let second = pool.alloc_slice(314_572_800);
    assert!(second.commit == Some(CommitRange { start: 1 << 28, len: 2 << 28 }));
    assert_eq!(pool.retained_size(), 805_306_368);
}

#[test]
fn a_reset_keeps_what_is_committed() {
    let mut pool = ArenaPool::new();
    pool.alloc_slice(100);
    pool.reset();
    assert_eq!(pool.retained_size(), 1 << 28);
    let again = pool.alloc_slice(100);
    assert_eq!(again.offset, 8);
    assert!(again.commit == None);
    let freed = pool.reset_and_free();
    assert!(freed == CommitRange { start: 0, len: 1 << 28 });
    assert_eq!(pool.retained_size(), 0);
    let fresh = pool.alloc_slice(100);
    assert_eq!(fresh.offset, 8);
    assert!(fresh.commit == Some(CommitRange { start: 0, len: 1 << 28 }));
}

#[test]
fn rounds_repeat_after_a_reset() {
    let sizes = [1, 1 << 24, (1 << 27) + 1, 100, 1 << 27];
    let mut pool = ArenaPool::new();
    let first: Vec<_> = sizes.iter().map(|m| pool.alloc_slice(*m)).collect();
    let retained = pool.retained_size();
    pool.reset();
    assert_eq!(pool.retained_size(), retained);
    for slice in first {
        let again = pool.alloc_slice(slice.len);
        assert_eq!((again.offset, again.len), (slice.offset, slice.len));
        assert!(again.commit == None);
    }
    assert_eq!(pool.retained_size(), retained);
}

#[test]
fn a_pool_runs_out_at_the_end_of_its_reservation() {
    let mut pool = ArenaPool::new();
    // the first bytes of the reservation are not dealt out
    assert!(pool.can_grant(virt_arena::RESERVE_SIZE - 8));
    assert!(!pool.can_grant(virt_arena::RESERVE_SIZE - 7));
    assert!(!pool.can_grant(virt_arena::RESERVE_SIZE));
    assert!(!pool.can_grant(u64::MAX));
    pool.alloc_slice(virt_arena::RESERVE_SIZE - virt_arena::COMMIT_SIZE);
    assert!(pool.can_grant(virt_arena::COMMIT_SIZE - 8));
    assert!(!pool.can_grant(virt_arena::COMMIT_SIZE));
    let ar = pool.sub_arena();
    assert!(ar.can_store::<u64>(&pool, 1 << 20));
    assert!(!ar.can_store::<u64>(&pool, 1 << 30));
    assert!(!ar.can_store::<u64>(&pool, usize::MAX));
    assert!(!ar.can_store::<()>(&pool, usize::MAX));
}

#[test]
fn blocks_start_behind_the_reserved_bytes() {
    let mut block = ConcurrentArena::new(0x1_0000_0004);
    let mut ar = block.sub_arena();
    let mut vals = concurrent_arena::Values::<u64>::new();
    let a = ar.alloc_one(&mut block, &mut vals, 3);
    let b = ar.alloc_one(&mut block, &mut vals, 4);
    // the block starts four bytes behind a multiple of eight
    assert_eq!(a.index(), 4);
    assert_eq!(b.index(), 12);
    assert_eq!(*a.resolve(&vals), 3);
    assert_eq!(*b.resolve(&vals), 4);
    assert!(a == a);
    assert!(a != b);
    let mut other = block.sub_arena();
    let mut bytes = concurrent_arena::Values::<u8>::new();
    let s = other.alloc_slice(&mut block, &mut bytes, vec![1, 2, 3]);
    assert_eq!(s.len(), 3);
    assert_eq!(s.resolve(&bytes), &[1, 2, 3]);
    let at: Vec<u32> = s.iter().iter().map(|h| h.index()).collect();
    let first = 4 + (1 << 23);
    assert_eq!(at, vec![first, first + 1, first + 2]);
    let c = other.alloc_one(&mut block, &mut vals, 5);
    assert_eq!(c.index(), first + 8);
    let read = [a, b, c].map(|h| *h.resolve(&vals));
    assert_eq!(read, [3, 4, 5]);
}

#[test]
fn empty_values_share_a_handle() {
    let mut block = ConcurrentArena::new(0x1000);
    let mut ar = block.sub_arena();
    let mut units = concurrent_arena::Values::<()>::new();
    let a = ar.alloc_one(&mut block, &mut units, ());
    let s = ar.alloc_slice(&mut block, &mut units, vec![(), ()]);
    assert_eq!(a.index(), 4);
    assert_eq!(s.resolve(&units), &[(), ()]);
    let at: Vec<u32> = s.iter().iter().map(|h| h.index()).collect();
    assert_eq!(at, vec![4, 4]);
}

#[test]
fn raw_requests_are_aligned() {
    let mut block = ConcurrentArena::new(0x1_0000_0000);
    let mut ar = block.sub_arena();
    assert!(ar.has_room(&block, 1, 3));
    assert_eq!(ar.alloc_raw(&mut block, 1, 3), 4);
    assert_eq!(ar.alloc_raw(&mut block, 8, 8), 8);
    assert_eq!(ar.alloc_raw(&mut block, 4, 4), 16);
}

#[test]
fn ranges_of_a_block_do_not_overlap() {
    let mut block = ConcurrentArena::new(0x1_0000_0004);
    let mut arenas = [block.sub_arena(), block.sub_arena()];
    let mut given: Vec<(u64, u64)> = vec![];
    for round in 0..2 {
        let requests = [(0, 8, 24), (1, 1, 3), (1, 4, 8), (0, 2, 0), (0, 16, 1 << 24), (1, 8, 8)];
        for (arena, align, len) in requests {
            let at = arenas[arena].alloc_raw(&mut block, align, len) as u64;
            assert_eq!((0x1_0000_0004 + at) % align, 0);
            assert!(4 <= at && at + len <= concurrent_arena::CAPACITY);
            assert!(given.iter().all(|(o, n)| o + n <= at || at + len <= *o));
            given.push((at, len));
        }
        assert_eq!(given.len(), 6 * (round + 1));
    }
}

#[test]
fn a_block_runs_out_at_its_capacity() {
    let mut block = ConcurrentArena::new(0x1000);
    assert!(block.can_grant(concurrent_arena::CAPACITY - 4));
    assert!(!block.can_grant(concurrent_arena::CAPACITY - 3));
    assert!(!block.can_grant(u64::MAX));
    let first = block.alloc_slice(concurrent_arena::CAPACITY - 4 - (1 << 23));
    assert_eq!(first.offset, 4);
    let last = block.alloc_slice(1);
    assert_eq!(last.len, 1 << 23);
    assert_eq!(last.offset + last.len, concurrent_arena::CAPACITY);
    assert!(!block.can_grant(1));
    let ar = block.sub_arena();
    assert!(!ar.can_store::<u64>(&block, 1));
    assert!(!ar.can_store::<u64>(&block, usize::MAX));
    block.reset();
    let again = block.alloc_slice(1);
    assert_eq!(again.offset, 4);
}

#[test]
fn options_fit_or_not() {
    let mut block = ConcurrentArena::new(0x1000);
    block.alloc_slice(concurrent_arena::CAPACITY - 4 - (1 << 23));
    let ar = block.sub_arena();
    assert!(ar.can_store_options::<u64>(&block, 510));
    block.alloc_slice(1);
    assert!(!ar.can_store_options::<u64>(&block, 510));
    let pool = ArenaPool::new();
    let ar = pool.sub_arena();
    assert!(ar.can_store_options::<u64>(&pool, 510));
}

#[test]
fn chunks_are_dealt_out_in_slices() {
    let mut pool = chain_arena::ArenaPool::new();
    assert_eq!(pool.retained_size(), 1 << 26);
    let first = pool.alloc_slice(10);
    assert_eq!((first.chunk, first.offset, first.len), (0, 0, 1 << 23));
    let second = pool.alloc_slice((1 << 23) + 5);
    assert_eq!((second.chunk, second.offset, second.len), (0, 1 << 23, (1 << 23) + 5));
    assert_eq!(first.base, second.base);
    // too large for what is left: a chunk of its own
    let third = pool.alloc_slice((1 << 26) + 1);
    assert_eq!((third.chunk, third.offset, third.len), (1, 0, (1 << 26) + 1));
    assert_ne!(third.base, first.base);
    assert_eq!(pool.retained_size(), (2 << 26) + 1);
    pool.reset();
    assert_eq!(pool.retained_size(), (2 << 26) + 1);
    let again = pool.alloc_slice(1 << 26);
    assert_eq!((again.chunk, again.offset, again.base), (0, 0, first.base));
    // the chunk behind is large enough, and is used again
    let next = pool.alloc_slice(1);
    assert_eq!((next.chunk, next.offset, next.base), (1, 0, third.base));
    assert_eq!(pool.retained_size(), (2 << 26) + 1);
}

#[test]
fn chunks_that_are_too_small_are_given_up() {
    let mut pool = chain_arena::ArenaPool::new();
    pool.alloc_slice(1 << 26);
    let second = pool.alloc_slice(1 << 26);
    assert_eq!(second.chunk, 1);
    assert_eq!(pool.retained_size(), 2 << 26);
    pool.reset();
    let large = pool.alloc_slice((1 << 26) + 8);
    assert_eq!((large.chunk, large.len), (1, (1 << 26) + 8));
    assert_eq!(pool.retained_size(), (2 << 26) + 8);
    assert!(!pool.can_grant(usize::MAX));
    assert!(pool.can_grant(8));
}

#[test]
fn the_rest_of_a_chunk_is_dealt_out_whole() {
    let mut pool = chain_arena::ArenaPool::new();
    pool.alloc_slice((1 << 26) - 100);
    let rest = pool.alloc_slice(10);
    assert_eq!((rest.chunk, rest.offset, rest.len), (0, (1 << 26) - 100, 100));
    let next = pool.alloc_slice(10);
    assert_eq!((next.chunk, next.offset, next.len), (1, 0, 1 << 23));
}

#[test]
fn chained_values_read_back() {
    let mut pool = chain_arena::ArenaPool::new();
    let mut ar = pool.sub_arena();
    let mut vals = chain_arena::Values::<String>::new();
    assert!(ar.can_store::<String>(&pool, 1));
    assert!(!ar.can_store::<String>(&pool, usize::MAX));
    let a = ar.alloc_one(&mut pool, &mut vals, "a".to_string());
    let s = ar.alloc_slice(&mut pool, &mut vals, vec!["b".to_string(), "c".to_string()]);
    let d = ar.alloc_one(&mut pool, &mut vals, "d".to_string());
    assert_eq!(a.resolve(&vals), "a");
    assert_eq!(s.resolve(&vals), &["b".to_string(), "c".to_string()]);
    assert_eq!(s.len(), 2);
    assert_eq!(d.resolve(&vals), "d");
    let read: Vec<String> = s.iter().iter().map(|h| h.resolve(&vals).clone()).collect();
    assert_eq!(read, vec!["b".to_string(), "c".to_string()]);
    assert!(a == a.clone());
    assert!(a != d);
    assert!(s.iter()[1] != d);
    let mut other = pool.sub_arena();
    let e = other.alloc_one(&mut pool, &mut vals, "e".to_string());
    assert_eq!((a.resolve(&vals).as_str(), e.resolve(&vals).as_str()), ("a", "e"));
}

#[test]
fn chained_arenas_take_different_slices() {
    let mut pool = chain_arena::ArenaPool::new();
    let mut arenas = [pool.sub_arena(), pool.sub_arena()];
    let mut vals = chain_arena::Values::<u64>::new();
    let mut handles = vec![];
    for k in 0..6u64 {
        for ar in arenas.iter_mut() {
            handles.push((k, ar.alloc_one(&mut pool, &mut vals, k)));
        }
    }
    // each arena holds one slice, and the next starts behind both
    assert_eq!(pool.alloc_slice(1).offset, 2 << 23);
    for (k, h) in handles {
        assert_eq!(*h.resolve(&vals), k);
    }
    let sizes = [1usize, 1 << 24, (1 << 26) + 8, 100, 1 << 25, 9];
    let given: Vec<_> = sizes.iter().map(|m| pool.alloc_slice(*m)).collect();
    for (i, a) in given.iter().enumerate() {
        for b in &given[i + 1..] {
            let apart = a.offset + a.len <= b.offset || b.offset + b.len <= a.offset;
            assert!(a.chunk != b.chunk || apart);
        }
    }
}

#[test]
fn chained_rounds_repeat_after_a_reset() {
    let sizes = [1, 1 << 25, (1 << 26) + 8, 100, 1 << 26];
    let mut pool = chain_arena::ArenaPool::new();
    let first: Vec<_> = sizes.iter().map(|m| pool.alloc_slice(*m)).collect();
    let retained = pool.retained_size();
    pool.reset();
    let again: Vec<_> = sizes.iter().map(|m| pool.alloc_slice(*m)).collect();
    assert_eq!(again, first);
    assert_eq!(pool.retained_size(), retained);
}

#[test]
fn chained_empty_values_read_back() {
    let mut pool = chain_arena::ArenaPool::new();
    let mut ar = pool.sub_arena();
    let mut units = chain_arena::Values::<()>::new();
    let a = ar.alloc_one(&mut pool, &mut units, ());
    let s = ar.alloc_slice(&mut pool, &mut units, vec![(), ()]);
    assert_eq!(s.resolve(&units), &[(), ()]);
    assert_eq!(s.iter().len(), 2);
    assert!(a != s.iter()[0]);
}

#[test]
fn ranges_of_a_pool_do_not_overlap() {
    let mut pool = ArenaPool::new();
    let mut arenas = [pool.sub_arena(), pool.sub_arena()];
    let mut longs = Values::<u64>::new();
    let mut bytes = Values::<u8>::new();
    let mut given: Vec<(u32, u32)> = vec![];
    for round in 0..3u8 {
        for ar in arenas.iter_mut() {
            let b = ar.alloc_slice(&mut pool, &mut bytes, vec![round; 3]);
            let l = ar.alloc_slice(&mut pool, &mut longs, vec![round as u64; 2]);
            assert_eq!(b.resolve(&bytes), &[round; 3]);
            assert_eq!(l.resolve(&longs), &[round as u64; 2]);
            assert_eq!(l.first_index() % 4, 0);
            for (at, len) in [(b.first_index(), 2), (l.first_index(), 8)] {
                assert!(virt_arena::LEAST_INDEX <= at);
                assert!(given.iter().all(|(o, n)| o + n <= at || at + len <= *o));
                given.push((at, len));
            }
        }
    }
    assert_eq!(given.len(), 12);
}
