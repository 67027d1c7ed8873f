//! Bump arenas over a list of chunks.
//!
//! [`ArenaPool`] owns the chunks and deals them out in slices. [`Arena`] takes places in a slice for
//! values of any type; when the slice is used up it fetches another one from the pool. The values
//! are kept in [`Values`], one for each type, which all arenas of a pool share.

use crate::engine::MoveChoice;
use crate::perf::align;
use crate::perf::move_options;
use crate::perf::move_options::NodeOptions;
use core::marker::PhantomData;
use vstd::prelude::*;

verus! {

/// Least number of bytes in a chunk.
pub const DEFAULT_CHUNK_LEN: usize = 0x400_0000;

/// Least number of bytes in a slice, where its chunk has as many left.
pub const DEFAULT_SLICE_LEN: usize = 0x80_0000;

/// Where a chunk starts, and how many bytes it has.
pub struct ChunkView {
    pub base: int,
    pub len: int,
}

/// Calls `Vec::as_ptr`: the address at which the memory of a vector starts. Nothing is claimed of
/// it.
#[verifier::external_body]
fn address_of(memory: &Vec<u8>) -> (r: usize) {
    memory.as_ptr().addr()
}

/// Memory that a pool owns.
struct Chunk {
    memory: Vec<u8>,
    base: usize,
    len: usize,
}

impl Chunk {
    spec fn view(self) -> ChunkView {
        ChunkView { base: self.base as int, len: self.len as int }
    }

    /// Fetches a chunk.
    fn alloc_chunk(len: usize) -> (r: Self)
        requires
            len <= isize::MAX,
        ensures
            r@.len == len,
    {
        let memory: Vec<u8> = Vec::with_capacity(len);
        let base = address_of(&memory);
        Chunk { memory, base, len }
    }
}

/// Number of bytes in all of these chunks.
pub open spec fn total_len(chunks: Seq<ChunkView>) -> int
    decreases chunks.len(),
{
    if chunks.len() == 0 {
        0
    } else {
        total_len(chunks.drop_last()) + chunks.last().len
    }
}

/// Every chunk counts for its length once.
pub proof fn every_chunk_is_counted(chunks: Seq<ChunkView>, chunk: ChunkView)
    ensures
        total_len(Seq::<ChunkView>::empty()) == 0,
        total_len(chunks.push(chunk)) == total_len(chunks) + chunk.len,
{
    assert(chunks.push(chunk).drop_last() =~= chunks);
}

/// The chunks without number `p`, whose place the last one takes.
pub open spec fn swap_removed(chunks: Seq<ChunkView>, p: int) -> Seq<ChunkView> {
    chunks.update(p, chunks.last()).drop_last()
}

/// The chunks that are left once number `p` has been given up as often as it is too small.
pub open spec fn pruned(chunks: Seq<ChunkView>, p: int, size: int) -> Seq<ChunkView>
    decreases chunks.len(),
{
    if 0 <= p < chunks.len() && chunks[p].len < size {
        pruned(swap_removed(chunks, p), p, size)
    } else {
        chunks
    }
}

/// Giving up chunks keeps those before number `p`, and leaves a chunk there that is large enough,
/// or none.
pub proof fn pruning_keeps_the_front(chunks: Seq<ChunkView>, p: int, size: int)
    requires
        0 <= p <= chunks.len(),
        forall|i: int| 0 <= i < chunks.len() ==> 0 <= (#[trigger] chunks[i]).len,
    ensures
        p <= pruned(chunks, p, size).len() <= chunks.len(),
        pruned(chunks, p, size).take(p) == chunks.take(p),
        p < pruned(chunks, p, size).len() ==> pruned(chunks, p, size)[p].len >= size,
        forall|i: int|
            0 <= i < pruned(chunks, p, size).len() ==> 0 <= (#[trigger] pruned(
                chunks,
                p,
                size,
            )[i]).len,
        total_len(pruned(chunks, p, size)) <= total_len(chunks),
        0 <= total_len(pruned(chunks, p, size)),
    decreases chunks.len(),
{
    if 0 <= p < chunks.len() && chunks[p].len < size {
        let fewer = swap_removed(chunks, p);
        assert forall|i: int| 0 <= i < fewer.len() implies 0 <= (#[trigger] fewer[i]).len by {
            let _ = chunks[i];
            let _ = chunks[chunks.len() - 1];
        }
        pruning_keeps_the_front(fewer, p, size);
        assert(fewer.take(p) =~= chunks.take(p));
        removal_shortens(chunks, p);
    } else {
        lengths_add_up(chunks);
    }
}

/// Giving up a chunk takes its length off the total.
proof fn removal_shortens(chunks: Seq<ChunkView>, p: int)
    requires
        0 <= p < chunks.len(),
        forall|i: int| 0 <= i < chunks.len() ==> 0 <= (#[trigger] chunks[i]).len,
    ensures
        total_len(swap_removed(chunks, p)) == total_len(chunks) - chunks[p].len,
        total_len(swap_removed(chunks, p)) <= total_len(chunks),
{
    let fore = chunks.drop_last();
    let last = chunks.last();
    if p == chunks.len() - 1 {
        assert(swap_removed(chunks, p) =~= fore);
    } else {
        assert(swap_removed(chunks, p) =~= fore.update(p, last));
        update_changes_the_total(fore, p, last);
    }
    let _ = chunks[p];
}

/// Replacing a chunk changes the total by as much as the lengths differ.
proof fn update_changes_the_total(chunks: Seq<ChunkView>, p: int, c: ChunkView)
    requires
        0 <= p < chunks.len(),
    ensures
        total_len(chunks.update(p, c)) == total_len(chunks) - chunks[p].len + c.len,
    decreases chunks.len(),
{
    let after = chunks.update(p, c);
    if p == chunks.len() - 1 {
        assert(after.drop_last() =~= chunks.drop_last());
    } else {
        update_changes_the_total(chunks.drop_last(), p, c);
        assert(after.drop_last() =~= chunks.drop_last().update(p, c));
    }
}

/// No chunk is longer than all together.
proof fn lengths_add_up(chunks: Seq<ChunkView>)
    requires
        forall|i: int| 0 <= i < chunks.len() ==> 0 <= (#[trigger] chunks[i]).len,
    ensures
        0 <= total_len(chunks),
        forall|i: int| 0 <= i < chunks.len() ==> (#[trigger] chunks[i]).len <= total_len(chunks),
    decreases chunks.len(),
{
    if chunks.len() > 0 {
        let fore = chunks.drop_last();
        assert forall|i: int| 0 <= i < fore.len() implies 0 <= (#[trigger] fore[i]).len by {
            let _ = chunks[i];
        }
        lengths_add_up(fore);
        let _ = chunks[chunks.len() - 1];
        assert forall|i: int| 0 <= i < chunks.len() implies (#[trigger] chunks[i]).len
            <= total_len(chunks) by {
            if i < fore.len() {
                let _ = fore[i];
            }
        }
    }
}

/// The chunks of a pool, the one that is being dealt out, and how much of it has been.
pub struct PoolView {
    pub chunks: Seq<ChunkView>,
    pub current: int,
    pub used: int,
}

/// Number of bytes in the chunk that is fetched for a slice of `size` bytes.
pub open spec fn chunk_len(size: int) -> int {
    align::larger(size, DEFAULT_CHUNK_LEN as int)
}

impl PoolView {
    /// What is left of the current chunk.
    pub open spec fn rest(self) -> int {
        self.chunks[self.current].len - self.used
    }

    /// The chunks that are left once those behind the current one that are too small have been
    /// given up.
    pub open spec fn kept(self, size: int) -> Seq<ChunkView> {
        pruned(self.chunks, self.current + 1, size)
    }

    /// A slice of `size` bytes takes another chunk.
    pub open spec fn wants_chunk(self, size: int) -> bool {
        self.rest() < size && self.kept(size).len() == self.current + 1
    }

    /// The pool once its current chunk has room for `size` bytes; `fresh` is the chunk that is
    /// fetched if another one is needed.
    pub open spec fn ready(self, size: int, fresh: ChunkView) -> PoolView {
        if self.rest() >= size {
            self
        } else {
            PoolView {
                chunks: if self.wants_chunk(size) {
                    self.kept(size).push(fresh)
                } else {
                    self.kept(size)
                },
                current: self.current + 1,
                used: 0,
            }
        }
    }

    /// Length of the slice that answers a request for `size` bytes, where the current chunk has
    /// room for it.
    pub open spec fn slice_size(self, size: int) -> int {
        align::larger(
            size,
            if self.rest() < DEFAULT_SLICE_LEN {
                self.rest()
            } else {
                DEFAULT_SLICE_LEN as int
            },
        )
    }

    /// The pool once a slice of `size` bytes has been dealt out.
    pub open spec fn after(self, size: int, fresh: ChunkView) -> PoolView {
        let ready = self.ready(size, fresh);
        PoolView { used: ready.used + ready.slice_size(size), ..ready }
    }

    /// The pool once everything that has been dealt out has been taken back.
    pub open spec fn reset(self) -> PoolView {
        PoolView { current: 0, used: 0, ..self }
    }

    /// Another chunk, if one is needed, can be fetched.
    pub open spec fn grants(self, size: int) -> bool {
        self.wants_chunk(size) ==> {
            &&& chunk_len(size) <= isize::MAX
            &&& total_len(self.kept(size)) + chunk_len(size) <= usize::MAX
        }
    }

    /// The current chunk is one of the pool's, and no more of it has been dealt out than it has.
    pub open spec fn wf(self) -> bool {
        &&& 0 <= self.current < self.chunks.len()
        &&& 0 <= self.used <= self.chunks[self.current].len
        &&& forall|i: int| 0 <= i < self.chunks.len() ==> 0 <= (#[trigger] self.chunks[i]).len
        &&& total_len(self.chunks) <= usize::MAX
    }
}

/// A slice of a chunk.
#[derive(Clone, Copy, PartialEq, Eq, Debug)]
pub struct SliceGrant {
    /// Number of the chunk.
    pub chunk: usize,
    /// Where the chunk starts.
    pub base: usize,
    /// Where the slice starts, counted from the start of the chunk.
    pub offset: usize,
    pub len: usize,
}

/// List of large chunks.
struct Inner {
    backing: Vec<Chunk>,
    /// Number of the chunk that is being dealt out.
    current_idx: usize,
    /// How much of the current chunk has been dealt out.
    current_used_len: usize,
}

impl Inner {
    spec fn chunks(self) -> Seq<ChunkView> {
        Seq::new(self.backing@.len(), |i: int| self.backing@[i]@)
    }

    spec fn view(self) -> PoolView {
        PoolView {
            chunks: self.chunks(),
            current: self.current_idx as int,
            used: self.current_used_len as int,
        }
    }

    /// A list of one chunk.
    fn new() -> (r: Self)
        ensures
            r@.wf(),
            r@.chunks.len() == 1,
            r@.chunks[0].len == DEFAULT_CHUNK_LEN,
            r@.current == 0,
            r@.used == 0,
    {
        let mut backing: Vec<Chunk> = Vec::new();
        backing.push(Chunk::alloc_chunk(DEFAULT_CHUNK_LEN));
        let r = Inner { backing, current_idx: 0, current_used_len: 0 };
        proof {
            assert(r@.chunks.drop_last() =~= Seq::<ChunkView>::empty());
            assert(total_len(r@.chunks.drop_last()) == 0);
        }
        r
    }

    /// Whether another chunk, if one is needed, can be fetched.
    fn can_grant(&self, size: usize) -> (r: bool)
        requires
            self@.wf(),
        ensures
            r == self@.grants(size as int),
    {
        let ghost before = self@;
        proof {
            lengths_add_up(before.chunks);
            pruning_keeps_the_front(before.chunks, before.current + 1, size as int);
        }
        let rest = self.backing[self.current_idx].len - self.current_used_len;
        if rest >= size {
            return true;
        }
        // what giving up chunks would leave
        let mut lens: Vec<usize> = Vec::new();
        let mut i: usize = 0;
        while i < self.backing.len()
            invariant
                i <= self.backing@.len(),
                lens@.len() == i,
                forall|k: int| 0 <= k < i ==> #[trigger] lens@[k] == self.backing@[k].len,
            decreases self.backing@.len() - i,
        {
            lens.push(self.backing[i].len);
            i = i + 1;
        }
        let p = self.current_idx + 1;
        let ghost mut left = before.chunks;
        while p < lens.len() && lens[p] < size
            invariant
                p == before.current + 1,
                before.wf(),
                p <= lens@.len(),
                lens@.len() == left.len(),
                forall|k: int| 0 <= k < lens@.len() ==> #[trigger] lens@[k] == left[k].len,
                pruned(left, p as int, size as int) == pruned(before.chunks, p as int, size as int),
            decreases lens@.len(),
        {
            let ghost was = lens@;
            lens.swap_remove(p);
            proof {
                left = swap_removed(left, p as int);
                assert forall|k: int| 0 <= k < lens@.len() implies #[trigger] lens@[k] == left[k].len by {
                    let _ = was[k];
                    let _ = was[was.len() - 1];
                }
            }
        }
        if p < lens.len() {
            return true;
        }
        let chunk = if size < DEFAULT_CHUNK_LEN {
            DEFAULT_CHUNK_LEN
        } else {
            size
        };
        let mut total: usize = 0;
        let mut k: usize = 0;
        proof {
            assert(left.take(0) =~= Seq::<ChunkView>::empty());
        }
        while k < lens.len()
            invariant
                k <= lens@.len(),
                lens@.len() == left.len(),
                forall|i: int| 0 <= i < lens@.len() ==> #[trigger] lens@[i] == left[i].len,
                forall|i: int| 0 <= i < left.len() ==> 0 <= (#[trigger] left[i]).len,
                total == total_len(left.take(k as int)),
                total_len(left) <= usize::MAX,
            decreases lens@.len() - k,
        {
            proof {
                assert(left.take(k + 1).drop_last() =~= left.take(k as int));
                total_of_front(left, k + 1);
            }
            total = total + lens[k];
            k = k + 1;
        }
        proof {
            assert(left.take(k as int) =~= left);
        }
        chunk <= isize::MAX as usize && chunk <= usize::MAX - total
    }

    /// Deals out a slice of at least `size` bytes.
    fn alloc_slice(&mut self, size: usize) -> (r: SliceGrant)
        requires
            old(self)@.wf(),
            old(self)@.grants(size as int),
        ensures
            final(self)@.wf(),
            exists|fresh: ChunkView|
                {
                    let ready = #[trigger] old(self)@.ready(size as int, fresh);
                    &&& fresh.len == chunk_len(size as int)
                    &&& final(self)@ == old(self)@.after(size as int, fresh)
                    &&& r.chunk == ready.current
                    &&& r.base == ready.chunks[ready.current].base
                    &&& r.offset == ready.used
                    &&& r.len == ready.slice_size(size as int)
                },
            size <= r.len,
            r.offset + r.len <= final(self)@.chunks[r.chunk as int].len,
    {
        let ghost before = self@;
        let ghost mut fresh = ChunkView { base: 0, len: chunk_len(size as int) };
        proof {
            lengths_add_up(before.chunks);
            pruning_keeps_the_front(before.chunks, before.current + 1, size as int);
        }
        let rem_len = self.backing[self.current_idx].len - self.current_used_len;
        if rem_len < size {
            assert(self.current_idx < self.backing.len());
            self.current_idx = self.current_idx + 1;
            let ghost p = self.current_idx as int;
            // an extremely large request: give up chunks that are too small
            while self.current_idx < self.backing.len() && self.backing[self.current_idx].len < size
                invariant
                    self.current_idx == p,
                    p == before.current + 1,
                    before.wf(),
                    p <= self.backing@.len(),
                    pruned(self.chunks(), p, size as int) == pruned(before.chunks, p, size as int),
                decreases self.backing@.len(),
            {
                let ghost was = self.chunks();
                self.backing.swap_remove(self.current_idx);
                proof {
                    assert(self.chunks() =~= swap_removed(was, p));
                }
            }
            proof {
                assert(self.chunks() == before.kept(size as int));
            }
            if self.current_idx == self.backing.len() {
                let len = if size < DEFAULT_CHUNK_LEN {
                    DEFAULT_CHUNK_LEN
                } else {
                    size
                };
                let chunk = Chunk::alloc_chunk(len);
                proof {
                    fresh = chunk@;
                }
                let ghost was = self.chunks();
                self.backing.push(chunk);
                proof {
                    assert(self.chunks() =~= was.push(fresh));
                    assert(was.push(fresh).drop_last() =~= was);
                }
            }
            self.current_used_len = 0;
        }
        let ghost ready = before.ready(size as int, fresh);
        proof {
            assert(self@.chunks =~= ready.chunks);
            assert(self@ == ready);
            assert(ready.wf()) by {
                assert forall|i: int| 0 <= i < ready.chunks.len() implies 0 <= (
                #[trigger] ready.chunks[i]).len by {}
            }
        }
        let rem_len = self.backing[self.current_idx].len - self.current_used_len;
        let least = if DEFAULT_SLICE_LEN < rem_len {
            DEFAULT_SLICE_LEN
        } else {
            rem_len
        };
        let given_size = if size < least {
            least
        } else {
            size
        };
        let r = SliceGrant {
            chunk: self.current_idx,
            base: self.backing[self.current_idx].base,
            offset: self.current_used_len,
            len: given_size,
        };
        self.current_used_len = self.current_used_len + given_size;
        proof {
            assert(self@.chunks =~= ready.chunks);
            assert(self@ == before.after(size as int, fresh));
        }
        r
    }

    /// Starts over with the first chunk.
    fn reset(&mut self)
        requires
            old(self)@.wf(),
        ensures
            final(self)@ == old(self)@.reset(),
            final(self)@.wf(),
    {
        let ghost before = self@;
        self.current_idx = 0;
        self.current_used_len = 0;
        proof {
            assert(self@.chunks =~= before.chunks);
            let _ = before.chunks[0];
        }
    }
}

/// The first few chunks are no longer than all together.
proof fn total_of_front(chunks: Seq<ChunkView>, k: int)
    requires
        0 <= k <= chunks.len(),
        forall|i: int| 0 <= i < chunks.len() ==> 0 <= (#[trigger] chunks[i]).len,
    ensures
        total_len(chunks.take(k)) <= total_len(chunks),
    decreases chunks.len() - k,
{
    if k < chunks.len() {
        total_of_front(chunks, k + 1);
        assert(chunks.take(k + 1).drop_last() =~= chunks.take(k));
        let _ = chunks[k];
    } else {
        assert(chunks.take(k) =~= chunks);
    }
}

/// Owns the memory, and deals it out in slices.
pub struct ArenaPool {
    inner: Inner,
}

impl View for ArenaPool {
    type V = PoolView;

    closed spec fn view(&self) -> PoolView {
        self.inner@
    }
}

/// A slice was dealt out of this pool: it lies in a chunk, behind everything that had been dealt
/// out of that chunk before.
pub open spec fn is_dealt(
    before: PoolView,
    after: PoolView,
    size: int,
    fresh: ChunkView,
    r: SliceGrant,
) -> bool {
    let ready = before.ready(size, fresh);
    &&& fresh.len == chunk_len(size)
    &&& after == before.after(size, fresh)
    &&& r.chunk == ready.current
    &&& r.base == ready.chunks[ready.current].base
    &&& r.offset == ready.used
    &&& r.len == ready.slice_size(size)
}

/// Giving up chunks gives up none that is large enough, and adds none.
proof fn pruning_keeps_large_chunks(chunks: Seq<ChunkView>, p: int, size: int)
    requires
        0 <= p <= chunks.len(),
    ensures
        pruned(chunks, p, size).len() <= chunks.len(),
        p <= pruned(chunks, p, size).len(),
        forall|i: int|
            p <= i < chunks.len() && (#[trigger] chunks[i]).len >= size ==> pruned(
                chunks,
                p,
                size,
            ).contains(chunks[i]) && p < pruned(chunks, p, size).len(),
        forall|i: int|
            0 <= i < pruned(chunks, p, size).len() ==> chunks.contains(
                #[trigger] pruned(chunks, p, size)[i],
            ),
        p < pruned(chunks, p, size).len() ==> pruned(chunks, p, size)[p].len >= size,
    decreases chunks.len(),
{
    if p < chunks.len() && chunks[p].len < size {
        let next = swap_removed(chunks, p);
        pruning_keeps_large_chunks(next, p, size);
        assert forall|i: int| p <= i < chunks.len() && (#[trigger] chunks[i]).len >= size implies pruned(
            chunks,
            p,
            size,
        ).contains(chunks[i]) && p < pruned(chunks, p, size).len() by {
            if i == chunks.len() - 1 {
                assert(next[p] == chunks[i]);
            } else {
                assert(next[i] == chunks[i]);
            }
        }
        assert forall|i: int| 0 <= i < next.len() implies chunks.contains(#[trigger] next[i]) by {
            if i == p {
                assert(next[i] == chunks[chunks.len() - 1]);
            } else {
                assert(next[i] == chunks[i]);
            }
        }
        assert forall|i: int| 0 <= i < pruned(chunks, p, size).len() implies chunks.contains(
            #[trigger] pruned(chunks, p, size)[i],
        ) by {
            let c = pruned(next, p, size)[i];
            assert(next.contains(c));
            let k = choose|k: int| 0 <= k < next.len() && next[k] == c;
            assert(chunks.contains(next[k]));
        }
    }
}

/// A slice is dealt out of the current chunk, and the chunks stay as they are, where the rest of that
/// chunk is large enough. Where it is not, the slice starts the next chunk: one of those behind the
/// current one if any of them is large enough, and else a new one of sixty-four mebibytes or as much
/// more as was asked for. No chunk that is large enough is given up. The slice has eight mebibytes,
/// or the rest of its chunk if that is less, or as much more as was asked for.
pub proof fn slices_come_from_the_next_large_chunk(
    before: PoolView,
    after: PoolView,
    size: int,
    fresh: ChunkView,
    r: SliceGrant,
)
    requires
        before.wf(),
        0 <= size,
        is_dealt(before, after, size, fresh, r),
    ensures
        ({
            let rest = before.chunks[before.current].len - before.used;
            let left = after.chunks[r.chunk as int].len - r.offset;
            &&& after.current == r.chunk
            &&& after.used == r.offset + r.len
            &&& r.base == after.chunks[r.chunk as int].base
            &&& r.len >= size
            &&& r.len >= left || r.len >= 0x80_0000
            &&& r.len == size || r.len == left || r.len == 0x80_0000
            &&& r.len <= left
            &&& rest >= size ==> {
                &&& after.chunks == before.chunks
                &&& r.chunk == before.current
                &&& r.offset == before.used
            }
            &&& rest < size ==> {
                &&& r.chunk == before.current + 1
                &&& r.offset == 0
                &&& forall|i: int|
                    0 <= i <= before.current ==> after.chunks[i] == #[trigger] before.chunks[i]
                &&& forall|i: int|
                    before.current < i < before.chunks.len() && (#[trigger] before.chunks[i]).len
                        >= size ==> after.chunks.contains(before.chunks[i])
                &&& if exists|i: int|
                    before.current < i < before.chunks.len() && (#[trigger] before.chunks[i]).len
                        >= size {
                    &&& forall|i: int|
                        0 <= i < after.chunks.len() ==> before.chunks.contains(
                            #[trigger] after.chunks[i],
                        )
                    &&& after.chunks.len() <= before.chunks.len()
                } else {
                    &&& after.chunks.len() == before.current + 2
                    &&& after.chunks[r.chunk as int].len >= size
                    &&& after.chunks[r.chunk as int].len >= 0x400_0000
                    &&& after.chunks[r.chunk as int].len == size || after.chunks[r.chunk as int].len
                        == 0x400_0000
                }
            }
        }),
{
    let p = before.current + 1;
    pruning_keeps_the_front(before.chunks, p, size);
    pruning_keeps_large_chunks(before.chunks, p, size);
    let kept = before.kept(size);
    let rest = before.chunks[before.current].len - before.used;
    if rest < size {
        if before.wants_chunk(size) {
            assert(forall|i: int|
                before.current < i < before.chunks.len() ==> (#[trigger] before.chunks[i]).len < size);
        } else {
            assert(kept.len() > p);
            let c = kept[p];
            assert(before.chunks.contains(c));
            nothing_large_is_left(before.chunks, p, size);
        }
        assert forall|i: int| 0 <= i <= before.current implies after.chunks[i]
            == #[trigger] before.chunks[i] by {
            assert(kept.take(p)[i] == before.chunks.take(p)[i]);
        }
        if !before.wants_chunk(size) {
            assert(after.chunks == kept);
        }
        assert forall|i: int|
            before.current < i < before.chunks.len() && (#[trigger] before.chunks[i]).len >= size implies after.chunks.contains(
            before.chunks[i],
        ) by {
            let j = choose|j: int| 0 <= j < kept.len() && kept[j] == before.chunks[i];
            assert(after.chunks[j] == before.chunks[i]);
        }
    }
}

/// Where no chunk from number `p` on is large enough, all of them are given up.
proof fn nothing_large_is_left(chunks: Seq<ChunkView>, p: int, size: int)
    requires
        0 <= p <= chunks.len(),
    ensures
        (forall|i: int| p <= i < chunks.len() ==> (#[trigger] chunks[i]).len < size) ==> pruned(
            chunks,
            p,
            size,
        ).len() == p,
    decreases chunks.len(),
{
    if p < chunks.len() && chunks[p].len < size {
        let next = swap_removed(chunks, p);
        nothing_large_is_left(next, p, size);
        if forall|i: int| p <= i < chunks.len() ==> (#[trigger] chunks[i]).len < size {
            assert forall|i: int| p <= i < next.len() implies (#[trigger] next[i]).len < size by {
                if i == p {
                    assert(next[i] == chunks[chunks.len() - 1]);
                } else {
                    assert(next[i] == chunks[i]);
                }
            }
        }
    }
}

impl ArenaPool {
    /// A pool of one chunk, of which nothing has been dealt out.
    pub fn new() -> (r: Self)
        ensures
            r@.wf(),
            r@.chunks.len() == 1,
            r@.chunks[0].len == DEFAULT_CHUNK_LEN,
            r@.current == 0,
            r@.used == 0,
    {
        ArenaPool { inner: Inner::new() }
    }

    /// An arena without a slice, which takes its slices from a pool.
    pub fn sub_arena(&self) -> (r: Arena)
        ensures
            r.cursor() == Cursor::start(),
            r.wf(),
    {
        Arena { chunk: None, base: 1, offset: 0, rem_len: 0 }
    }

    /// Whether a slice of at least `size` bytes can be dealt out.
    pub fn can_grant(&self, size: usize) -> (r: bool)
        requires
            self@.wf(),
        ensures
            r == self@.grants(size as int),
    {
        self.inner.can_grant(size)
    }

    /// Deals out a slice of at least `min_size` bytes.
    pub fn alloc_slice(&mut self, min_size: usize) -> (r: SliceGrant)
        requires
            old(self)@.wf(),
            old(self)@.grants(min_size as int),
        ensures
            final(self)@.wf(),
            exists|fresh: ChunkView| #[trigger]
                is_dealt(old(self)@, final(self)@, min_size as int, fresh, r),
            min_size <= r.len,
            r.offset + r.len <= final(self)@.chunks[r.chunk as int].len,
    {
        let ghost before = self@;
        let r = self.inner.alloc_slice(min_size);
        proof {
            let fresh = choose|fresh: ChunkView|
                {
                    let ready = #[trigger] before.ready(min_size as int, fresh);
                    &&& fresh.len == chunk_len(min_size as int)
                    &&& self.inner@ == before.after(min_size as int, fresh)
                    &&& r.chunk == ready.current
                    &&& r.base == ready.chunks[ready.current].base
                    &&& r.offset == ready.used
                    &&& r.len == ready.slice_size(min_size as int)
                };
            assert(is_dealt(before, self@, min_size as int, fresh, r));
        }
        r
    }

    /// Total number of bytes currently retained by this pool.
    pub fn retained_size(&self) -> (r: usize)
        requires
            self@.wf(),
        ensures
            r == total_len(self@.chunks),
    {
        let ghost chunks = self@.chunks;
        let mut total: usize = 0;
        let mut k: usize = 0;
        proof {
            assert(chunks.take(0) =~= Seq::<ChunkView>::empty());
        }
        while k < self.inner.backing.len()
            invariant
                self@.wf(),
                chunks == self@.chunks,
                k <= self.inner.backing@.len(),
                total == total_len(chunks.take(k as int)),
            decreases self.inner.backing@.len() - k,
        {
            proof {
                assert(chunks.take(k + 1).drop_last() =~= chunks.take(k as int));
                assert(chunks.take(k + 1).last() == chunks[k as int]);
                total_of_front(chunks, k + 1);
            }
            total = total + self.inner.backing[k].len;
            k = k + 1;
        }
        assert(chunks.take(k as int) =~= chunks);
        total
    }

    /// Takes back everything that has been dealt out. Retains all chunks. Arenas of the pool, and the
    /// values that they have placed in it, are not to be used any more.
    pub fn reset(&mut self)
        requires
            old(self)@.wf(),
        ensures
            final(self)@.wf(),
            final(self)@ == old(self)@.reset(),
    {
        self.inner.reset();
    }
}

/// Dealing out a slice leaves the chunks alone that have been dealt out of before.
pub proof fn chunks_in_use_stay(
    before: PoolView,
    after: PoolView,
    size: int,
    fresh: ChunkView,
    r: SliceGrant,
)
    requires
        before.wf(),
        is_dealt(before, after, size, fresh, r),
    ensures
        forall|i: int|
            0 <= i <= before.current ==> #[trigger] after.chunks[i] == before.chunks[i],
{
    let p = before.current + 1;
    pruning_keeps_the_front(before.chunks, p, size);
    assert forall|i: int| 0 <= i <= before.current implies #[trigger] after.chunks[i]
        == before.chunks[i] by {
        if before.rest() < size {
            assert(before.kept(size).take(p)[i] == before.chunks.take(p)[i]);
        }
    }
}

/// Slices of these sizes were dealt out one after the other; `pools` are the pools before, between
/// and after them, and `fresh` the chunks that were fetched where one was needed.
pub open spec fn is_round(
    pools: Seq<PoolView>,
    sizes: Seq<int>,
    fresh: Seq<ChunkView>,
    slices: Seq<SliceGrant>,
) -> bool {
    &&& pools.len() == sizes.len() + 1
    &&& fresh.len() == sizes.len()
    &&& slices.len() == sizes.len()
    &&& forall|k: int| 0 <= k < pools.len() ==> (#[trigger] pools[k]).wf()
    &&& forall|k: int|
        0 <= k < sizes.len() ==> is_dealt(
            pools[k],
            pools[k + 1],
            #[trigger] sizes[k],
            fresh[k],
            slices[k],
        )
}

/// A round goes forward, and leaves the chunks alone that have been dealt out of.
proof fn rounds_go_forward(
    pools: Seq<PoolView>,
    sizes: Seq<int>,
    fresh: Seq<ChunkView>,
    slices: Seq<SliceGrant>,
    j: int,
    k: int,
)
    requires
        is_round(pools, sizes, fresh, slices),
        0 <= j <= k <= sizes.len(),
    ensures
        pools[j].current < pools[k].current || (pools[j].current == pools[k].current
            && pools[j].used <= pools[k].used),
        forall|i: int|
            0 <= i <= pools[j].current ==> #[trigger] pools[k].chunks[i] == pools[j].chunks[i],
    decreases k - j,
{
    if j < k {
        rounds_go_forward(pools, sizes, fresh, slices, j, k - 1);
        let _ = sizes[k - 1];
        chunks_in_use_stay(pools[k - 1], pools[k], sizes[k - 1], fresh[k - 1], slices[k - 1]);
        pruning_keeps_the_front(
            pools[k - 1].chunks,
            pools[k - 1].current + 1,
            sizes[k - 1],
        );
        let _ = pools[k - 1];
        let _ = pools[k];
    }
}

/// No two slices of a round overlap: the later one lies behind the earlier one, in the same chunk or
/// in a later one.
pub proof fn slices_never_overlap(
    pools: Seq<PoolView>,
    sizes: Seq<int>,
    fresh: Seq<ChunkView>,
    slices: Seq<SliceGrant>,
    j: int,
    k: int,
)
    requires
        is_round(pools, sizes, fresh, slices),
        0 <= j < k < sizes.len(),
    ensures
        slices[j].chunk < slices[k].chunk || (slices[j].chunk == slices[k].chunk && slices[j].offset
            + slices[j].len <= slices[k].offset),
{
    rounds_go_forward(pools, sizes, fresh, slices, j + 1, k);
    let _ = sizes[j];
    let _ = sizes[k];
}

/// The pool in the second of two equal rounds, with a reset between them: all chunks are there, and
/// it has come as far as the first round had.
pub open spec fn again(pools: Seq<PoolView>, k: int) -> PoolView {
    PoolView { chunks: pools.last().chunks, current: pools[k].current, used: pools[k].used }
}

/// Bulk free retains all chunks: where a round starts with nothing dealt out, the same sizes, asked
/// for again after a reset, get the same slices, and no chunk is fetched or given up.
pub proof fn rounds_repeat_after_a_reset(
    pools: Seq<PoolView>,
    sizes: Seq<int>,
    fresh: Seq<ChunkView>,
    slices: Seq<SliceGrant>,
    k: int,
    other: ChunkView,
)
    requires
        is_round(pools, sizes, fresh, slices),
        pools[0].current == 0,
        pools[0].used == 0,
        0 <= k < sizes.len(),
        other.len == chunk_len(sizes[k]),
    ensures
        again(pools, 0) == pools.last().reset(),
        again(pools, k).grants(sizes[k]),
        !again(pools, k).wants_chunk(sizes[k]),
        is_dealt(again(pools, k), again(pools, k + 1), sizes[k], other, slices[k]),
        total_len(again(pools, k + 1).chunks) == total_len(pools.last().chunks),
{
    let n = sizes.len() as int;
    let size = sizes[k];
    let q = again(pools, k);
    let p = pools[k].current + 1;
    assert(pools.last() == pools[n]);
    rounds_go_forward(pools, sizes, fresh, slices, k, n);
    rounds_go_forward(pools, sizes, fresh, slices, k + 1, n);
    pruning_keeps_the_front(pools[k].chunks, p, size);
    let _ = pools[k];
    let _ = pools[k + 1];
    let _ = pools[n];
    assert(q.chunks[pools[k].current] == pools[k].chunks[pools[k].current]);
    assert(q.rest() == pools[k].rest());
    if q.rest() < size {
        assert(pools[k + 1].current == p);
        assert(q.chunks[p] == pools[k + 1].chunks[p]);
        assert(q.chunks[p].len >= size);
        assert(pruned(q.chunks, p, size) == q.chunks);
    }
}

/// Where an arena stands in its slice.
pub struct Cursor {
    /// Number of the chunk that the slice lies in, if there is a slice.
    pub chunk: Option<int>,
    /// Where the chunk starts.
    pub base: int,
    /// The next free byte, counted from there.
    pub offset: int,
    pub rem_len: int,
}

impl Cursor {
    /// Where an arena without a slice stands.
    pub open spec fn start() -> Cursor {
        Cursor { chunk: None, base: 1, offset: 0, rem_len: 0 }
    }

    /// Where an arena stands at the start of a slice.
    pub open spec fn at_slice(slice: SliceGrant) -> Cursor {
        Cursor {
            chunk: Some(slice.chunk as int),
            base: slice.base as int,
            offset: slice.offset as int,
            rem_len: slice.len as int,
        }
    }

    /// Address of the next free byte.
    pub open spec fn address(self) -> int {
        self.base + self.offset
    }

    /// The slice at hand has room for `len` bytes at a multiple of `align`.
    pub open spec fn has(self, align: int, len: int) -> bool {
        align::gap(self.address(), align) + len <= self.rem_len
    }

    /// Where the arena stands once `len` bytes at a multiple of `align` have been taken.
    pub open spec fn taken(self, align: int, len: int) -> Cursor {
        let n = align::gap(self.address(), align) + len;
        Cursor { offset: self.offset + n, rem_len: self.rem_len - n, ..self }
    }

    /// What is taken starts at a multiple of its alignment, behind everything that was taken before,
    /// and ends where what is taken next may start; both lie in the slice.
    pub proof fn placements_are_aligned_and_apart(self, align: int, len: int)
        requires
            0 < align,
            0 <= len,
            self.has(align, len),
        ensures
            ({
                let place = self.address() + align::gap(self.address(), align);
                let after = self.taken(align, len);
                &&& place % align == 0
                &&& self.address() <= place
                &&& place + len == after.address()
                &&& 0 <= after.rem_len
                &&& after.address() + after.rem_len == self.address() + self.rem_len
            }),
    {
        align::gap_is_least(self.address(), align);
    }

    /// A request can be answered.
    pub open spec fn room(self, pool: PoolView, align: int, len: int) -> bool {
        self.has(align, len) || (align + len <= usize::MAX && pool.grants(align + len))
    }

    /// Where the arena and the pool stand after a request: it is answered in the slice at hand, or
    /// else in the pool's next one.
    pub open spec fn moves(
        self,
        pool: PoolView,
        align: int,
        len: int,
        after: Cursor,
        pool_after: PoolView,
    ) -> bool {
        if self.has(align, len) {
            after == self.taken(align, len) && pool_after == pool
        } else {
            exists|fresh: ChunkView, slice: SliceGrant| #[trigger]
                is_dealt(pool, pool_after, align + len, fresh, slice) && after == Cursor::at_slice(
                    slice,
                ).taken(align, len)
        }
    }
}

/// A single-thread bump allocator.
pub struct Arena {
    chunk: Option<usize>,
    base: usize,
    offset: usize,
    rem_len: usize,
}

/// The values of one type that lie in a pool. All arenas of the pool may add to them. They live as
/// long as this does.
pub struct Values<T> {
    items: Vec<T>,
}

impl<T> View for Values<T> {
    type V = Seq<T>;

    /// The values, in the order in which they were added.
    closed spec fn view(&self) -> Seq<T> {
        self.items@
    }
}

/// Stands for a value.
#[derive(Hash)]
pub struct Handle<T> {
    index: usize,
    marker: PhantomData<T>,
}

/// Stands for values that were added together.
pub struct SliceHandle<T> {
    first: usize,
    len: usize,
    marker: PhantomData<T>,
}

impl<T> Handle<T> {
    /// How many values were added before.
    pub closed spec fn spec_index(self) -> nat {
        self.index as nat
    }
}

impl<T> SliceHandle<T> {
    /// How many values were added before.
    pub closed spec fn spec_first(self) -> nat {
        self.first as nat
    }

    /// Number of values.
    pub closed spec fn spec_len(self) -> nat {
        self.len as nat
    }

    /// All values of the slice are there.
    pub open spec fn is_held(self, items: Seq<T>) -> bool {
        self.spec_first() + self.spec_len() <= items.len()
    }

    /// The handles of all values can be told.
    pub open spec fn wf(self) -> bool {
        self.spec_first() + self.spec_len() <= usize::MAX
    }

    /// The values of the slice.
    pub open spec fn values(self, items: Seq<T>) -> Seq<T> {
        items.subrange(self.spec_first() as int, self.spec_first() + self.spec_len() as int)
    }
}

/// Number of bytes that `count` values take.
pub open spec fn bytes<T>(count: nat) -> int {
    (count * vstd::layout::size_of::<T>()) as int
}

impl<T> Values<T> {
    /// No values.
    pub fn new() -> (r: Self)
        ensures
            r@ == Seq::<T>::empty(),
    {
        Values { items: Vec::new() }
    }
}

impl Arena {
    /// Where the arena stands in its slice.
    pub closed spec fn cursor(self) -> Cursor {
        Cursor {
            chunk: match self.chunk {
                Some(c) => Some(c as int),
                None => None,
            },
            base: self.base as int,
            offset: self.offset as int,
            rem_len: self.rem_len as int,
        }
    }

    /// The slice at hand ends where its chunk can.
    pub closed spec fn wf(self) -> bool {
        self.offset + self.rem_len <= usize::MAX
    }

    /// `count` values can be added next to each other.
    pub open spec fn has_room_for<T>(self, pool: PoolView, count: nat) -> bool {
        self.cursor().room(pool, vstd::layout::align_of::<T>() as int, bytes::<T>(count))
    }

    /// Distance from the next free byte up to a multiple of `align`.
    fn gap(&self, align: usize) -> (r: usize)
        requires
            0 < align,
        ensures
            r == align::gap(self.cursor().address(), align as int),
            r < align,
    {
        let rest = ((self.base as u128 + self.offset as u128) % (align as u128)) as usize;
        if rest == 0 {
            0
        } else {
            align - rest
        }
    }

    /// Whether a request for `len` bytes at a multiple of `align` can be answered.
    pub fn has_room(&self, pool: &ArenaPool, align: usize, len: usize) -> (r: bool)
        requires
            self.wf(),
            pool@.wf(),
            0 < align,
        ensures
            r == self.cursor().room(pool@, align as int, len as int),
    {
        let gap = self.gap(align);
        if len <= self.rem_len && gap <= self.rem_len - len {
            return true;
        }
        match align.checked_add(len) {
            Some(size) => pool.can_grant(size),
            None => false,
        }
    }

    /// Takes `len` bytes at a multiple of `align`.
    fn alloc_raw(&mut self, pool: &mut ArenaPool, align: usize, len: usize)
        requires
            old(self).wf(),
            old(pool)@.wf(),
            0 < align,
            old(self).cursor().room(old(pool)@, align as int, len as int),
        ensures
            final(self).wf(),
            final(pool)@.wf(),
            old(self).cursor().moves(
                old(pool)@,
                align as int,
                len as int,
                final(self).cursor(),
                final(pool)@,
            ),
    {
        let mut gap = self.gap(align);
        if len > self.rem_len || self.rem_len - len < gap {
            // the slice at hand cannot satisfy this request
            self.refresh_backing_slice(pool, align + len);
            gap = self.gap(align);
        }
        self.offset = self.offset + gap + len;
        self.rem_len = self.rem_len - (gap + len);
    }

    /// Moves on to a new slice of at least `min_size` bytes.
    fn refresh_backing_slice(&mut self, pool: &mut ArenaPool, min_size: usize)
        requires
            old(pool)@.wf(),
            old(pool)@.grants(min_size as int),
        ensures
            final(self).wf(),
            final(pool)@.wf(),
            min_size <= final(self).rem_len,
            exists|fresh: ChunkView, slice: SliceGrant| #[trigger]
                is_dealt(old(pool)@, final(pool)@, min_size as int, fresh, slice) && {
                    final(self).cursor() == Cursor::at_slice(slice)
                },
    {
        let slice = pool.alloc_slice(min_size);
        proof {
            lengths_add_up(pool@.chunks);
            let _ = pool@.chunks[slice.chunk as int];
        }
        self.chunk = Some(slice.chunk);
        self.base = slice.base;
        self.offset = slice.offset;
        self.rem_len = slice.len;
    }

    /// Inserts a single element, returns the handle.
    pub fn alloc_one<T>(
        &mut self,
        pool: &mut ArenaPool,
        values: &mut Values<T>,
        e: T,
    ) -> (r: Handle<T>)
        requires
            old(self).wf(),
            old(pool)@.wf(),
            old(self).has_room_for::<T>(old(pool)@, 1),
        ensures
            final(self).wf(),
            final(pool)@.wf(),
            final(values)@ == old(values)@.push(e),
            r.spec_index() == old(values)@.len(),
            old(self).cursor().moves(
                old(pool)@,
                vstd::layout::align_of::<T>() as int,
                bytes::<T>(1),
                final(self).cursor(),
                final(pool)@,
            ),
    {
        broadcast use vstd::layout::align_properties;

        proof {
            align::power_of_two_parity(vstd::layout::align_of::<T>() as int);
        }
        self.alloc_raw(pool, core::mem::align_of::<T>(), core::mem::size_of::<T>());
        let index = values.items.len();
        values.items.push(e);
        Handle { index, marker: PhantomData }
    }

    /// Inserts a contiguous sequence of elements, returns the handle.
    pub fn alloc_slice<T>(
        &mut self,
        pool: &mut ArenaPool,
        values: &mut Values<T>,
        elems: Vec<T>,
    ) -> (r: SliceHandle<T>)
        requires
            old(self).wf(),
            old(pool)@.wf(),
            bytes::<T>(elems@.len()) <= usize::MAX,
            old(self).has_room_for::<T>(old(pool)@, elems@.len()),
        ensures
            final(self).wf(),
            final(pool)@.wf(),
            final(values)@ == old(values)@ + elems@,
            r.spec_first() == old(values)@.len(),
            r.spec_len() == elems@.len(),
            r.wf(),
            r.is_held(final(values)@),
            r.values(final(values)@) == elems@,
            old(self).cursor().moves(
                old(pool)@,
                vstd::layout::align_of::<T>() as int,
                bytes::<T>(elems@.len()),
                final(self).cursor(),
                final(pool)@,
            ),
    {
        broadcast use vstd::layout::align_properties;

        let ghost given = elems@;
        let ghost before = values.items@;
        let mut elems = elems;
        let len = elems.len();
        let size = core::mem::size_of::<T>();
        proof {
            align::power_of_two_parity(vstd::layout::align_of::<T>() as int);
        }
        self.alloc_raw(pool, core::mem::align_of::<T>(), len * size);
        let first = values.items.len();
        values.items.append(&mut elems);
        let r = SliceHandle { first, len, marker: PhantomData };
        proof {
            assert(values.items@ =~= before + given);
            assert(r.values(values@) =~= given);
            assert(values.items.len() == values.items@.len());
        }
        r
    }

    /// Whether `count` values can be added next to each other.
    pub fn can_store<T>(&self, pool: &ArenaPool, count: usize) -> (r: bool)
        requires
            self.wf(),
            pool@.wf(),
        ensures
            r == (bytes::<T>(count as nat) <= usize::MAX && self.has_room_for::<T>(
                pool@,
                count as nat,
            )),
    {
        broadcast use vstd::layout::align_properties;

        proof {
            align::power_of_two_parity(vstd::layout::align_of::<T>() as int);
        }
        match count.checked_mul(core::mem::size_of::<T>()) {
            Some(len) => self.has_room(pool, core::mem::align_of::<T>(), len),
            None => false,
        }
    }
}

impl<T> Clone for Handle<T> {
    fn clone(&self) -> (r: Self)
        ensures
            r == *self,
    {
        Handle { index: self.index, marker: self.marker }
    }
}

impl<T> Copy for Handle<T> {

}

impl<T> PartialEq for Handle<T> {
    fn eq(&self, other: &Self) -> (r: bool) {
        self.index == other.index
    }
}

impl<T> vstd::std_specs::cmp::PartialEqSpecImpl for Handle<T> {
    open spec fn obeys_eq_spec() -> bool {
        true
    }

    open spec fn eq_spec(&self, other: &Self) -> bool {
        self.spec_index() == other.spec_index()
    }
}

impl<T> Eq for Handle<T> {

}

impl<T> Clone for SliceHandle<T> {
    fn clone(&self) -> (r: Self)
        ensures
            r == *self,
    {
        SliceHandle { first: self.first, len: self.len, marker: self.marker }
    }
}

impl<T> Copy for SliceHandle<T> {

}

impl<T> Handle<T> {
    /// The value that the handle stands for, whichever arena of the pool made it.
    pub fn resolve<'a>(&self, values: &'a Values<T>) -> (r: &'a T)
        requires
            self.spec_index() < values@.len(),
        ensures
            *r == values@[self.spec_index() as int],
    {
        &values.items[self.index]
    }
}

impl<T> SliceHandle<T> {
    /// The values that the handle stands for, whichever arena of the pool made it.
    pub fn resolve<'a>(&self, values: &'a Values<T>) -> (r: &'a [T])
        requires
            self.is_held(values@),
        ensures
            r@ == self.values(values@),
    {
        assert(self.first + self.len <= values.items.len());
        vstd::slice::slice_subrange(values.items.as_slice(), self.first, self.first + self.len)
    }

    /// Number of values.
    pub fn len(&self) -> (r: usize)
        ensures
            r == self.spec_len(),
    {
        self.len
    }

    /// The handle of each value, in order.
    pub fn iter(&self) -> (r: Vec<Handle<T>>)
        requires
            self.wf(),
        ensures
            r@.len() == self.spec_len(),
            forall|i: int|
                0 <= i < r@.len() ==> (#[trigger] r@[i]).spec_index() == self.spec_first() + i,
    {
        let mut r: Vec<Handle<T>> = Vec::new();
        let mut i: usize = 0;
        while i < self.len
            invariant
                self.first + self.len <= usize::MAX,
                i <= self.len,
                r@.len() == i,
                forall|k: int|
                    0 <= k < i ==> (#[trigger] r@[k]).spec_index() == self.spec_first() + k,
            decreases self.len - i,
        {
            r.push(Handle { index: self.first + i, marker: PhantomData });
            i = i + 1;
        }
        r
    }
}

/// Stands for a block of options.
pub struct NodeOptionsHandle<T> {
    index: usize,
    marker: PhantomData<T>,
}

impl<T> NodeOptionsHandle<T> {
    /// How many blocks were added before.
    pub closed spec fn spec_index(self) -> nat {
        self.index as nat
    }

    /// The block that the handle stands for, whichever arena of the pool made it.
    pub fn resolve<'a>(&self, values: &'a Values<NodeOptions<T>>) -> (r: &'a NodeOptions<T>)
        requires
            self.spec_index() < values@.len(),
        ensures
            *r == values@[self.spec_index() as int],
    {
        &values.items[self.index]
    }
}

impl Arena {
    /// A block of `count` options can be added.
    pub open spec fn has_room_for_options<T>(self, pool: PoolView, count: nat) -> bool {
        self.cursor().room(
            pool,
            vstd::layout::align_of::<T>() as int,
            move_options::block_len::<T>(count),
        )
    }

    /// Makes a value of every option, and stores them in one block of options.
    pub fn alloc_node_options<T, F: FnMut(MoveChoice) -> T>(
        &mut self,
        pool: &mut ArenaPool,
        values: &mut Values<NodeOptions<T>>,
        s1: &[MoveChoice],
        s2: &[MoveChoice],
        ctor: F,
    ) -> (r: NodeOptionsHandle<T>)
        requires
            old(self).wf(),
            old(pool)@.wf(),
            s1@.len() <= 255,
            s2@.len() <= 255,
            forall|m: MoveChoice| call_requires(ctor, (m,)),
            move_options::block_len::<T>(s1@.len() + s2@.len()) <= usize::MAX,
            old(self).has_room_for_options::<T>(old(pool)@, s1@.len() + s2@.len()),
        ensures
            final(self).wf(),
            final(pool)@.wf(),
            r.spec_index() == old(values)@.len(),
            final(values)@.len() == old(values)@.len() + 1,
            final(values)@.drop_last() == old(values)@,
            final(values)@.last().wf(),
            final(values)@.last().made_from(s1@, s2@, ctor),
            old(self).cursor().moves(
                old(pool)@,
                vstd::layout::align_of::<T>() as int,
                move_options::block_len::<T>(s1@.len() + s2@.len()),
                final(self).cursor(),
                final(pool)@,
            ),
    {
        let ghost before = values@;
        let len = block_bytes::<T>(s1.len() + s2.len());
        let options = NodeOptions::new(s1, s2, ctor);
        proof {
            align_is_positive::<T>();
        }
        self.alloc_raw(pool, core::mem::align_of::<T>(), len);
        let index = values.items.len();
        values.items.push(options);
        assert(values@.drop_last() =~= before);
        NodeOptionsHandle { index, marker: PhantomData }
    }

    /// Whether a block of `count` options can be added.
    pub fn can_store_options<T>(&self, pool: &ArenaPool, count: usize) -> (r: bool)
        requires
            self.wf(),
            pool@.wf(),
        ensures
            r == (move_options::block_len::<T>(count as nat) <= usize::MAX
                && self.has_room_for_options::<T>(pool@, count as nat)),
    {
        proof {
            align_is_positive::<T>();
            align::gap_is_least(2, vstd::layout::align_of::<T>() as int);
        }
        let align = core::mem::align_of::<T>();
        let rest = 2 % align;
        let header = if rest == 0 {
            Some(2usize)
        } else {
            (align - rest).checked_add(2)
        };
        match (header, core::mem::size_of::<T>().checked_mul(count)) {
            (Some(header), Some(data)) => match header.checked_add(data) {
                Some(len) => self.has_room(pool, align, len),
                None => false,
            },
            _ => false,
        }
    }
}

/// Alignments are not zero.
proof fn align_is_positive<T>()
    ensures
        0 < vstd::layout::align_of::<T>(),
{
    broadcast use vstd::layout::align_properties;

    align::power_of_two_parity(vstd::layout::align_of::<T>() as int);
}

/// Number of bytes in a block of `count` options.
fn block_bytes<T>(count: usize) -> (r: usize)
    requires
        move_options::block_len::<T>(count as nat) <= usize::MAX,
    ensures
        r == move_options::block_len::<T>(count as nat),
{
    let align = core::mem::align_of::<T>();
    let size = core::mem::size_of::<T>();
    proof {
        align_is_positive::<T>();
        align::gap_is_least(2, align as int);
        assert(0 <= size * count) by (nonlinear_arith)
            requires
                0 <= size,
                0 <= count,
        ;
    }
    let rest = 2 % align;
    let header = if rest == 0 {
        2
    } else {
        2 + (align - rest)
    };
    header + size * count
}

/// What an arena of a pool can be asked for.
pub enum Request {
    /// The pool hands out another arena.
    Open,
    /// Arena number `arena` takes `len` bytes at a multiple of `align`.
    Take { arena: int, align: int, len: int },
}

/// A range of bytes that was given out.
pub struct Range {
    /// Number of the chunk that it lies in; a range of no bytes may lie in none.
    pub chunk: Option<int>,
    /// Where the chunk starts.
    pub base: int,
    /// Where the range starts, counted from there.
    pub offset: int,
    pub len: int,
    pub align: int,
}

impl Range {
    /// The ranges have no byte in common.
    pub open spec fn is_apart(self, other: Range) -> bool {
        ||| self.chunk != other.chunk
        ||| self.offset + self.len <= other.offset
        ||| other.offset + other.len <= self.offset
    }

    /// No byte of the range is left of the slice at hand of an arena.
    pub open spec fn is_clear_of(self, cursor: Cursor) -> bool {
        ||| self.chunk != cursor.chunk
        ||| self.offset + self.len <= cursor.offset
        ||| cursor.offset + cursor.rem_len <= self.offset
    }
}

impl Cursor {
    /// The slices at hand of two arenas have no byte in common.
    pub open spec fn is_apart(self, other: Cursor) -> bool {
        ||| self.chunk != other.chunk
        ||| self.offset + self.rem_len <= other.offset
        ||| other.offset + other.rem_len <= self.offset
    }

    /// The last `len` bytes that were taken.
    pub open spec fn last_range(self, align: int, len: int) -> Range {
        Range { chunk: self.chunk, base: self.base, offset: self.offset - len, len, align }
    }
}

impl PoolView {
    /// The bytes up to this offset have been dealt out of a chunk.
    pub open spec fn has_dealt(self, chunk: int, base: int, end: int) -> bool {
        &&& 0 <= chunk <= self.current
        &&& base == self.chunks[chunk].base
        &&& end <= (if chunk == self.current {
            self.used
        } else {
            self.chunks[chunk].len
        })
    }

    /// Whatever has been dealt out stays so.
    proof fn dealt_stays_dealt(
        self,
        after: PoolView,
        size: int,
        fresh: ChunkView,
        slice: SliceGrant,
    )
        requires
            self.wf(),
            after.wf(),
            0 <= size,
            is_dealt(self, after, size, fresh, slice),
        ensures
            forall|chunk: int, base: int, end: int| #[trigger]
                self.has_dealt(chunk, base, end) ==> after.has_dealt(chunk, base, end) && (chunk
                    < slice.chunk || end <= slice.offset),
            after.has_dealt(slice.chunk as int, slice.base as int, slice.offset + slice.len),
            size <= slice.len,
    {
        chunks_in_use_stay(self, after, size, fresh, slice);
        pruning_keeps_the_front(self.chunks, self.current + 1, size);
    }
}

/// A pool, its arenas, and all that they have given out.
pub struct Dealings {
    pub pool: PoolView,
    pub arenas: Seq<Cursor>,
    pub given: Seq<Range>,
}

impl Dealings {
    /// A pool without arenas.
    pub open spec fn begin(pool: PoolView) -> Self {
        Dealings { pool, arenas: Seq::empty(), given: Seq::empty() }
    }

    /// The request may be answered, and lead to this.
    pub open spec fn leads_to(self, request: Request, after: Self) -> bool {
        match request {
            Request::Open => after == (Dealings {
                arenas: self.arenas.push(Cursor::start()),
                ..self
            }),
            Request::Take { arena, align, len } => {
                &&& 0 <= arena < self.arenas.len()
                &&& 0 < align
                &&& 0 <= len
                &&& after.pool.wf()
                &&& self.arenas[arena].moves(
                    self.pool,
                    align,
                    len,
                    after.arenas[arena],
                    after.pool,
                )
                &&& after.arenas == self.arenas.update(arena, after.arenas[arena])
                &&& after.given == self.given.push(after.arenas[arena].last_range(align, len))
            },
        }
    }

    /// No two ranges or slices share a byte, and all lie in what has been dealt out.
    spec fn in_order(self) -> bool {
        &&& self.pool.wf()
        &&& forall|i: int| 0 <= i < self.arenas.len() ==> self.has_arena(#[trigger] self.arenas[i])
        &&& forall|i: int, j: int|
            0 <= i < j < self.arenas.len() ==> (#[trigger] self.arenas[i]).is_apart(
                #[trigger] self.arenas[j],
            )
        &&& forall|g: int| 0 <= g < self.given.len() ==> self.has_given(#[trigger] self.given[g])
        &&& forall|g: int, i: int|
            0 <= g < self.given.len() && 0 <= i < self.arenas.len() ==> (
            #[trigger] self.given[g]).is_clear_of(#[trigger] self.arenas[i])
        &&& forall|f: int, g: int|
            0 <= f < g < self.given.len() ==> (#[trigger] self.given[f]).is_apart(
                #[trigger] self.given[g],
            )
    }

    /// The slice at hand of an arena was dealt out of the pool.
    spec fn has_arena(self, c: Cursor) -> bool {
        &&& 0 <= c.offset
        &&& 0 <= c.rem_len
        &&& match c.chunk {
            Some(chunk) => self.pool.has_dealt(chunk, c.base, c.offset + c.rem_len),
            None => c == Cursor::start(),
        }
    }

    /// A range is aligned, and lies in what has been dealt out.
    spec fn has_given(self, r: Range) -> bool {
        &&& 0 < r.align
        &&& (r.base + r.offset) % r.align == 0
        &&& 0 <= r.offset
        &&& 0 <= r.len
        &&& match r.chunk {
            Some(chunk) => self.pool.has_dealt(chunk, r.base, r.offset + r.len),
            None => r.len == 0,
        }
    }

    /// Requests keep the dealings in order.
    proof fn stays_in_order(self, request: Request, after: Self)
        requires
            self.in_order(),
            self.leads_to(request, after),
        ensures
            after.in_order(),
    {
        match request {
            Request::Open => {
                assert forall|i: int| 0 <= i < after.arenas.len() implies after.has_arena(
                    #[trigger] after.arenas[i],
                ) by {
                    if i < self.arenas.len() {
                        assert(self.has_arena(self.arenas[i]));
                    }
                }
                assert forall|g: int| 0 <= g < after.given.len() implies after.has_given(
                    #[trigger] after.given[g],
                ) by {
                    assert(self.has_given(self.given[g]));
                }
                assert forall|i: int, j: int| 0 <= i < j < after.arenas.len() implies (
                #[trigger] after.arenas[i]).is_apart(#[trigger] after.arenas[j]) by {
                    assert(self.has_arena(self.arenas[i]));
                    if j < self.arenas.len() {
                        assert(self.arenas[i].is_apart(self.arenas[j]));
                    }
                }
                assert forall|g: int, i: int|
                    0 <= g < after.given.len() && 0 <= i < after.arenas.len() implies (
                #[trigger] after.given[g]).is_clear_of(#[trigger] after.arenas[i]) by {
                    assert(self.has_given(self.given[g]));
                    if i < self.arenas.len() {
                        assert(self.given[g].is_clear_of(self.arenas[i]));
                    }
                }
            },
            Request::Take { arena, align, len } => {
                let cursor = self.arenas[arena];
                assert(self.has_arena(cursor));
                if cursor.has(align, len) {
                    self.stays_in_slice(arena, align, len, after, cursor);
                } else {
                    let (fresh, slice) = choose|fresh: ChunkView, slice: SliceGrant| #[trigger]
                        is_dealt(self.pool, after.pool, align + len, fresh, slice)
                            && after.arenas[arena] == Cursor::at_slice(slice).taken(align, len);
                    self.pool.dealt_stays_dealt(after.pool, align + len, fresh, slice);
                    let start = Cursor::at_slice(slice);
                    let ready = Dealings {
                        pool: after.pool,
                        arenas: self.arenas.update(arena, start),
                        given: self.given,
                    };
                    align::gap_is_least(start.address(), align);
                    self.moves_to_a_slice(ready, arena, slice);
                    assert(ready.arenas.update(arena, after.arenas[arena]) =~= after.arenas);
                    ready.stays_in_slice(arena, align, len, after, start);
                }
            },
        }
    }

    /// Moving on to a new slice keeps the dealings in order.
    proof fn moves_to_a_slice(self, ready: Self, arena: int, slice: SliceGrant)
        requires
            self.in_order(),
            0 <= arena < self.arenas.len(),
            ready.pool.wf(),
            ready.arenas == self.arenas.update(arena, Cursor::at_slice(slice)),
            ready.given == self.given,
            forall|chunk: int, base: int, end: int| #[trigger]
                self.pool.has_dealt(chunk, base, end) ==> ready.pool.has_dealt(chunk, base, end)
                    && (chunk < slice.chunk || end <= slice.offset),
            ready.pool.has_dealt(slice.chunk as int, slice.base as int, slice.offset + slice.len),
        ensures
            ready.in_order(),
    {
        let start = Cursor::at_slice(slice);
        assert forall|i: int| 0 <= i < ready.arenas.len() implies ready.has_arena(
            #[trigger] ready.arenas[i],
        ) by {
            assert(self.has_arena(self.arenas[i]));
        }
        assert forall|i: int, j: int| 0 <= i < j < ready.arenas.len() implies (
        #[trigger] ready.arenas[i]).is_apart(#[trigger] ready.arenas[j]) by {
            assert(self.has_arena(self.arenas[i]));
            assert(self.has_arena(self.arenas[j]));
            assert(self.arenas[i].is_apart(self.arenas[j]));
        }
        assert forall|g: int| 0 <= g < ready.given.len() implies ready.has_given(
            #[trigger] ready.given[g],
        ) by {
            assert(self.has_given(self.given[g]));
        }
        assert forall|g: int, i: int|
            0 <= g < ready.given.len() && 0 <= i < ready.arenas.len() implies (
        #[trigger] ready.given[g]).is_clear_of(#[trigger] ready.arenas[i]) by {
            assert(self.has_given(self.given[g]));
            assert(self.given[g].is_clear_of(self.arenas[i]));
        }
    }

    /// Taking bytes from the slice at hand keeps the dealings in order.
    proof fn stays_in_slice(self, arena: int, align: int, len: int, after: Self, cursor: Cursor)
        requires
            self.in_order(),
            0 <= arena < self.arenas.len(),
            cursor == self.arenas[arena],
            0 < align,
            0 <= len,
            cursor.has(align, len),
            after.pool == self.pool,
            after.arenas[arena] == cursor.taken(align, len),
            after.arenas == self.arenas.update(arena, after.arenas[arena]),
            after.given == self.given.push(after.arenas[arena].last_range(align, len)),
        ensures
            after.in_order(),
    {
        let n = self.given.len() as int;
        align::gap_is_least(cursor.address(), align);
        assert(self.has_arena(cursor));
        assert forall|i: int| 0 <= i < after.arenas.len() implies after.has_arena(
            #[trigger] after.arenas[i],
        ) by {
            assert(self.has_arena(self.arenas[i]));
        }
        assert forall|i: int, j: int| 0 <= i < j < after.arenas.len() implies (
        #[trigger] after.arenas[i]).is_apart(#[trigger] after.arenas[j]) by {
            assert(self.arenas[i].is_apart(self.arenas[j]));
        }
        assert forall|g: int| 0 <= g < after.given.len() implies after.has_given(
            #[trigger] after.given[g],
        ) by {
            if g < n {
                assert(self.has_given(self.given[g]));
            }
        }
        assert forall|g: int, i: int|
            0 <= g < after.given.len() && 0 <= i < after.arenas.len() implies (
        #[trigger] after.given[g]).is_clear_of(#[trigger] after.arenas[i]) by {
            let _ = self.arenas[i];
            if g < n {
                assert(self.given[g].is_clear_of(self.arenas[i]));
            } else if i < arena {
                assert(self.arenas[i].is_apart(self.arenas[arena]));
            } else if arena < i {
                assert(self.arenas[arena].is_apart(self.arenas[i]));
            }
        }
        assert forall|f: int, g: int| 0 <= f < g < after.given.len() implies (
        #[trigger] after.given[f]).is_apart(#[trigger] after.given[g]) by {
            if g == n {
                assert(self.given[f].is_clear_of(self.arenas[arena]));
            } else {
                assert(self.given[f].is_apart(self.given[g]));
            }
        }
    }
}

/// Each of `dealings` is what a request may have made of the one before.
pub open spec fn is_history(dealings: Seq<Dealings>, requests: Seq<Request>) -> bool {
    &&& dealings.len() == requests.len() + 1
    &&& forall|k: int|
        0 <= k < requests.len() ==> dealings[k].leads_to(#[trigger] requests[k], dealings[k + 1])
}

/// Dealings stay in order throughout a history.
proof fn histories_stay_in_order(dealings: Seq<Dealings>, requests: Seq<Request>, k: int)
    requires
        is_history(dealings, requests),
        dealings[0].in_order(),
        0 <= k <= requests.len(),
    ensures
        dealings[k].in_order(),
    decreases k,
{
    if k > 0 {
        histories_stay_in_order(dealings, requests, k - 1);
        let _ = requests[k - 1];
        dealings[k - 1].stays_in_order(requests[k - 1], dealings[k]);
    }
}

/// Whatever the arenas of a pool are asked for, and in whichever order, since the pool was made or
/// reset: no two ranges that they give out have a byte in common, and each is aligned as asked and,
/// if it has any bytes, lies in a chunk of the pool.
pub proof fn ranges_never_overlap(dealings: Seq<Dealings>, requests: Seq<Request>)
    requires
        is_history(dealings, requests),
        dealings[0] == Dealings::begin(dealings[0].pool),
        dealings[0].pool.wf(),
        dealings[0].pool.current == 0,
        dealings[0].pool.used == 0,
    ensures
        ({
            let end = dealings.last();
            &&& forall|g: int|
                0 <= g < end.given.len() ==> {
                    let r = #[trigger] end.given[g];
                    &&& (r.base + r.offset) % r.align == 0
                    &&& 0 <= r.offset
                    &&& match r.chunk {
                        Some(chunk) => {
                            &&& 0 <= chunk < end.pool.chunks.len()
                            &&& r.base == end.pool.chunks[chunk].base
                            &&& r.offset + r.len <= end.pool.chunks[chunk].len
                        },
                        None => r.len == 0,
                    }
                }
            &&& forall|f: int, g: int|
                0 <= f < g < end.given.len() ==> (#[trigger] end.given[f]).is_apart(
                    #[trigger] end.given[g],
                )
        }),
{
    let end = dealings.last();
    assert(dealings[0].in_order());
    histories_stay_in_order(dealings, requests, requests.len() as int);
    assert forall|g: int| 0 <= g < end.given.len() implies end.has_given(#[trigger] end.given[g]) by {}
}

} // verus!
