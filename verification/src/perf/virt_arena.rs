//! Bump arenas over one large reservation of address space.
//!
//! [`ArenaPool`] deals out the reservation in slices and commits as much of it as it has dealt out.
//! [`Arena`] takes places in a slice for values of any type and hands out 4 byte [`Handle`]s; when
//! the slice is used up it fetches another one from the pool. What is placed in the reservation is
//! kept in [`Values`], one for each type, which all arenas of a pool share.
//!
//! The reservation starts on a page boundary, so an offset into it is aligned exactly as the
//! address there is, for every alignment up to the size of a page.

use crate::engine::MoveChoice;
use crate::perf::align;
use crate::perf::align::{align_gap, next_multiple_of};
use crate::perf::move_options;
use crate::perf::move_options::{NodeOptions, HEADER_SIZE};
use crate::perf::slots;
use crate::perf::slots::Slots;
use core::marker::PhantomData;
use vstd::prelude::*;

verus! {

/// Multiplier for the offset in a handle.
pub const INDEX_SCALE: u64 = 2;

/// Least offset in a handle.
pub const LEAST_INDEX: u32 = 4;

/// Where the first slice of a pool starts.
pub const INITIAL_OFFSET: u64 = 8;

/// Bytes of address space that a pool reserves.
pub const RESERVE_SIZE: u64 = 0x2_0000_0000;

/// Memory is committed in multiples of this many bytes.
pub const COMMIT_SIZE: u64 = 0x1000_0000;

/// Least number of bytes in a slice.
pub const DEFAULT_SLICE_LEN: u64 = 0x80_0000;

/// What a pool has dealt out, and how much of the reservation is committed.
pub struct PoolView {
    pub used: int,
    pub committed: int,
}

/// Number of bytes in the slice that answers a request for `min_size` bytes.
pub open spec fn slice_size(min_size: int) -> int {
    align::round_up(align::larger(min_size, DEFAULT_SLICE_LEN as int), INDEX_SCALE as int)
}

impl PoolView {
    /// The next slice reaches past what is committed.
    pub open spec fn must_commit(self, min_size: int) -> bool {
        self.used + slice_size(min_size) > self.committed
    }

    /// Number of bytes that have to be committed at least when the next slice reaches past what is:
    /// as many as the slice has, or more where not even these reach its end.
    pub open spec fn least_commit(self, min_size: int) -> int {
        align::larger(
            slice_size(min_size),
            self.used + slice_size(min_size) - self.committed,
        )
    }

    /// Number of bytes that get committed when the next slice reaches past what is.
    pub open spec fn commit_size(self, min_size: int) -> int {
        align::round_up(self.least_commit(min_size), COMMIT_SIZE as int)
    }

    /// The reservation still has room for a slice of at least `min_size` bytes.
    pub open spec fn grants(self, min_size: int) -> bool {
        self.must_commit(min_size) ==> self.committed + self.commit_size(min_size) <= RESERVE_SIZE
    }

    /// The pool after it has dealt out a slice of at least `min_size` bytes.
    pub open spec fn after(self, min_size: int) -> PoolView {
        PoolView {
            used: self.used + slice_size(min_size),
            committed: if self.must_commit(min_size) {
                self.committed + self.commit_size(min_size)
            } else {
                self.committed
            },
        }
    }

    /// Everything that has been dealt out is committed.
    pub open spec fn is_backed(self) -> bool {
        self.used <= self.committed
    }
}

/// A slice has the least even number of bytes that is at least what was asked for and at least eight
/// mebibytes.
pub proof fn slices_are_no_larger_than_needed(min_size: int)
    requires
        0 <= min_size,
    ensures
        slice_size(min_size) >= min_size,
        slice_size(min_size) >= 0x80_0000,
        slice_size(min_size) % 2 == 0,
        forall|n: int|
            min_size <= n && 0x80_0000 <= n && #[trigger] (n % 2) == 0 ==> slice_size(min_size)
                <= n,
{
    align::gap_is_least(align::larger(min_size, DEFAULT_SLICE_LEN as int), INDEX_SCALE as int);
}

/// A pool commits no more memory where what is committed reaches to the end of the next slice. Where
/// it does not, the pool commits the least number of whole quarters of a gibibyte that is as large
/// as the slice and reaches to its end; and it deals the slice out just where all of that lies inside
/// eight gibibytes.
pub proof fn pools_commit_no_more_than_needed(pool: PoolView, min_size: int)
    requires
        0 <= min_size,
        0 <= pool.used,
    ensures
        ({
            let (len, after) = (slice_size(min_size), pool.after(min_size));
            let added = after.committed - pool.committed;
            &&& after.used == pool.used + len
            &&& pool.used + len <= pool.committed ==> added == 0
            &&& pool.used + len > pool.committed ==> {
                &&& added % 0x1000_0000 == 0
                &&& len <= added
                &&& after.used <= after.committed
                &&& forall|n: int|
                    len <= n && after.used <= pool.committed + n && #[trigger] (n % 0x1000_0000)
                        == 0 ==> added <= n
            }
            &&& pool.committed <= 0x2_0000_0000 ==> (pool.grants(min_size)
                <==> after.committed <= 0x2_0000_0000)
        }),
{
    let len = slice_size(min_size);
    let least = pool.least_commit(min_size);
    let unit = COMMIT_SIZE as int;
    slices_are_no_larger_than_needed(min_size);
    align::gap_is_least(least, unit);
    assert forall|n: int| least <= n && #[trigger] (n % unit) == 0 implies least + align::gap(least, unit)
        <= n by {
        if n < least + align::gap(least, unit) {
            let k = n - least;
            assert((least + k) % unit != 0);
        }
    }
}

/// A range of the reservation whose pages have to be made accessible.
#[derive(Clone, Copy, PartialEq, Eq, Debug)]
pub struct CommitRange {
    pub start: u64,
    pub len: u64,
}

/// A slice of the reservation.
#[derive(Clone, Copy, PartialEq, Eq, Debug)]
pub struct SliceGrant {
    pub offset: u64,
    pub len: u64,
    /// What has to be committed before the slice is touched.
    pub commit: Option<CommitRange>,
}

/// Accounts for a reservation of [`RESERVE_SIZE`] bytes.
pub struct ArenaPool {
    used: u64,
    committed: u64,
}

impl View for ArenaPool {
    type V = PoolView;

    closed spec fn view(&self) -> PoolView {
        PoolView { used: self.used as int, committed: self.committed as int }
    }
}

impl ArenaPool {
    /// Offsets are even, what has been dealt out is committed, and what is committed lies inside
    /// the reservation.
    pub open spec fn wf(self) -> bool {
        &&& INITIAL_OFFSET <= self@.used
        &&& self@.used % 2 == 0
        &&& self@.used == INITIAL_OFFSET || self@.is_backed()
        &&& 0 <= self@.committed <= RESERVE_SIZE
    }

    /// A pool of which nothing is dealt out or committed.
    pub fn new() -> (r: Self)
        ensures
            r.wf(),
            r@ == (PoolView { used: INITIAL_OFFSET as int, committed: 0 }),
    {
        ArenaPool { used: INITIAL_OFFSET, committed: 0 }
    }

    /// An arena without a slice, which takes its slices from this pool.
    pub fn sub_arena(&self) -> (r: Arena)
        requires
            self.wf(),
        ensures
            r.wf(),
            r.fits(*self),
            r.cursor() == (Cursor { offset: INITIAL_OFFSET as int, rem_len: 0 }),
    {
        Arena { offset: INITIAL_OFFSET, rem_len: 0 }
    }

    /// Number of bytes that have to be committed at least for a slice of `size` bytes that reaches
    /// past what is.
    fn commit_len(&self, size: u64) -> (r: u64)
        requires
            self.wf(),
            size <= RESERVE_SIZE,
            self@.used + size > self@.committed,
        ensures
            r == align::larger(size as int, self@.used + size - self@.committed),
    {
        let rest = self.used + size - self.committed;
        if size < rest {
            rest
        } else {
            size
        }
    }

    /// Whether the reservation still has room for a slice of at least `min_size` bytes.
    pub fn can_grant(&self, min_size: u64) -> (r: bool)
        requires
            self.wf(),
        ensures
            r == self@.grants(min_size as int),
    {
        proof {
            align::gap_is_least(self@.least_commit(min_size as int), COMMIT_SIZE as int);
        }
        if min_size > RESERVE_SIZE {
            return false;
        }
        let size = slice_len(min_size);
        if self.used + size > self.committed {
            self.committed + next_multiple_of(self.commit_len(size), COMMIT_SIZE) <= RESERVE_SIZE
        } else {
            true
        }
    }

    /// Deals out the next slice of at least `min_size` bytes, and says what has to be committed
    /// for it.
    pub fn alloc_slice(&mut self, min_size: u64) -> (r: SliceGrant)
        requires
            old(self).wf(),
            old(self)@.grants(min_size as int),
        ensures
            final(self).wf(),
            final(self)@ == old(self)@.after(min_size as int),
            r.offset == old(self)@.used,
            r.len == slice_size(min_size as int),
            r.len >= min_size,
            r.offset + r.len <= final(self)@.committed,
            r.commit == (if old(self)@.must_commit(min_size as int) {
                Some(
                    CommitRange {
                        start: old(self)@.committed as u64,
                        len: old(self)@.commit_size(min_size as int) as u64,
                    },
                )
            } else {
                None
            }),
    {
        proof {
            align::gap_is_least(self@.least_commit(min_size as int), COMMIT_SIZE as int);
        }
        let size = slice_len(min_size);
        let offset = self.used;
        let mut commit: Option<CommitRange> = None;
        if self.used + size > self.committed {
            let len = next_multiple_of(self.commit_len(size), COMMIT_SIZE);
            commit = Some(CommitRange { start: self.committed, len });
            self.committed = self.committed + len;
        }
        self.used = self.used + size;
        SliceGrant { offset, len: size, commit }
    }

    /// Total number of bytes currently retained by this pool.
    pub fn retained_size(&self) -> (r: u64)
        ensures
            r == self@.committed,
    {
        self.committed
    }

    /// Bulk free. Retains committed memory. Arenas of the pool, and the values that they have placed
    /// in it, are not to be used any more.
    pub fn reset(&mut self)
        requires
            old(self).wf(),
        ensures
            final(self).wf(),
            final(self)@ == old(self)@.reset(),
    {
        self.used = INITIAL_OFFSET;
    }

    /// Bulk free. Nothing stays committed; the range that was is returned, for its pages to be
    /// released. Arenas of the pool, and the values that they have placed in it, are not to be used
    /// any more.
    pub fn reset_and_free(&mut self) -> (r: CommitRange)
        requires
            old(self).wf(),
        ensures
            final(self).wf(),
            final(self)@ == (PoolView { used: INITIAL_OFFSET as int, committed: 0 }),
            r.start == 0,
            r.len == old(self)@.committed,
    {
        let freed = CommitRange { start: 0, len: self.committed };
        self.used = INITIAL_OFFSET;
        self.committed = 0;
        freed
    }
}

/// Number of bytes in the slice that answers a request for `min_size` bytes.
fn slice_len(min_size: u64) -> (r: u64)
    requires
        min_size <= RESERVE_SIZE,
    ensures
        r == slice_size(min_size as int),
        r >= min_size,
        r % 2 == 0,
{
    let len = if min_size < DEFAULT_SLICE_LEN {
        DEFAULT_SLICE_LEN
    } else {
        min_size
    };
    next_multiple_of(len, INDEX_SCALE)
}

/// Where an arena stands in its slice.
pub struct Cursor {
    pub offset: int,
    pub rem_len: int,
}

impl Cursor {
    /// The slice at hand has room for `len` bytes at a multiple of `align`.
    pub open spec fn has(self, align: int, len: int) -> bool {
        align::gap(self.offset, align) + len <= self.rem_len
    }

    /// The slice in which a request is answered: the one at hand, or else the pool's next.
    pub open spec fn slice_for(self, pool: PoolView, align: int, len: int) -> Cursor {
        if self.has(align, len) {
            self
        } else {
            Cursor { offset: pool.used, rem_len: slice_size(align + len) }
        }
    }

    /// Offset at which a request is answered.
    pub open spec fn place(self, pool: PoolView, align: int, len: int) -> int {
        let slice = self.slice_for(pool, align, len);
        slice.offset + align::gap(slice.offset, align)
    }

    /// Where the arena stands after a request.
    pub open spec fn after(self, pool: PoolView, align: int, len: int) -> Cursor {
        let slice = self.slice_for(pool, align, len);
        let taken = align::gap(slice.offset, align) + len;
        Cursor { offset: slice.offset + taken, rem_len: slice.rem_len - taken }
    }

    /// The pool after a request.
    pub open spec fn pool_after(self, pool: PoolView, align: int, len: int) -> PoolView {
        if self.has(align, len) {
            pool
        } else {
            pool.after(align + len)
        }
    }

    /// A request can be answered inside the reservation, at an offset that a handle can hold.
    pub open spec fn room(self, pool: PoolView, align: int, len: int) -> bool {
        &&& self.has(align, len) || pool.grants(align + len)
        &&& self.place(pool, align, len) < RESERVE_SIZE
    }

    /// The slice at hand was dealt out of the pool.
    pub open spec fn lies_in(self, pool: PoolView) -> bool {
        0 <= self.rem_len && self.offset + self.rem_len <= pool.used
    }

    /// The slices at hand of two arenas have no byte in common.
    pub open spec fn is_apart(self, other: Cursor) -> bool {
        self.offset + self.rem_len <= other.offset || other.offset + other.rem_len <= self.offset
    }

    /// No handle among these stands for a place that the pool has not dealt out, or that is left of
    /// the slice at hand.
    pub open spec fn is_clear(self, pool: PoolView, handles: Set<u32>) -> bool {
        forall|k: u32| #[trigger]
            handles.contains(k) ==> 2 * k < pool.used && !(self.offset <= 2 * k < self.offset
                + self.rem_len)
    }

    /// All handles among these stand for places in front of what is left of the slice at hand.
    pub open spec fn is_behind(self, handles: Set<u32>) -> bool {
        forall|k: u32| #[trigger] handles.contains(k) ==> 2 * k < self.offset
    }

    /// Whatever lies in front of a slice leaves it clear.
    pub proof fn behind_is_clear(self, pool: PoolView, handles: Set<u32>)
        requires
            self.lies_in(pool),
            self.is_behind(handles),
        ensures
            self.is_clear(pool, handles),
    {
    }

    /// A request is answered in front of nothing that the arena has given out.
    pub proof fn requests_move_on(self, pool: PoolView, align: int, len: int, handles: Set<u32>)
        requires
            self.lies_in(pool),
            0 < align,
            0 <= len,
            self.is_behind(handles),
        ensures
            self.offset <= self.place(pool, align, len),
            self.after(pool, align, len).is_behind(handles),
    {
        align::gap_is_least(self.offset, align);
        align::gap_is_least(pool.used, align);
    }

    /// A request is answered at a multiple of its alignment, inside the slice, and nothing that is
    /// taken later overlaps it.
    pub proof fn placements_are_aligned_and_apart(
        self,
        pool: PoolView,
        align: int,
        len: int,
        next_align: int,
        next_len: int,
    )
        requires
            self.lies_in(pool),
            0 < align,
            0 <= len,
            0 < next_align,
            0 <= next_len,
        ensures
            self.place(pool, align, len) % align == 0,
            self.slice_for(pool, align, len).offset <= self.place(pool, align, len),
            self.place(pool, align, len) + len == self.after(pool, align, len).offset,
            self.after(pool, align, len).lies_in(self.pool_after(pool, align, len)),
            self.place(pool, align, len) + len <= self.after(pool, align, len).place(
                self.pool_after(pool, align, len),
                next_align,
                next_len,
            ),
    {
        let after = self.after(pool, align, len);
        let pool_after = self.pool_after(pool, align, len);
        align::gap_is_least(self.offset, align);
        align::gap_is_least(pool.used, align);
        align::gap_is_least(
            align::larger(align + len, DEFAULT_SLICE_LEN as int),
            INDEX_SCALE as int,
        );
        align::gap_is_least(after.offset, next_align);
        align::gap_is_least(pool_after.used, next_align);
    }

    /// Arenas of one pool never take the same byte: as long as their slices are apart, they stay
    /// apart, whichever of them answers a request.
    pub proof fn arenas_stay_apart(self, other: Cursor, pool: PoolView, align: int, len: int)
        requires
            self.lies_in(pool),
            other.lies_in(pool),
            self.is_apart(other),
            0 < align,
            0 <= len,
        ensures
            self.after(pool, align, len).is_apart(other),
            other.lies_in(self.pool_after(pool, align, len)),
    {
        align::gap_is_least(self.offset, align);
        align::gap_is_least(pool.used, align);
        align::gap_is_least(
            align::larger(align + len, DEFAULT_SLICE_LEN as int),
            INDEX_SCALE as int,
        );
    }

    /// A request is answered where no handle stands, and leaves the rest of the slice clear.
    pub proof fn requests_stay_clear(
        self,
        pool: PoolView,
        align: int,
        len: int,
        handles: Set<u32>,
        fresh: Set<u32>,
    )
        requires
            self.lies_in(pool),
            0 < align,
            0 <= len,
            self.is_clear(pool, handles),
            forall|k: u32| #[trigger]
                fresh.contains(k) ==> self.place(pool, align, len) <= 2 * k < self.place(
                    pool,
                    align,
                    len,
                ) + len,
        ensures
            forall|k: u32| #[trigger] fresh.contains(k) ==> !handles.contains(k),
            self.after(pool, align, len).is_clear(
                self.pool_after(pool, align, len),
                handles.union(fresh),
            ),
    {
        align::gap_is_least(self.offset, align);
        align::gap_is_least(pool.used, align);
        align::gap_is_least(
            align::larger(align + len, DEFAULT_SLICE_LEN as int),
            INDEX_SCALE as int,
        );
    }

    /// What an arena has given out leaves clear what was clear: the rest of its own slice, and the
    /// slices of all arenas that were apart from it. `held` are the handles that were in use before,
    /// and `more` those that are in use then.
    pub open spec fn leaves_clear(
        self,
        pool: PoolView,
        after: Cursor,
        pool_after: PoolView,
        held: Set<u32>,
        more: Set<u32>,
    ) -> bool {
        &&& self.is_clear(pool, held) ==> after.is_clear(pool_after, more)
        &&& forall|handles: Set<u32>|
            self.is_clear(pool, handles) ==> #[trigger] after.is_clear(pool_after, handles)
        &&& forall|other: Cursor, handles: Set<u32>|
            other.is_clear(pool, handles) ==> #[trigger] other.is_clear(pool_after, handles)
        &&& forall|other: Cursor|
            #![trigger other.is_clear(pool_after, more)]
            #![trigger other.lies_in(pool_after)]
            #![trigger after.is_apart(other)]
            other.lies_in(pool) && self.is_apart(other) ==> {
                &&& other.lies_in(pool_after)
                &&& after.is_apart(other)
                &&& other.is_clear(pool, held) ==> other.is_clear(pool_after, more)
            }
    }

    /// A request leaves clear what was clear.
    proof fn requests_leave_clear(
        self,
        pool: PoolView,
        align: int,
        len: int,
        held: Set<u32>,
        fresh: Set<u32>,
    )
        requires
            self.lies_in(pool),
            0 < align,
            0 <= len,
            forall|k: u32| #[trigger]
                fresh.contains(k) ==> self.place(pool, align, len) <= 2 * k < self.place(
                    pool,
                    align,
                    len,
                ) + len,
        ensures
            self.leaves_clear(
                pool,
                self.after(pool, align, len),
                self.pool_after(pool, align, len),
                held,
                held.union(fresh),
            ),
    {
        let after = self.after(pool, align, len);
        let pool_after = self.pool_after(pool, align, len);
        let more = held.union(fresh);
        let none = Set::<u32>::empty();
        if self.is_clear(pool, held) {
            self.requests_stay_clear(pool, align, len, held, fresh);
        }
        assert forall|handles: Set<u32>| self.is_clear(pool, handles) implies
            #[trigger] after.is_clear(pool_after, handles) by {
            self.requests_stay_clear(pool, align, len, handles, none);
            assert(handles.union(none) =~= handles);
        }
        assert(pool.used <= pool_after.used) by {
            align::gap_is_least(
                align::larger(align + len, DEFAULT_SLICE_LEN as int),
                INDEX_SCALE as int,
            );
        }
        assert forall|other: Cursor|
            #![trigger other.is_clear(pool_after, more)]
            #![trigger other.lies_in(pool_after)]
            #![trigger after.is_apart(other)]
            other.lies_in(pool) && self.is_apart(other) implies {
            &&& other.lies_in(pool_after)
            &&& after.is_apart(other)
            &&& other.is_clear(pool, held) ==> other.is_clear(pool_after, more)
        } by {
            self.arenas_stay_apart(other, pool, align, len);
            if other.is_clear(pool, held) {
                self.others_stay_clear(other, pool, align, len, held, fresh);
            }
        }
    }

    /// What one arena takes leaves the slices of the others clear.
    pub proof fn others_stay_clear(
        self,
        other: Cursor,
        pool: PoolView,
        align: int,
        len: int,
        handles: Set<u32>,
        fresh: Set<u32>,
    )
        requires
            self.lies_in(pool),
            other.lies_in(pool),
            self.is_apart(other),
            0 < align,
            0 <= len,
            other.is_clear(pool, handles),
            forall|k: u32| #[trigger]
                fresh.contains(k) ==> self.place(pool, align, len) <= 2 * k < self.place(
                    pool,
                    align,
                    len,
                ) + len,
        ensures
            other.is_clear(self.pool_after(pool, align, len), handles.union(fresh)),
    {
        align::gap_is_least(self.offset, align);
        align::gap_is_least(pool.used, align);
        align::gap_is_least(
            align::larger(align + len, DEFAULT_SLICE_LEN as int),
            INDEX_SCALE as int,
        );
    }
}

impl Cursor {
    /// A request is answered from the slice at hand, at the first place there that is aligned and
    /// leaves room for it, and the pool stays as it is, wherever there is such a place; and at the
    /// first aligned place of the pool's next slice where there is none.
    pub proof fn requests_take_the_first_place(self, pool: PoolView, align: int, len: int)
        requires
            0 < align,
            0 <= len,
        ensures
            ({
                let place = self.place(pool, align, len);
                let after = self.after(pool, align, len);
                let end = self.offset + self.rem_len;
                let fits = |p: int| self.offset <= p && p % align == 0 && p + len <= end;
                &&& (exists|p: int| #[trigger] fits(p)) ==> {
                    &&& fits(place)
                    &&& forall|p: int| #[trigger] fits(p) ==> place <= p
                    &&& after.offset + after.rem_len == end
                    &&& self.pool_after(pool, align, len) == pool
                }
                &&& !(exists|p: int| #[trigger] fits(p)) ==> {
                    &&& place % align == 0
                    &&& pool.used <= place < pool.used + align
                    &&& forall|p: int|
                        pool.used <= p && #[trigger] (p % align) == 0 ==> place <= p
                    &&& after.offset + after.rem_len == pool.used + slice_size(align + len)
                    &&& self.pool_after(pool, align, len) == pool.after(align + len)
                }
                &&& after.offset == place + len
            }),
    {
        let place = self.place(pool, align, len);
        let end = self.offset + self.rem_len;
        let fits = |p: int| self.offset <= p && p % align == 0 && p + len <= end;
        align::gap_is_least(self.offset, align);
        align::gap_is_least(pool.used, align);
        let first = self.offset + align::gap(self.offset, align);
        assert forall|p: int| #[trigger] fits(p) implies first <= p by {
            if p < first {
                let k = p - self.offset;
                assert((self.offset + k) % align != 0);
            }
        }
        if self.has(align, len) {
            assert(fits(first));
        }
        assert forall|p: int| pool.used <= p && #[trigger] (p % align) == 0 implies pool.used
            + align::gap(pool.used, align) <= p by {
            if p < pool.used + align::gap(pool.used, align) {
                let k = p - pool.used;
                assert((pool.used + k) % align != 0);
            }
        }
    }
}

/// Values of this type have handles of their own wherever they stand next to each other.
pub open spec fn indexable<T>() -> bool {
    0 < vstd::layout::size_of::<T>() && vstd::layout::size_of::<T>() % 2 == 0
}

/// Distance between the handles of neighbouring values.
pub open spec fn stride<T>() -> nat {
    vstd::layout::size_of::<T>() / 2
}

/// Distance between the handles under which neighbouring values are kept: none, where only the first
/// of them has a handle.
pub open spec fn step<T>() -> nat {
    if indexable::<T>() {
        stride::<T>()
    } else {
        0
    }
}

/// Number of bytes that `count` values take, up to the next place that a handle can stand for.
pub open spec fn bytes<T>(count: nat) -> int {
    align::round_up((count * vstd::layout::size_of::<T>()) as int, INDEX_SCALE as int)
}

/// Number of bytes that a block of `count` options takes.
pub open spec fn block_bytes<T>(count: nat) -> int {
    align::round_up(move_options::block_len::<T>(count), INDEX_SCALE as int)
}

/// Values that stand next to each other take the least even number of bytes that holds them all, and
/// so does a block of options.
pub proof fn values_take_no_more_than_they_need<T>(count: nat)
    ensures
        ({
            let len = count * vstd::layout::size_of::<T>();
            &&& bytes::<T>(count) == len || bytes::<T>(count) == len + 1
            &&& bytes::<T>(count) % 2 == 0
        }),
        ({
            let len = move_options::block_len::<T>(count);
            &&& block_bytes::<T>(count) == len || block_bytes::<T>(count) == len + 1
            &&& block_bytes::<T>(count) % 2 == 0
        }),
{
    align::gap_is_least((count * vstd::layout::size_of::<T>()) as int, INDEX_SCALE as int);
    align::gap_is_least(move_options::block_len::<T>(count), INDEX_SCALE as int);
}

/// Whether values of this type have handles of their own wherever they stand next to each other.
pub fn is_indexable<T>() -> (r: bool)
    ensures
        r == indexable::<T>(),
{
    core::mem::size_of::<T>() > 0 && core::mem::size_of::<T>() % 2 == 0
}

/// Number of bytes that `count` values take, where they are no more than a reservation has.
fn byte_len<T>(count: u64) -> (r: Option<u64>)
    ensures
        r matches Some(len) ==> len == bytes::<T>(count as nat) && len <= RESERVE_SIZE,
        r is None ==> bytes::<T>(count as nat) > RESERVE_SIZE,
{
    let size = core::mem::size_of::<T>() as u64;
    proof {
        align::gap_is_least(count * size, INDEX_SCALE as int);
    }
    match count.checked_mul(size) {
        Some(len) => {
            if len > RESERVE_SIZE {
                return None;
            }
            Some(next_multiple_of(len, INDEX_SCALE))
        },
        None => None,
    }
}

/// Alignments are powers of two.
proof fn align_is_even<T>()
    ensures
        vstd::layout::align_of::<T>() == 1 || (0 < vstd::layout::align_of::<T>()
            && vstd::layout::align_of::<T>() % 2 == 0),
{
    broadcast use vstd::layout::align_properties;

    align::power_of_two_parity(vstd::layout::align_of::<T>() as int);
}

/// Values take an even number of bytes.
proof fn bytes_are_even<T>(count: nat)
    ensures
        bytes::<T>(count) % 2 == 0,
        0 <= bytes::<T>(count),
        vstd::layout::size_of::<T>() == 0 ==> bytes::<T>(count) == 0,
        0 < vstd::layout::size_of::<T>() ==> count <= bytes::<T>(count),
        0 < vstd::layout::size_of::<T>() && 0 < count ==> 2 <= bytes::<T>(count),
        indexable::<T>() ==> 0 < stride::<T>() && bytes::<T>(count) == 2 * (count * stride::<T>()),
        count == 0 ==> bytes::<T>(count) == 0,
{
    let (size, d) = (vstd::layout::size_of::<T>(), stride::<T>());
    align::gap_is_least((count * size) as int, INDEX_SCALE as int);
    assert(0 <= count * size) by (nonlinear_arith)
        requires
            0 <= count,
            0 <= size,
    ;
    if 0 < size {
        assert(count <= count * size) by (nonlinear_arith)
            requires
                1 <= size,
                0 <= count,
        ;
    } else {
        assert(count * size == 0) by (nonlinear_arith)
            requires
                size == 0,
        ;
    }
    if count == 0 {
        assert(count * size == 0) by (nonlinear_arith)
            requires
                count == 0,
        ;
    }
    if indexable::<T>() {
        assert(count * size == 2 * (count * d)) by (nonlinear_arith)
            requires
                size == 2 * d,
        ;
    }
}

/// A single-thread bump allocator.
pub struct Arena {
    offset: u64,
    rem_len: u64,
}

impl Arena {
    /// Where the arena stands in its slice.
    pub closed spec fn cursor(self) -> Cursor {
        Cursor { offset: self.offset as int, rem_len: self.rem_len as int }
    }

    /// The slice lies in the reservation, behind its first bytes, at an even offset.
    pub closed spec fn wf(self) -> bool {
        &&& INITIAL_OFFSET <= self.offset
        &&& self.offset % 2 == 0
        &&& self.rem_len % 2 == 0
        &&& self.offset + self.rem_len <= RESERVE_SIZE
    }

    /// The slice at hand was dealt out by this pool, which has not been reset since.
    pub open spec fn fits(self, pool: ArenaPool) -> bool {
        self.cursor().lies_in(pool@)
    }

    /// No request that is larger than the reservation can be answered.
    proof fn large_requests_are_refused(self, pool: ArenaPool, align: int, len: int)
        requires
            self.wf(),
            pool.wf(),
            0 < align,
            0 <= len,
            RESERVE_SIZE < align || RESERVE_SIZE < len,
        ensures
            !self.cursor().room(pool@, align, len),
    {
        align::gap_is_least(self.offset as int, align);
        align::gap_is_least(pool@.used, align);
        align::gap_is_least(
            align::larger(align + len, DEFAULT_SLICE_LEN as int),
            INDEX_SCALE as int,
        );
        align::gap_is_least(pool@.least_commit(align + len), COMMIT_SIZE as int);
        let x = self.offset + align::gap(self.offset as int, align);
        if x < align {
            vstd::arithmetic::div_mod::lemma_small_mod(x as nat, align as nat);
        }
    }

    /// Whether a request for `len` bytes at a multiple of `align` can be answered.
    pub fn has_room(&self, pool: &ArenaPool, align: u64, len: u64) -> (r: bool)
        requires
            self.wf(),
            self.fits(*pool),
            pool.wf(),
            0 < align,
        ensures
            r == self.cursor().room(pool@, align as int, len as int),
    {
        proof {
            align::gap_is_least(self.offset as int, align as int);
            align::gap_is_least(pool@.used, align as int);
        }
        if align > RESERVE_SIZE || len > RESERVE_SIZE {
            proof {
                self.large_requests_are_refused(*pool, align as int, len as int);
            }
            return false;
        }
        let gap = align_gap(self.offset, align);
        if gap + len <= self.rem_len {
            self.offset + gap < RESERVE_SIZE
        } else if pool.can_grant(align + len) {
            pool.used + align_gap(pool.used, align) < RESERVE_SIZE
        } else {
            false
        }
    }

    /// Takes `len` bytes at a multiple of `align`, and returns the handle of that place.
    fn alloc_raw(&mut self, pool: &mut ArenaPool, align: u64, len: u64) -> (r: u32)
        requires
            old(self).wf(),
            old(self).fits(*old(pool)),
            old(pool).wf(),
            align == 1 || (0 < align && align % 2 == 0),
            len % 2 == 0,
            old(self).cursor().room(old(pool)@, align as int, len as int),
        ensures
            final(self).wf(),
            final(self).fits(*final(pool)),
            final(pool).wf(),
            final(self).cursor() == old(self).cursor().after(old(pool)@, align as int, len as int),
            final(pool)@ == old(self).cursor().pool_after(old(pool)@, align as int, len as int),
            2 * r == old(self).cursor().place(old(pool)@, align as int, len as int),
            2 * r + len <= RESERVE_SIZE,
            LEAST_INDEX <= r,
            old(self).cursor().offset <= 2 * r,
            old(pool)@.used <= final(pool)@.used,
    {
        proof {
            if align > RESERVE_SIZE || len > RESERVE_SIZE {
                self.large_requests_are_refused(*pool, align as int, len as int);
            }
            align::gap_is_least(self.offset as int, align as int);
            align::gap_is_least(pool@.used, align as int);
            align::gap_keeps_even(self.offset as int, align as int);
            align::gap_keeps_even(pool@.used, align as int);
        }
        let mut gap = align_gap(self.offset, align);
        if len > self.rem_len || self.rem_len - len < gap {
            // the slice at hand cannot satisfy this request
            self.refresh_backing_slice(pool, align + len);
            gap = align_gap(self.offset, align);
        }
        let given_offset = self.offset + gap;
        self.offset = self.offset + gap + len;
        self.rem_len = self.rem_len - (gap + len);
        (given_offset / INDEX_SCALE) as u32
    }

    /// Moves on to a new slice of at least `min_size` bytes.
    fn refresh_backing_slice(&mut self, pool: &mut ArenaPool, min_size: u64)
        requires
            old(self).wf(),
            old(self).fits(*old(pool)),
            old(pool).wf(),
            old(pool)@.grants(min_size as int),
        ensures
            final(self).wf(),
            final(self).fits(*final(pool)),
            final(pool).wf(),
            final(self).offset == old(pool)@.used,
            final(self).rem_len == slice_size(min_size as int),
            min_size <= final(self).rem_len,
            final(pool)@ == old(pool)@.after(min_size as int),
    {
        let slice = pool.alloc_slice(min_size);
        self.offset = slice.offset;
        self.rem_len = slice.len;
    }

    /// `count` values can be added next to each other, and their number fits into 4 bytes.
    pub open spec fn has_room_for<T>(self, pool: ArenaPool, count: nat) -> bool {
        &&& self.cursor().room(pool@, vstd::layout::align_of::<T>() as int, bytes::<T>(count))
        &&& count <= u32::MAX
    }

    /// Offset of the first of `count` values that are added next to each other.
    pub open spec fn place_for<T>(self, pool: ArenaPool, count: nat) -> int {
        self.cursor().place(pool@, vstd::layout::align_of::<T>() as int, bytes::<T>(count))
    }

    /// Where the arena stands after `count` values have been added.
    pub open spec fn cursor_after<T>(self, pool: ArenaPool, count: nat) -> Cursor {
        self.cursor().after(pool@, vstd::layout::align_of::<T>() as int, bytes::<T>(count))
    }

    /// The pool after `count` values have been added.
    pub open spec fn pool_after<T>(self, pool: ArenaPool, count: nat) -> PoolView {
        self.cursor().pool_after(pool@, vstd::layout::align_of::<T>() as int, bytes::<T>(count))
    }

    /// Whether `count` values can be added next to each other.
    pub fn can_store<T>(&self, pool: &ArenaPool, count: usize) -> (r: bool)
        requires
            self.wf(),
            self.fits(*pool),
            pool.wf(),
        ensures
            r == self.has_room_for::<T>(*pool, count as nat),
    {
        let align = core::mem::align_of::<T>() as u64;
        proof {
            align_is_even::<T>();
            bytes_are_even::<T>(count as nat);
            if bytes::<T>(count as nat) > RESERVE_SIZE {
                self.large_requests_are_refused(*pool, align as int, bytes::<T>(count as nat));
            }
        }
        if count as u64 > u32::MAX as u64 {
            return false;
        }
        match byte_len::<T>(count as u64) {
            Some(len) => self.has_room(pool, align, len),
            None => false,
        }
    }

    /// Inserts a single element, returns the handle.
    pub fn alloc_one<T>(
        &mut self,
        pool: &mut ArenaPool,
        values: &mut Values<T>,
        e: T,
    ) -> (r: Handle<T>)
        requires
            old(self).wf(),
            old(self).fits(*old(pool)),
            old(pool).wf(),
            old(values).wf(),
            old(self).cursor().is_clear(old(pool)@, old(values).placed()),
            old(self).has_room_for::<T>(*old(pool), 1),
        ensures
            final(self).wf(),
            final(self).fits(*final(pool)),
            final(pool).wf(),
            final(values).wf(),
            old(self).cursor().leaves_clear(
                old(pool)@,
                final(self).cursor(),
                final(pool)@,
                old(values).placed(),
                final(values).placed(),
            ),
            final(values).stored(*old(values), r, e),
            2 * r.spec_index() == old(self).place_for::<T>(*old(pool), 1),
            LEAST_INDEX <= r.spec_index(),
            old(self).cursor().offset <= 2 * r.spec_index(),
            0 < vstd::layout::size_of::<T>() ==> 2 * r.spec_index() < final(self).cursor().offset,
            final(self).cursor() == old(self).cursor_after::<T>(*old(pool), 1),
            final(pool)@ == old(self).pool_after::<T>(*old(pool), 1),
    {
        let ghost before = *self;
        let ghost pool_before = *pool;
        let ghost stock = *values;
        let ghost align = vstd::layout::align_of::<T>() as int;
        let ghost sized = 0 < vstd::layout::size_of::<T>();
        proof {
            align_is_even::<T>();
            bytes_are_even::<T>(1);
            if bytes::<T>(1) > RESERVE_SIZE {
                self.large_requests_are_refused(*pool, align, bytes::<T>(1));
            }
        }
        let len: u64 = match byte_len::<T>(1) {
            Some(len) => len,
            None => 0,
        };
        let index = self.alloc_raw(pool, core::mem::align_of::<T>() as u64, len);
        proof {
            let fresh = if sized {
                set![index]
            } else {
                Set::empty()
            };
            before.cursor().requests_leave_clear(
                pool_before@,
                align,
                bytes::<T>(1),
                stock.placed(),
                fresh,
            );
            if sized {
                before.cursor().requests_stay_clear(
                    pool_before@,
                    align,
                    bytes::<T>(1),
                    stock.placed(),
                    fresh,
                );
                assert(fresh.contains(index));
            }
        }
        values.slots.push(index, e);
        proof {
            if sized {
                assert(values.placed() =~= stock.placed().union(set![index]));
            } else {
                assert(values.placed() =~= stock.placed().union(Set::empty()));
            }
        }
        Handle { index, marker: PhantomData }
    }

    /// Inserts a contiguous sequence of elements, returns the handle.
    pub fn alloc_slice<T>(
        &mut self,
        pool: &mut ArenaPool,
        values: &mut Values<T>,
        elems: Vec<T>,
    ) -> (r: SliceHandle<T>)
        requires
            old(self).wf(),
            old(self).fits(*old(pool)),
            old(pool).wf(),
            old(values).wf(),
            old(self).cursor().is_clear(old(pool)@, old(values).placed()),
            old(self).has_room_for::<T>(*old(pool), elems@.len()),
        ensures
            final(self).wf(),
            final(self).fits(*final(pool)),
            final(pool).wf(),
            final(values).wf(),
            old(self).cursor().leaves_clear(
                old(pool)@,
                final(self).cursor(),
                final(pool)@,
                old(values).placed(),
                final(values).placed(),
            ),
            final(values).stored_slice(*old(values), r, elems@),
            2 * r.first() == old(self).place_for::<T>(*old(pool), elems@.len()),
            LEAST_INDEX <= r.first(),
            old(self).cursor().offset <= 2 * r.first(),
            0 < vstd::layout::size_of::<T>() ==> forall|k: u32| #[trigger]
                r.covers(k) ==> r.first() <= k && 2 * k < final(self).cursor().offset,
            final(self).cursor() == old(self).cursor_after::<T>(*old(pool), elems@.len()),
            final(pool)@ == old(self).pool_after::<T>(*old(pool), elems@.len()),
    {
        let ghost given = elems@;
        let ghost before = *self;
        let ghost pool_before = *pool;
        let ghost stock = *values;
        let ghost align = vstd::layout::align_of::<T>() as int;
        let n = elems.len();
        let ghost len = bytes::<T>(n as nat);
        proof {
            align_is_even::<T>();
            bytes_are_even::<T>(n as nat);
            if len > RESERVE_SIZE {
                self.large_requests_are_refused(*pool, align, len);
            }
        }
        let taken: u64 = match byte_len::<T>(n as u64) {
            Some(taken) => taken,
            None => 0,
        };
        let index = self.alloc_raw(pool, core::mem::align_of::<T>() as u64, taken);
        let r = SliceHandle { index, len: n as u32, marker: PhantomData };
        let ghost fresh = if 0 < vstd::layout::size_of::<T>() {
            Set::new(|k: u32| r.covers(k))
        } else {
            Set::empty()
        };
        proof {
            if indexable::<T>() {
                assert forall|i: int| 0 <= i < n implies #[trigger] slots::run_key(
                    index,
                    stride::<T>(),
                    i,
                ) <= u32::MAX && 2 * index <= 2 * slots::run_key(index, stride::<T>(), i) < 2 * index
                    + len by {
                    run_stays_inside(n as int, stride::<T>() as int, i);
                }
            }
            assert forall|k: u32| #[trigger] fresh.contains(k) implies 2 * index <= 2 * k < 2 * index
                + len by {
                if indexable::<T>() {
                    r.covers_its_run(k, n as nat);
                    let i = choose|i: int|
                        0 <= i < n && k == #[trigger] slots::run_key(index, stride::<T>(), i);
                }
            }
            before.cursor().requests_leave_clear(pool_before@, align, len, stock.placed(), fresh);
            if 0 < vstd::layout::size_of::<T>() {
                before.cursor().requests_stay_clear(
                    pool_before@,
                    align,
                    len,
                    stock.placed(),
                    fresh,
                );
            }
        }
        values.add_run(r, elems);
        proof {
            assert(values.placed() =~= stock.placed().union(fresh));
            if 0 < vstd::layout::size_of::<T>() {
                assert forall|k: u32| #[trigger] r.covers(k) implies r.first() <= k && 2 * k
                    < self.cursor().offset by {
                    assert(fresh.contains(k));
                }
            }
        }
        r
    }
}

/// The keys of a run stay below its end.
proof fn run_stays_inside(n: int, d: int, i: int)
    requires
        0 < d,
        0 <= i < n,
    ensures
        0 <= i * d,
        i * d + d <= n * d,
{
    assert(0 <= i * d && i * d + d <= n * d) by (nonlinear_arith)
        requires
            0 <= i < n,
            0 < d,
    ;
}

/// 4 byte offset into a pool, counted in units of [`INDEX_SCALE`] bytes. The offset is between
/// [`LEAST_INDEX`] and [`u32::MAX`].
#[derive(Hash)]
pub struct Handle<T> {
    index: u32,
    marker: PhantomData<T>,
}

/// The handles of values that stand next to each other.
pub struct SliceHandle<T> {
    index: u32,
    len: u32,
    marker: PhantomData<T>,
}

impl<T> Handle<T> {
    /// The offset in units of [`INDEX_SCALE`] bytes.
    pub closed spec fn spec_index(self) -> u32 {
        self.index
    }
}

impl<T> SliceHandle<T> {
    /// Some value of the slice has this handle; only the first has one where the values are not
    /// indexable.
    pub open spec fn covers(self, k: u32) -> bool {
        if indexable::<T>() {
            exists|i: int| 0 <= i < self.spec_len() && k == #[trigger] self.key(i)
        } else {
            0 < self.spec_len() && k == self.first()
        }
    }

    /// Handle of the first value.
    pub closed spec fn first(self) -> u32 {
        self.index
    }

    /// Number of values.
    pub closed spec fn spec_len(self) -> nat {
        self.len as nat
    }

    /// Handle of value number `i`.
    pub open spec fn key(self, i: int) -> u32 {
        slots::run_key(self.first(), stride::<T>(), i) as u32
    }

    /// A slice whose handles fit into 4 bytes covers the keys of its run.
    proof fn covers_its_run(self, k: u32, n: nat)
        requires
            indexable::<T>(),
            self.spec_len() == n,
            forall|i: int|
                0 <= i < n ==> #[trigger] slots::run_key(self.first(), stride::<T>(), i)
                    <= u32::MAX,
        ensures
            self.covers(k) <==> slots::is_run_key(self.first(), stride::<T>(), n, k),
    {
        let d = stride::<T>();
        if self.covers(k) {
            let i = choose|i: int| 0 <= i < self.spec_len() && k == #[trigger] self.key(i);
            run_key_is_natural(self.first(), d, i);
            assert(k == slots::run_key(self.first(), d, i));
        }
        if slots::is_run_key(self.first(), d, n, k) {
            let i = choose|i: int| 0 <= i < n && k == #[trigger] slots::run_key(self.first(), d, i);
            assert(k == self.key(i));
        }
    }
}

/// Keys of a run are not negative.
proof fn run_key_is_natural(first: u32, d: nat, i: int)
    requires
        0 <= i,
    ensures
        0 <= slots::run_key(first, d, i),
{
    assert(0 <= i * d) by (nonlinear_arith)
        requires
            0 <= i,
            0 <= d,
    ;
}

/// The values of one type that lie in a pool, by their handles. All arenas of the pool may add to
/// them. They live as long as this does.
pub struct Values<T> {
    slots: Slots<T>,
}

impl<T> View for Values<T> {
    type V = Map<u32, T>;

    closed spec fn view(&self) -> Map<u32, T> {
        self.slots@
    }
}

impl<T> Values<T> {
    /// No handle stands for two values.
    pub closed spec fn wf(self) -> bool {
        self.slots.wf()
    }

    /// Number of values that have been added.
    pub closed spec fn count(self) -> nat {
        self.slots.count()
    }

    /// Handles whose places are taken. Values without size take none.
    pub open spec fn placed(self) -> Set<u32> {
        if 0 < vstd::layout::size_of::<T>() {
            self@.dom()
        } else {
            Set::empty()
        }
    }

    /// Every value of `before` has kept its handle.
    pub closed spec fn grown_from(self, before: Self) -> bool {
        self.slots.grown_from(before.slots)
    }

    /// Every value of `before` has kept its handle, and is what it was.
    pub closed spec fn extends(self, before: Self) -> bool {
        self.slots.grown_from(before.slots) && self.slots.keeps_values(before.slots)
    }

    /// Every value of a slice is there. Values without size cannot be told apart: it is enough that
    /// there are as many.
    pub closed spec fn holds_slice(self, s: SliceHandle<T>) -> bool {
        if vstd::layout::size_of::<T>() == 0 {
            s.spec_len() <= self.slots.count()
        } else {
            self.slots.holds_run(s.first(), step::<T>(), s.spec_len())
        }
    }

    /// The values of a slice.
    pub closed spec fn slice(self, s: SliceHandle<T>) -> Seq<T> {
        if vstd::layout::size_of::<T>() == 0 {
            self.slots.some_run(s.first(), s.spec_len())
        } else {
            self.slots.run(s.first(), s.spec_len())
        }
    }

    /// A value has been added. Its handle was not in use, unless the value has no size; then it takes
    /// the place of the value before.
    pub open spec fn stored(self, before: Self, h: Handle<T>, e: T) -> bool {
        &&& self@ == before@.insert(h.spec_index(), e)
        &&& self.count() == before.count() + 1
        &&& 0 < vstd::layout::size_of::<T>() ==> !before@.contains_key(h.spec_index())
            && self.extends(before)
    }

    /// The values of a slice have been added. Their handles were not in use, unless the values have
    /// no size; then they take the place of the values before.
    pub open spec fn stored_slice(self, before: Self, s: SliceHandle<T>, elems: Seq<T>) -> bool {
        &&& s.spec_len() == elems.len()
        &&& self.holds_slice(s)
        &&& self.slice(s) == elems
        &&& self.count() == before.count() + elems.len()
        &&& forall|k: u32| #[trigger]
            self@.contains_key(k) <==> before@.contains_key(k) || s.covers(k)
        &&& forall|k: u32|
            #![trigger before@.contains_key(k)]
            #![trigger self@[k]]
            before@.contains_key(k) && !s.covers(k) ==> self@[k] == before@[k]
        &&& !indexable::<T>() && 0 < elems.len() ==> self@[s.first()] == elems[0]
        &&& 0 < vstd::layout::size_of::<T>() ==> self.extends(before) && forall|k: u32| #[trigger]
            before@.contains_key(k) ==> !s.covers(k)
    }

    /// No values.
    pub fn new() -> (r: Self)
        ensures
            r.wf(),
            r@ == Map::<u32, T>::empty(),
            r.count() == 0,
    {
        Values { slots: Slots::new() }
    }

    /// Adds the values of a slice.
    fn add_run(&mut self, s: SliceHandle<T>, elems: Vec<T>)
        requires
            old(self).wf(),
            s.spec_len() == elems@.len(),
            indexable::<T>() ==> s.wf(),
            0 < vstd::layout::size_of::<T>() ==> forall|k: u32| #[trigger]
                s.covers(k) ==> !old(self)@.contains_key(k),
        ensures
            final(self).wf(),
            final(self).stored_slice(*old(self), s, elems@),
    {
        let ghost before = *self;
        let ghost n = elems@.len();
        if elems.len() == 0 {
            proof {
                self.slots.growth_is_reflexive();
                self.slots.empty_runs_are_held(s.first(), step::<T>());
                assert(self.slice(s) =~= elems@);
            }
            return;
        }
        if is_indexable::<T>() {
            proof {
                bytes_are_even::<T>(n);
                assert forall|i: int| 0 <= i < n implies {
                    &&& #[trigger] slots::run_key(s.first(), stride::<T>(), i) <= u32::MAX
                    &&& !before@.contains_key(slots::run_key(s.first(), stride::<T>(), i) as u32)
                } by {
                    let k = slots::run_key(s.first(), stride::<T>(), i) as u32;
                    assert(k == s.key(i));
                    assert(s.covers(k));
                }
            }
            self.slots.push_run(s.index, core::mem::size_of::<T>() as u64 / 2, elems);
            proof {
                assert forall|k: u32| #[trigger] self@.contains_key(k) <==> before@.contains_key(k)
                    || s.covers(k) by {
                    s.covers_its_run(k, n);
                }
            }
        } else {
            assert(s.covers(s.first()));
            self.slots.push_block(s.index, elems);
            proof {
                self.slots.a_run_is_some_run(s.first(), 0, n);
            }
        }
    }

    /// Slices are not lost as values are added.
    pub proof fn slices_stay(self, before: Self, s: SliceHandle<T>)
        requires
            0 < vstd::layout::size_of::<T>(),
            self.grown_from(before),
            before.holds_slice(s),
        ensures
            self.holds_slice(s),
    {
        self.slots.runs_stay(before.slots, s.first(), step::<T>(), s.spec_len());
    }

    /// A slice of values without size is there where as many of them are.
    pub proof fn slices_without_size_are_there(self, s: SliceHandle<T>)
        requires
            vstd::layout::size_of::<T>() == 0,
        ensures
            self.holds_slice(s) <==> s.spec_len() <= self.count(),
    {
    }

    /// A slice reads the same where its values have been kept.
    pub proof fn slice_reads_the_same(self, before: Self, s: SliceHandle<T>)
        requires
            0 < vstd::layout::size_of::<T>(),
            before.holds_slice(s),
            self.extends(before),
        ensures
            self.holds_slice(s),
            self.slice(s) == before.slice(s),
    {
        self.slices_stay(before, s);
        self.slots.runs_read_the_same(before.slots, s.first(), step::<T>(), s.spec_len());
    }

    /// Growth is transitive.
    pub proof fn growth_adds_up(self, middle: Self, before: Self)
        requires
            self.grown_from(middle),
            middle.grown_from(before),
        ensures
            self.grown_from(before),
            self.extends(middle) && middle.extends(before) ==> self.extends(before),
    {
        self.slots.growth_adds_up(middle.slots, before.slots);
    }

    /// Growth leaves out nothing.
    pub proof fn growth_is_reflexive(self)
        ensures
            self.grown_from(self),
            self.extends(self),
    {
        self.slots.growth_is_reflexive();
    }

    /// Keeping values is growing.
    pub proof fn extension_is_growth(self, before: Self)
        requires
            before.wf(),
            self.extends(before),
        ensures
            self.grown_from(before),
            forall|k: u32| #[trigger]
                before@.contains_key(k) ==> self@.contains_key(k) && self@[k] == before@[k],
    {
        self.slots.keys_read_the_same(before.slots);
    }

    /// The values of a slice that is held stand under its handles, where they are indexable.
    pub proof fn slice_is_held(self, s: SliceHandle<T>)
        requires
            self.wf(),
            indexable::<T>(),
            self.holds_slice(s),
        ensures
            s.wf(),
            self.slice(s).len() == s.spec_len(),
            forall|i: int|
                0 <= i < s.spec_len() ==> #[trigger] self@.contains_key(s.key(i)) && s.key(i)
                    == s.first() + i * stride::<T>() && self@[s.key(i)] == self.slice(s)[i],
    {
        self.slots.run_is_held(s.first(), stride::<T>(), s.spec_len());
        assert forall|i: int| 0 <= i < s.spec_len() implies #[trigger] self@.contains_key(s.key(i))
            && s.key(i) == s.first() + i * stride::<T>() && self@[s.key(i)] == self.slice(s)[i] by {
            let k = slots::run_key(s.first(), stride::<T>(), i);
            assert(0 <= k <= u32::MAX);
        }
    }

    /// Gives access to a value, to change it in place.
    pub fn resolve_mut(&mut self, h: Handle<T>) -> (r: &mut T)
        requires
            old(self).wf(),
            old(self)@.contains_key(h.spec_index()),
        ensures
            *r == old(self)@[h.spec_index()],
            final(self).wf(),
            final(self)@ == old(self)@.insert(h.spec_index(), *final(r)),
            final(self).grown_from(*old(self)),
            final(self).count() == old(self).count(),
    {
        self.slots.get_mut(h.index)
    }

    /// A value that was stored reads back under its handle, and every other handle reads what it
    /// read before.
    pub proof fn stored_values_read_back(self, before: Self, h: Handle<T>, e: T)
        requires
            self.stored(before, h, e),
        ensures
            self@.contains_key(h.spec_index()),
            self@[h.spec_index()] == e,
            forall|k: u32| #[trigger]
                before@.contains_key(k) && k != h.spec_index() ==> self@.contains_key(k) && self@[k]
                    == before@[k],
            0 < vstd::layout::size_of::<T>() ==> !before@.contains_key(h.spec_index()),
    {
    }

    /// The values of a slice that was stored read back, each under its own handle where they are
    /// indexable, and every other handle reads what it read before.
    pub proof fn stored_slices_read_back(self, before: Self, s: SliceHandle<T>, elems: Seq<T>)
        requires
            self.wf(),
            self.stored_slice(before, s, elems),
        ensures
            self.slice(s) == elems,
            indexable::<T>() ==> s.wf(),
            indexable::<T>() ==> forall|i: int, j: int|
                0 <= i < j < elems.len() ==> #[trigger] s.key(i) < #[trigger] s.key(j),
            indexable::<T>() ==> forall|i: int|
                0 <= i < elems.len() ==> self@.contains_key(#[trigger] s.key(i)) && self@[s.key(i)]
                    == elems[i],
            forall|k: u32| #[trigger]
                before@.contains_key(k) && !s.covers(k) ==> self@.contains_key(k) && self@[k]
                    == before@[k],
            0 < vstd::layout::size_of::<T>() ==> forall|k: u32| #[trigger]
                before@.contains_key(k) ==> !s.covers(k),
    {
        if indexable::<T>() {
            self.slice_is_held(s);
            bytes_are_even::<T>(1);
            let d = stride::<T>();
            assert forall|i: int| 0 <= i < elems.len() implies self@.contains_key(
                #[trigger] s.key(i),
            ) && self@[s.key(i)] == elems[i] by {
                assert(self@.contains_key(s.key(i)));
            }
            assert forall|i: int, j: int| 0 <= i < j < elems.len() implies #[trigger] s.key(i)
                < #[trigger] s.key(j) by {
                assert(self@.contains_key(s.key(i)) && self@.contains_key(s.key(j)));
                assert(i * d < j * d) by (nonlinear_arith)
                    requires
                        0 <= i < j,
                        0 < d,
                ;
            }
        }
    }
}

impl<T> Clone for Handle<T> {
    fn clone(&self) -> (r: Self)
        ensures
            r == *self,
    {
        Handle { index: self.index, marker: self.marker }
    }
}

impl<T> Copy for Handle<T> {

}

impl<T> Clone for SliceHandle<T> {
    fn clone(&self) -> (r: Self)
        ensures
            r == *self,
    {
        SliceHandle { index: self.index, len: self.len, marker: self.marker }
    }
}

impl<T> Copy for SliceHandle<T> {

}

impl<T> Handle<T> {
    /// The value that the handle stands for, whichever arena of the pool made it.
    pub fn resolve<'a>(&self, values: &'a Values<T>) -> (r: &'a T)
        requires
            values.wf(),
            values@.contains_key(self.spec_index()),
        ensures
            *r == values@[self.spec_index()],
    {
        values.slots.get(self.index)
    }

    /// The offset in units of [`INDEX_SCALE`] bytes.
    pub fn index(&self) -> (r: u32)
        ensures
            r == self.spec_index(),
    {
        self.index
    }

    /// The handle with this offset.
    pub fn from_index(index: u32) -> (r: Self)
        ensures
            r.spec_index() == index,
    {
        Handle { index, marker: PhantomData }
    }
}

impl<T> PartialEq for Handle<T> {
    fn eq(&self, other: &Self) -> (r: bool) {
        self.index == other.index
    }
}

impl<T> vstd::std_specs::cmp::PartialEqSpecImpl for Handle<T> {
    open spec fn obeys_eq_spec() -> bool {
        true
    }

    open spec fn eq_spec(&self, other: &Self) -> bool {
        self.spec_index() == other.spec_index()
    }
}

impl<T> Eq for Handle<T> {

}

impl<T> SliceHandle<T> {
    /// The values that the handle stands for, whichever arena of the pool made it.
    pub fn resolve<'a>(&self, values: &'a Values<T>) -> (r: &'a [T])
        requires
            values.wf(),
            values.holds_slice(*self),
        ensures
            r@ == values.slice(*self),
    {
        if core::mem::size_of::<T>() == 0 {
            values.slots.get_some_run(self.index, self.len as usize)
        } else {
            values.slots.get_run(self.index, Ghost(step::<T>()), self.len as usize)
        }
    }

    /// Number of values.
    pub fn len(&self) -> (r: usize)
        ensures
            r == self.spec_len(),
            r <= u32::MAX,
    {
        self.len as usize
    }

    /// All handles of the slice fit into 4 bytes.
    pub open spec fn wf(self) -> bool {
        forall|i: int|
            0 <= i < self.spec_len() ==> #[trigger] slots::run_key(
                self.first(),
                stride::<T>(),
                i,
            ) <= u32::MAX
    }

    /// The slice of `len` values that starts at this handle.
    pub closed spec fn of(first: u32, len: u32) -> Self {
        SliceHandle { index: first, len, marker: PhantomData }
    }

    /// A slice is made of its first handle and its length.
    pub proof fn is_its_parts(first: u32, len: u32)
        ensures
            Self::of(first, len).first() == first,
            Self::of(first, len).spec_len() == len,
            forall|s: Self|
                s.first() == first && s.spec_len() == len ==> s == Self::of(first, len),
    {
    }

    /// The slice of `len` values that starts at this handle.
    pub fn from_parts(first: u32, len: u32) -> (r: Self)
        ensures
            r == Self::of(first, len),
            r.first() == first,
            r.spec_len() == len,
    {
        SliceHandle { index: first, len, marker: PhantomData }
    }

    /// Handle of the first value.
    pub fn first_index(&self) -> (r: u32)
        ensures
            r == self.first(),
    {
        self.index
    }

    /// The handle of each value, in order. The size of a value has to be a multiple of what handles
    /// count in.
    pub fn iter(&self) -> (r: Vec<Handle<T>>)
        requires
            vstd::layout::size_of::<T>() % 2 == 0,
            self.wf(),
        ensures
            r@.len() == self.spec_len(),
            forall|i: int|
                0 <= i < r@.len() ==> (#[trigger] r@[i]).spec_index() == self.first() + i
                    * stride::<T>(),
    {
        let mut r: Vec<Handle<T>> = Vec::new();
        let half: u128 = core::mem::size_of::<T>() as u128 / 2;
        let mut key: u128 = self.index as u128;
        let mut i: u32 = 0;
        while i < self.len
            invariant
                self.wf(),
                i <= self.len,
                r@.len() == i,
                half == stride::<T>(),
                half <= 0x1_0000_0000_0000_0000,
                key == self.index + i * half,
                i < self.len ==> key <= u32::MAX,
                forall|k: int|
                    0 <= k < i ==> (#[trigger] r@[k]).spec_index() == self.first() + k
                        * stride::<T>(),
            decreases self.len - i,
        {
            r.push(Handle { index: key as u32, marker: PhantomData });
            proof {
                let n = i + 1;
                assert(n * half == i * half + half) by (nonlinear_arith)
                    requires
                        n == i + 1,
                ;
                if n < self.len {
                    assert(slots::run_key(self.first(), stride::<T>(), n) <= u32::MAX);
                }
            }
            i = i + 1;
            key = key + half;
        }
        r
    }
}

/// 4 byte offset of a block of options.
pub struct NodeOptionsHandle<T> {
    index: u32,
    marker: PhantomData<T>,
}

impl<T> Clone for NodeOptionsHandle<T> {
    fn clone(&self) -> (r: Self)
        ensures
            r == *self,
    {
        NodeOptionsHandle { index: self.index, marker: self.marker }
    }
}

impl<T> Copy for NodeOptionsHandle<T> {

}

impl<T> NodeOptionsHandle<T> {
    /// The offset in units of [`INDEX_SCALE`] bytes.
    pub closed spec fn spec_index(self) -> u32 {
        self.index
    }

    /// The block that the handle stands for, whichever arena of the pool made it.
    pub fn resolve<'a>(&self, values: &'a Values<NodeOptions<T>>) -> (r: &'a NodeOptions<T>)
        requires
            values.wf(),
            values@.contains_key(self.spec_index()),
        ensures
            *r == values@[self.spec_index()],
    {
        values.slots.get(self.index)
    }
}

impl<T> Values<NodeOptions<T>> {
    /// A block has been added under a handle that was not in use.
    pub open spec fn stored_options(
        self,
        before: Self,
        h: NodeOptionsHandle<T>,
        options: NodeOptions<T>,
    ) -> bool {
        &&& !before@.contains_key(h.spec_index())
        &&& self@ == before@.insert(h.spec_index(), options)
        &&& self.extends(before)
    }

    /// Gives access to a block, to change it in place.
    pub fn options_mut(&mut self, h: NodeOptionsHandle<T>) -> (r: &mut NodeOptions<T>)
        requires
            old(self).wf(),
            old(self)@.contains_key(h.spec_index()),
        ensures
            *r == old(self)@[h.spec_index()],
            final(self).wf(),
            final(self)@ == old(self)@.insert(h.spec_index(), *final(r)),
            final(self).grown_from(*old(self)),
    {
        self.slots.get_mut(h.index)
    }
}

impl Arena {
    /// A block of `count` options can be added.
    pub open spec fn has_room_for_options<T>(self, pool: ArenaPool, count: nat) -> bool {
        self.cursor().room(pool@, vstd::layout::align_of::<T>() as int, block_bytes::<T>(count))
    }

    /// Whether a block of `count` options can be added.
    pub fn can_store_options<T>(&self, pool: &ArenaPool, count: u16) -> (r: bool)
        requires
            self.wf(),
            self.fits(*pool),
            pool.wf(),
        ensures
            r == self.has_room_for_options::<T>(*pool, count as nat),
    {
        let size = core::mem::size_of::<T>() as u64;
        let align = core::mem::align_of::<T>() as u64;
        proof {
            align_is_even::<T>();
            block_is_long::<T>(count as nat);
            if align > RESERVE_SIZE || block_bytes::<T>(count as nat) > RESERVE_SIZE {
                self.large_requests_are_refused(
                    *pool,
                    align as int,
                    block_bytes::<T>(count as nat),
                );
            }
        }
        if align > RESERVE_SIZE {
            return false;
        }
        match size.checked_mul(count as u64) {
            Some(data) => {
                if data > RESERVE_SIZE {
                    return false;
                }
                let len = next_multiple_of(HEADER_SIZE, align) + data;
                self.has_room(pool, align, next_multiple_of(len, INDEX_SCALE))
            },
            None => false,
        }
    }

    /// Adds a block of options that takes `len` bytes at a multiple of `align`.
    pub fn alloc_node_options<T>(
        &mut self,
        pool: &mut ArenaPool,
        values: &mut Values<NodeOptions<T>>,
        align: u64,
        len: u64,
        options: NodeOptions<T>,
    ) -> (r: NodeOptionsHandle<T>)
        requires
            old(self).wf(),
            old(self).fits(*old(pool)),
            old(pool).wf(),
            old(values).wf(),
            old(self).cursor().is_clear(old(pool)@, old(values)@.dom()),
            align == 1 || (0 < align && align % 2 == 0),
            0 < len,
            len % 2 == 0,
            old(self).cursor().room(old(pool)@, align as int, len as int),
        ensures
            final(self).wf(),
            final(self).fits(*final(pool)),
            final(pool).wf(),
            final(values).wf(),
            old(self).cursor().leaves_clear(
                old(pool)@,
                final(self).cursor(),
                final(pool)@,
                old(values)@.dom(),
                final(values)@.dom(),
            ),
            final(values).stored_options(*old(values), r, options),
            2 * r.spec_index() == old(self).cursor().place(old(pool)@, align as int, len as int),
            LEAST_INDEX <= r.spec_index(),
            old(self).cursor().offset <= 2 * r.spec_index() < final(self).cursor().offset,
            final(self).cursor() == old(self).cursor().after(old(pool)@, align as int, len as int),
            final(pool)@ == old(self).cursor().pool_after(old(pool)@, align as int, len as int),
    {
        let ghost before = *self;
        let ghost pool_before = *pool;
        let ghost held = values@.dom();
        let index = self.alloc_raw(pool, align, len);
        proof {
            before.cursor().requests_stay_clear(
                pool_before@,
                align as int,
                len as int,
                held,
                set![index],
            );
            before.cursor().requests_leave_clear(
                pool_before@,
                align as int,
                len as int,
                held,
                set![index],
            );
            assert(set![index].contains(index));
        }
        values.slots.push(index, options);
        assert(values@.dom() =~= held.union(set![index]));
        NodeOptionsHandle { index, marker: PhantomData }
    }
}

/// A block is as long as its header and its values together.
proof fn block_is_long<T>(count: nat)
    ensures
        2 <= move_options::data_offset::<T>(),
        move_options::data_offset::<T>() < 2 + vstd::layout::align_of::<T>(),
        0 <= vstd::layout::size_of::<T>() * count,
        move_options::block_len::<T>(count) <= block_bytes::<T>(count) <= move_options::block_len::<
            T,
        >(count) + 1,
        block_bytes::<T>(count) % 2 == 0,
{
    let size = vstd::layout::size_of::<T>();
    align_is_even::<T>();
    align::gap_is_least(2, vstd::layout::align_of::<T>() as int);
    align::gap_is_least(move_options::block_len::<T>(count), 2);
    assert(0 <= size * count) by (nonlinear_arith)
        requires
            0 <= size,
            0 <= count,
    ;
}

impl<T> NodeOptions<T> {
    /// Makes a value of every option, and stores them in one block of the pool.
    pub fn new_in<F: FnMut(MoveChoice) -> T>(
        arena: &mut Arena,
        pool: &mut ArenaPool,
        values: &mut Values<NodeOptions<T>>,
        s1: &[MoveChoice],
        s2: &[MoveChoice],
        ctor: F,
    ) -> (r: NodeOptionsHandle<T>)
        requires
            old(arena).wf(),
            old(arena).fits(*old(pool)),
            old(pool).wf(),
            old(values).wf(),
            old(arena).cursor().is_clear(old(pool)@, old(values)@.dom()),
            s1@.len() <= 255,
            s2@.len() <= 255,
            forall|m: MoveChoice| call_requires(ctor, (m,)),
            old(arena).has_room_for_options::<T>(*old(pool), s1@.len() + s2@.len()),
        ensures
            final(arena).wf(),
            final(arena).fits(*final(pool)),
            final(pool).wf(),
            final(values).wf(),
            old(arena).cursor().leaves_clear(
                old(pool)@,
                final(arena).cursor(),
                final(pool)@,
                old(values)@.dom(),
                final(values)@.dom(),
            ),
            final(values)@.contains_key(r.spec_index()),
            final(values).stored_options(*old(values), r, final(values)@[r.spec_index()]),
            final(values)@[r.spec_index()].wf(),
            final(values)@[r.spec_index()].made_from(s1@, s2@, ctor),
            LEAST_INDEX <= r.spec_index(),
            old(arena).cursor().offset <= 2 * r.spec_index() < final(arena).cursor().offset,
            2 * r.spec_index() == old(arena).cursor().place(
                old(pool)@,
                vstd::layout::align_of::<T>() as int,
                block_bytes::<T>(s1@.len() + s2@.len()),
            ),
            final(arena).cursor() == old(arena).cursor().after(
                old(pool)@,
                vstd::layout::align_of::<T>() as int,
                block_bytes::<T>(s1@.len() + s2@.len()),
            ),
            final(pool)@ == old(arena).cursor().pool_after(
                old(pool)@,
                vstd::layout::align_of::<T>() as int,
                block_bytes::<T>(s1@.len() + s2@.len()),
            ),
    {
        let count: u64 = s1.len() as u64 + s2.len() as u64;
        let align = core::mem::align_of::<T>() as u64;
        let size = core::mem::size_of::<T>() as u64;
        proof {
            align_is_even::<T>();
            block_is_long::<T>(count as nat);
            if align > RESERVE_SIZE || block_bytes::<T>(count as nat) > RESERVE_SIZE {
                arena.large_requests_are_refused(
                    *pool,
                    align as int,
                    block_bytes::<T>(count as nat),
                );
            }
        }
        let options = NodeOptions::new(s1, s2, ctor);
        let len = next_multiple_of(HEADER_SIZE, align) + size * count;
        let len = next_multiple_of(len, INDEX_SCALE);
        let r = arena.alloc_node_options(pool, values, align, len, options);
        r
    }
}

impl PoolView {
    /// The pool once everything has been freed at once.
    pub open spec fn reset(self) -> PoolView {
        PoolView { used: INITIAL_OFFSET as int, committed: self.committed }
    }

    /// A slice that is dealt out starts where the one before it ended, so no two of them overlap.
    pub proof fn slices_do_not_overlap(self, first: int, second: int)
        ensures
            self.used + slice_size(first) == self.after(first).used,
            self.after(first).used + slice_size(second) == self.after(first).after(second).used,
    {
    }

    /// Whatever is dealt out is committed.
    pub proof fn dealt_memory_is_committed(self, min_size: int)
        ensures
            self.after(min_size).is_backed(),
    {
        align::gap_is_least(self.least_commit(min_size), COMMIT_SIZE as int);
    }

    /// The pool after it has dealt out slices of at least these sizes, one after the other.
    pub open spec fn after_all(self, sizes: Seq<int>) -> PoolView
        decreases sizes.len(),
    {
        if sizes.len() == 0 {
            self
        } else {
            self.after_all(sizes.drop_last()).after(sizes.last())
        }
    }

    /// Slices only ever use up more of the reservation, and commit more of it.
    proof fn rounds_grow(self, sizes: Seq<int>, k: int)
        requires
            0 <= k <= sizes.len(),
        ensures
            self.after_all(sizes.take(k)).used <= self.after_all(sizes).used,
            self.after_all(sizes.take(k)).committed <= self.after_all(sizes).committed,
        decreases sizes.len(),
    {
        if k == sizes.len() {
            assert(sizes.take(k) =~= sizes);
        } else {
            let fore = sizes.drop_last();
            let middle = self.after_all(fore);
            self.rounds_grow(fore, k);
            assert(fore.take(k) =~= sizes.take(k));
            align::gap_is_least(
                align::larger(sizes.last(), DEFAULT_SLICE_LEN as int),
                INDEX_SCALE as int,
            );
            align::gap_is_least(middle.least_commit(sizes.last()), COMMIT_SIZE as int);
        }
    }

    /// Bulk free keeps what is committed: the same slices, asked for again, are granted, start where
    /// they did, and commit nothing.
    pub proof fn rounds_repeat_after_a_reset(self, sizes: Seq<int>, k: int)
        requires
            self.used == INITIAL_OFFSET,
            0 <= k < sizes.len(),
        ensures
            ({
                let first = self.after_all(sizes.take(k));
                let again = self.after_all(sizes).reset().after_all(sizes.take(k));
                &&& again.used == first.used
                &&& again.committed == self.after_all(sizes).committed
                &&& again.grants(sizes[k])
                &&& !again.must_commit(sizes[k])
                &&& again.after(sizes[k]).committed == self.after_all(sizes).committed
            }),
        decreases k,
    {
        let all = self.after_all(sizes);
        let reset = all.reset();
        self.rounds_grow(sizes, k + 1);
        all_is_backed(self, sizes);
        self.rounds_go_step_by_step(sizes, k);
        if k > 0 {
            self.rounds_repeat_after_a_reset(sizes, k - 1);
            self.rounds_go_step_by_step(sizes, k - 1);
            reset.rounds_go_step_by_step(sizes, k - 1);
        } else {
            assert(sizes.take(0) =~= Seq::<int>::empty());
            assert(self.after_all(sizes.take(0)) == self);
            assert(reset.after_all(sizes.take(0)) == reset);
        }
        let first = self.after_all(sizes.take(k));
        let again = reset.after_all(sizes.take(k));
        assert(again.used == first.used);
        assert(again.committed == all.committed);
        assert(again.used + slice_size(sizes[k]) == first.after(sizes[k]).used);
    }

    /// A round is its first part and one slice more.
    proof fn rounds_go_step_by_step(self, sizes: Seq<int>, k: int)
        requires
            0 <= k < sizes.len(),
        ensures
            self.after_all(sizes.take(k + 1)) == self.after_all(sizes.take(k)).after(sizes[k]),
    {
        assert(sizes.take(k + 1).drop_last() =~= sizes.take(k));
        assert(sizes.take(k + 1).last() == sizes[k]);
    }
}

/// What has been dealt out in a round is committed.
proof fn all_is_backed(pool: PoolView, sizes: Seq<int>)
    requires
        0 < sizes.len(),
    ensures
        pool.after_all(sizes).is_backed(),
{
    pool.after_all(sizes.drop_last()).dealt_memory_is_committed(sizes.last());
}

/// What an arena of a pool can be asked for.
pub enum Request {
    /// The pool hands out another arena.
    Open,
    /// Arena number `arena` takes `len` bytes at a multiple of `align`.
    Take { arena: int, align: int, len: int },
}

/// A range of bytes that was given out.
pub struct Range {
    pub offset: int,
    pub len: int,
    pub align: int,
}

impl Range {
    /// The ranges have no byte in common.
    pub open spec fn is_apart(self, other: Range) -> bool {
        self.offset + self.len <= other.offset || other.offset + other.len <= self.offset
    }

    /// No byte of the range is left of the slice at hand of an arena.
    pub open spec fn is_clear_of(self, cursor: Cursor) -> bool {
        self.offset + self.len <= cursor.offset || cursor.offset + cursor.rem_len <= self.offset
    }
}

/// A pool, its arenas, and all that they have given out.
pub struct Dealings {
    pub pool: PoolView,
    pub arenas: Seq<Cursor>,
    pub given: Seq<Range>,
}

impl Dealings {
    /// A pool without arenas.
    pub open spec fn begin(pool: PoolView) -> Self {
        Dealings { pool, arenas: Seq::empty(), given: Seq::empty() }
    }

    /// The request can be answered.
    pub open spec fn admits(self, request: Request) -> bool {
        match request {
            Request::Open => true,
            Request::Take { arena, align, len } => {
                &&& 0 <= arena < self.arenas.len()
                &&& 0 < align
                &&& 0 <= len
                &&& self.arenas[arena].room(self.pool, align, len)
            },
        }
    }

    /// What a request leads to.
    pub open spec fn after(self, request: Request) -> Self {
        match request {
            Request::Open => Dealings {
                arenas: self.arenas.push(Cursor { offset: INITIAL_OFFSET as int, rem_len: 0 }),
                ..self
            },
            Request::Take { arena, align, len } => {
                let cursor = self.arenas[arena];
                Dealings {
                    pool: cursor.pool_after(self.pool, align, len),
                    arenas: self.arenas.update(arena, cursor.after(self.pool, align, len)),
                    given: self.given.push(
                        Range { offset: cursor.place(self.pool, align, len), len, align },
                    ),
                }
            },
        }
    }

    /// All of these requests can be answered, one after the other.
    pub open spec fn admits_all(self, requests: Seq<Request>) -> bool
        decreases requests.len(),
    {
        requests.len() == 0 || (self.admits_all(requests.drop_last()) && self.after_all(
            requests.drop_last(),
        ).admits(requests.last()))
    }

    /// What requests lead to, one after the other.
    pub open spec fn after_all(self, requests: Seq<Request>) -> Self
        decreases requests.len(),
    {
        if requests.len() == 0 {
            self
        } else {
            self.after_all(requests.drop_last()).after(requests.last())
        }
    }

    /// No two ranges or slices share a byte, and all lie in what has been dealt out.
    spec fn in_order(self) -> bool {
        &&& INITIAL_OFFSET <= self.pool.used
        &&& self.pool.used == INITIAL_OFFSET || self.pool.is_backed()
        &&& self.pool.committed <= RESERVE_SIZE
        &&& forall|i: int|
            0 <= i < self.arenas.len() ==> (#[trigger] self.arenas[i]).lies_in(self.pool)
                && INITIAL_OFFSET <= self.arenas[i].offset
        &&& forall|i: int, j: int|
            0 <= i < j < self.arenas.len() ==> (#[trigger] self.arenas[i]).is_apart(
                #[trigger] self.arenas[j],
            )
        &&& forall|g: int|
            0 <= g < self.given.len() ==> {
                let r = #[trigger] self.given[g];
                &&& 0 < r.align
                &&& r.offset % r.align == 0
                &&& INITIAL_OFFSET <= r.offset
                &&& 0 <= r.len
                &&& r.offset + r.len <= self.pool.used
            }
        &&& forall|g: int, i: int|
            0 <= g < self.given.len() && 0 <= i < self.arenas.len() ==> (
            #[trigger] self.given[g]).is_clear_of(#[trigger] self.arenas[i])
        &&& forall|f: int, g: int|
            0 <= f < g < self.given.len() ==> (#[trigger] self.given[f]).is_apart(
                #[trigger] self.given[g],
            )
    }

    /// Requests keep the dealings in order.
    proof fn stays_in_order(self, request: Request)
        requires
            self.in_order(),
            self.admits(request),
        ensures
            self.after(request).in_order(),
    {
        let after = self.after(request);
        match request {
            Request::Open => {
                assert(after.in_order());
            },
            Request::Take { arena, align, len } => {
                let cursor = self.arenas[arena];
                align::gap_is_least(cursor.offset, align);
                align::gap_is_least(self.pool.used, align);
                align::gap_is_least(
                    align::larger(align + len, DEFAULT_SLICE_LEN as int),
                    INDEX_SCALE as int,
                );
                self.pool.dealt_memory_is_committed(align + len);
                assert forall|i: int, j: int| 0 <= i < j < after.arenas.len() implies (
                #[trigger] after.arenas[i]).is_apart(#[trigger] after.arenas[j]) by {
                    let _ = self.arenas[i];
                    let _ = self.arenas[j];
                }
                let n = self.given.len() as int;
                assert forall|g: int, i: int|
                    0 <= g < after.given.len() && 0 <= i < after.arenas.len() implies (
                #[trigger] after.given[g]).is_clear_of(#[trigger] after.arenas[i]) by {
                    let _ = self.arenas[i];
                    if g < n {
                        let _ = self.given[g];
                    } else if i < arena {
                        assert(self.arenas[i].is_apart(self.arenas[arena]));
                    } else if arena < i {
                        assert(self.arenas[arena].is_apart(self.arenas[i]));
                    }
                }
                assert forall|f: int, g: int| 0 <= f < g < after.given.len() implies (
                #[trigger] after.given[f]).is_apart(#[trigger] after.given[g]) by {
                    let _ = self.given[f];
                    if g == n {
                        assert(self.given[f].is_clear_of(self.arenas[arena]));
                    }
                }
                assert(after.in_order());
            },
        }
    }

    /// All requests together keep the dealings in order.
    proof fn all_stay_in_order(self, requests: Seq<Request>)
        requires
            self.in_order(),
            self.admits_all(requests),
        ensures
            self.after_all(requests).in_order(),
        decreases requests.len(),
    {
        if requests.len() > 0 {
            self.all_stay_in_order(requests.drop_last());
            self.after_all(requests.drop_last()).stays_in_order(requests.last());
        }
    }
}

/// Whatever the arenas of a pool are asked for, and in whichever order, since the pool was made or
/// reset: no two ranges that they give out have a byte in common, and each is aligned as asked and
/// lies in the reservation, behind its first bytes, where memory is committed.
pub proof fn ranges_never_overlap(pool: PoolView, requests: Seq<Request>)
    requires
        pool.used == INITIAL_OFFSET,
        pool.committed <= RESERVE_SIZE,
        Dealings::begin(pool).admits_all(requests),
    ensures
        ({
            let after = Dealings::begin(pool).after_all(requests);
            let given = after.given;
            &&& forall|g: int|
                0 <= g < given.len() ==> {
                    let r = #[trigger] given[g];
                    &&& r.offset % r.align == 0
                    &&& INITIAL_OFFSET <= r.offset
                    &&& r.offset + r.len <= RESERVE_SIZE
                    &&& 0 < r.len ==> r.offset + r.len <= after.pool.committed
                }
            &&& forall|f: int, g: int|
                0 <= f < g < given.len() ==> (#[trigger] given[f]).is_apart(#[trigger] given[g])
        }),
{
    let start = Dealings::begin(pool);
    assert(start.in_order());
    start.all_stay_in_order(requests);
}

} // verus!
