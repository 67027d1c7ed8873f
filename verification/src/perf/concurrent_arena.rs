//! Bump arenas over one block of fixed size.
//!
//! [`ConcurrentArena`] deals the block out in slices. [`Arena`] takes places in a slice for values
//! of any type and hands out 4 byte [`Handle`]s, which count bytes from the start of the block; when
//! the slice is used up it fetches another one. What is placed in the block is kept in [`Values`],
//! one for each type, which all arenas of a block share.

use crate::engine::MoveChoice;
use crate::perf::align;
use crate::perf::align::{align_gap, next_multiple_of};
use crate::perf::move_options;
use crate::perf::move_options::{NodeOptions, HEADER_SIZE};
use crate::perf::slots;
use crate::perf::slots::Slots;
use core::marker::PhantomData;
use vstd::prelude::*;

verus! {

broadcast use vstd::layout::align_nonzero;

/// Bytes in the block.
pub const CAPACITY: u64 = 0x1_0000_0000;

/// Least number of bytes in a slice.
pub const DEFAULT_SLICE_LEN: u64 = 0x80_0000;

/// Bytes at the start of the block that are never dealt out, so that no handle is zero.
pub const RESERVED: u64 = 4;

/// The block starts at a multiple of this many bytes.
pub const BLOCK_ALIGN: u64 = 4;

/// Number of bytes in the slice that answers a request for `min_size` bytes.
pub open spec fn slice_size(min_size: int) -> int {
    align::larger(min_size, DEFAULT_SLICE_LEN as int)
}

/// Where the block starts, and how much of it has been dealt out.
pub struct BlockView {
    pub base: int,
    pub used: int,
}

impl BlockView {
    /// The block still has room for a slice of at least `min_size` bytes.
    pub open spec fn grants(self, min_size: int) -> bool {
        self.used + slice_size(min_size) <= CAPACITY
    }

    /// Where an arena without a slice stands.
    pub open spec fn start(self) -> Cursor {
        Cursor { base: self.base, offset: RESERVED as int, rem_len: 0 }
    }

    /// The block after a slice of at least `min_size` bytes has been dealt out.
    pub open spec fn after(self, min_size: int) -> BlockView {
        BlockView { base: self.base, used: self.used + slice_size(min_size) }
    }
}

/// A slice has the least number of bytes that is at least what was asked for and at least eight
/// mebibytes, and is dealt out just where it ends inside the four gibibytes of the block.
pub proof fn slices_are_no_larger_than_needed(block: BlockView, min_size: int)
    ensures
        slice_size(min_size) >= min_size,
        slice_size(min_size) >= 0x80_0000,
        slice_size(min_size) == min_size || slice_size(min_size) == 0x80_0000,
        block.grants(min_size) <==> block.used + slice_size(min_size) <= 0x1_0000_0000,
        block.after(min_size).used == block.used + slice_size(min_size),
        block.after(min_size).base == block.base,
{
}

/// Accounts for a block of [`CAPACITY`] bytes.
pub struct ConcurrentArena {
    base: u64,
    used: u64,
}

impl View for ConcurrentArena {
    type V = BlockView;

    closed spec fn view(&self) -> BlockView {
        BlockView { base: self.base as int, used: self.used as int }
    }
}

/// A slice of the block.
#[derive(Clone, Copy, PartialEq, Eq, Debug)]
pub struct SliceGrant {
    pub offset: u64,
    pub len: u64,
}

impl ConcurrentArena {
    /// The block lies in memory, and what has been dealt out lies in the block.
    pub open spec fn wf(self) -> bool {
        &&& self@.base % BLOCK_ALIGN as int == 0
        &&& self@.base + CAPACITY <= u64::MAX
        &&& RESERVED <= self@.used <= CAPACITY
    }

    /// Accounts for a block at the given address, of which nothing has been dealt out.
    pub fn new(base: u64) -> (r: Self)
        requires
            base % BLOCK_ALIGN == 0,
            base + CAPACITY <= u64::MAX,
        ensures
            r.wf(),
            r@ == (BlockView { base: base as int, used: RESERVED as int }),
    {
        ConcurrentArena { base, used: RESERVED }
    }

    /// An arena without a slice, which takes its slices from this block.
    pub fn sub_arena(&self) -> (r: Arena)
        requires
            self.wf(),
        ensures
            r.wf(),
            r.fits(*self),
            r.cursor() == self@.start(),
    {
        Arena { base: self.base, offset: RESERVED, rem_len: 0 }
    }

    /// Whether the block still has room for a slice of at least `min_size` bytes.
    pub fn can_grant(&self, min_size: u64) -> (r: bool)
        requires
            self.wf(),
        ensures
            r == self@.grants(min_size as int),
    {
        let size = if min_size < DEFAULT_SLICE_LEN {
            DEFAULT_SLICE_LEN
        } else {
            min_size
        };
        size <= CAPACITY - self.used
    }

    /// Deals out the next slice of at least `min_size` bytes.
    pub fn alloc_slice(&mut self, min_size: u64) -> (r: SliceGrant)
        requires
            old(self).wf(),
            old(self)@.grants(min_size as int),
        ensures
            final(self).wf(),
            final(self)@ == old(self)@.after(min_size as int),
            r.offset == old(self)@.used,
            r.len == slice_size(min_size as int),
            r.len >= min_size,
    {
        let size = if min_size < DEFAULT_SLICE_LEN {
            DEFAULT_SLICE_LEN
        } else {
            min_size
        };
        let offset = self.used;
        self.used = self.used + size;
        SliceGrant { offset, len: size }
    }

    /// Takes back everything that has been dealt out. Arenas of the block, and the values that they
    /// have placed in it, are not to be used any more.
    pub fn reset(&mut self)
        requires
            old(self).wf(),
        ensures
            final(self).wf(),
            final(self)@ == (BlockView { base: old(self)@.base, used: RESERVED as int }),
    {
        self.used = RESERVED;
    }
}

/// Where an arena stands in its slice of a block.
pub struct Cursor {
    pub base: int,
    pub offset: int,
    pub rem_len: int,
}

impl Cursor {
    /// A request is answered from the slice at hand, at the first place there whose address is
    /// aligned and that leaves room for it, and the block stays as it is, wherever there is such a
    /// place; and at the first aligned place of the block's next slice where there is none.
    pub proof fn requests_take_the_first_place(self, block: BlockView, align: int, len: int)
        requires
            0 < align,
            0 <= len,
            self.base == block.base,
        ensures
            ({
                let place = self.place(block, align, len);
                let after = self.after(block, align, len);
                let end = self.offset + self.rem_len;
                let fits = |p: int|
                    self.offset <= p && (self.base + p) % align == 0 && p + len <= end;
                &&& (exists|p: int| #[trigger] fits(p)) ==> {
                    &&& fits(place)
                    &&& forall|p: int| #[trigger] fits(p) ==> place <= p
                    &&& after.offset + after.rem_len == end
                    &&& self.block_after(block, align, len) == block
                }
                &&& !(exists|p: int| #[trigger] fits(p)) ==> {
                    &&& (self.base + place) % align == 0
                    &&& block.used <= place < block.used + align
                    &&& forall|p: int|
                        block.used <= p && #[trigger] ((block.base + p) % align) == 0 ==> place <= p
                    &&& after.offset + after.rem_len == block.used + slice_size(align + len)
                    &&& self.block_after(block, align, len) == block.after(align + len)
                }
                &&& after.offset == place + len
            }),
    {
        let end = self.offset + self.rem_len;
        let fits = |p: int| self.offset <= p && (self.base + p) % align == 0 && p + len <= end;
        let (at, next) = (self.base + self.offset, block.base + block.used);
        align::gap_is_least(at, align);
        align::gap_is_least(next, align);
        let first = self.offset + align::gap(at, align);
        assert forall|p: int| #[trigger] fits(p) implies first <= p by {
            if p < first {
                let k = p - self.offset;
                assert((at + k) % align != 0);
            }
        }
        if self.has(align, len) {
            assert(fits(first));
        }
        assert forall|p: int|
            block.used <= p && #[trigger] ((block.base + p) % align) == 0 implies block.used
            + align::gap(next, align) <= p by {
            if p < block.used + align::gap(next, align) {
                let k = p - block.used;
                assert((next + k) % align != 0);
            }
        }
    }
}

impl Cursor {
    /// The slice at hand has room for `len` bytes at a multiple of `align`.
    pub open spec fn has(self, align: int, len: int) -> bool {
        align::gap(self.base + self.offset, align) + len <= self.rem_len
    }

    /// The slice in which a request is answered: the one at hand, or else the next.
    pub open spec fn slice_for(self, block: BlockView, align: int, len: int) -> Cursor {
        if self.has(align, len) {
            self
        } else {
            Cursor { base: self.base, offset: block.used, rem_len: slice_size(align + len) }
        }
    }

    /// Offset at which a request is answered.
    pub open spec fn place(self, block: BlockView, align: int, len: int) -> int {
        let slice = self.slice_for(block, align, len);
        slice.offset + align::gap(slice.base + slice.offset, align)
    }

    /// Where the arena stands after a request.
    pub open spec fn after(self, block: BlockView, align: int, len: int) -> Cursor {
        let slice = self.slice_for(block, align, len);
        let taken = align::gap(slice.base + slice.offset, align) + len;
        Cursor {
            base: slice.base,
            offset: slice.offset + taken,
            rem_len: slice.rem_len - taken,
        }
    }

    /// The block after a request.
    pub open spec fn block_after(self, block: BlockView, align: int, len: int) -> BlockView {
        if self.has(align, len) {
            block
        } else {
            block.after(align + len)
        }
    }

    /// A request can be answered inside the block, at an offset that a handle can hold.
    pub open spec fn room(self, block: BlockView, align: int, len: int) -> bool {
        &&& self.has(align, len) || block.grants(align + len)
        &&& self.place(block, align, len) < CAPACITY
    }

    /// The slice at hand was dealt out of the block.
    pub open spec fn lies_in(self, block: BlockView) -> bool {
        &&& self.base == block.base
        &&& 0 <= self.rem_len
        &&& self.offset + self.rem_len <= block.used
    }

    /// The slices at hand of two arenas have no byte in common.
    pub open spec fn is_apart(self, other: Cursor) -> bool {
        self.offset + self.rem_len <= other.offset || other.offset + other.rem_len <= self.offset
    }

    /// No handle among these stands for a place that the block has not dealt out, or that is left
    /// of the slice at hand.
    pub open spec fn is_clear(self, block: BlockView, handles: Set<u32>) -> bool {
        forall|k: u32| #[trigger]
            handles.contains(k) ==> k < block.used && !(self.offset <= k < self.offset
                + self.rem_len)
    }

    /// A request is answered where no handle stands, and leaves the rest of the slice clear.
    pub proof fn requests_stay_clear(
        self,
        block: BlockView,
        align: int,
        len: int,
        handles: Set<u32>,
        fresh: Set<u32>,
    )
        requires
            self.lies_in(block),
            0 < align,
            0 <= len,
            self.is_clear(block, handles),
            forall|k: u32| #[trigger]
                fresh.contains(k) ==> self.place(block, align, len) <= k < self.place(
                    block,
                    align,
                    len,
                ) + len,
        ensures
            forall|k: u32| #[trigger] fresh.contains(k) ==> !handles.contains(k),
            self.after(block, align, len).is_clear(
                self.block_after(block, align, len),
                handles.union(fresh),
            ),
    {
        align::gap_is_least(self.base + self.offset, align);
        align::gap_is_least(self.base + block.used, align);
    }

    /// What an arena has given out leaves clear what was clear: the rest of its own slice, and the
    /// slices of all arenas that were apart from it. `held` are the handles that were in use before,
    /// and `more` those that are in use then.
    pub open spec fn leaves_clear(
        self,
        block: BlockView,
        after: Cursor,
        block_after: BlockView,
        held: Set<u32>,
        more: Set<u32>,
    ) -> bool {
        &&& self.is_clear(block, held) ==> after.is_clear(block_after, more)
        &&& forall|handles: Set<u32>|
            self.is_clear(block, handles) ==> #[trigger] after.is_clear(block_after, handles)
        &&& forall|other: Cursor, handles: Set<u32>|
            other.is_clear(block, handles) ==> #[trigger] other.is_clear(block_after, handles)
        &&& forall|other: Cursor|
            #![trigger other.is_clear(block_after, more)]
            #![trigger other.lies_in(block_after)]
            #![trigger after.is_apart(other)]
            other.lies_in(block) && self.is_apart(other) ==> {
                &&& other.lies_in(block_after)
                &&& after.is_apart(other)
                &&& other.is_clear(block, held) ==> other.is_clear(block_after, more)
            }
    }

    /// A request leaves clear what was clear.
    proof fn requests_leave_clear(
        self,
        block: BlockView,
        align: int,
        len: int,
        held: Set<u32>,
        fresh: Set<u32>,
    )
        requires
            self.lies_in(block),
            0 < align,
            0 <= len,
            forall|k: u32| #[trigger]
                fresh.contains(k) ==> self.place(block, align, len) <= k < self.place(
                    block,
                    align,
                    len,
                ) + len,
        ensures
            self.leaves_clear(
                block,
                self.after(block, align, len),
                self.block_after(block, align, len),
                held,
                held.union(fresh),
            ),
    {
        let after = self.after(block, align, len);
        let block_after = self.block_after(block, align, len);
        let more = held.union(fresh);
        let none = Set::<u32>::empty();
        if self.is_clear(block, held) {
            self.requests_stay_clear(block, align, len, held, fresh);
        }
        assert forall|handles: Set<u32>| self.is_clear(block, handles) implies
            #[trigger] after.is_clear(block_after, handles) by {
            self.requests_stay_clear(block, align, len, handles, none);
            assert(handles.union(none) =~= handles);
        }
        assert(block.used <= block_after.used) by {
        }
        assert forall|other: Cursor|
            #![trigger other.is_clear(block_after, more)]
            #![trigger other.lies_in(block_after)]
            #![trigger after.is_apart(other)]
            other.lies_in(block) && self.is_apart(other) implies {
            &&& other.lies_in(block_after)
            &&& after.is_apart(other)
            &&& other.is_clear(block, held) ==> other.is_clear(block_after, more)
        } by {
            self.arenas_stay_apart(other, block, align, len);
            if other.is_clear(block, held) {
                self.others_stay_clear(other, block, align, len, held, fresh);
            }
        }
    }

    /// What one arena takes leaves the slices of the others clear.
    pub proof fn others_stay_clear(
        self,
        other: Cursor,
        block: BlockView,
        align: int,
        len: int,
        handles: Set<u32>,
        fresh: Set<u32>,
    )
        requires
            self.lies_in(block),
            other.lies_in(block),
            self.is_apart(other),
            0 < align,
            0 <= len,
            other.is_clear(block, handles),
            forall|k: u32| #[trigger]
                fresh.contains(k) ==> self.place(block, align, len) <= k < self.place(
                    block,
                    align,
                    len,
                ) + len,
        ensures
            other.is_clear(self.block_after(block, align, len), handles.union(fresh)),
    {
        align::gap_is_least(self.base + self.offset, align);
        align::gap_is_least(self.base + block.used, align);
    }

    /// A request is answered at a multiple of its alignment, inside the slice, and nothing that is
    /// taken later overlaps it.
    pub proof fn placements_are_aligned_and_apart(
        self,
        block: BlockView,
        align: int,
        len: int,
        next_align: int,
        next_len: int,
    )
        requires
            self.lies_in(block),
            0 < align,
            0 <= len,
            0 < next_align,
            0 <= next_len,
        ensures
            (self.base + self.place(block, align, len)) % align == 0,
            self.slice_for(block, align, len).offset <= self.place(block, align, len),
            self.place(block, align, len) + len == self.after(block, align, len).offset,
            self.after(block, align, len).lies_in(self.block_after(block, align, len)),
            self.place(block, align, len) + len <= self.after(block, align, len).place(
                self.block_after(block, align, len),
                next_align,
                next_len,
            ),
    {
        let after = self.after(block, align, len);
        let block_after = self.block_after(block, align, len);
        align::gap_is_least(self.base + self.offset, align);
        align::gap_is_least(self.base + block.used, align);
        align::gap_is_least(self.base + after.offset, next_align);
        align::gap_is_least(self.base + block_after.used, next_align);
    }

    /// Arenas of one block never take the same byte: as long as their slices are apart, they stay
    /// apart, whichever of them answers a request.
    pub proof fn arenas_stay_apart(self, other: Cursor, block: BlockView, align: int, len: int)
        requires
            self.lies_in(block),
            other.lies_in(block),
            self.is_apart(other),
            0 < align,
            0 <= len,
        ensures
            self.after(block, align, len).is_apart(other),
            other.lies_in(self.block_after(block, align, len)),
    {
        align::gap_is_least(self.base + self.offset, align);
        align::gap_is_least(self.base + block.used, align);
    }
}

/// Number of bytes that `count` values take.
pub open spec fn bytes<T>(count: nat) -> int {
    (count * vstd::layout::size_of::<T>()) as int
}

/// Number of bytes that `count` values take, where they are no more than a block has.
fn byte_len<T>(count: u64) -> (r: Option<u64>)
    ensures
        r matches Some(len) ==> len == bytes::<T>(count as nat) && len <= CAPACITY,
        r is None ==> bytes::<T>(count as nat) > CAPACITY,
{
    match count.checked_mul(core::mem::size_of::<T>() as u64) {
        Some(len) => {
            if len > CAPACITY {
                return None;
            }
            Some(len)
        },
        None => None,
    }
}

/// Values that have a size take at least one byte each.
proof fn bytes_are_many<T>(count: nat)
    ensures
        0 <= bytes::<T>(count),
        vstd::layout::size_of::<T>() == 0 ==> bytes::<T>(count) == 0,
        0 < vstd::layout::size_of::<T>() ==> count <= bytes::<T>(count),
        count == 0 ==> bytes::<T>(count) == 0,
{
    let size = vstd::layout::size_of::<T>();
    assert(0 <= count * size) by (nonlinear_arith)
        requires
            0 <= count,
            0 <= size,
    ;
    if 0 < size {
        assert(count <= count * size) by (nonlinear_arith)
            requires
                1 <= size,
                0 <= count,
        ;
    } else {
        assert(count * size == 0) by (nonlinear_arith)
            requires
                size == 0,
        ;
    }
    if count == 0 {
        assert(count * size == 0) by (nonlinear_arith)
            requires
                count == 0,
        ;
    }
}

/// A single-thread bump allocator.
pub struct Arena {
    base: u64,
    offset: u64,
    rem_len: u64,
}

impl Arena {
    /// Where the arena stands in its slice.
    pub closed spec fn cursor(self) -> Cursor {
        Cursor {
            base: self.base as int,
            offset: self.offset as int,
            rem_len: self.rem_len as int,
        }
    }

    /// The slice lies in the block, behind its first bytes.
    pub closed spec fn wf(self) -> bool {
        &&& RESERVED <= self.offset
        &&& self.offset + self.rem_len <= CAPACITY
        &&& self.base + CAPACITY <= u64::MAX
    }

    /// The slice at hand was dealt out of this block, which has not been reset since.
    pub open spec fn fits(self, block: ConcurrentArena) -> bool {
        self.cursor().lies_in(block@)
    }

    /// No request that is larger than the block can be answered.
    proof fn large_requests_are_refused(self, block: ConcurrentArena, align: int, len: int)
        requires
            self.wf(),
            block.wf(),
            0 < align,
            0 <= len,
            CAPACITY < len,
        ensures
            !self.cursor().room(block@, align, len),
    {
        align::gap_is_least(self.base + self.offset, align);
    }

    /// Whether a request for `len` bytes at a multiple of `align` can be answered.
    pub fn has_room(&self, block: &ConcurrentArena, align: u64, len: u64) -> (r: bool)
        requires
            self.wf(),
            self.fits(*block),
            block.wf(),
            0 < align,
        ensures
            r == self.cursor().room(block@, align as int, len as int),
    {
        proof {
            align::gap_is_least(self.base + self.offset, align as int);
            align::gap_is_least(block@.base + block@.used, align as int);
        }
        let gap = align_gap(self.base + self.offset, align);
        if len <= self.rem_len && gap <= self.rem_len - len {
            return self.offset + gap < CAPACITY;
        }
        if align > CAPACITY || len > CAPACITY || !block.can_grant(align + len) {
            return false;
        }
        block.used + align_gap(block.base + block.used, align) < CAPACITY
    }

    /// Takes `len` bytes at a multiple of `align`, and returns the offset of that place.
    pub fn alloc_raw(&mut self, block: &mut ConcurrentArena, align: u64, len: u64) -> (r: u32)
        requires
            old(self).wf(),
            old(self).fits(*old(block)),
            old(block).wf(),
            0 < align,
            old(self).cursor().room(old(block)@, align as int, len as int),
        ensures
            final(self).wf(),
            final(self).fits(*final(block)),
            final(block).wf(),
            final(self).cursor() == old(self).cursor().after(old(block)@, align as int, len as int),
            final(block)@ == old(self).cursor().block_after(old(block)@, align as int, len as int),
            r == old(self).cursor().place(old(block)@, align as int, len as int),
            (final(block)@.base + r) % align as int == 0,
            RESERVED <= r,
            r + len <= final(block)@.used,
            r + len <= CAPACITY,
    {
        proof {
            align::gap_is_least(self.base + self.offset, align as int);
            align::gap_is_least(block@.base + block@.used, align as int);
        }
        let mut gap = align_gap(self.base + self.offset, align);
        if len > self.rem_len || self.rem_len - len < gap {
            // the slice at hand cannot satisfy this request
            self.refresh_backing_slice(block, align + len);
            gap = align_gap(self.base + self.offset, align);
        }
        let given_offset = self.offset + gap;
        self.offset = self.offset + gap + len;
        self.rem_len = self.rem_len - (gap + len);
        given_offset as u32
    }

    /// Moves on to a new slice of at least `min_size` bytes.
    fn refresh_backing_slice(&mut self, block: &mut ConcurrentArena, min_size: u64)
        requires
            old(self).wf(),
            old(self).fits(*old(block)),
            old(block).wf(),
            old(block)@.grants(min_size as int),
        ensures
            final(self).wf(),
            final(self).fits(*final(block)),
            final(block).wf(),
            final(self).base == old(self).base,
            final(self).offset == old(block)@.used,
            final(self).rem_len == slice_size(min_size as int),
            final(block)@ == old(block)@.after(min_size as int),
    {
        let slice = block.alloc_slice(min_size);
        self.offset = slice.offset;
        self.rem_len = slice.len;
    }

    /// `count` values can be added next to each other, and their number fits into 4 bytes.
    pub open spec fn has_room_for<T>(self, block: ConcurrentArena, count: nat) -> bool {
        &&& self.cursor().room(block@, vstd::layout::align_of::<T>() as int, bytes::<T>(count))
        &&& count <= u32::MAX
    }

    /// Offset of the first of `count` values that are added next to each other.
    pub open spec fn place_for<T>(self, block: ConcurrentArena, count: nat) -> int {
        self.cursor().place(block@, vstd::layout::align_of::<T>() as int, bytes::<T>(count))
    }

    /// Where the arena stands after `count` values have been added.
    pub open spec fn cursor_after<T>(self, block: ConcurrentArena, count: nat) -> Cursor {
        self.cursor().after(block@, vstd::layout::align_of::<T>() as int, bytes::<T>(count))
    }

    /// The block after `count` values have been added.
    pub open spec fn block_after<T>(self, block: ConcurrentArena, count: nat) -> BlockView {
        self.cursor().block_after(block@, vstd::layout::align_of::<T>() as int, bytes::<T>(count))
    }

    /// Whether `count` values can be added next to each other.
    pub fn can_store<T>(&self, block: &ConcurrentArena, count: usize) -> (r: bool)
        requires
            self.wf(),
            self.fits(*block),
            block.wf(),
        ensures
            r == self.has_room_for::<T>(*block, count as nat),
    {
        let align = core::mem::align_of::<T>() as u64;
        proof {
            bytes_are_many::<T>(count as nat);
            if bytes::<T>(count as nat) > CAPACITY {
                self.large_requests_are_refused(*block, align as int, bytes::<T>(count as nat));
            }
        }
        if count as u64 > u32::MAX as u64 {
            return false;
        }
        match byte_len::<T>(count as u64) {
            Some(len) => self.has_room(block, align, len),
            None => false,
        }
    }

    /// Inserts a single element, returns the handle.
    pub fn alloc_one<T>(
        &mut self,
        block: &mut ConcurrentArena,
        values: &mut Values<T>,
        e: T,
    ) -> (r: Handle<T>)
        requires
            old(self).wf(),
            old(self).fits(*old(block)),
            old(block).wf(),
            old(values).wf(),
            old(self).cursor().is_clear(old(block)@, old(values).placed()),
            old(self).has_room_for::<T>(*old(block), 1),
        ensures
            final(self).wf(),
            final(self).fits(*final(block)),
            final(block).wf(),
            final(values).wf(),
            old(self).cursor().leaves_clear(
                old(block)@,
                final(self).cursor(),
                final(block)@,
                old(values).placed(),
                final(values).placed(),
            ),
            final(values).stored(*old(values), r, e),
            r.spec_index() == old(self).place_for::<T>(*old(block), 1),
            (final(block)@.base + r.spec_index()) % vstd::layout::align_of::<T>() as int == 0,
            RESERVED <= r.spec_index(),
            final(self).cursor() == old(self).cursor_after::<T>(*old(block), 1),
            final(block)@ == old(self).block_after::<T>(*old(block), 1),
    {
        let ghost before = *self;
        let ghost block_before = *block;
        let ghost stock = *values;
        let ghost align = vstd::layout::align_of::<T>() as int;
        let ghost sized = 0 < vstd::layout::size_of::<T>();
        proof {
            bytes_are_many::<T>(1);
            if bytes::<T>(1) > CAPACITY {
                self.large_requests_are_refused(*block, align, bytes::<T>(1));
            }
        }
        let len: u64 = match byte_len::<T>(1) {
            Some(len) => len,
            None => 0,
        };
        let index = self.alloc_raw(block, core::mem::align_of::<T>() as u64, len);
        proof {
            let fresh = if sized {
                set![index]
            } else {
                Set::empty()
            };
            before.cursor().requests_leave_clear(
                block_before@,
                align,
                bytes::<T>(1),
                stock.placed(),
                fresh,
            );
            if sized {
                before.cursor().requests_stay_clear(
                    block_before@,
                    align,
                    bytes::<T>(1),
                    stock.placed(),
                    fresh,
                );
                assert(fresh.contains(index));
            }
        }
        values.slots.push(index, e);
        proof {
            if sized {
                assert(values.placed() =~= stock.placed().union(set![index]));
            } else {
                assert(values.placed() =~= stock.placed().union(Set::empty()));
            }
        }
        Handle { index, marker: PhantomData }
    }

    /// Inserts a contiguous sequence of elements, returns the handle.
    pub fn alloc_slice<T>(
        &mut self,
        block: &mut ConcurrentArena,
        values: &mut Values<T>,
        elems: Vec<T>,
    ) -> (r: SliceHandle<T>)
        requires
            old(self).wf(),
            old(self).fits(*old(block)),
            old(block).wf(),
            old(values).wf(),
            old(self).cursor().is_clear(old(block)@, old(values).placed()),
            old(self).has_room_for::<T>(*old(block), elems@.len()),
        ensures
            final(self).wf(),
            final(self).fits(*final(block)),
            final(block).wf(),
            final(values).wf(),
            old(self).cursor().leaves_clear(
                old(block)@,
                final(self).cursor(),
                final(block)@,
                old(values).placed(),
                final(values).placed(),
            ),
            final(values).stored_slice(*old(values), r, elems@),
            r.first() == old(self).place_for::<T>(*old(block), elems@.len()),
            (final(block)@.base + r.first()) % vstd::layout::align_of::<T>() as int == 0,
            RESERVED <= r.first(),
            0 < vstd::layout::size_of::<T>() ==> forall|k: u32| #[trigger]
                r.covers(k) ==> r.first() <= k < final(self).cursor().offset,
            final(self).cursor() == old(self).cursor_after::<T>(*old(block), elems@.len()),
            final(block)@ == old(self).block_after::<T>(*old(block), elems@.len()),
    {
        let ghost given = elems@;
        let ghost before = *self;
        let ghost block_before = *block;
        let ghost stock = *values;
        let ghost align = vstd::layout::align_of::<T>() as int;
        let n = elems.len();
        let ghost len = bytes::<T>(n as nat);
        proof {
            bytes_are_many::<T>(n as nat);
            if len > CAPACITY {
                self.large_requests_are_refused(*block, align, len);
            }
        }
        let taken: u64 = match byte_len::<T>(n as u64) {
            Some(taken) => taken,
            None => 0,
        };
        let index = self.alloc_raw(block, core::mem::align_of::<T>() as u64, taken);
        let r = SliceHandle { index, len: n as u32, marker: PhantomData };
        let ghost fresh = if 0 < vstd::layout::size_of::<T>() {
            Set::new(|k: u32| r.covers(k))
        } else {
            Set::empty()
        };
        proof {
            if 0 < vstd::layout::size_of::<T>() {
                assert forall|i: int| 0 <= i < n implies #[trigger] slots::run_key(
                    index,
                    vstd::layout::size_of::<T>(),
                    i,
                ) <= u32::MAX && index <= slots::run_key(index, vstd::layout::size_of::<T>(), i) < index
                    + len by {
                    run_stays_inside(n as int, vstd::layout::size_of::<T>() as int, i);
                }
            }
            assert forall|k: u32| #[trigger] fresh.contains(k) implies index <= k < index
                + len by {
                if 0 < vstd::layout::size_of::<T>() {
                    r.covers_its_run(k, n as nat);
                    let i = choose|i: int|
                        0 <= i < n && k == #[trigger] slots::run_key(index, vstd::layout::size_of::<T>(), i);
                }
            }
            before.cursor().requests_leave_clear(block_before@, align, len, stock.placed(), fresh);
            if 0 < vstd::layout::size_of::<T>() {
                before.cursor().requests_stay_clear(
                    block_before@,
                    align,
                    len,
                    stock.placed(),
                    fresh,
                );
            }
        }
        values.add_run(r, elems);
        proof {
            assert(values.placed() =~= stock.placed().union(fresh));
            if 0 < vstd::layout::size_of::<T>() {
                assert forall|k: u32| #[trigger] r.covers(k) implies r.first() <= k && k
                    < self.cursor().offset by {
                    assert(fresh.contains(k));
                }
            }
        }
        r
    }
}

/// The keys of a run stay below its end.
proof fn run_stays_inside(n: int, d: int, i: int)
    requires
        0 < d,
        0 <= i < n,
    ensures
        0 <= i * d,
        i * d + d <= n * d,
{
    assert(0 <= i * d && i * d + d <= n * d) by (nonlinear_arith)
        requires
            0 <= i < n,
            0 < d,
    ;
}

/// 4 byte offset into a block, between [`RESERVED`] and [`u32::MAX`].
#[derive(Hash)]
pub struct Handle<T> {
    index: u32,
    marker: PhantomData<T>,
}

/// The handles of values that stand next to each other.
pub struct SliceHandle<T> {
    index: u32,
    len: u32,
    marker: PhantomData<T>,
}

impl<T> Handle<T> {
    /// The offset.
    pub closed spec fn spec_index(self) -> u32 {
        self.index
    }
}

impl<T> SliceHandle<T> {
    /// Handle of the first value.
    pub closed spec fn first(self) -> u32 {
        self.index
    }

    /// Number of values.
    pub closed spec fn spec_len(self) -> nat {
        self.len as nat
    }

    /// Handle of value number `i`.
    pub open spec fn key(self, i: int) -> u32 {
        slots::run_key(self.first(), vstd::layout::size_of::<T>(), i) as u32
    }

    /// Some value of the slice has this handle.
    pub open spec fn covers(self, k: u32) -> bool {
        exists|i: int| 0 <= i < self.spec_len() && k == #[trigger] self.key(i)
    }

    /// All values without size have the same handle.
    proof fn covers_one_handle(self, k: u32)
        requires
            vstd::layout::size_of::<T>() == 0,
        ensures
            self.covers(k) <==> 0 < self.spec_len() && k == self.first(),
    {
        assert forall|i: int| #[trigger] self.key(i) == self.first() by {
            assert(i * vstd::layout::size_of::<T>() == 0) by (nonlinear_arith)
                requires
                    vstd::layout::size_of::<T>() == 0,
            ;
        }
        if 0 < self.spec_len() {
            assert(self.key(0) == self.first());
        }
    }

    /// All handles of the slice fit into 4 bytes.
    pub open spec fn wf(self) -> bool {
        forall|i: int|
            0 <= i < self.spec_len() ==> #[trigger] slots::run_key(
                self.first(),
                vstd::layout::size_of::<T>(),
                i,
            ) <= u32::MAX
    }

    /// A slice whose handles fit into 4 bytes covers the keys of its run.
    proof fn covers_its_run(self, k: u32, n: nat)
        requires
            0 < vstd::layout::size_of::<T>(),
            self.spec_len() == n,
            forall|i: int|
                0 <= i < n ==> #[trigger] slots::run_key(self.first(), vstd::layout::size_of::<T>(), i)
                    <= u32::MAX,
        ensures
            self.covers(k) <==> slots::is_run_key(self.first(), vstd::layout::size_of::<T>(), n, k),
    {
        let d = vstd::layout::size_of::<T>();
        if self.covers(k) {
            let i = choose|i: int| 0 <= i < self.spec_len() && k == #[trigger] self.key(i);
            run_key_is_natural(self.first(), d, i);
            assert(k == slots::run_key(self.first(), d, i));
        }
        if slots::is_run_key(self.first(), d, n, k) {
            let i = choose|i: int| 0 <= i < n && k == #[trigger] slots::run_key(self.first(), d, i);
            assert(k == self.key(i));
        }
    }
}

/// Keys of a run are not negative.
proof fn run_key_is_natural(first: u32, d: nat, i: int)
    requires
        0 <= i,
    ensures
        0 <= slots::run_key(first, d, i),
{
    assert(0 <= i * d) by (nonlinear_arith)
        requires
            0 <= i,
            0 <= d,
    ;
}

/// The values of one type that lie in a block, by their handles. All arenas of the block may add to
/// them. They live as long as this does.
pub struct Values<T> {
    slots: Slots<T>,
}

impl<T> View for Values<T> {
    type V = Map<u32, T>;

    closed spec fn view(&self) -> Map<u32, T> {
        self.slots@
    }
}

impl<T> Values<T> {
    /// No handle stands for two values.
    pub closed spec fn wf(self) -> bool {
        self.slots.wf()
    }

    /// Number of values that have been added.
    pub closed spec fn count(self) -> nat {
        self.slots.count()
    }

    /// Handles whose places are taken. Values without size take none.
    pub open spec fn placed(self) -> Set<u32> {
        if 0 < vstd::layout::size_of::<T>() {
            self@.dom()
        } else {
            Set::empty()
        }
    }

    /// Every value of `before` has kept its handle.
    pub closed spec fn grown_from(self, before: Self) -> bool {
        self.slots.grown_from(before.slots)
    }

    /// Every value of `before` has kept its handle, and is what it was.
    pub closed spec fn extends(self, before: Self) -> bool {
        self.slots.grown_from(before.slots) && self.slots.keeps_values(before.slots)
    }

    /// Every value of a slice is there. Values without size cannot be told apart: it is enough that
    /// there are as many.
    pub closed spec fn holds_slice(self, s: SliceHandle<T>) -> bool {
        if vstd::layout::size_of::<T>() == 0 {
            s.spec_len() <= self.slots.count()
        } else {
            self.slots.holds_run(s.first(), vstd::layout::size_of::<T>(), s.spec_len())
        }
    }

    /// The values of a slice.
    pub closed spec fn slice(self, s: SliceHandle<T>) -> Seq<T> {
        if vstd::layout::size_of::<T>() == 0 {
            self.slots.some_run(s.first(), s.spec_len())
        } else {
            self.slots.run(s.first(), s.spec_len())
        }
    }

    /// A value has been added. Its handle was not in use, unless the value has no size; then it takes
    /// the place of the value before.
    pub open spec fn stored(self, before: Self, h: Handle<T>, e: T) -> bool {
        &&& self@ == before@.insert(h.spec_index(), e)
        &&& self.count() == before.count() + 1
        &&& 0 < vstd::layout::size_of::<T>() ==> !before@.contains_key(h.spec_index())
            && self.extends(before)
    }

    /// The values of a slice have been added. Their handles were not in use, unless the values have
    /// no size; then they take the place of the values before.
    pub open spec fn stored_slice(self, before: Self, s: SliceHandle<T>, elems: Seq<T>) -> bool {
        &&& s.spec_len() == elems.len()
        &&& self.holds_slice(s)
        &&& self.slice(s) == elems
        &&& self.count() == before.count() + elems.len()
        &&& forall|k: u32| #[trigger]
            self@.contains_key(k) <==> before@.contains_key(k) || s.covers(k)
        &&& forall|k: u32|
            #![trigger before@.contains_key(k)]
            #![trigger self@[k]]
            before@.contains_key(k) && !s.covers(k) ==> self@[k] == before@[k]
        &&& vstd::layout::size_of::<T>() == 0 && 0 < elems.len() ==> self@[s.first()] == elems[0]
        &&& 0 < vstd::layout::size_of::<T>() ==> self.extends(before) && forall|k: u32| #[trigger]
            before@.contains_key(k) ==> !s.covers(k)
    }

    /// No values.
    pub fn new() -> (r: Self)
        ensures
            r.wf(),
            r@ == Map::<u32, T>::empty(),
            r.count() == 0,
    {
        Values { slots: Slots::new() }
    }

    /// Adds the values of a slice.
    fn add_run(&mut self, s: SliceHandle<T>, elems: Vec<T>)
        requires
            old(self).wf(),
            s.spec_len() == elems@.len(),
            0 < vstd::layout::size_of::<T>() ==> s.wf(),
            0 < vstd::layout::size_of::<T>() ==> forall|k: u32| #[trigger]
                s.covers(k) ==> !old(self)@.contains_key(k),
        ensures
            final(self).wf(),
            final(self).stored_slice(*old(self), s, elems@),
    {
        let ghost before = *self;
        let ghost n = elems@.len();
        if elems.len() == 0 {
            proof {
                self.slots.growth_is_reflexive();
                self.slots.empty_runs_are_held(s.first(), vstd::layout::size_of::<T>());
                assert forall|k: u32| !s.covers(k) by {}
                assert(self.slice(s) =~= elems@);
            }
            return;
        }
        if core::mem::size_of::<T>() > 0 {
            proof {
                bytes_are_many::<T>(n);
                assert forall|i: int| 0 <= i < n implies {
                    &&& #[trigger] slots::run_key(s.first(), vstd::layout::size_of::<T>(), i) <= u32::MAX
                    &&& !before@.contains_key(slots::run_key(s.first(), vstd::layout::size_of::<T>(), i) as u32)
                } by {
                    let k = slots::run_key(s.first(), vstd::layout::size_of::<T>(), i) as u32;
                    assert(k == s.key(i));
                    assert(s.covers(k));
                }
            }
            self.slots.push_run(s.index, core::mem::size_of::<T>() as u64, elems);
            proof {
                assert forall|k: u32| #[trigger] self@.contains_key(k) <==> before@.contains_key(k)
                    || s.covers(k) by {
                    s.covers_its_run(k, n);
                }
            }
        } else {
            proof {
                s.covers_one_handle(s.first());
            }
            self.slots.push_block(s.index, elems);
            proof {
                self.slots.a_run_is_some_run(s.first(), 0, n);
                assert forall|k: u32| s.covers(k) <==> k == s.first() by {
                    s.covers_one_handle(k);
                }
            }
        }
    }

    /// Slices are not lost as values are added.
    pub proof fn slices_stay(self, before: Self, s: SliceHandle<T>)
        requires
            0 < vstd::layout::size_of::<T>(),
            self.grown_from(before),
            before.holds_slice(s),
        ensures
            self.holds_slice(s),
    {
        self.slots.runs_stay(before.slots, s.first(), vstd::layout::size_of::<T>(), s.spec_len());
    }

    /// A slice of values without size is there where as many of them are.
    pub proof fn slices_without_size_are_there(self, s: SliceHandle<T>)
        requires
            vstd::layout::size_of::<T>() == 0,
        ensures
            self.holds_slice(s) <==> s.spec_len() <= self.count(),
    {
    }

    /// A slice reads the same where its values have been kept.
    pub proof fn slice_reads_the_same(self, before: Self, s: SliceHandle<T>)
        requires
            0 < vstd::layout::size_of::<T>(),
            before.holds_slice(s),
            self.extends(before),
        ensures
            self.holds_slice(s),
            self.slice(s) == before.slice(s),
    {
        self.slices_stay(before, s);
        self.slots.runs_read_the_same(before.slots, s.first(), vstd::layout::size_of::<T>(), s.spec_len());
    }

    /// Growth is transitive.
    pub proof fn growth_adds_up(self, middle: Self, before: Self)
        requires
            self.grown_from(middle),
            middle.grown_from(before),
        ensures
            self.grown_from(before),
            self.extends(middle) && middle.extends(before) ==> self.extends(before),
    {
        self.slots.growth_adds_up(middle.slots, before.slots);
    }

    /// Growth leaves out nothing.
    pub proof fn growth_is_reflexive(self)
        ensures
            self.grown_from(self),
            self.extends(self),
    {
        self.slots.growth_is_reflexive();
    }

    /// Keeping values is growing.
    pub proof fn extension_is_growth(self, before: Self)
        requires
            before.wf(),
            self.extends(before),
        ensures
            self.grown_from(before),
            forall|k: u32| #[trigger]
                before@.contains_key(k) ==> self@.contains_key(k) && self@[k] == before@[k],
    {
        self.slots.keys_read_the_same(before.slots);
    }

    /// The values of a slice that is held stand under its handles, where
    /// they have a size.
    pub proof fn slice_is_held(self, s: SliceHandle<T>)
        requires
            self.wf(),
            0 < vstd::layout::size_of::<T>(),
            self.holds_slice(s),
        ensures
            s.wf(),
            self.slice(s).len() == s.spec_len(),
            forall|i: int|
                0 <= i < s.spec_len() ==> #[trigger] self@.contains_key(s.key(i)) && s.key(i)
                    == s.first() + i * vstd::layout::size_of::<T>() && self@[s.key(i)] == self.slice(s)[i],
    {
        self.slots.run_is_held(s.first(), vstd::layout::size_of::<T>(), s.spec_len());
        assert forall|i: int| 0 <= i < s.spec_len() implies #[trigger] self@.contains_key(s.key(i))
            && s.key(i) == s.first() + i * vstd::layout::size_of::<T>() && self@[s.key(i)] == self.slice(s)[i] by {
            let k = slots::run_key(s.first(), vstd::layout::size_of::<T>(), i);
            assert(0 <= k <= u32::MAX);
        }
    }

    /// Gives access to a value, to change it in place.
    pub fn resolve_mut(&mut self, h: Handle<T>) -> (r: &mut T)
        requires
            old(self).wf(),
            old(self)@.contains_key(h.spec_index()),
        ensures
            *r == old(self)@[h.spec_index()],
            final(self).wf(),
            final(self)@ == old(self)@.insert(h.spec_index(), *final(r)),
            final(self).grown_from(*old(self)),
            final(self).count() == old(self).count(),
    {
        self.slots.get_mut(h.index)
    }

    /// A value that was stored reads back under its handle, and every other handle reads what it
    /// read before.
    pub proof fn stored_values_read_back(self, before: Self, h: Handle<T>, e: T)
        requires
            self.stored(before, h, e),
        ensures
            self@.contains_key(h.spec_index()),
            self@[h.spec_index()] == e,
            forall|k: u32| #[trigger]
                before@.contains_key(k) && k != h.spec_index() ==> self@.contains_key(k) && self@[k]
                    == before@[k],
            0 < vstd::layout::size_of::<T>() ==> !before@.contains_key(h.spec_index()),
    {
    }

    /// The values of a slice that was stored read back, each under its own handle where they
    /// have a size, and every other handle reads what it read before.
    pub proof fn stored_slices_read_back(self, before: Self, s: SliceHandle<T>, elems: Seq<T>)
        requires
            self.wf(),
            self.stored_slice(before, s, elems),
        ensures
            self.slice(s) == elems,
            0 < vstd::layout::size_of::<T>() ==> s.wf(),
            0 < vstd::layout::size_of::<T>() ==> forall|i: int, j: int|
                0 <= i < j < elems.len() ==> #[trigger] s.key(i) < #[trigger] s.key(j),
            0 < vstd::layout::size_of::<T>() ==> forall|i: int|
                0 <= i < elems.len() ==> self@.contains_key(#[trigger] s.key(i)) && self@[s.key(i)]
                    == elems[i],
            forall|k: u32| #[trigger]
                before@.contains_key(k) && !s.covers(k) ==> self@.contains_key(k) && self@[k]
                    == before@[k],
            0 < vstd::layout::size_of::<T>() ==> forall|k: u32| #[trigger]
                before@.contains_key(k) ==> !s.covers(k),
    {
        if 0 < vstd::layout::size_of::<T>() {
            self.slice_is_held(s);
            bytes_are_many::<T>(1);
            let d = vstd::layout::size_of::<T>();
            assert forall|i: int| 0 <= i < elems.len() implies self@.contains_key(
                #[trigger] s.key(i),
            ) && self@[s.key(i)] == elems[i] by {
                assert(self@.contains_key(s.key(i)));
            }
            assert forall|i: int, j: int| 0 <= i < j < elems.len() implies #[trigger] s.key(i)
                < #[trigger] s.key(j) by {
                assert(self@.contains_key(s.key(i)) && self@.contains_key(s.key(j)));
                assert(i * d < j * d) by (nonlinear_arith)
                    requires
                        0 <= i < j,
                        0 < d,
                ;
            }
        }
    }
}

impl<T> Clone for Handle<T> {
    fn clone(&self) -> (r: Self)
        ensures
            r == *self,
    {
        Handle { index: self.index, marker: self.marker }
    }
}

impl<T> Copy for Handle<T> {

}

impl<T> Clone for SliceHandle<T> {
    fn clone(&self) -> (r: Self)
        ensures
            r == *self,
    {
        SliceHandle { index: self.index, len: self.len, marker: self.marker }
    }
}

impl<T> Copy for SliceHandle<T> {

}

impl<T> PartialEq for Handle<T> {
    fn eq(&self, other: &Self) -> (r: bool) {
        self.index == other.index
    }
}

impl<T> vstd::std_specs::cmp::PartialEqSpecImpl for Handle<T> {
    open spec fn obeys_eq_spec() -> bool {
        true
    }

    open spec fn eq_spec(&self, other: &Self) -> bool {
        self.spec_index() == other.spec_index()
    }
}

impl<T> Eq for Handle<T> {

}

impl<T> Handle<T> {
    /// The value that the handle stands for, whichever arena of the block made it.
    pub fn resolve<'a>(&self, values: &'a Values<T>) -> (r: &'a T)
        requires
            values.wf(),
            values@.contains_key(self.spec_index()),
        ensures
            *r == values@[self.spec_index()],
    {
        values.slots.get(self.index)
    }

    /// The offset.
    pub fn index(&self) -> (r: u32)
        ensures
            r == self.spec_index(),
    {
        self.index
    }
}

impl<T> SliceHandle<T> {
    /// The values that the handle stands for, whichever arena of the block made it.
    pub fn resolve<'a>(&self, values: &'a Values<T>) -> (r: &'a [T])
        requires
            values.wf(),
            values.holds_slice(*self),
        ensures
            r@ == values.slice(*self),
    {
        if core::mem::size_of::<T>() == 0 {
            values.slots.get_some_run(self.index, self.len as usize)
        } else {
            values.slots.get_run(
                self.index,
                Ghost(vstd::layout::size_of::<T>()),
                self.len as usize,
            )
        }
    }

    /// Number of values.
    pub fn len(&self) -> (r: usize)
        ensures
            r == self.spec_len(),
    {
        self.len as usize
    }

    /// The handle of each value, in order.
    pub fn iter(&self) -> (r: Vec<Handle<T>>)
        requires
            self.wf(),
        ensures
            r@.len() == self.spec_len(),
            forall|i: int|
                0 <= i < r@.len() ==> (#[trigger] r@[i]).spec_index() == self.first() + i
                    * vstd::layout::size_of::<T>(),
    {
        let mut r: Vec<Handle<T>> = Vec::new();
        let size = core::mem::size_of::<T>() as u64;
        let mut key: u128 = self.index as u128;
        let mut i: u32 = 0;
        while i < self.len
            invariant
                self.wf(),
                i <= self.len,
                r@.len() == i,
                size == vstd::layout::size_of::<T>(),
                key == self.index + i * size,
                i < self.len ==> key <= u32::MAX,
                forall|k: int|
                    0 <= k < i ==> (#[trigger] r@[k]).spec_index() == self.first() + k
                        * vstd::layout::size_of::<T>(),
            decreases self.len - i,
        {
            r.push(Handle { index: key as u32, marker: PhantomData });
            proof {
                let n = i + 1;
                assert(n * size == i * size + size) by (nonlinear_arith)
                    requires
                        n == i + 1,
                ;
                if n < self.len {
                    assert(slots::run_key(self.first(), vstd::layout::size_of::<T>(), n)
                        <= u32::MAX);
                }
            }
            i = i + 1;
            key = key + size as u128;
        }
        r
    }
}

/// 4 byte offset of a block of options.
pub struct NodeOptionsHandle<T> {
    index: u32,
    marker: PhantomData<T>,
}

impl<T> Clone for NodeOptionsHandle<T> {
    fn clone(&self) -> (r: Self)
        ensures
            r == *self,
    {
        NodeOptionsHandle { index: self.index, marker: self.marker }
    }
}

impl<T> Copy for NodeOptionsHandle<T> {

}

impl<T> NodeOptionsHandle<T> {
    /// The offset.
    pub closed spec fn spec_index(self) -> u32 {
        self.index
    }

    /// The block that the handle stands for, whichever arena of the block made it.
    pub fn resolve<'a>(&self, values: &'a Values<NodeOptions<T>>) -> (r: &'a NodeOptions<T>)
        requires
            values.wf(),
            values@.contains_key(self.spec_index()),
        ensures
            *r == values@[self.spec_index()],
    {
        values.slots.get(self.index)
    }
}

impl<T> Values<NodeOptions<T>> {
    /// A block has been added under a handle that was not in use.
    pub open spec fn stored_options(
        self,
        before: Self,
        h: NodeOptionsHandle<T>,
        options: NodeOptions<T>,
    ) -> bool {
        &&& !before@.contains_key(h.spec_index())
        &&& self@ == before@.insert(h.spec_index(), options)
        &&& self.extends(before)
    }

    /// Gives access to a block, to change it in place.
    pub fn options_mut(&mut self, h: NodeOptionsHandle<T>) -> (r: &mut NodeOptions<T>)
        requires
            old(self).wf(),
            old(self)@.contains_key(h.spec_index()),
        ensures
            *r == old(self)@[h.spec_index()],
            final(self).wf(),
            final(self)@ == old(self)@.insert(h.spec_index(), *final(r)),
            final(self).grown_from(*old(self)),
    {
        self.slots.get_mut(h.index)
    }
}

impl Arena {
    /// A block of `count` options can be added.
    pub open spec fn has_room_for_options<T>(self, block: ConcurrentArena, count: nat) -> bool {
        self.cursor().room(
            block@,
            vstd::layout::align_of::<T>() as int,
            move_options::block_len::<T>(count),
        )
    }

    /// Whether a block of `count` options can be added.
    pub fn can_store_options<T>(&self, block: &ConcurrentArena, count: u16) -> (r: bool)
        requires
            self.wf(),
            self.fits(*block),
            block.wf(),
        ensures
            r == self.has_room_for_options::<T>(*block, count as nat),
    {
        broadcast use vstd::layout::align_properties;

        let size = core::mem::size_of::<T>() as u64;
        let align = core::mem::align_of::<T>() as u64;
        proof {
            align::power_of_two_parity(align as int);
            align::gap_is_least(2, align as int);
            align::gap_is_least(self.cursor().base + self.cursor().offset, align as int);
            align::gap_is_least(self.cursor().base + block@.used, align as int);
            assert(0 <= size * count) by (nonlinear_arith)
                requires
                    0 <= size,
                    0 <= count,
            ;
        }
        if align > CAPACITY {
            proof {
                vstd::arithmetic::div_mod::lemma_small_mod(2, align as nat);
            }
            return false;
        }
        match size.checked_mul(count as u64) {
            Some(data) => {
                let header = next_multiple_of(HEADER_SIZE, align);
                if data > CAPACITY {
                    return false;
                }
                self.has_room(block, align, header + data)
            },
            None => false,
        }
    }

    /// Makes a value of every option, and stores them in one block of options.
    pub fn alloc_node_options<T, F: FnMut(MoveChoice) -> T>(
        &mut self,
        block: &mut ConcurrentArena,
        values: &mut Values<NodeOptions<T>>,
        s1: &[MoveChoice],
        s2: &[MoveChoice],
        ctor: F,
    ) -> (r: NodeOptionsHandle<T>)
        requires
            old(self).wf(),
            old(self).fits(*old(block)),
            old(block).wf(),
            old(values).wf(),
            old(self).cursor().is_clear(old(block)@, old(values)@.dom()),
            s1@.len() <= 255,
            s2@.len() <= 255,
            forall|m: MoveChoice| call_requires(ctor, (m,)),
            old(self).has_room_for_options::<T>(*old(block), s1@.len() + s2@.len()),
        ensures
            final(self).wf(),
            final(self).fits(*final(block)),
            final(block).wf(),
            final(values).wf(),
            old(self).cursor().leaves_clear(
                old(block)@,
                final(self).cursor(),
                final(block)@,
                old(values)@.dom(),
                final(values)@.dom(),
            ),
            final(values)@.contains_key(r.spec_index()),
            final(values).stored_options(*old(values), r, final(values)@[r.spec_index()]),
            final(values)@[r.spec_index()].wf(),
            final(values)@[r.spec_index()].made_from(s1@, s2@, ctor),
            RESERVED <= r.spec_index(),
            r.spec_index() == old(self).cursor().place(
                old(block)@,
                vstd::layout::align_of::<T>() as int,
                move_options::block_len::<T>(s1@.len() + s2@.len()),
            ),
            (final(block)@.base + r.spec_index()) % vstd::layout::align_of::<T>() as int == 0,
            final(self).cursor() == old(self).cursor().after(
                old(block)@,
                vstd::layout::align_of::<T>() as int,
                move_options::block_len::<T>(s1@.len() + s2@.len()),
            ),
            final(block)@ == old(self).cursor().block_after(
                old(block)@,
                vstd::layout::align_of::<T>() as int,
                move_options::block_len::<T>(s1@.len() + s2@.len()),
            ),
    {
        let count: u64 = s1.len() as u64 + s2.len() as u64;
        let align = core::mem::align_of::<T>() as u64;
        let size = core::mem::size_of::<T>() as u64;
        let ghost before = *self;
        let ghost block_before = *block;
        let ghost held = values@.dom();
        proof {
            align::gap_is_least(2, align as int);
            align::gap_is_least(self.cursor().base + self.cursor().offset, align as int);
            align::gap_is_least(self.cursor().base + block@.used, align as int);
            assert(0 <= size * count) by (nonlinear_arith)
                requires
                    0 <= size,
                    0 <= count,
            ;
        }
        let options = NodeOptions::new(s1, s2, ctor);
        let len = next_multiple_of(HEADER_SIZE, align) + size * count;
        let index = self.alloc_raw(block, align, len);
        proof {
            before.cursor().requests_stay_clear(
                block_before@,
                align as int,
                len as int,
                held,
                set![index],
            );
            before.cursor().requests_leave_clear(
                block_before@,
                align as int,
                len as int,
                held,
                set![index],
            );
            assert(set![index].contains(index));
        }
        values.slots.push(index, options);
        assert(values@.dom() =~= held.union(set![index]));
        NodeOptionsHandle { index, marker: PhantomData }
    }
}

impl BlockView {
    /// A slice that is dealt out starts where the one before it ended, so no two of them overlap.
    pub proof fn slices_do_not_overlap(self, first: int, second: int)
        ensures
            self.used + slice_size(first) == self.after(first).used,
            self.after(first).used + slice_size(second) == self.after(first).after(second).used,
    {
    }
}

/// What an arena of a block can be asked for.
pub enum Request {
    /// The block hands out another arena.
    Open,
    /// Arena number `arena` takes `len` bytes at a multiple of `align`.
    Take { arena: int, align: int, len: int },
}

/// A range of bytes that was given out.
pub struct Range {
    pub offset: int,
    pub len: int,
    pub align: int,
}

impl Range {
    /// The ranges have no byte in common.
    pub open spec fn is_apart(self, other: Range) -> bool {
        self.offset + self.len <= other.offset || other.offset + other.len <= self.offset
    }

    /// No byte of the range is left of the slice at hand of an arena.
    pub open spec fn is_clear_of(self, cursor: Cursor) -> bool {
        self.offset + self.len <= cursor.offset || cursor.offset + cursor.rem_len <= self.offset
    }
}

/// A block, its arenas, and all that they have given out.
pub struct Dealings {
    pub block: BlockView,
    pub arenas: Seq<Cursor>,
    pub given: Seq<Range>,
}

impl Dealings {
    /// A block without arenas.
    pub open spec fn begin(block: BlockView) -> Self {
        Dealings { block, arenas: Seq::empty(), given: Seq::empty() }
    }

    /// The request can be answered.
    pub open spec fn admits(self, request: Request) -> bool {
        match request {
            Request::Open => true,
            Request::Take { arena, align, len } => {
                &&& 0 <= arena < self.arenas.len()
                &&& 0 < align
                &&& 0 <= len
                &&& self.arenas[arena].room(self.block, align, len)
            },
        }
    }

    /// What a request leads to.
    pub open spec fn after(self, request: Request) -> Self {
        match request {
            Request::Open => Dealings { arenas: self.arenas.push(self.block.start()), ..self },
            Request::Take { arena, align, len } => {
                let cursor = self.arenas[arena];
                Dealings {
                    block: cursor.block_after(self.block, align, len),
                    arenas: self.arenas.update(arena, cursor.after(self.block, align, len)),
                    given: self.given.push(
                        Range { offset: cursor.place(self.block, align, len), len, align },
                    ),
                }
            },
        }
    }

    /// All of these requests can be answered, one after the other.
    pub open spec fn admits_all(self, requests: Seq<Request>) -> bool
        decreases requests.len(),
    {
        requests.len() == 0 || (self.admits_all(requests.drop_last()) && self.after_all(
            requests.drop_last(),
        ).admits(requests.last()))
    }

    /// What requests lead to, one after the other.
    pub open spec fn after_all(self, requests: Seq<Request>) -> Self
        decreases requests.len(),
    {
        if requests.len() == 0 {
            self
        } else {
            self.after_all(requests.drop_last()).after(requests.last())
        }
    }

    /// No two ranges or slices share a byte, and all lie in what has been dealt out.
    spec fn in_order(self) -> bool {
        &&& RESERVED <= self.block.used <= CAPACITY
        &&& forall|i: int|
            0 <= i < self.arenas.len() ==> (#[trigger] self.arenas[i]).lies_in(self.block)
                && RESERVED <= self.arenas[i].offset
        &&& forall|i: int, j: int|
            0 <= i < j < self.arenas.len() ==> (#[trigger] self.arenas[i]).is_apart(
                #[trigger] self.arenas[j],
            )
        &&& forall|g: int|
            0 <= g < self.given.len() ==> {
                let r = #[trigger] self.given[g];
                &&& 0 < r.align
                &&& (self.block.base + r.offset) % r.align == 0
                &&& RESERVED <= r.offset
                &&& 0 <= r.len
                &&& r.offset + r.len <= self.block.used
            }
        &&& forall|g: int, i: int|
            0 <= g < self.given.len() && 0 <= i < self.arenas.len() ==> (
            #[trigger] self.given[g]).is_clear_of(#[trigger] self.arenas[i])
        &&& forall|f: int, g: int|
            0 <= f < g < self.given.len() ==> (#[trigger] self.given[f]).is_apart(
                #[trigger] self.given[g],
            )
    }

    /// Requests keep the dealings in order.
    proof fn stays_in_order(self, request: Request)
        requires
            self.in_order(),
            self.admits(request),
        ensures
            self.after(request).in_order(),
            self.after(request).block.base == self.block.base,
    {
        let after = self.after(request);
        match request {
            Request::Open => {
                assert(after.in_order());
            },
            Request::Take { arena, align, len } => {
                let cursor = self.arenas[arena];
                align::gap_is_least(cursor.base + cursor.offset, align);
                align::gap_is_least(cursor.base + self.block.used, align);
                assert forall|i: int, j: int| 0 <= i < j < after.arenas.len() implies (
                #[trigger] after.arenas[i]).is_apart(#[trigger] after.arenas[j]) by {
                    let _ = self.arenas[i];
                    let _ = self.arenas[j];
                }
                let n = self.given.len() as int;
                assert forall|g: int, i: int|
                    0 <= g < after.given.len() && 0 <= i < after.arenas.len() implies (
                #[trigger] after.given[g]).is_clear_of(#[trigger] after.arenas[i]) by {
                    let _ = self.arenas[i];
                    if g < n {
                        let _ = self.given[g];
                    } else if i < arena {
                        assert(self.arenas[i].is_apart(self.arenas[arena]));
                    } else if arena < i {
                        assert(self.arenas[arena].is_apart(self.arenas[i]));
                    }
                }
                assert forall|f: int, g: int| 0 <= f < g < after.given.len() implies (
                #[trigger] after.given[f]).is_apart(#[trigger] after.given[g]) by {
                    let _ = self.given[f];
                    if g == n {
                        assert(self.given[f].is_clear_of(self.arenas[arena]));
                    }
                }
                assert(after.in_order());
            },
        }
    }

    /// All requests together keep the dealings in order.
    proof fn all_stay_in_order(self, requests: Seq<Request>)
        requires
            self.in_order(),
            self.admits_all(requests),
        ensures
            self.after_all(requests).in_order(),
            self.after_all(requests).block.base == self.block.base,
        decreases requests.len(),
    {
        if requests.len() > 0 {
            self.all_stay_in_order(requests.drop_last());
            self.after_all(requests.drop_last()).stays_in_order(requests.last());
        }
    }
}

/// Whatever the arenas of a block are asked for, and in whichever order, since the block was made or
/// reset: no two ranges that they give out have a byte in common, and each is aligned as asked and
/// lies in the block, behind its first bytes.
pub proof fn ranges_never_overlap(block: BlockView, requests: Seq<Request>)
    requires
        block.used == RESERVED,
        Dealings::begin(block).admits_all(requests),
    ensures
        ({
            let given = Dealings::begin(block).after_all(requests).given;
            &&& forall|g: int|
                0 <= g < given.len() ==> {
                    let r = #[trigger] given[g];
                    &&& (block.base + r.offset) % r.align == 0
                    &&& RESERVED <= r.offset
                    &&& r.offset + r.len <= CAPACITY
                }
            &&& forall|f: int, g: int|
                0 <= f < g < given.len() ==> (#[trigger] given[f]).is_apart(#[trigger] given[g])
        }),
{
    let start = Dealings::begin(block);
    assert(start.in_order());
    start.all_stay_in_order(requests);
}

} // verus!
