//! The options of both sides, in one block with two sections.

use crate::engine::MoveChoice;
use vstd::prelude::*;

verus! {

/// Size of the two lengths that a block starts with.
pub const HEADER_SIZE: u64 = 2;

/// Where the values of a block start.
pub open spec fn data_offset<T>() -> int {
    crate::perf::align::round_up(HEADER_SIZE as int, vstd::layout::align_of::<T>() as int)
}

/// Number of bytes in a block of `count` values.
pub open spec fn block_len<T>(count: nat) -> int {
    data_offset::<T>() + vstd::layout::size_of::<T>() * count
}

/// The values of a block stand behind the two bytes of its lengths, at the first place that is
/// aligned for them, one next to the other up to the end of the block.
pub proof fn blocks_hold_their_values<T>(count: nat)
    ensures
        ({
            let (size, align) = (
                vstd::layout::size_of::<T>() as int,
                vstd::layout::align_of::<T>() as int,
            );
            &&& 2 <= data_offset::<T>() < 2 + align
            &&& data_offset::<T>() % align == 0
            &&& forall|p: int| 2 <= p && #[trigger] (p % align) == 0 ==> data_offset::<T>() <= p
            &&& block_len::<T>(count) - data_offset::<T>() == size * count
        }),
{
    broadcast use vstd::layout::align_nonzero;

    let align = vstd::layout::align_of::<T>() as int;
    crate::perf::align::gap_is_least(2, align);
    assert forall|p: int| 2 <= p && #[trigger] (p % align) == 0 implies data_offset::<T>() <= p by {
        if p < data_offset::<T>() {
            let k = p - 2;
            assert((2 + k) % align != 0);
        }
    }
}

/// One value for each option of side one, then one for each option of side two.
#[derive(Debug)]
pub struct NodeOptions<T> {
    len_s1: u8,
    data: Vec<T>,
}

impl<T> NodeOptions<T> {
    /// The sections add up to the block, and neither is longer than 255.
    pub closed spec fn wf(self) -> bool {
        &&& self.len_s1 <= self.data@.len() <= self.len_s1 + 255
    }

    /// Values of side one.
    pub closed spec fn first(self) -> Seq<T> {
        self.data@.subrange(0, self.len_s1 as int)
    }

    /// Values of side two.
    pub closed spec fn second(self) -> Seq<T> {
        self.data@.subrange(self.len_s1 as int, self.data@.len() as int)
    }

    /// The sections are as long as a block allows.
    pub proof fn sections_are_short(self)
        requires
            self.wf(),
        ensures
            self.first().len() <= 255,
            self.second().len() <= 255,
    {
    }

    /// Each value is what `ctor` made of the option at the same position.
    pub open spec fn made_from<F: FnMut(MoveChoice) -> T>(
        self,
        s1: Seq<MoveChoice>,
        s2: Seq<MoveChoice>,
        ctor: F,
    ) -> bool {
        &&& self.first().len() == s1.len()
        &&& self.second().len() == s2.len()
        &&& forall|i: int|
            0 <= i < s1.len() ==> call_ensures(ctor, (s1[i],), #[trigger] self.first()[i])
        &&& forall|i: int|
            0 <= i < s2.len() ==> call_ensures(ctor, (s2[i],), #[trigger] self.second()[i])
    }

    /// Makes a value of every option.
    pub fn new<F: FnMut(MoveChoice) -> T>(s1: &[MoveChoice], s2: &[MoveChoice], mut ctor: F) -> (r:
        Self)
        requires
            s1@.len() <= 255,
            s2@.len() <= 255,
            forall|m: MoveChoice| call_requires(ctor, (m,)),
        ensures
            r.wf(),
            r.made_from(s1@, s2@, ctor),
    {
        let ghost given = ctor;
        let mut data: Vec<T> = Vec::new();
        let mut i: usize = 0;
        while i < s1.len()
            invariant
                i <= s1@.len(),
                data@.len() == i,
                ctor == given,
                forall|m: MoveChoice| call_requires(ctor, (m,)),
                forall|k: int|
                    0 <= k < i ==> call_ensures(ctor, (s1@[k],), #[trigger] data@[k]),
            decreases s1@.len() - i,
        {
            data.push(ctor(s1[i]));
            i = i + 1;
        }
        let mut j: usize = 0;
        while j < s2.len()
            invariant
                j <= s2@.len(),
                data@.len() == s1@.len() + j,
                ctor == given,
                forall|m: MoveChoice| call_requires(ctor, (m,)),
                forall|k: int|
                    0 <= k < s1@.len() ==> call_ensures(ctor, (s1@[k],), #[trigger] data@[k]),
                forall|k: int|
                    s1@.len() <= k < s1@.len() + j ==> call_ensures(
                        ctor,
                        (s2@[k - s1@.len()],),
                        #[trigger] data@[k],
                    ),
            decreases s2@.len() - j,
        {
            data.push(ctor(s2[j]));
            j = j + 1;
        }
        let r = NodeOptions { len_s1: s1.len() as u8, data };
        proof {
            assert forall|k: int| 0 <= k < s2@.len() implies call_ensures(
                ctor,
                (s2@[k],),
                #[trigger] r.second()[k],
            ) by {
                assert(r.second()[k] == data@[s1@.len() + k]);
            }
        }
        r
    }

    /// Values of side one.
    pub fn s1(&self) -> (r: &[T])
        requires
            self.wf(),
        ensures
            r@ == self.first(),
    {
        vstd::slice::slice_subrange(self.data.as_slice(), 0, self.len_s1 as usize)
    }

    /// Values of side two.
    pub fn s2(&self) -> (r: &[T])
        requires
            self.wf(),
        ensures
            r@ == self.second(),
    {
        vstd::slice::slice_subrange(self.data.as_slice(), self.len_s1 as usize, self.data.len())
    }

    /// Values of side one, to change them in place.
    pub fn s1_mut(&mut self) -> (r: &mut [T])
        requires
            old(self).wf(),
        ensures
            r@ == old(self).first(),
            final(r)@.len() == r@.len() ==> {
                &&& final(self).wf()
                &&& final(self).first() == final(r)@
                &&& final(self).second() == old(self).second()
            },
    {
        let n = self.len_s1 as usize;
        let (a, b) = self.data.as_mut_slice().split_at_mut(n);
        a
    }

    /// Values of side two, to change them in place.
    pub fn s2_mut(&mut self) -> (r: &mut [T])
        requires
            old(self).wf(),
        ensures
            r@ == old(self).second(),
            final(r)@.len() == r@.len() ==> {
                &&& final(self).wf()
                &&& final(self).first() == old(self).first()
                &&& final(self).second() == final(r)@
            },
    {
        let n = self.len_s1 as usize;
        let (a, b) = self.data.as_mut_slice().split_at_mut(n);
        b
    }
}

} // verus!
