//! Values stored under keys, some of them in runs.

use std::collections::HashMap;
use vstd::prelude::*;

verus! {

broadcast use vstd::std_specs::hash::group_hash_axioms;

/// A store that only grows. Values that are added together stand next to each other. A value that is
/// added under a key that is in use takes the place of the one before.
pub struct Slots<T> {
    positions: HashMap<u32, usize>,
    items: Vec<T>,
}

/// Key number `i` of a run that starts at `first` and advances by `stride`.
pub open spec fn run_key(first: u32, stride: nat, i: int) -> int {
    first + i * stride
}

/// Some key of the run is this one.
pub open spec fn is_run_key(first: u32, stride: nat, len: nat, k: u32) -> bool {
    exists|i: int| 0 <= i < len && k == #[trigger] run_key(first, stride, i)
}

impl<T> Slots<T> {
    /// Where the value under each key stands.
    closed spec fn at(self) -> Map<u32, usize> {
        self.positions@
    }

    /// Number of values that have been added.
    pub closed spec fn count(self) -> nat {
        self.items@.len()
    }

    /// Each key has a value of its own.
    pub closed spec fn wf(self) -> bool {
        &&& forall|k: u32| #[trigger] self.at().contains_key(k) ==> self.at()[k] < self.count()
        &&& forall|j: u32, k: u32|
            self.at().contains_key(j) && self.at().contains_key(k) && j != k
                ==> #[trigger] self.at()[j] != #[trigger] self.at()[k]
    }

    /// The value under each key.
    pub closed spec fn view(self) -> Map<u32, T> {
        Map::new(|k: u32| self.at().contains_key(k), |k: u32| self.items@[self.at()[k] as int])
    }

    /// Every key of `before` but one stands for the place that it stood for.
    pub closed spec fn grown_but(self, before: Self, but: u32) -> bool {
        &&& before.count() <= self.count()
        &&& forall|k: u32| #[trigger]
            before.at().contains_key(k) && k != but ==> self.at().contains_key(k) && self.at()[k]
                == before.at()[k]
    }

    /// Every key of `before` stands for the place that it stood for.
    pub closed spec fn grown_from(self, before: Self) -> bool {
        &&& before.count() <= self.count()
        &&& forall|k: u32| #[trigger]
            before.at().contains_key(k) ==> self.at().contains_key(k) && self.at()[k]
                == before.at()[k]
    }

    /// The values of `before` are what they were.
    pub closed spec fn keeps_values(self, before: Self) -> bool {
        &&& before.count() <= self.count()
        &&& forall|i: int| 0 <= i < before.count() ==> #[trigger] self.items@[i] == before.items@[i]
    }

    /// A run of `len` values stands under its first key; where it advances, each value stands under
    /// its own.
    pub closed spec fn holds_run(self, first: u32, stride: nat, len: nat) -> bool {
        len > 0 ==> {
            &&& self.at().contains_key(first)
            &&& self.at()[first] + len <= self.count()
            &&& 0 < stride ==> forall|i: int|
                0 <= i < len ==> {
                    &&& 0 <= #[trigger] run_key(first, stride, i) <= u32::MAX
                    &&& self.at().contains_key(run_key(first, stride, i) as u32)
                    &&& self.at()[run_key(first, stride, i) as u32] == self.at()[first] + i
                }
        }
    }

    /// The values of a run.
    pub closed spec fn run(self, first: u32, len: nat) -> Seq<T> {
        if len == 0 {
            Seq::empty()
        } else {
            self.items@.subrange(self.at()[first] as int, self.at()[first] + len)
        }
    }

    /// `len` values: those from the first key on, or any, where there are not as many.
    pub closed spec fn some_run(self, first: u32, len: nat) -> Seq<T> {
        if self.at().contains_key(first) && self.at()[first] + len <= self.count() {
            self.run(first, len)
        } else {
            self.items@.take(len as int)
        }
    }

    /// The run that a key starts is found whole.
    pub proof fn a_run_is_some_run(self, first: u32, stride: nat, len: nat)
        requires
            self.holds_run(first, stride, len),
        ensures
            self.some_run(first, len) == self.run(first, len),
    {
        if len == 0 {
            assert(self.some_run(first, len) =~= self.run(first, len));
        }
    }

    /// The values of a run that advances stand under its keys.
    pub proof fn run_is_held(self, first: u32, stride: nat, len: nat)
        requires
            self.wf(),
            0 < stride,
            self.holds_run(first, stride, len),
        ensures
            self.run(first, len).len() == len,
            forall|i: int|
                0 <= i < len ==> {
                    &&& 0 <= #[trigger] run_key(first, stride, i) <= u32::MAX
                    &&& self@.contains_key(run_key(first, stride, i) as u32)
                    &&& self@[run_key(first, stride, i) as u32] == self.run(first, len)[i]
                },
    {
    }

    /// A run of no values is always there.
    pub proof fn empty_runs_are_held(self, first: u32, stride: nat)
        ensures
            self.holds_run(first, stride, 0),
            self.run(first, 0) == Seq::<T>::empty(),
            self.some_run(first, 0) == Seq::<T>::empty(),
    {
        assert(self.some_run(first, 0) =~= Seq::<T>::empty());
    }

    /// A store does not lose runs as it grows.
    pub proof fn runs_stay(self, before: Self, first: u32, stride: nat, len: nat)
        requires
            self.grown_from(before),
            before.holds_run(first, stride, len),
        ensures
            self.holds_run(first, stride, len),
    {
    }

    /// Runs read the same where all values have been kept.
    pub proof fn runs_read_the_same(self, before: Self, first: u32, stride: nat, len: nat)
        requires
            self.grown_from(before),
            self.keeps_values(before),
            before.holds_run(first, stride, len),
        ensures
            self.run(first, len) == before.run(first, len),
    {
        assert(self.run(first, len) =~= before.run(first, len));
    }

    /// Keys read the same where all values have been kept.
    pub proof fn keys_read_the_same(self, before: Self)
        requires
            before.wf(),
            self.grown_from(before),
            self.keeps_values(before),
        ensures
            forall|k: u32| #[trigger]
                before@.contains_key(k) ==> self@.contains_key(k) && self@[k] == before@[k],
    {
    }

    /// Growth is transitive.
    pub proof fn growth_adds_up(self, middle: Self, before: Self)
        requires
            self.grown_from(middle),
            middle.grown_from(before),
        ensures
            self.grown_from(before),
            self.keeps_values(middle) && middle.keeps_values(before) ==> self.keeps_values(before),
    {
        if self.keeps_values(middle) && middle.keeps_values(before) {
            assert forall|i: int| 0 <= i < before.count() implies #[trigger] self.items@[i]
                == before.items@[i] by {
                assert(middle.items@[i] == before.items@[i]);
            }
        }
    }

    /// Growth leaves out nothing.
    pub proof fn growth_is_reflexive(self)
        ensures
            self.grown_from(self),
            self.keeps_values(self),
    {
    }

    /// A store without values.
    pub fn new() -> (r: Self)
        ensures
            r.wf(),
            r@ == Map::<u32, T>::empty(),
            r.count() == 0,
    {
        let r = Slots { positions: HashMap::new(), items: Vec::new() };
        assert(r@ =~= Map::<u32, T>::empty());
        r
    }

    /// Adds a value under a key.
    pub fn push(&mut self, key: u32, item: T)
        requires
            old(self).wf(),
        ensures
            final(self).wf(),
            final(self)@ == old(self)@.insert(key, item),
            final(self).count() == old(self).count() + 1,
            final(self).grown_but(*old(self), key),
            !old(self)@.contains_key(key) ==> final(self).grown_from(*old(self)),
            final(self).keeps_values(*old(self)),
    {
        self.append(key, item);
    }

    /// Adds a value under a key, behind all others.
    fn append(&mut self, key: u32, item: T)
        requires
            old(self).wf(),
        ensures
            final(self).wf(),
            final(self).at().dom() == old(self).at().dom().insert(key),
            final(self).at()[key] == old(self).count(),
            forall|k: u32| k != key ==> #[trigger] final(self).at()[k] == old(self).at()[k],
            final(self).items@ == old(self).items@.push(item),
            final(self)@ == old(self)@.insert(key, item),
    {
        let ghost before = *self;
        let n: usize = self.items.len();
        self.positions.insert(key, n);
        self.items.push(item);
        proof {
            assert(self.at() == before.at().insert(key, n));
            assert(self.at().dom() =~= before.at().dom().insert(key));
            assert forall|k: u32| k != key implies #[trigger] self.at()[k] == before.at()[k] by {
                if !before.at().contains_key(k) {
                    assert(self.at().index(k) == before.at().index(k));
                }
            }
            assert(self@ =~= before@.insert(key, item));
        }
    }

    /// Adds a run of values under keys that are not in use.
    pub fn push_run(&mut self, first: u32, stride: u64, values: Vec<T>)
        requires
            old(self).wf(),
            0 < stride,
            forall|i: int|
                0 <= i < values@.len() ==> {
                    &&& #[trigger] run_key(first, stride as nat, i) <= u32::MAX
                    &&& !old(self)@.contains_key(run_key(first, stride as nat, i) as u32)
                },
        ensures
            final(self).wf(),
            final(self).holds_run(first, stride as nat, values@.len()),
            final(self).run(first, values@.len()) == values@,
            forall|k: u32| #[trigger]
                old(self)@.contains_key(k) ==> !is_run_key(first, stride as nat, values@.len(), k),
            forall|k: u32| #[trigger]
                final(self)@.contains_key(k) <==> old(self)@.contains_key(k) || is_run_key(
                    first,
                    stride as nat,
                    values@.len(),
                    k,
                ),
            forall|k: u32| #[trigger]
                old(self)@.contains_key(k) ==> final(self)@[k] == old(self)@[k],
            final(self).count() == old(self).count() + values@.len(),
            final(self).grown_from(*old(self)),
            final(self).keeps_values(*old(self)),
    {
        let ghost before = *self;
        let ghost given = values@;
        let ghost d = stride as nat;
        let ghost base = before.count() as int;
        let mut key: u128 = first as u128;
        for e in it: values
            invariant
                before == *old(self),
                before.wf(),
                it.seq() == given,
                d == stride,
                0 < d,
                base == before.count(),
                self.wf(),
                key == run_key(first, d, it.index() as int),
                self.count() == base + it.index(),
                forall|i: int|
                    0 <= i < given.len() ==> {
                        &&& #[trigger] run_key(first, d, i) <= u32::MAX
                        &&& !before@.contains_key(run_key(first, d, i) as u32)
                    },
                forall|k: u32| #[trigger]
                    before.at().contains_key(k) ==> self.at().contains_key(k) && self.at()[k]
                        == before.at()[k],
                forall|i: int| 0 <= i < base ==> #[trigger] self.items@[i] == before.items@[i],
                forall|i: int|
                    0 <= i < it.index() ==> {
                        &&& 0 <= #[trigger] run_key(first, d, i) <= u32::MAX
                        &&& self.at().contains_key(run_key(first, d, i) as u32)
                        &&& self.at()[run_key(first, d, i) as u32] == base + i
                        &&& self.items@[base + i] == given[i]
                    },
                forall|k: u32| #[trigger]
                    self.at().contains_key(k) ==> before.at().contains_key(k) || is_run_key(
                        first,
                        d,
                        it.index() as nat,
                        k,
                    ),
        {
            let ghost n = it.index() as int;
            let ghost was = *self;
            proof {
                assert(run_key(first, d, n) <= u32::MAX);
                assert((n + 1) * d == n * d + d) by (nonlinear_arith);
            }
            self.append(key as u32, e);
            key = key + stride as u128;
            proof {
                let added = run_key(first, d, n) as u32;
                assert forall|i: int| 0 <= i < n + 1 implies {
                    &&& 0 <= #[trigger] run_key(first, d, i) <= u32::MAX
                    &&& self.at().contains_key(run_key(first, d, i) as u32)
                    &&& self.at()[run_key(first, d, i) as u32] == base + i
                    &&& self.items@[base + i] == given[i]
                } by {
                    if i < n {
                        assert(i * d < n * d) by (nonlinear_arith)
                            requires
                                i < n,
                                0 < d,
                        ;
                        assert(was.at().contains_key(run_key(first, d, i) as u32));
                    }
                }
                assert forall|k: u32| #[trigger] before.at().contains_key(k) implies
                    self.at().contains_key(k) && self.at()[k] == before.at()[k] by {
                    assert(before@.contains_key(k));
                    assert(k != added);
                }
                assert forall|k: u32| #[trigger] self.at().contains_key(k) implies
                    before.at().contains_key(k) || is_run_key(first, d, (n + 1) as nat, k) by {
                    if k == added {
                        assert(k == run_key(first, d, n));
                    } else {
                        assert(was.at().contains_key(k));
                        if is_run_key(first, d, n as nat, k) {
                            let i = choose|i: int| 0 <= i < n && k == #[trigger] run_key(first, d, i);
                            assert(0 <= i < n + 1);
                        }
                    }
                }
            }
        }
        proof {
            let n = given.len();
            if n > 0 {
                assert(0 * d == 0) by (nonlinear_arith);
                assert(run_key(first, d, 0) == first);
                assert(self.at()[first] == base);
            }
            assert(self.run(first, n) =~= given) by {
                assert forall|i: int| 0 <= i < n implies self.run(first, n)[i] == given[i] by {
                    let _ = run_key(first, d, i);
                }
            }
            assert forall|k: u32| #[trigger] before@.contains_key(k) implies !is_run_key(
                first,
                d,
                n,
                k,
            ) && self@[k] == before@[k] by {
                assert(before.at().contains_key(k));
                if is_run_key(first, d, n, k) {
                    let i = choose|i: int| 0 <= i < n && k == #[trigger] run_key(first, d, i);
                    assert(!before@.contains_key(run_key(first, d, i) as u32));
                }
            }
            assert forall|k: u32| #[trigger] self@.contains_key(k) <==> before@.contains_key(k)
                || is_run_key(first, d, n, k) by {
                assert(self@.contains_key(k) == self.at().contains_key(k));
                assert(before@.contains_key(k) == before.at().contains_key(k));
                if is_run_key(first, d, n, k) {
                    let i = choose|i: int| 0 <= i < n && k == #[trigger] run_key(first, d, i);
                    assert(self.at().contains_key(run_key(first, d, i) as u32));
                }
            }
        }
    }

    /// Adds values of which only the first gets a key.
    pub fn push_block(&mut self, key: u32, values: Vec<T>)
        requires
            old(self).wf(),
            0 < values@.len(),
        ensures
            final(self).wf(),
            final(self)@ == old(self)@.insert(key, values@[0]),
            final(self).holds_run(key, 0, values@.len()),
            final(self).run(key, values@.len()) == values@,
            final(self).count() == old(self).count() + values@.len(),
            final(self).grown_but(*old(self), key),
            !old(self)@.contains_key(key) ==> final(self).grown_from(*old(self)),
            final(self).keeps_values(*old(self)),
    {
        let ghost before = *self;
        let ghost given = values@;
        let mut values = values;
        let n: usize = self.items.len();
        self.positions.insert(key, n);
        self.items.append(&mut values);
        proof {
            assert(self.items@ =~= before.items@ + given);
            assert(self.at() == before.at().insert(key, n));
            assert(self@ =~= before@.insert(key, given[0]));
            assert(self.run(key, given.len()) =~= given);
        }
    }

    /// Position of a key.
    fn position(&self, key: u32) -> (r: usize)
        requires
            self.wf(),
            self@.contains_key(key),
        ensures
            r < self.count(),
            r == self.at()[key],
            self.items@[r as int] == self@[key],
    {
        assert(self.at().contains_key(key));
        match self.positions.get(&key) {
            Some(r) => *r,
            None => {
                proof {
                    assert(false);
                }
                0
            },
        }
    }

    /// Reads the value under a key.
    pub fn get(&self, key: u32) -> (r: &T)
        requires
            self.wf(),
            self@.contains_key(key),
        ensures
            *r == self@[key],
    {
        let p = self.position(key);
        &self.items[p]
    }

    /// Gives access to the value under a key.
    pub fn get_mut(&mut self, key: u32) -> (r: &mut T)
        requires
            old(self).wf(),
            old(self)@.contains_key(key),
        ensures
            *r == old(self)@[key],
            final(self).wf(),
            final(self)@ == old(self)@.insert(key, *final(r)),
            final(self).grown_from(*old(self)),
            final(self).count() == old(self).count(),
    {
        let p = self.position(key);
        proof {
            assert forall|after: Slots<T>, v: T|
                after.positions == self.positions && after.items@ == self.items@.update(
                    p as int,
                    v,
                ) implies #[trigger] after@ == #[trigger] self@.insert(key, v) by {
                self.replaced(after, key, v);
            }
        }
        &mut self.items[p]
    }

    /// Replacing the value at a position is inserting it under the key there.
    proof fn replaced(self, after: Self, key: u32, v: T)
        requires
            self.wf(),
            self.at().contains_key(key),
            after.positions == self.positions,
            after.items@ == self.items@.update(self.at()[key] as int, v),
        ensures
            after.wf(),
            after@ == self@.insert(key, v),
    {
        assert forall|k: u32| after@.contains_key(k) implies #[trigger] after@[k] == self@.insert(
            key,
            v,
        )[k] by {
            if k != key {
                assert(self.at()[k] != self.at()[key]);
            }
        }
        assert(after@ =~= self@.insert(key, v));
    }

    /// Reads all values of a run.
    pub fn get_run(&self, first: u32, Ghost(stride): Ghost<nat>, len: usize) -> (r: &[T])
        requires
            self.wf(),
            self.holds_run(first, stride, len as nat),
        ensures
            r@ == self.run(first, len as nat),
    {
        if len == 0 {
            let r = vstd::slice::slice_subrange(self.items.as_slice(), 0, 0);
            assert(r@ =~= self.run(first, 0));
            return r;
        }
        let at = self.position(first);
        assert(at + len <= self.items.len());
        vstd::slice::slice_subrange(self.items.as_slice(), at, at + len)
    }

    /// Reads as many values as there are asked for.
    pub fn get_some_run(&self, first: u32, len: usize) -> (r: &[T])
        requires
            self.wf(),
            len <= self.count(),
        ensures
            r@ == self.some_run(first, len as nat),
    {
        let n: usize = self.items.len();
        let mut at: usize = 0;
        if let Some(p) = self.positions.get(&first) {
            assert(self.at().contains_key(first));
            if *p <= n - len {
                at = *p;
            }
        }
        let r = vstd::slice::slice_subrange(self.items.as_slice(), at, at + len);
        assert(r@ =~= self.some_run(first, len as nat));
        r
    }
}

} // verus!
