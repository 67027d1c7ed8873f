//! A set of volatile statuses, one bit each.

use vstd::prelude::*;

verus! {

/// A volatile status of a pokemon, by its number.
#[derive(Clone, Copy, PartialEq, Eq, Structural, Debug, Hash)]
pub struct PokemonVolatileStatus {
    pub index: u8,
}

impl PokemonVolatileStatus {
    /// The status has a bit in the set.
    pub open spec fn wf(self) -> bool {
        self.index < 128
    }
}

/// Bitset of [`PokemonVolatileStatus`].
#[derive(Debug, PartialEq, Eq, Structural)]
pub struct VolatileStatusBitSet {
    bits: u128,
}

/// Bit number `i` is set.
pub open spec fn has_bit(bits: u128, i: u128) -> bool {
    (bits >> i) & 1 == 1
}

/// `u128::trailing_zeros`: the number of the lowest bit that is set, or the width of the type if
/// none is.
pub assume_specification[ u128::trailing_zeros ](n: u128) -> (r: u32)
    ensures
        n == 0 ==> r == 128,
        n != 0 ==> r < 128 && has_bit(n, r as u128),
        forall|i: u128| i < r ==> !#[trigger] has_bit(n, i),
;

/// Setting a bit leaves the others alone.
proof fn set_bit(bits: u128, j: u128, i: u128)
    by (bit_vector)
    requires
        i < 128,
        j < 128,
    ensures
        ((bits | (1u128 << j)) >> i) & 1 == (if i == j {
            1u128
        } else {
            (bits >> i) & 1
        }),
{
}

/// Clearing a bit leaves the others alone.
proof fn clear_bit(bits: u128, j: u128, i: u128)
    by (bit_vector)
    requires
        i < 128,
        j < 128,
    ensures
        ((bits & !(1u128 << j)) >> i) & 1 == (if i == j {
            0u128
        } else {
            (bits >> i) & 1
        }),
{
}

/// A mask of one bit tells whether it is set.
proof fn test_bit(bits: u128, j: u128)
    by (bit_vector)
    requires
        j < 128,
    ensures
        (bits & (1u128 << j) != 0) == ((bits >> j) & 1 == 1),
{
}

/// Nothing is set in zero.
proof fn zero_has_no_bit(i: u128)
    by (bit_vector)
    requires
        i < 128,
    ensures
        (0u128 >> i) & 1 == 0,
{
}

/// What is left once the lowest bit has been taken away.
proof fn without_lowest(bits: u128, t: u128, i: u128)
    by (bit_vector)
    requires
        t < 128,
        i < 128,
        (bits >> t) & 1 == 1,
        bits & (((1u128 << t) - 1) as u128) == 0,
    ensures
        bits != 0,
        ((bits & ((bits - 1) as u128)) >> i) & 1 == (if i == t {
            0u128
        } else {
            (bits >> i) & 1
        }),
        bits & ((bits - 1) as u128) < bits,
{
}

/// A number without bits below `t` has none in the mask of those bits.
proof fn no_bits_below(bits: u128, t: u128)
    requires
        t < 128,
        forall|i: u128| i < t ==> !#[trigger] has_bit(bits, i),
    ensures
        bits & (((1u128 << t) - 1) as u128) == 0,
    decreases t,
{
    if t == 0 {
        assert(bits & (((1u128 << 0u128) - 1) as u128) == 0) by (bit_vector);
    } else {
        let s = (t - 1) as u128;
        no_bits_below(bits, s);
        assert(!has_bit(bits, s));
        assert(bits & (((1u128 << t) - 1) as u128) == 0) by (bit_vector)
            requires
                1 <= t < 128,
                s == t - 1,
                bits & (((1u128 << s) - 1) as u128) == 0,
                !((bits >> s) & 1 == 1),
        ;
    }
}

/// A number that is not zero has a bit that is set.
proof fn some_bit(bits: u128) -> (i: u128)
    requires
        bits != 0,
    ensures
        i < 128,
        has_bit(bits, i),
    decreases bits,
{
    if bits & 1 == 1 {
        assert((bits >> 0u128) & 1 == bits & 1) by (bit_vector);
        0
    } else {
        assert(bits >> 1 < bits && bits >> 1 != 0) by (bit_vector)
            requires
                bits != 0,
                bits & 1 != 1,
        ;
        let i = some_bit(bits >> 1);
        if i == 127 {
            assert(((bits >> 1) >> 127u128) & 1 == 0) by (bit_vector);
        }
        let j = (i + 1) as u128;
        assert((bits >> j) & 1 == ((bits >> 1) >> i) & 1) by (bit_vector)
            requires
                i < 127,
                j == i + 1,
        ;
        j
    }
}

impl View for VolatileStatusBitSet {
    type V = Set<u8>;

    /// The numbers of the statuses in the set.
    closed spec fn view(&self) -> Set<u8> {
        Set::new(|i: u8| i < 128 && has_bit(self.bits, i as u128))
    }
}

/// The numbers of these statuses.
pub open spec fn indices(statuses: Seq<PokemonVolatileStatus>) -> Set<u8> {
    Set::new(|i: u8| statuses.contains(PokemonVolatileStatus { index: i }))
}

impl VolatileStatusBitSet {
    /// Every status in the set has a bit.
    pub proof fn holds_statuses(self)
        ensures
            forall|i: u8| #[trigger] self@.contains(i) ==> i < 128,
    {
    }

    /// Sets with the same statuses are the same.
    pub proof fn is_its_statuses(self, other: Self)
        requires
            self@ == other@,
        ensures
            self == other,
    {
        let (a, b) = (self.bits, other.bits);
        if a != b {
            assert(a ^ b != 0) by (bit_vector)
                requires
                    a != b,
            ;
            let i = some_bit(a ^ b);
            assert((a >> i) & 1 != (b >> i) & 1) by (bit_vector)
                requires
                    i < 128,
                    ((a ^ b) >> i) & 1 == 1,
            ;
            assert(((a >> i) & 1 == 0 || (a >> i) & 1 == 1) && ((b >> i) & 1 == 0 || (b >> i) & 1
                == 1)) by (bit_vector);
            let k = i as u8;
            assert(k as u128 == i);
            assert(self@.contains(k) == has_bit(a, i));
            assert(other@.contains(k) == has_bit(b, i));
        }
    }

    /// A set without statuses.
    pub fn new() -> (r: Self)
        ensures
            r@ == Set::<u8>::empty(),
    {
        let r = VolatileStatusBitSet { bits: 0 };
        proof {
            assert forall|i: u8| !#[trigger] r@.contains(i) by {
                if i < 128 {
                    zero_has_no_bit(i as u128);
                }
            }
            assert(r@ =~= Set::<u8>::empty());
        }
        r
    }

    /// Whether the set has no statuses.
    pub fn is_empty(&self) -> (r: bool)
        ensures
            r == (self@ == Set::<u8>::empty()),
    {
        proof {
            if self.bits == 0 {
                assert forall|i: u8| !#[trigger] self@.contains(i) by {
                    if i < 128 {
                        zero_has_no_bit(i as u128);
                    }
                }
                assert(self@ =~= Set::<u8>::empty());
            } else {
                let i = some_bit(self.bits);
                assert(self@.contains(i as u8));
            }
        }
        self.bits == 0
    }

    /// Whether a status is in the set.
    pub fn contains(&self, vs: &PokemonVolatileStatus) -> (r: bool)
        requires
            vs.wf(),
        ensures
            r == self@.contains(vs.index),
    {
        proof {
            test_bit(self.bits, vs.index as u128);
        }
        self.bits & (1u128 << (vs.index as u128)) != 0
    }

    /// Adds a status to the set.
    pub fn insert(&mut self, vs: PokemonVolatileStatus)
        requires
            vs.wf(),
        ensures
            final(self)@ == old(self)@.insert(vs.index),
    {
        let ghost before = *self;
        self.bits = self.bits | (1u128 << (vs.index as u128));
        proof {
            assert forall|i: u8| #[trigger] self@.contains(i) == before@.insert(vs.index).contains(
                i,
            ) by {
                if i < 128 {
                    set_bit(before.bits, vs.index as u128, i as u128);
                }
            }
            assert(self@ =~= before@.insert(vs.index));
        }
    }

    /// Takes a status out of the set, and says whether it was there.
    pub fn remove(&mut self, vs: &PokemonVolatileStatus) -> (r: bool)
        requires
            vs.wf(),
        ensures
            r == old(self)@.contains(vs.index),
            final(self)@ == old(self)@.remove(vs.index),
    {
        let ghost before = *self;
        let present = self.contains(vs);
        self.bits = self.bits & !(1u128 << (vs.index as u128));
        proof {
            assert forall|i: u8| #[trigger] self@.contains(i) == before@.remove(vs.index).contains(
                i,
            ) by {
                if i < 128 {
                    clear_bit(before.bits, vs.index as u128, i as u128);
                }
            }
            assert(self@ =~= before@.remove(vs.index));
        }
        present
    }

    /// Takes every status out of the set.
    pub fn clear(&mut self)
        ensures
            final(self)@ == Set::<u8>::empty(),
    {
        *self = VolatileStatusBitSet::new();
    }

    /// A set of these statuses.
    pub fn from_iter(statuses: Vec<PokemonVolatileStatus>) -> (r: Self)
        requires
            forall|i: int| 0 <= i < statuses@.len() ==> (#[trigger] statuses@[i]).wf(),
        ensures
            r@ == indices(statuses@),
    {
        let mut s = VolatileStatusBitSet::new();
        let mut k: usize = 0;
        assert(s@ =~= indices(statuses@.take(0)));
        while k < statuses.len()
            invariant
                k <= statuses@.len(),
                forall|i: int| 0 <= i < statuses@.len() ==> (#[trigger] statuses@[i]).wf(),
                s@ == indices(statuses@.take(k as int)),
            decreases statuses@.len() - k,
        {
            s.insert(statuses[k]);
            proof {
                let (a, b) = (statuses@.take(k as int), statuses@.take(k + 1));
                assert(b =~= a.push(statuses@[k as int]));
                assert forall|i: u8| #[trigger] indices(b).contains(i) == indices(a).insert(
                    statuses@[k as int].index,
                ).contains(i) by {
                    let v = PokemonVolatileStatus { index: i };
                    if a.contains(v) {
                        let p = choose|p: int| 0 <= p < a.len() && a[p] == v;
                        assert(b[p] == v);
                    }
                    if v == statuses@[k as int] {
                        assert(b[k as int] == v);
                    }
                }
                assert(indices(b) =~= indices(a).insert(statuses@[k as int].index));
            }
            k = k + 1;
        }
        assert(statuses@.take(k as int) =~= statuses@);
        s
    }
}

impl VolatileStatusBitSet {
    /// Takes the lowest status off a set of bits that is not empty.
    fn lowest(bits: u128) -> (r: (PokemonVolatileStatus, u128))
        requires
            bits != 0,
        ensures
            r.0.wf(),
            has_bit(bits, r.0.index as u128),
            forall|i: u128| i < r.0.index ==> !#[trigger] has_bit(bits, i),
            forall|i: u128|
                i < 128 ==> #[trigger] has_bit(r.1, i) == (has_bit(bits, i) && i != r.0.index),
            r.1 < bits,
    {
        let bit_index = bits.trailing_zeros();
        let rest = bits & (bits - 1);
        proof {
            no_bits_below(bits, bit_index as u128);
            assert forall|i: u128| i < 128 implies #[trigger] has_bit(rest, i) == (has_bit(bits, i)
                && i != bit_index) && rest < bits by {
                without_lowest(bits, bit_index as u128, i);
            }
            assert(rest < bits) by {
                without_lowest(bits, bit_index as u128, 0);
            }
        }
        (PokemonVolatileStatus { index: bit_index as u8 }, rest)
    }

    /// The statuses in the set, in ascending order.
    pub fn iter(&self) -> (r: Vec<PokemonVolatileStatus>)
        ensures
            indices(r@) == self@,
            forall|i: int| 0 <= i < r@.len() ==> (#[trigger] r@[i]).wf(),
            forall|i: int, j: int|
                0 <= i < j < r@.len() ==> (#[trigger] r@[i]).index < (#[trigger] r@[j]).index,
    {
        let mut r: Vec<PokemonVolatileStatus> = Vec::new();
        let mut remaining = self.bits;
        while remaining != 0
            invariant
                forall|i: int| 0 <= i < r@.len() ==> (#[trigger] r@[i]).wf(),
                forall|i: int, j: int|
                    0 <= i < j < r@.len() ==> (#[trigger] r@[i]).index < (#[trigger] r@[j]).index,
                forall|i: int, b: u128|
                    #![trigger r@[i], has_bit(remaining, b)]
                    0 <= i < r@.len() && b < 128 && has_bit(remaining, b) ==> r@[i].index < b,
                forall|b: u8|
                    b < 128 ==> (#[trigger] self@.contains(b) <==> has_bit(remaining, b as u128)
                        || r@.contains(PokemonVolatileStatus { index: b })),
            decreases remaining,
        {
            let ghost before = remaining;
            let ghost listed = r@;
            let (vs, rest) = Self::lowest(remaining);
            remaining = rest;
            r.push(vs);
            proof {
                assert(has_bit(before, vs.index as u128));
                assert forall|i: int, b: u128|
                    #![trigger r@[i], has_bit(remaining, b)]
                    0 <= i < r@.len() && b < 128 && has_bit(remaining, b) implies r@[i].index < b by {
                    assert(has_bit(before, b));
                    if i == listed.len() {
                        assert(!(b < vs.index));
                    } else {
                        assert(listed[i].index < b);
                    }
                }
                assert forall|i: int, j: int| 0 <= i < j < r@.len() implies (
                #[trigger] r@[i]).index < (#[trigger] r@[j]).index by {
                    assert(listed[i] == r@[i]);
                    if j < listed.len() {
                        assert(listed[j] == r@[j]);
                    }
                }
                assert forall|b: u8| b < 128 implies (#[trigger] self@.contains(b) <==> has_bit(
                    remaining,
                    b as u128,
                ) || r@.contains(PokemonVolatileStatus { index: b })) by {
                    let v = PokemonVolatileStatus { index: b };
                    assert(has_bit(remaining, b as u128) == (has_bit(before, b as u128) && b as u128
                        != vs.index));
                    if listed.contains(v) {
                        let p = choose|p: int| 0 <= p < listed.len() && listed[p] == v;
                        assert(r@[p] == v);
                    }
                    if v == vs {
                        assert(r@[listed.len() as int] == v);
                    }
                    if r@.contains(v) && v != vs {
                        let p = choose|p: int| 0 <= p < r@.len() && r@[p] == v;
                        assert(listed[p] == v);
                    }
                }
            }
        }
        proof {
            assert forall|b: u8| #[trigger] indices(r@).contains(b) == self@.contains(b) by {
                if b < 128 {
                    zero_has_no_bit(b as u128);
                } else if r@.contains(PokemonVolatileStatus { index: b }) {
                    let p = choose|p: int|
                        0 <= p < r@.len() && r@[p] == (PokemonVolatileStatus { index: b });
                    assert(r@[p].wf());
                }
            }
            assert(indices(r@) =~= self@);
        }
        r
    }

    /// Keeps the statuses for which `f` says so.
    pub fn retain<F: FnMut(PokemonVolatileStatus) -> bool>(&mut self, mut f: F)
        requires
            forall|vs: PokemonVolatileStatus| vs.wf() ==> call_requires(f, (vs,)),
        ensures
            forall|i: u8| #[trigger] final(self)@.contains(i) ==> old(self)@.contains(i),
            forall|i: u8| #[trigger]
                old(self)@.contains(i) ==> call_ensures(
                    f,
                    (PokemonVolatileStatus { index: i },),
                    final(self)@.contains(i),
                ),
    {
        let ghost given = f;
        let ghost before = *self;
        let mut remaining = self.bits;
        while remaining != 0
            invariant
                f == given,
                forall|vs: PokemonVolatileStatus| vs.wf() ==> call_requires(f, (vs,)),
                forall|i: u8| #[trigger] self@.contains(i) ==> before@.contains(i),
                forall|i: u8|
                    i < 128 && #[trigger] has_bit(remaining, i as u128) ==> before@.contains(i)
                        && self@.contains(i),
                forall|i: u8| #[trigger]
                    before@.contains(i) && !has_bit(remaining, i as u128) ==> call_ensures(
                        f,
                        (PokemonVolatileStatus { index: i },),
                        self@.contains(i),
                    ),
            decreases remaining,
        {
            let ghost left = remaining;
            let ghost held = *self;
            let (vs, rest) = Self::lowest(remaining);
            let keep = f(vs);
            if !keep {
                self.remove(&vs);
            }
            remaining = rest;
            proof {
                assert(has_bit(left, vs.index as u128));
                assert(held@.contains(vs.index));
                assert forall|i: u8| i < 128 && #[trigger] has_bit(remaining, i as u128) implies before@.contains(
                    i,
                ) && self@.contains(i) by {
                    assert(has_bit(left, i as u128));
                }
                assert forall|i: u8| #[trigger]
                    before@.contains(i) && !has_bit(remaining, i as u128) implies call_ensures(
                    f,
                    (PokemonVolatileStatus { index: i },),
                    self@.contains(i),
                ) by {
                    if i == vs.index {
                        assert(vs == PokemonVolatileStatus { index: i });
                    } else {
                        assert(has_bit(remaining, i as u128) == (has_bit(left, i as u128) && i as u128
                            != vs.index));
                    }
                }
            }
        }
        proof {
            assert forall|i: u8| #[trigger] before@.contains(i) implies !has_bit(
                remaining,
                i as u128,
            ) by {
                zero_has_no_bit(i as u128);
            }
        }
    }
}

impl VolatileStatusBitSet {
    /// Listing a set and collecting the list gives the set back.
    pub proof fn collecting_undoes_listing(
        self,
        listed: Seq<PokemonVolatileStatus>,
        collected: Self,
    )
        requires
            indices(listed) == self@,
            collected@ == indices(listed),
        ensures
            collected == self,
    {
        collected.is_its_statuses(self);
    }

    /// There is only one ascending list of the statuses in a set.
    pub proof fn listings_agree(
        a: Seq<PokemonVolatileStatus>,
        b: Seq<PokemonVolatileStatus>,
    )
        requires
            indices(a) == indices(b),
            forall|i: int, j: int|
                0 <= i < j < a.len() ==> (#[trigger] a[i]).index < (#[trigger] a[j]).index,
            forall|i: int, j: int|
                0 <= i < j < b.len() ==> (#[trigger] b[i]).index < (#[trigger] b[j]).index,
        ensures
            a == b,
        decreases a.len(),
    {
        if a.len() == 0 {
            if b.len() > 0 {
                assert(b.contains(b[0]));
                assert(indices(b).contains(b[0].index));
                assert(a.contains(b[0]));
            }
            assert(a =~= b);
        } else {
            let (n, m) = (a.len() - 1, b.len() - 1);
            assert(a.contains(a[n]));
            assert(indices(a).contains(a[n].index));
            assert(b.contains(a[n]));
            let q = choose|q: int| 0 <= q < b.len() && b[q] == a[n];
            assert(b.contains(b[m]));
            assert(indices(b).contains(b[m].index));
            assert(a.contains(b[m]));
            let p = choose|p: int| 0 <= p < a.len() && a[p] == b[m];
            assert(a[n] == b[m]) by {
                if q < m {
                    assert(b[q].index < b[m].index);
                    if p < n {
                        assert(a[p].index < a[n].index);
                    }
                }
            }
            let (fore_a, fore_b) = (a.drop_last(), b.drop_last());
            assert forall|i: u8| #[trigger] indices(fore_a).contains(i) == indices(fore_b).contains(
                i,
            ) by {
                let v = PokemonVolatileStatus { index: i };
                assert(indices(a).contains(i) == indices(b).contains(i));
                if fore_a.contains(v) {
                    let k = choose|k: int| 0 <= k < fore_a.len() && fore_a[k] == v;
                    assert(a[k] == v);
                    assert(a[k].index < a[n].index);
                    assert(a.contains(v));
                    assert(indices(b).contains(i));
                    assert(b.contains(v));
                    let l = choose|l: int| 0 <= l < b.len() && b[l] == v;
                    assert(fore_b[l] == v);
                }
                if fore_b.contains(v) {
                    let k = choose|k: int| 0 <= k < fore_b.len() && fore_b[k] == v;
                    assert(b[k] == v);
                    assert(b[k].index < b[m].index);
                    assert(b.contains(v));
                    assert(indices(a).contains(i));
                    assert(a.contains(v));
                    let l = choose|l: int| 0 <= l < a.len() && a[l] == v;
                    assert(fore_a[l] == v);
                }
            }
            assert(indices(fore_a) =~= indices(fore_b));
            Self::listings_agree(fore_a, fore_b);
            assert(a =~= fore_a.push(a[n]));
            assert(b =~= fore_b.push(b[m]));
        }
    }
}

impl Clone for VolatileStatusBitSet {
    fn clone(&self) -> (r: Self)
        ensures
            r == *self,
    {
        VolatileStatusBitSet { bits: self.bits }
    }
}

impl Default for VolatileStatusBitSet {
    fn default() -> (r: Self)
        ensures
            r@ == Set::<u8>::empty(),
    {
        VolatileStatusBitSet::new()
    }
}

} // verus!
