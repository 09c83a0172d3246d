use vstd::prelude::*;

use crate::bit_array::{
    self, BitUpdate, Merge, bits_of, full_range, is_greatest_in, is_least_in, resume_at, seq_bit, toggled, word_bits,
};
use crate::word::Word;
use std::ops::{BitAnd, BitAndAssign, BitOr, BitOrAssign, BitXor, BitXorAssign, Not};

verus! {

/// A fixed-capacity set of bit positions `0..WORDS * W::bits()`, stored in `WORDS` words.
#[derive(Clone, Copy, Hash)]
pub struct StaticBitSet<W: Word, const WORDS: usize> {
    data: [W; WORDS],
}

/// Walks the positions of a [`StaticBitSet`] in ascending order.
pub struct StaticBitSetIterator<'a, W: Word, const WORDS: usize> {
    bitset: &'a StaticBitSet<W, WORDS>,
    prev: Option<usize>,
}

impl<W: Word, const WORDS: usize> View for StaticBitSet<W, WORDS> {
    type V = Set<int>;

    /// The positions that are set.
    open spec fn view(&self) -> Set<int> {
        bits_of(self.word_seq())
    }
}

impl<W: Word, const WORDS: usize> StaticBitSet<W, WORDS> {
    /// The number of positions the set can hold.
    pub open spec fn capacity() -> int {
        WORDS * word_bits::<W>()
    }

    /// The words, lowest positions first.
    pub closed spec fn word_seq(&self) -> Seq<W> {
        self.data@
    }

    /// Every position of the set lies below the capacity.
    pub proof fn lemma_in_range(&self)
        ensures
            forall|i: int| #[trigger] self@.contains(i) ==> 0 <= i < Self::capacity(),
            self.word_seq().len() == WORDS,
    {
    }

    /// Creates a new empty bit set.
    pub fn new() -> (r: Self)
        ensures
            r@ == Set::<int>::empty(),
    {
        let r = Self { data: [W::zero(); WORDS] };
        assert(r@ =~= Set::<int>::empty()) by {
            assert forall|i: int| !#[trigger] seq_bit(r.data@, i) by {
                if 0 <= i < Self::capacity() {
                    bit_array::lemma_split_position(r.data@, i);
                }
            }
        }
        r
    }

    /// Creates a bit set holding exactly the positions listed in `bits`.
    pub fn from<const N: usize>(bits: &[usize; N]) -> (r: Self)
        requires
            forall|i: int| 0 <= i < N ==> #[trigger] bits@[i] < Self::capacity(),
        ensures
            r@ == Set::new(|p: int| exists|i: int| 0 <= i < N && #[trigger] bits@[i] == p),
    {
        let mut data = [W::zero(); WORDS];
        proof {
            assert forall|p: int| !#[trigger] seq_bit(data@, p) by {
                if 0 <= p < Self::capacity() {
                    bit_array::lemma_split_position(data@, p);
                }
            }
        }
        let mut i: usize = 0;
        while i < N
            invariant
                i <= N,
                forall|k: int| 0 <= k < N ==> #[trigger] bits@[k] < Self::capacity(),
                forall|p: int| #[trigger]
                    seq_bit(data@, p) == exists|k: int| 0 <= k < i && #[trigger] bits@[k] == p,
            decreases N - i,
        {
            let bit = bits[i];
            let ghost before = data@;
            bit_array::update_bit(&mut data, bit, BitUpdate::Insert);
            proof {
                assert forall|p: int| #[trigger]
                    seq_bit(data@, p) == exists|k: int| 0 <= k < i + 1 && #[trigger] bits@[k] == p by {
                    if p == bit {
                        assert(bits@[i as int] == p);
                    } else if seq_bit(before, p) {
                        let k = choose|k: int| 0 <= k < i && #[trigger] bits@[k] == p;
                        assert(0 <= k < i + 1 && bits@[k] == p);
                    }
                }
            }
            i = i + 1;
        }
        let r = Self { data };
        assert(r@ =~= Set::new(|p: int| exists|i: int| 0 <= i < N && #[trigger] bits@[i] == p));
        r
    }

    /// Returns whether `bit` is in the set.
    pub fn contains(&self, bit: usize) -> (r: bool)
        requires
            bit < Self::capacity(),
        ensures
            r == self@.contains(bit as int),
    {
        bit_array::contains(&self.data, bit)
    }

    /// Adds `bit` to the set.
    pub fn add(&mut self, bit: usize)
        requires
            bit < Self::capacity(),
        ensures
            final(self)@ == old(self)@.insert(bit as int),
    {
        bit_array::update_bit(&mut self.data, bit, BitUpdate::Insert);
        assert(self@ =~= old(self)@.insert(bit as int));
    }

    /// Removes `bit` from the set.
    pub fn remove(&mut self, bit: usize)
        requires
            bit < Self::capacity(),
        ensures
            final(self)@ == old(self)@.remove(bit as int),
    {
        bit_array::update_bit(&mut self.data, bit, BitUpdate::Remove);
        assert(self@ =~= old(self)@.remove(bit as int));
    }

    /// Toggles `bit`.
    pub fn toggle(&mut self, bit: usize)
        requires
            bit < Self::capacity(),
        ensures
            final(self)@ == toggled(old(self)@, bit as int),
    {
        bit_array::update_bit(&mut self.data, bit, BitUpdate::Toggle);
        proof {
            if old(self)@.contains(bit as int) {
                assert(self@ =~= old(self)@.remove(bit as int));
            } else {
                assert(self@ =~= old(self)@.insert(bit as int));
            }
        }
    }

    /// Clears the set, removing all bits.
    pub fn clear(&mut self)
        ensures
            final(self)@ == Set::<int>::empty(),
    {
        bit_array::set_all(&mut self.data, false);
        assert(self@ =~= Set::<int>::empty());
    }

    /// Fills the set, adding all possible bits.
    pub fn fill(&mut self)
        ensures
            final(self)@ == full_range(Self::capacity()),
    {
        bit_array::set_all(&mut self.data, true);
        assert(self@ =~= full_range(Self::capacity()));
    }

    /// Returns the number of bits set.
    pub fn count(&self) -> (r: usize)
        requires
            Self::capacity() <= usize::MAX,
        ensures
            r == self@.len(),
    {
        bit_array::count(&self.data)
    }

    /// Returns whether the set is empty.
    pub fn is_empty(&self) -> (r: bool)
        ensures
            r == (self@ == Set::<int>::empty()),
    {
        let r = bit_array::all_match(&self.data, false);
        proof {
            if r {
                assert(self@ =~= Set::<int>::empty());
            } else {
                let j = choose|j: int|
                    0 <= j < Self::capacity() && #[trigger] seq_bit(self.data@, j) != false;
                assert(self@.contains(j));
            }
        }
        r
    }

    /// Returns whether the set is full.
    pub fn is_full(&self) -> (r: bool)
        ensures
            r == (self@ == full_range(Self::capacity())),
    {
        let r = bit_array::all_match(&self.data, true);
        proof {
            if r {
                assert(self@ =~= full_range(Self::capacity()));
            } else {
                let j = choose|j: int|
                    0 <= j < Self::capacity() && #[trigger] seq_bit(self.data@, j) != true;
                assert(!self@.contains(j));
                assert(full_range(Self::capacity()).contains(j));
            }
        }
        r
    }

    /// Returns the smallest bit in the set, or `None` if empty.
    pub fn first_set(&self) -> (r: Option<usize>)
        requires
            Self::capacity() <= usize::MAX,
        ensures
            is_least_in(|i: int| self@.contains(i), 0, Self::capacity(), r),
    {
        proof {
            assert((|i: int| self@.contains(i)) =~= (|i: int| seq_bit(self.data@, i) == true));
        }
        bit_array::first_match(&self.data, true)
    }

    /// Returns the largest bit in the set, or `None` if empty.
    pub fn last_set(&self) -> (r: Option<usize>)
        requires
            Self::capacity() <= usize::MAX,
        ensures
            is_greatest_in(|i: int| self@.contains(i), 0, Self::capacity(), r),
    {
        proof {
            assert((|i: int| self@.contains(i)) =~= (|i: int| seq_bit(self.data@, i) == true));
        }
        bit_array::last_match(&self.data, true)
    }

    /// Returns the smallest bit strictly greater than `bit`, or `None`.
    pub fn first_set_after(&self, bit: usize) -> (r: Option<usize>)
        requires
            Self::capacity() <= usize::MAX,
        ensures
            is_least_in(|i: int| self@.contains(i), bit + 1, Self::capacity(), r),
    {
        proof {
            assert((|i: int| self@.contains(i)) =~= (|i: int| seq_bit(self.data@, i) == true));
        }
        bit_array::first_match_after(&self.data, bit, true)
    }

    /// Returns the largest bit strictly less than `bit`, or `None`.
    pub fn last_set_before(&self, bit: usize) -> (r: Option<usize>)
        requires
            Self::capacity() <= usize::MAX,
        ensures
            is_greatest_in(|i: int| self@.contains(i), 0, bit as int, r),
    {
        let r = bit_array::last_match_before(&self.data, bit, true);
        proof {
            let p = |i: int| self@.contains(i);
            assert(p =~= (|i: int| seq_bit(self.data@, i) == true));
            self.lemma_in_range();
            assert forall|j: int| Self::capacity() <= j implies !#[trigger] p(j) by {}
        }
        r
    }

    /// Returns the smallest bit *not* in the set, or `None` if full.
    pub fn first_unset(&self) -> (r: Option<usize>)
        requires
            Self::capacity() <= usize::MAX,
        ensures
            is_least_in(|i: int| !self@.contains(i), 0, Self::capacity(), r),
    {
        proof {
            assert((|i: int| !self@.contains(i)) =~= (|i: int| seq_bit(self.data@, i) == false));
        }
        bit_array::first_match(&self.data, false)
    }

    /// Returns the largest bit *not* in the set, or `None` if full.
    pub fn last_unset(&self) -> (r: Option<usize>)
        requires
            Self::capacity() <= usize::MAX,
        ensures
            is_greatest_in(|i: int| !self@.contains(i), 0, Self::capacity(), r),
    {
        proof {
            assert((|i: int| !self@.contains(i)) =~= (|i: int| seq_bit(self.data@, i) == false));
        }
        bit_array::last_match(&self.data, false)
    }

    /// Returns the smallest bit *not* in the set, strictly greater than `bit`.
    pub fn first_unset_after(&self, bit: usize) -> (r: Option<usize>)
        requires
            Self::capacity() <= usize::MAX,
        ensures
            is_least_in(|i: int| !self@.contains(i), bit + 1, Self::capacity(), r),
    {
        proof {
            assert((|i: int| !self@.contains(i)) =~= (|i: int| seq_bit(self.data@, i) == false));
        }
        bit_array::first_match_after(&self.data, bit, false)
    }

    /// Returns the largest bit *not* in the set, strictly less than `bit`.
    pub fn last_unset_before(&self, bit: usize) -> (r: Option<usize>)
        requires
            Self::capacity() <= usize::MAX,
        ensures
            is_greatest_in(
                |i: int| !self@.contains(i),
                0,
                if bit < Self::capacity() {
                    bit as int
                } else {
                    Self::capacity()
                },
                r,
            ),
    {
        proof {
            assert((|i: int| !self@.contains(i)) =~= (|i: int| seq_bit(self.data@, i) == false));
        }
        bit_array::last_match_before(&self.data, bit, false)
    }

    /// Returns a read-only view of the underlying words.
    pub fn words(&self) -> (r: &[W])
        ensures
            r@ == self.word_seq(),
    {
        &self.data
    }

    /// Returns a mutable view of the underlying words.
    pub fn words_mut(&mut self) -> (r: &mut [W])
        ensures
            r@ == old(self).word_seq(),
            final(self).word_seq() == final(r)@,
    {
        &mut self.data
    }

    /// Returns an iterator over the set bits, in ascending order.
    pub fn iter(&self) -> (r: StaticBitSetIterator<'_, W, WORDS>)
        ensures
            r.set() == self@,
            r.last_yielded() == None::<usize>,
    {
        StaticBitSetIterator { bitset: self, prev: None }
    }
}

impl<'a, W: Word, const WORDS: usize> StaticBitSetIterator<'a, W, WORDS> {
    /// The positions of the bit set being walked.
    pub closed spec fn set(&self) -> Set<int> {
        self.bitset@
    }

    /// The position returned by the previous call of `next`, `None` before the first one
    /// and after the walk has ended.
    pub closed spec fn last_yielded(&self) -> Option<usize> {
        self.prev
    }

    /// What one call of `next` does: `r` is the least position of the set from just past
    /// the previous answer on (from 0 when there was none), or `None` when no position is
    /// left, and `after` is the walk it leaves, which remembers `r`.
    pub open spec fn next_step(&self, r: Option<usize>, after: &Self) -> bool {
        &&& after.set() == self.set()
        &&& after.last_yielded() == r
        &&& is_least_in(
            |i: int| self.set().contains(i),
            resume_at(self.last_yielded()),
            StaticBitSet::<W, WORDS>::capacity(),
            r,
        )
    }

    /// Returns the next set bit in ascending order; after the last one it returns `None`
    /// and the walk starts over.
    pub fn next(&mut self) -> (r: Option<usize>)
        requires
            StaticBitSet::<W, WORDS>::capacity() <= usize::MAX,
        ensures
            old(self).next_step(r, final(self)),
    {
        let next_bit = match self.prev {
            None => self.bitset.first_set(),
            Some(prev) => self.bitset.first_set_after(prev),
        };
        self.prev = next_bit;
        next_bit
    }
}


impl<W: Word, const WORDS: usize> BitOrAssign<&Self> for StaticBitSet<W, WORDS> {
    /// In-place `|` with `rhs`, word by word.
    fn bitor_assign(&mut self, rhs: &Self)
        ensures
            final(self)@ == old(self)@.union(rhs@),
    {
        bit_array::combine(&mut self.data, &rhs.data, Merge::Union);
        assert(self@ =~= old(self)@.union(rhs@));
    }
}

impl<W: Word, const WORDS: usize> BitAndAssign<&Self> for StaticBitSet<W, WORDS> {
    /// In-place `&` with `rhs`, word by word.
    fn bitand_assign(&mut self, rhs: &Self)
        ensures
            final(self)@ == old(self)@.intersect(rhs@),
    {
        bit_array::combine(&mut self.data, &rhs.data, Merge::Intersection);
        assert(self@ =~= old(self)@.intersect(rhs@));
    }
}

impl<W: Word, const WORDS: usize> BitXorAssign<&Self> for StaticBitSet<W, WORDS> {
    /// In-place `^` with `rhs`, word by word.
    fn bitxor_assign(&mut self, rhs: &Self)
        ensures
            final(self)@ == old(self)@.difference(rhs@).union(rhs@.difference(old(self)@)),
    {
        bit_array::combine(&mut self.data, &rhs.data, Merge::SymmetricDifference);
        assert(self@ =~= old(self)@.difference(rhs@).union(rhs@.difference(old(self)@)));
    }
}

/// `bitor_spec` names a set holding the positions that are in either of the two sets.
/// `obeys_bitor_spec` is false, so nothing is concluded through it: `bitor`
/// below states its result in its own `ensures`.
impl<'a, W: Word, const WORDS: usize> vstd::std_specs::ops::BitOrSpecImpl for &'a StaticBitSet<W, WORDS> {
    open spec fn obeys_bitor_spec() -> bool {
        false
    }

    open spec fn bitor_req(self, rhs: Self) -> bool {
        true
    }

    open spec fn bitor_spec(self, rhs: Self) -> StaticBitSet<W, WORDS> {
        choose|r: StaticBitSet<W, WORDS>| r@ == self@.union(rhs@)
    }
}

impl<'a, W: Word, const WORDS: usize> BitOr for &'a StaticBitSet<W, WORDS> {
    type Output = StaticBitSet<W, WORDS>;

    fn bitor(self, rhs: Self) -> (r: StaticBitSet<W, WORDS>)
        ensures
            r@ == self@.union(rhs@),
    {
        let mut result = *self;
        bit_array::combine(&mut result.data, &rhs.data, Merge::Union);
        assert(result@ =~= self@.union(rhs@));
        result
    }
}

/// `bitand_spec` names a set holding the positions that are in both of the two sets.
/// `obeys_bitand_spec` is false, so nothing is concluded through it: `bitand`
/// below states its result in its own `ensures`.
impl<'a, W: Word, const WORDS: usize> vstd::std_specs::ops::BitAndSpecImpl for &'a StaticBitSet<W, WORDS> {
    open spec fn obeys_bitand_spec() -> bool {
        false
    }

    open spec fn bitand_req(self, rhs: Self) -> bool {
        true
    }

    open spec fn bitand_spec(self, rhs: Self) -> StaticBitSet<W, WORDS> {
        choose|r: StaticBitSet<W, WORDS>| r@ == self@.intersect(rhs@)
    }
}

impl<'a, W: Word, const WORDS: usize> BitAnd for &'a StaticBitSet<W, WORDS> {
    type Output = StaticBitSet<W, WORDS>;

    fn bitand(self, rhs: Self) -> (r: StaticBitSet<W, WORDS>)
        ensures
            r@ == self@.intersect(rhs@),
    {
        let mut result = *self;
        bit_array::combine(&mut result.data, &rhs.data, Merge::Intersection);
        assert(result@ =~= self@.intersect(rhs@));
        result
    }
}

/// `bitxor_spec` names a set holding the positions that are in exactly one of the two sets.
/// `obeys_bitxor_spec` is false, so nothing is concluded through it: `bitxor`
/// below states its result in its own `ensures`.
impl<'a, W: Word, const WORDS: usize> vstd::std_specs::ops::BitXorSpecImpl for &'a StaticBitSet<W, WORDS> {
    open spec fn obeys_bitxor_spec() -> bool {
        false
    }

    open spec fn bitxor_req(self, rhs: Self) -> bool {
        true
    }

    open spec fn bitxor_spec(self, rhs: Self) -> StaticBitSet<W, WORDS> {
        choose|r: StaticBitSet<W, WORDS>| r@ == self@.difference(rhs@).union(rhs@.difference(self@))
    }
}

impl<'a, W: Word, const WORDS: usize> BitXor for &'a StaticBitSet<W, WORDS> {
    type Output = StaticBitSet<W, WORDS>;

    fn bitxor(self, rhs: Self) -> (r: StaticBitSet<W, WORDS>)
        ensures
            r@ == self@.difference(rhs@).union(rhs@.difference(self@)),
    {
        let mut result = *self;
        bit_array::combine(&mut result.data, &rhs.data, Merge::SymmetricDifference);
        assert(result@ =~= self@.difference(rhs@).union(rhs@.difference(self@)));
        result
    }
}

/// `not_spec` names a set holding the positions below the capacity that are not in the set.
/// `obeys_not_spec` is false, so nothing is concluded through it: `not`
/// below states its result in its own `ensures`.
impl<'a, W: Word, const WORDS: usize> vstd::std_specs::ops::NotSpecImpl for &'a StaticBitSet<W, WORDS> {
    open spec fn obeys_not_spec() -> bool {
        false
    }

    open spec fn not_req(self) -> bool {
        true
    }

    open spec fn not_spec(self) -> StaticBitSet<W, WORDS> {
        choose|r: StaticBitSet<W, WORDS>| r@ == full_range(StaticBitSet::<W, WORDS>::capacity()).difference(self@)
    }
}

impl<'a, W: Word, const WORDS: usize> Not for &'a StaticBitSet<W, WORDS> {
    type Output = StaticBitSet<W, WORDS>;

    fn not(self) -> (r: StaticBitSet<W, WORDS>)
        ensures
            r@ == full_range(StaticBitSet::<W, WORDS>::capacity()).difference(self@),
    {
        let mut result = *self;
        bit_array::complement(&mut result.data);
        assert(result@ =~= full_range(StaticBitSet::<W, WORDS>::capacity()).difference(
            self@,
        ));
        result
    }
}

impl<W: Word, const WORDS: usize> Default for StaticBitSet<W, WORDS> {
    fn default() -> (r: Self)
        ensures
            r@ == Set::<int>::empty(),
    {
        Self::new()
    }
}

impl<W: Word, const WORDS: usize> PartialEq for StaticBitSet<W, WORDS> {
    fn eq(&self, other: &Self) -> (r: bool) {
        let r = bit_array::same_bits(&self.data, &other.data);
        proof {
            if r {
                assert(self@ =~= other@);
            } else {
                let i = choose|i: int| #[trigger] seq_bit(self.data@, i) != seq_bit(other.data@, i);
                assert(self@.contains(i) != other@.contains(i));
            }
        }
        r
    }
}

impl<W: Word, const WORDS: usize> vstd::std_specs::cmp::PartialEqSpecImpl for StaticBitSet<W, WORDS> {
    open spec fn obeys_eq_spec() -> bool {
        true
    }

    /// Two bit sets are equal when they hold the same positions.
    open spec fn eq_spec(&self, other: &Self) -> bool {
        self@ == other@
    }
}

impl<W: Word, const WORDS: usize> Eq for StaticBitSet<W, WORDS> {

}

} // verus!
