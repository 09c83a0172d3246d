use vstd::prelude::*;

use crate::bit_array::{
    self, BitUpdate, Merge, bits_of, full_range, is_greatest_in, is_least_in, resume_at, seq_bit, toggled, word_bits,
};
use crate::word::Word;
use std::ops::{BitAnd, BitAndAssign, BitOr, BitOrAssign, BitXor, BitXorAssign, Not};

verus! {

/// A fixed-capacity set of bit positions `0..WORDS * W::bits()`, stored in `WORDS` words.
#[derive(Clone, Copy, Hash)]
pub struct InlineBitSet<const WORDS: usize, W: Word = u64> {
    words: [W; WORDS],
}

/// Walks the positions of an [`InlineBitSet`] in ascending order.
pub struct InlineBitSetIterator<'a, const WORDS: usize, W: Word> {
    bitset: &'a InlineBitSet<WORDS, W>,
    last_yielded: Option<usize>,
}

impl<const WORDS: usize, W: Word> View for InlineBitSet<WORDS, W> {
    type V = Set<int>;

    /// The positions that are set.
    open spec fn view(&self) -> Set<int> {
        bits_of(self.word_seq())
    }
}

impl<const WORDS: usize, W: Word> InlineBitSet<WORDS, W> {
    /// The number of positions the set can hold.
    pub open spec fn capacity() -> int {
        WORDS * word_bits::<W>()
    }

    /// The words, lowest positions first.
    pub closed spec fn word_seq(&self) -> Seq<W> {
        self.words@
    }

    /// Every position of the set lies below the capacity.
    pub proof fn lemma_in_range(&self)
        ensures
            forall|i: int| #[trigger] self@.contains(i) ==> 0 <= i < Self::capacity(),
            self.word_seq().len() == WORDS,
    {
    }

    /// Creates a new empty bit set.
    pub fn new() -> (r: Self)
        ensures
            r@ == Set::<int>::empty(),
    {
        let r = Self { words: [W::zero(); WORDS] };
        assert(r@ =~= Set::<int>::empty()) by {
            assert forall|i: int| !#[trigger] seq_bit(r.words@, i) by {
                if 0 <= i < Self::capacity() {
                    bit_array::lemma_split_position(r.words@, i);
                }
            }
        }
        r
    }

    /// Returns whether `bit` is in the set.
    pub fn contains(&self, bit: usize) -> (r: bool)
        requires
            bit < Self::capacity(),
        ensures
            r == self@.contains(bit as int),
    {
        bit_array::contains(&self.words, bit)
    }

    /// Adds `bit` to the set.
    pub fn insert(&mut self, bit: usize)
        requires
            bit < Self::capacity(),
        ensures
            final(self)@ == old(self)@.insert(bit as int),
    {
        bit_array::update_bit(&mut self.words, bit, BitUpdate::Insert);
        assert(self@ =~= old(self)@.insert(bit as int));
    }

    /// Removes `bit` from the set.
    pub fn remove(&mut self, bit: usize)
        requires
            bit < Self::capacity(),
        ensures
            final(self)@ == old(self)@.remove(bit as int),
    {
        bit_array::update_bit(&mut self.words, bit, BitUpdate::Remove);
        assert(self@ =~= old(self)@.remove(bit as int));
    }

    /// Toggles `bit`.
    pub fn toggle(&mut self, bit: usize)
        requires
            bit < Self::capacity(),
        ensures
            final(self)@ == toggled(old(self)@, bit as int),
    {
        bit_array::update_bit(&mut self.words, bit, BitUpdate::Toggle);
        proof {
            if old(self)@.contains(bit as int) {
                assert(self@ =~= old(self)@.remove(bit as int));
            } else {
                assert(self@ =~= old(self)@.insert(bit as int));
            }
        }
    }

    /// Clears the set, removing all bits.
    pub fn clear(&mut self)
        ensures
            final(self)@ == Set::<int>::empty(),
    {
        bit_array::set_all(&mut self.words, false);
        assert(self@ =~= Set::<int>::empty());
    }

    /// Fills the set, adding all possible bits.
    pub fn fill(&mut self)
        ensures
            final(self)@ == full_range(Self::capacity()),
    {
        bit_array::set_all(&mut self.words, true);
        assert(self@ =~= full_range(Self::capacity()));
    }

    /// Returns the number of bits set.
    pub fn len(&self) -> (r: usize)
        requires
            Self::capacity() <= usize::MAX,
        ensures
            r == self@.len(),
    {
        bit_array::count(&self.words)
    }

    /// Returns whether the set is empty.
    pub fn is_empty(&self) -> (r: bool)
        ensures
            r == (self@ == Set::<int>::empty()),
    {
        let r = bit_array::all_match(&self.words, false);
        proof {
            if r {
                assert(self@ =~= Set::<int>::empty());
            } else {
                let j = choose|j: int|
                    0 <= j < Self::capacity() && #[trigger] seq_bit(self.words@, j) != false;
                assert(self@.contains(j));
            }
        }
        r
    }

    /// Returns whether the set is full.
    pub fn is_full(&self) -> (r: bool)
        ensures
            r == (self@ == full_range(Self::capacity())),
    {
        let r = bit_array::all_match(&self.words, true);
        proof {
            if r {
                assert(self@ =~= full_range(Self::capacity()));
            } else {
                let j = choose|j: int|
                    0 <= j < Self::capacity() && #[trigger] seq_bit(self.words@, j) != true;
                assert(!self@.contains(j));
                assert(full_range(Self::capacity()).contains(j));
            }
        }
        r
    }

    /// Returns the smallest bit in the set, or `None` if empty.
    pub fn first_set(&self) -> (r: Option<usize>)
        requires
            Self::capacity() <= usize::MAX,
        ensures
            is_least_in(|i: int| self@.contains(i), 0, Self::capacity(), r),
    {
        proof {
            assert((|i: int| self@.contains(i)) =~= (|i: int| seq_bit(self.words@, i) == true));
        }
        bit_array::first_match(&self.words, true)
    }

    /// Returns the largest bit in the set, or `None` if empty.
    pub fn last_set(&self) -> (r: Option<usize>)
        requires
            Self::capacity() <= usize::MAX,
        ensures
            is_greatest_in(|i: int| self@.contains(i), 0, Self::capacity(), r),
    {
        proof {
            assert((|i: int| self@.contains(i)) =~= (|i: int| seq_bit(self.words@, i) == true));
        }
        bit_array::last_match(&self.words, true)
    }

    /// Returns the smallest bit strictly greater than `bit`, or `None`.
    pub fn first_set_after(&self, bit: usize) -> (r: Option<usize>)
        requires
            Self::capacity() <= usize::MAX,
        ensures
            is_least_in(|i: int| self@.contains(i), bit + 1, Self::capacity(), r),
    {
        proof {
            assert((|i: int| self@.contains(i)) =~= (|i: int| seq_bit(self.words@, i) == true));
        }
        bit_array::first_match_after(&self.words, bit, true)
    }

    /// Returns the largest bit strictly less than `bit`, or `None`.
    pub fn last_set_before(&self, bit: usize) -> (r: Option<usize>)
        requires
            Self::capacity() <= usize::MAX,
        ensures
            is_greatest_in(|i: int| self@.contains(i), 0, bit as int, r),
    {
        let r = bit_array::last_match_before(&self.words, bit, true);
        proof {
            let p = |i: int| self@.contains(i);
            assert(p =~= (|i: int| seq_bit(self.words@, i) == true));
            self.lemma_in_range();
            assert forall|j: int| Self::capacity() <= j implies !#[trigger] p(j) by {}
        }
        r
    }

    /// Returns the smallest bit *not* in the set, or `None` if full.
    pub fn first_unset(&self) -> (r: Option<usize>)
        requires
            Self::capacity() <= usize::MAX,
        ensures
            is_least_in(|i: int| !self@.contains(i), 0, Self::capacity(), r),
    {
        proof {
            assert((|i: int| !self@.contains(i)) =~= (|i: int| seq_bit(self.words@, i) == false));
        }
        bit_array::first_match(&self.words, false)
    }

    /// Returns the largest bit *not* in the set, or `None` if full.
    pub fn last_unset(&self) -> (r: Option<usize>)
        requires
            Self::capacity() <= usize::MAX,
        ensures
            is_greatest_in(|i: int| !self@.contains(i), 0, Self::capacity(), r),
    {
        proof {
            assert((|i: int| !self@.contains(i)) =~= (|i: int| seq_bit(self.words@, i) == false));
        }
        bit_array::last_match(&self.words, false)
    }

    /// Returns the smallest bit *not* in the set, strictly greater than `bit`.
    pub fn first_unset_after(&self, bit: usize) -> (r: Option<usize>)
        requires
            Self::capacity() <= usize::MAX,
        ensures
            is_least_in(|i: int| !self@.contains(i), bit + 1, Self::capacity(), r),
    {
        proof {
            assert((|i: int| !self@.contains(i)) =~= (|i: int| seq_bit(self.words@, i) == false));
        }
        bit_array::first_match_after(&self.words, bit, false)
    }

    /// Returns the largest bit *not* in the set, strictly less than `bit`.
    pub fn last_unset_before(&self, bit: usize) -> (r: Option<usize>)
        requires
            Self::capacity() <= usize::MAX,
        ensures
            is_greatest_in(
                |i: int| !self@.contains(i),
                0,
                if bit < Self::capacity() {
                    bit as int
                } else {
                    Self::capacity()
                },
                r,
            ),
    {
        proof {
            assert((|i: int| !self@.contains(i)) =~= (|i: int| seq_bit(self.words@, i) == false));
        }
        bit_array::last_match_before(&self.words, bit, false)
    }

    /// Returns a read-only view of the underlying words.
    pub fn words(&self) -> (r: &[W])
        ensures
            r@ == self.word_seq(),
    {
        &self.words
    }

    /// Returns a mutable view of the underlying words.
    pub fn words_mut(&mut self) -> (r: &mut [W])
        ensures
            r@ == old(self).word_seq(),
            final(self).word_seq() == final(r)@,
    {
        &mut self.words
    }

    /// Returns an iterator over the set bits, in ascending order.
    pub fn iter(&self) -> (r: InlineBitSetIterator<'_, WORDS, W>)
        ensures
            r.set() == self@,
            r.last_yielded() == None::<usize>,
    {
        InlineBitSetIterator { bitset: self, last_yielded: None }
    }
}

impl<'a, const WORDS: usize, W: Word> InlineBitSetIterator<'a, WORDS, W> {
    /// The positions of the bit set being walked.
    pub closed spec fn set(&self) -> Set<int> {
        self.bitset@
    }

    /// The position returned by the previous call of `next`, `None` before the first one
    /// and after the walk has ended.
    pub closed spec fn last_yielded(&self) -> Option<usize> {
        self.last_yielded
    }

    /// What one call of `next` does: `r` is the least position of the set from just past
    /// the previous answer on (from 0 when there was none), or `None` when no position is
    /// left, and `after` is the walk it leaves, which remembers `r`.
    pub open spec fn next_step(&self, r: Option<usize>, after: &Self) -> bool {
        &&& after.set() == self.set()
        &&& after.last_yielded() == r
        &&& is_least_in(
            |i: int| self.set().contains(i),
            resume_at(self.last_yielded()),
            InlineBitSet::<WORDS, W>::capacity(),
            r,
        )
    }

    /// Returns the next set bit in ascending order; after the last one it returns `None`
    /// and the walk starts over.
    pub fn next(&mut self) -> (r: Option<usize>)
        requires
            InlineBitSet::<WORDS, W>::capacity() <= usize::MAX,
        ensures
            old(self).next_step(r, final(self)),
    {
        let next_bit = match self.last_yielded {
            None => self.bitset.first_set(),
            Some(prev) => self.bitset.first_set_after(prev),
        };
        self.last_yielded = next_bit;
        next_bit
    }
}


impl<const WORDS: usize, W: Word> BitOrAssign<&Self> for InlineBitSet<WORDS, W> {
    /// In-place `|` with `rhs`, word by word.
    fn bitor_assign(&mut self, rhs: &Self)
        ensures
            final(self)@ == old(self)@.union(rhs@),
    {
        bit_array::combine(&mut self.words, &rhs.words, Merge::Union);
        assert(self@ =~= old(self)@.union(rhs@));
    }
}

impl<const WORDS: usize, W: Word> BitAndAssign<&Self> for InlineBitSet<WORDS, W> {
    /// In-place `&` with `rhs`, word by word.
    fn bitand_assign(&mut self, rhs: &Self)
        ensures
            final(self)@ == old(self)@.intersect(rhs@),
    {
        bit_array::combine(&mut self.words, &rhs.words, Merge::Intersection);
        assert(self@ =~= old(self)@.intersect(rhs@));
    }
}

impl<const WORDS: usize, W: Word> BitXorAssign<&Self> for InlineBitSet<WORDS, W> {
    /// In-place `^` with `rhs`, word by word.
    fn bitxor_assign(&mut self, rhs: &Self)
        ensures
            final(self)@ == old(self)@.difference(rhs@).union(rhs@.difference(old(self)@)),
    {
        bit_array::combine(&mut self.words, &rhs.words, Merge::SymmetricDifference);
        assert(self@ =~= old(self)@.difference(rhs@).union(rhs@.difference(old(self)@)));
    }
}

/// `bitor_spec` names a set holding the positions that are in either of the two sets.
/// `obeys_bitor_spec` is false, so nothing is concluded through it: `bitor`
/// below states its result in its own `ensures`.
impl<'a, const WORDS: usize, W: Word> vstd::std_specs::ops::BitOrSpecImpl for &'a InlineBitSet<WORDS, W> {
    open spec fn obeys_bitor_spec() -> bool {
        false
    }

    open spec fn bitor_req(self, rhs: Self) -> bool {
        true
    }

    open spec fn bitor_spec(self, rhs: Self) -> InlineBitSet<WORDS, W> {
        choose|r: InlineBitSet<WORDS, W>| r@ == self@.union(rhs@)
    }
}

impl<'a, const WORDS: usize, W: Word> BitOr for &'a InlineBitSet<WORDS, W> {
    type Output = InlineBitSet<WORDS, W>;

    fn bitor(self, rhs: Self) -> (r: InlineBitSet<WORDS, W>)
        ensures
            r@ == self@.union(rhs@),
    {
        let mut result = *self;
        bit_array::combine(&mut result.words, &rhs.words, Merge::Union);
        assert(result@ =~= self@.union(rhs@));
        result
    }
}

/// `bitand_spec` names a set holding the positions that are in both of the two sets.
/// `obeys_bitand_spec` is false, so nothing is concluded through it: `bitand`
/// below states its result in its own `ensures`.
impl<'a, const WORDS: usize, W: Word> vstd::std_specs::ops::BitAndSpecImpl for &'a InlineBitSet<WORDS, W> {
    open spec fn obeys_bitand_spec() -> bool {
        false
    }

    open spec fn bitand_req(self, rhs: Self) -> bool {
        true
    }

    open spec fn bitand_spec(self, rhs: Self) -> InlineBitSet<WORDS, W> {
        choose|r: InlineBitSet<WORDS, W>| r@ == self@.intersect(rhs@)
    }
}

impl<'a, const WORDS: usize, W: Word> BitAnd for &'a InlineBitSet<WORDS, W> {
    type Output = InlineBitSet<WORDS, W>;

    fn bitand(self, rhs: Self) -> (r: InlineBitSet<WORDS, W>)
        ensures
            r@ == self@.intersect(rhs@),
    {
        let mut result = *self;
        bit_array::combine(&mut result.words, &rhs.words, Merge::Intersection);
        assert(result@ =~= self@.intersect(rhs@));
        result
    }
}

/// `bitxor_spec` names a set holding the positions that are in exactly one of the two sets.
/// `obeys_bitxor_spec` is false, so nothing is concluded through it: `bitxor`
/// below states its result in its own `ensures`.
impl<'a, const WORDS: usize, W: Word> vstd::std_specs::ops::BitXorSpecImpl for &'a InlineBitSet<WORDS, W> {
    open spec fn obeys_bitxor_spec() -> bool {
        false
    }

    open spec fn bitxor_req(self, rhs: Self) -> bool {
        true
    }

    open spec fn bitxor_spec(self, rhs: Self) -> InlineBitSet<WORDS, W> {
        choose|r: InlineBitSet<WORDS, W>| r@ == self@.difference(rhs@).union(rhs@.difference(self@))
    }
}

impl<'a, const WORDS: usize, W: Word> BitXor for &'a InlineBitSet<WORDS, W> {
    type Output = InlineBitSet<WORDS, W>;

    fn bitxor(self, rhs: Self) -> (r: InlineBitSet<WORDS, W>)
        ensures
            r@ == self@.difference(rhs@).union(rhs@.difference(self@)),
    {
        let mut result = *self;
        bit_array::combine(&mut result.words, &rhs.words, Merge::SymmetricDifference);
        assert(result@ =~= self@.difference(rhs@).union(rhs@.difference(self@)));
        result
    }
}

/// `not_spec` names a set holding the positions below the capacity that are not in the set.
/// `obeys_not_spec` is false, so nothing is concluded through it: `not`
/// below states its result in its own `ensures`.
impl<'a, const WORDS: usize, W: Word> vstd::std_specs::ops::NotSpecImpl for &'a InlineBitSet<WORDS, W> {
    open spec fn obeys_not_spec() -> bool {
        false
    }

    open spec fn not_req(self) -> bool {
        true
    }

    open spec fn not_spec(self) -> InlineBitSet<WORDS, W> {
        choose|r: InlineBitSet<WORDS, W>| r@ == full_range(InlineBitSet::<WORDS, W>::capacity()).difference(self@)
    }
}

impl<'a, const WORDS: usize, W: Word> Not for &'a InlineBitSet<WORDS, W> {
    type Output = InlineBitSet<WORDS, W>;

    fn not(self) -> (r: InlineBitSet<WORDS, W>)
        ensures
            r@ == full_range(InlineBitSet::<WORDS, W>::capacity()).difference(self@),
    {
        let mut result = *self;
        bit_array::complement(&mut result.words);
        assert(result@ =~= full_range(InlineBitSet::<WORDS, W>::capacity()).difference(
            self@,
        ));
        result
    }
}

impl<const WORDS: usize, W: Word> Default for InlineBitSet<WORDS, W> {
    fn default() -> (r: Self)
        ensures
            r@ == Set::<int>::empty(),
    {
        Self::new()
    }
}

impl<const WORDS: usize, W: Word> PartialEq for InlineBitSet<WORDS, W> {
    fn eq(&self, other: &Self) -> (r: bool) {
        let r = bit_array::same_bits(&self.words, &other.words);
        proof {
            if r {
                assert(self@ =~= other@);
            } else {
                let i = choose|i: int| #[trigger] seq_bit(self.words@, i) != seq_bit(other.words@, i);
                assert(self@.contains(i) != other@.contains(i));
            }
        }
        r
    }
}

impl<const WORDS: usize, W: Word> vstd::std_specs::cmp::PartialEqSpecImpl for InlineBitSet<WORDS, W> {
    open spec fn obeys_eq_spec() -> bool {
        true
    }

    /// Two bit sets are equal when they hold the same positions.
    open spec fn eq_spec(&self, other: &Self) -> bool {
        self@ == other@
    }
}

impl<const WORDS: usize, W: Word> Eq for InlineBitSet<WORDS, W> {

}

} // verus!
