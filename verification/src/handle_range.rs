use vstd::prelude::*;

use crate::handle::Handle;
use std::marker::PhantomData;
use std::ops::Range;

verus! {

/// A contiguous run of handles, `count` of them starting at index `start`.
pub struct HandleRange<K> {
    start: u32,
    count: u32,
    _marker: PhantomData<K>,
}

impl<K> HandleRange<K> {
    /// The index of the first handle of the range.
    pub closed spec fn first_index(&self) -> nat {
        self.start as nat
    }

    /// The number of handles in the range.
    pub closed spec fn size(&self) -> nat {
        self.count as nat
    }
}

impl<K: Handle> HandleRange<K> {
    /// What one call of `next` does: `r` is the handle it hands out, taken off the front,
    /// or `None` when the range was already empty, and `after` is the range it leaves.
    pub open spec fn next_step(&self, r: Option<K>, after: &Self) -> bool {
        match r {
            Some(k) => {
                &&& self.size() > 0
                &&& k.spec_index() == self.first_index()
                &&& after.first_index() == self.first_index() + 1
                &&& after.size() == self.size() - 1
            },
            None => {
                &&& self.size() == 0
                &&& after.first_index() == self.first_index()
                &&& after.size() == 0
            },
        }
    }

    /// The range of the handles from `range.start` up to, not including, `range.end`.
    pub fn new(range: Range<K>) -> (r: Self)
        requires
            range.start.spec_index() <= u32::MAX,
            range.start.spec_index() <= range.end.spec_index(),
            range.end.spec_index() - range.start.spec_index() <= u32::MAX,
        ensures
            r.first_index() == range.start.spec_index(),
            r.size() == range.end.spec_index() - range.start.spec_index(),
            r.first_index() + r.size() < K::index_limit(),
    {
        proof {
            range.end.lemma_index_below_limit();
        }
        let first = range.start.index();
        let last = range.end.index();
        let start = first as u32;
        let count = (last - first) as u32;
        Self { start, count, _marker: PhantomData }
    }

    /// Whether the range holds no handle.
    pub fn is_empty(&self) -> (r: bool)
        ensures
            r == (self.size() == 0),
    {
        self.count == 0
    }

    /// The first handle of the range.
    pub fn start(&self) -> (r: K)
        requires
            self.first_index() < K::index_limit(),
        ensures
            r.spec_index() == self.first_index(),
    {
        K::new(self.start as usize)
    }

    /// The handle just past the range.
    pub fn end(&self) -> (r: K)
        requires
            self.first_index() + self.size() <= u32::MAX,
            self.first_index() + self.size() < K::index_limit(),
        ensures
            r.spec_index() == self.first_index() + self.size(),
    {
        K::new((self.start + self.count) as usize)
    }

    /// Takes the first handle off the range, or returns `None` when the range is empty.
    pub fn next(&mut self) -> (r: Option<K>)
        requires
            old(self).size() > 0 ==> old(self).first_index() < u32::MAX,
            old(self).size() > 0 ==> old(self).first_index() < K::index_limit(),
        ensures
            old(self).next_step(r, final(self)),
    {
        if self.count > 0 {
            let k = K::new(self.start as usize);
            self.start = self.start + 1;
            self.count = self.count - 1;
            Some(k)
        } else {
            None
        }
    }

    /// Takes the last handle off the range, or returns `None` when the range is empty.
    pub fn next_back(&mut self) -> (r: Option<K>)
        requires
            old(self).size() > 0 ==> old(self).first_index() + old(self).size() - 1 <= u32::MAX,
            old(self).size() > 0 ==> old(self).first_index() + old(self).size() - 1 < K::index_limit(),
        ensures
            match r {
                Some(k) => {
                    &&& old(self).size() > 0
                    &&& k.spec_index() == old(self).first_index() + old(self).size() - 1
                    &&& final(self).first_index() == old(self).first_index()
                    &&& final(self).size() == old(self).size() - 1
                },
                None => {
                    &&& old(self).size() == 0
                    &&& final(self).first_index() == old(self).first_index()
                    &&& final(self).size() == 0
                },
            },
    {
        if self.count > 0 {
            self.count = self.count - 1;
            Some(K::new((self.start + self.count) as usize))
        } else {
            None
        }
    }

    /// The exact number of handles left, as lower and upper bound.
    pub fn size_hint(&self) -> (r: (usize, Option<usize>))
        ensures
            r.0 == self.size(),
            r.1 == Some(self.size() as usize),
    {
        let len = self.count as usize;
        (len, Some(len))
    }

    /// The number of handles left.
    pub fn len(&self) -> (r: usize)
        ensures
            r == self.size(),
    {
        self.count as usize
    }
}

impl<K> Clone for HandleRange<K> {
    fn clone(&self) -> (r: Self)
        ensures
            r.first_index() == self.first_index(),
            r.size() == self.size(),
    {
        Self { start: self.start, count: self.count, _marker: PhantomData }
    }
}

impl<K> Copy for HandleRange<K> {

}

impl<K> PartialEq for HandleRange<K> {
    fn eq(&self, other: &Self) -> (r: bool) {
        self.start == other.start && self.count == other.count
    }
}

impl<K> vstd::std_specs::cmp::PartialEqSpecImpl for HandleRange<K> {
    open spec fn obeys_eq_spec() -> bool {
        true
    }

    open spec fn eq_spec(&self, other: &Self) -> bool {
        self.first_index() == other.first_index() && self.size() == other.size()
    }
}

impl<K> Eq for HandleRange<K> {

}

} // verus!
