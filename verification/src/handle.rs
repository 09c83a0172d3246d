use vstd::prelude::*;

use std::marker::PhantomData;

verus! {

/// A typed key standing for a position in a handle map.
///
/// Implementations convert between a handle and the index it stands for.
/// `new` accepts indices below `index_limit()`; a handle built from `i`
/// reports `i` back from `index`.
pub trait Handle: Copy + Eq + Sized {
    /// The index this handle stands for.
    spec fn spec_index(&self) -> nat;

    /// Every index below this bound can be turned into a handle.
    spec fn index_limit() -> nat;

    /// The handle for position `index`.
    fn new(index: usize) -> (r: Self)
        requires
            index < Self::index_limit(),
        ensures
            r.spec_index() == index,
    ;

    /// The position this handle stands for.
    fn index(&self) -> (r: usize)
        ensures
            r == self.spec_index(),
    ;

    /// Every handle stands for an index below `index_limit()`: handles are only made
    /// from such indices.
    proof fn lemma_index_below_limit(&self)
        ensures
            self.spec_index() < Self::index_limit(),
    ;
}

/// A handle stored as its index plus one in a `u32` that is never zero; `T` tells apart
/// the handles of different kinds of items.
#[derive(Hash, Debug)]
pub struct Handle32<T> {
    raw: u32,
    _tag: PhantomData<T>,
}

impl<T> Handle32<T> {
    #[verifier::type_invariant]
    spec fn raw_nonzero(&self) -> bool {
        self.raw != 0
    }
}

impl<T> Handle for Handle32<T> {
    closed spec fn spec_index(&self) -> nat {
        if self.raw == 0 {
            0
        } else {
            (self.raw - 1) as nat
        }
    }

    open spec fn index_limit() -> nat {
        u32::MAX as nat
    }

    fn new(index: usize) -> (r: Self) {
        Self { raw: index as u32 + 1, _tag: PhantomData }
    }

    fn index(&self) -> (r: usize) {
        proof {
            use_type_invariant(self);
        }
        (self.raw - 1) as usize
    }

    proof fn lemma_index_below_limit(&self) {
    }
}

impl<T> Clone for Handle32<T> {
    fn clone(&self) -> (r: Self)
        ensures
            r.spec_index() == self.spec_index(),
    {
        *self
    }
}

impl<T> Copy for Handle32<T> {

}

impl<T> PartialEq for Handle32<T> {
    fn eq(&self, other: &Self) -> (r: bool) {
        proof {
            use_type_invariant(self);
            use_type_invariant(other);
        }
        self.raw == other.raw
    }
}

impl<T> vstd::std_specs::cmp::PartialEqSpecImpl for Handle32<T> {
    open spec fn obeys_eq_spec() -> bool {
        true
    }

    open spec fn eq_spec(&self, other: &Self) -> bool {
        self.spec_index() == other.spec_index()
    }
}

impl<T> Eq for Handle32<T> {

}

/// The entry at position `i` of `s`, or `None` when `i` is out of range.
pub open spec fn entry<V>(s: Seq<V>, i: int) -> Option<V> {
    if 0 <= i < s.len() {
        Some(s[i])
    } else {
        None
    }
}

} // verus!
