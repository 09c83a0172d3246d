use vstd::prelude::*;

verus! {

/// A list of at most `N` elements.
pub struct StaticArrayList<E, const N: usize> {
    data: Vec<E>,
}

impl<E, const N: usize> View for StaticArrayList<E, N> {
    type V = Seq<E>;

    /// The elements, in order.
    closed spec fn view(&self) -> Seq<E> {
        self.data@
    }
}

impl<E, const N: usize> StaticArrayList<E, N> {
    /// The list holds at most `N` elements. Every constructor makes a list that does, and
    /// every method that changes the list is shown to keep it so, but for `slice_mut` and
    /// `iter_mut`, whose `ensures` tie the list to whatever the returned slice ends as.
    pub open spec fn well_formed(&self) -> bool {
        self@.len() <= N
    }

    /// Creates an empty list.
    pub fn new() -> (r: Self)
        ensures
            r@ == Seq::<E>::empty(),
            r.well_formed(),
    {
        Self { data: Vec::with_capacity(N) }
    }

    /// The number of elements.
    pub fn count(&self) -> (r: usize)
        ensures
            r == self@.len(),
            self.well_formed() ==> r <= N,
    {
        self.data.len()
    }

    /// The most elements the list can hold.
    pub fn capacity(&self) -> (r: usize)
        ensures
            r == N,
    {
        N
    }

    /// Whether the list holds no element.
    pub fn is_empty(&self) -> (r: bool)
        ensures
            r == (self@.len() == 0),
    {
        self.data.len() == 0
    }

    /// Whether the list holds `N` elements.
    pub fn is_full(&self) -> (r: bool)
        ensures
            r == (self@.len() == N),
    {
        self.data.len() == N
    }

    /// Appends `element`; the list must not be full.
    pub fn add_last(&mut self, element: E)
        requires
            old(self)@.len() < N,
        ensures
            final(self)@ == old(self)@.push(element),
            final(self).well_formed(),
    {
        self.data.push(element);
    }

    /// What `pop` does: `r` is the last element, taken off to leave `after`, or `None`
    /// when the list is empty, which `after` then is too.
    pub open spec fn pop_step(&self, r: Option<E>, after: &Self) -> bool {
        match r {
            Some(e) => {
                &&& self@.len() > 0
                &&& e == self@.last()
                &&& after@ == self@.drop_last()
            },
            None => {
                &&& self@.len() == 0
                &&& after@ == self@
            },
        }
    }

    /// Removes and returns the last element, or `None` when the list is empty.
    pub fn pop(&mut self) -> (r: Option<E>)
        ensures
            old(self).pop_step(r, final(self)),
            old(self).well_formed() ==> final(self).well_formed(),
    {
        self.data.pop()
    }

    /// The element at `index`, which must be below `count()`.
    pub fn get(&self, index: usize) -> (r: &E)
        requires
            index < self@.len(),
        ensures
            *r == self@[index as int],
    {
        &self.data[index]
    }

    /// Mutable access to the element at `index`, which must be below `count()`.
    pub fn get_mut(&mut self, index: usize) -> (r: &mut E)
        requires
            index < old(self)@.len(),
        ensures
            *r == old(self)@[index as int],
            final(self)@ == old(self)@.update(index as int, *final(r)),
            old(self).well_formed() ==> final(self).well_formed(),
    {
        &mut self.data[index]
    }

    /// The elements as a slice.
    pub fn slice(&self) -> (r: &[E])
        ensures
            r@ == self@,
    {
        self.data.as_slice()
    }

    /// The elements as a mutable slice. Writing through the slice changes elements in
    /// place; the slice has the list's length and cannot change it.
    pub fn slice_mut(&mut self) -> (r: &mut [E])
        ensures
            r@ == old(self)@,
            final(self)@ == final(r)@,
    {
        self.data.as_mut_slice()
    }

    /// Inserts `element` at `index`, shifting the later elements up; the list must not be
    /// full and `index` must not exceed `count()`.
    pub fn add(&mut self, index: usize, element: E)
        requires
            old(self)@.len() < N,
            index <= old(self)@.len(),
        ensures
            final(self)@ == old(self)@.insert(index as int, element),
            final(self).well_formed(),
    {
        self.data.insert(index, element);
    }

    /// Removes and returns the element at `index`, shifting the later elements down;
    /// `index` must be below `count()`.
    pub fn remove(&mut self, index: usize) -> (r: E)
        requires
            index < old(self)@.len(),
        ensures
            r == old(self)@[index as int],
            final(self)@ == old(self)@.remove(index as int),
            old(self).well_formed() ==> final(self).well_formed(),
    {
        self.data.remove(index)
    }

    /// Drops the elements from `new_count` on; `new_count` must not exceed `count()`.
    pub fn truncate(&mut self, new_count: usize)
        requires
            new_count <= old(self)@.len(),
        ensures
            final(self)@ == old(self)@.subrange(0, new_count as int),
            old(self).well_formed() ==> final(self).well_formed(),
    {
        self.data.truncate(new_count);
    }

    /// Removes every element.
    pub fn clear(&mut self)
        ensures
            final(self)@ == Seq::<E>::empty(),
            final(self).well_formed(),
    {
        self.truncate(0);
    }

    /// The last element, or `None` when the list is empty.
    pub fn last(&self) -> (r: Option<&E>)
        ensures
            match r {
                Some(e) => self@.len() > 0 && *e == self@.last(),
                None => self@.len() == 0,
            },
    {
        let n = self.data.len();
        if n == 0 {
            return None;
        }
        Some(&self.data[n - 1])
    }

    /// Mutable access to the last element, or `None` when the list is empty.
    pub fn last_mut(&mut self) -> (r: Option<&mut E>)
        ensures
            match r {
                Some(e) => old(self)@.len() > 0 && *e == old(self)@.last() && final(self)@ == old(
                    self,
                )@.update(old(self)@.len() - 1, *final(e)),
                None => old(self)@.len() == 0 && final(self)@ == old(self)@,
            },
            old(self).well_formed() ==> final(self).well_formed(),
    {
        let n = self.data.len();
        if n == 0 {
            return None;
        }
        Some(&mut self.data[n - 1])
    }

    /// The elements, in order.
    pub fn iter(&self) -> (r: std::slice::Iter<'_, E>)
        ensures
            vstd::std_specs::iter::IteratorSpec::remaining(&r) == self@.as_ref(),
    {
        self.slice().iter()
    }

    /// The elements, in order, for changing in place, as a mutable slice of the list's
    /// length.
    pub fn iter_mut(&mut self) -> (r: &mut [E])
        ensures
            r@ == old(self)@,
            final(self)@ == final(r)@,
    {
        self.slice_mut()
    }
}

impl<E, const N: usize> Default for StaticArrayList<E, N> {
    fn default() -> (r: Self)
        ensures
            r@ == Seq::<E>::empty(),
            r.well_formed(),
    {
        Self::new()
    }
}

/// `try_from_spec` names a list of clones of the items, or `Err(())` when there are more
/// than `N` of them. `obeys_try_from_spec` is false, so nothing is concluded through it:
/// `try_from` below states its result in its own `ensures`.
impl<E: Clone, const N: usize> vstd::std_specs::convert::TryFromSpecImpl<&[E]> for StaticArrayList<E, N> {
    open spec fn obeys_try_from_spec() -> bool {
        false
    }

    open spec fn try_from_spec(v: &[E]) -> Result<Self, ()> {
        if v@.len() <= N {
            Ok(
                choose|list: Self|
                    list@.len() == v@.len() && forall|i: int|
                        0 <= i < v@.len() ==> cloned(v@[i], #[trigger] list@[i]),
            )
        } else {
            Err(())
        }
    }
}

impl<E: Clone, const N: usize> TryFrom<&[E]> for StaticArrayList<E, N> {
    type Error = ();

    /// A list of clones of `items`, or `Err(())` when there are more than `N` of them.
    fn try_from(items: &[E]) -> (r: Result<Self, ()>)
        ensures
            match r {
                Ok(list) => items@.len() <= N && list@.len() == items@.len() && forall|i: int|
                    0 <= i < items@.len() ==> cloned(items@[i], #[trigger] list@[i]),
                Err(_) => items@.len() > N,
            },
    {
        if items.len() > N {
            return Err(());
        }
        let mut list = Self::new();
        let mut i: usize = 0;
        while i < items.len()
            invariant
                i <= items@.len() <= N,
                list@.len() == i,
                forall|j: int| 0 <= j < i ==> cloned(items@[j], #[trigger] list@[j]),
            decreases items@.len() - i,
        {
            list.add_last(items[i].clone());
            i = i + 1;
        }
        Ok(list)
    }
}

} // verus!
