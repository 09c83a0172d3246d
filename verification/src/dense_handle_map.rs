use vstd::prelude::*;

use crate::handle::{Handle, entry};
use std::marker::PhantomData;

verus! {

/// A densely packed map from handles to values: handles are handed out in order by `add`
/// and every handle below `count()` is valid.
pub struct DenseHandleMap<K, V> {
    data: Vec<V>,
    _marker: PhantomData<K>,
}

impl<K: Handle, V> View for DenseHandleMap<K, V> {
    type V = Seq<V>;

    /// The values, the value of the handle with index `i` at position `i`.
    closed spec fn view(&self) -> Seq<V> {
        self.data@
    }
}

impl<K: Handle, V> DenseHandleMap<K, V> {
    /// Every value has a handle: the map holds no more values than there are handles.
    /// The constructors make such a map and `add`, `index_mut` and `clear` keep it so.
    pub open spec fn well_formed(&self) -> bool {
        self@.len() <= K::index_limit()
    }

    /// Creates an empty map.
    pub fn new() -> (r: Self)
        ensures
            r@ == Seq::<V>::empty(),
            r.well_formed(),
    {
        Self { data: Vec::new(), _marker: PhantomData }
    }

    /// Creates an empty map with room for `capacity` values.
    pub fn with_capacity(capacity: usize) -> (r: Self)
        ensures
            r@ == Seq::<V>::empty(),
            r.well_formed(),
    {
        Self { data: Vec::with_capacity(capacity), _marker: PhantomData }
    }

    /// Appends `element` and returns the handle that now stands for it.
    pub fn add(&mut self, element: V) -> (k: K)
        requires
            old(self)@.len() < K::index_limit(),
        ensures
            final(self)@ == old(self)@.push(element),
            k.spec_index() == old(self)@.len(),
            final(self).well_formed(),
    {
        let index = self.data.len();
        self.data.push(element);
        K::new(index)
    }

    /// The value of `id`, if the map holds one.
    pub fn get(&self, id: K) -> (r: Option<&V>)
        ensures
            match r {
                Some(v) => entry(self@, id.spec_index() as int) == Some(*v),
                None => entry(self@, id.spec_index() as int) is None,
            },
    {
        let index = id.index();
        if index < self.data.len() {
            Some(&self.data[index])
        } else {
            None
        }
    }

    /// Whether `k` stands for a value of the map.
    pub fn is_valid(&self, k: K) -> (r: bool)
        ensures
            r == (k.spec_index() < self@.len()),
    {
        k.index() < self.data.len()
    }

    /// The number of values.
    pub fn count(&self) -> (r: usize)
        ensures
            r == self@.len(),
    {
        self.data.len()
    }

    /// Whether the map holds no value.
    pub fn is_empty(&self) -> (r: bool)
        ensures
            r == (self@.len() == 0),
    {
        self.data.is_empty()
    }

    /// Removes every value.
    pub fn clear(&mut self)
        ensures
            final(self)@ == Seq::<V>::empty(),
            final(self).well_formed(),
    {
        self.data.clear()
    }

    /// The handle that the next `add` will return.
    pub fn next_key(&self) -> (r: K)
        requires
            self@.len() < K::index_limit(),
        ensures
            r.spec_index() == self@.len(),
    {
        K::new(self.data.len())
    }

    /// The handles of all values, in index order.
    pub fn keys(&self) -> (r: Vec<K>)
        requires
            self.well_formed(),
        ensures
            r@.len() == self@.len(),
            forall|i: int| 0 <= i < r@.len() ==> #[trigger] r@[i].spec_index() == i,
    {
        let n = self.data.len();
        let mut keys: Vec<K> = Vec::with_capacity(n);
        let mut i: usize = 0;
        while i < n
            invariant
                i <= n,
                n == self@.len(),
                n <= K::index_limit(),
                keys@.len() == i,
                forall|j: int| 0 <= j < i ==> #[trigger] keys@[j].spec_index() == j,
            decreases n - i,
        {
            keys.push(K::new(i));
            i = i + 1;
        }
        keys
    }

    /// The values, in index order.
    pub fn values(&self) -> (r: std::slice::Iter<'_, V>)
        ensures
            vstd::std_specs::iter::IteratorSpec::remaining(&r) == self@.as_ref(),
    {
        self.data.iter()
    }

    /// The values, in index order, for changing in place.
    pub fn values_mut(&mut self) -> (r: &mut [V])
        ensures
            r@ == old(self)@,
            final(self)@ == final(r)@,
    {
        self.data.as_mut_slice()
    }

    /// The `(handle, &value)` pairs, in index order.
    pub fn iter_enumerated(&self) -> (r: Vec<(K, &V)>)
        requires
            self.well_formed(),
        ensures
            r@.len() == self@.len(),
            forall|i: int|
                0 <= i < r@.len() ==> #[trigger] r@[i].0.spec_index() == i && *r@[i].1 == self@[i],
    {
        let n = self.data.len();
        let mut pairs: Vec<(K, &V)> = Vec::with_capacity(n);
        let mut i: usize = 0;
        while i < n
            invariant
                i <= n,
                n == self@.len(),
                n <= K::index_limit(),
                pairs@.len() == i,
                forall|j: int|
                    0 <= j < i ==> #[trigger] pairs@[j].0.spec_index() == j && *pairs@[j].1 == self@[j],
            decreases n - i,
        {
            pairs.push((K::new(i), &self.data[i]));
            i = i + 1;
        }
        pairs
    }

    /// A reference to the value of `k`.
    pub fn index(&self, k: K) -> (r: &V)
        requires
            k.spec_index() < self@.len(),
        ensures
            *r == self@[k.spec_index() as int],
    {
        &self.data[k.index()]
    }

    /// A mutable reference to the value of `k`.
    pub fn index_mut(&mut self, k: K) -> (r: &mut V)
        requires
            k.spec_index() < old(self)@.len(),
        ensures
            *r == old(self)@[k.spec_index() as int],
            final(self)@ == old(self)@.update(k.spec_index() as int, *final(r)),
            old(self).well_formed() ==> final(self).well_formed(),
    {
        let i = k.index();
        &mut self.data[i]
    }
}

impl<K: Handle, V> Default for DenseHandleMap<K, V> {
    fn default() -> (r: Self)
        ensures
            r@ == Seq::<V>::empty(),
            r.well_formed(),
    {
        Self::new()
    }
}

} // verus!
