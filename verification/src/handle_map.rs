use vstd::prelude::*;

use crate::handle::{Handle, entry};
use std::marker::PhantomData;

verus! {

/// A map from handles to values, where handles are handed out in order by `add`.
pub struct HandleMap<K, V> {
    data: Vec<V>,
    _marker: PhantomData<K>,
}

/// Walks the `(handle, &value)` pairs of a [`HandleMap`] in index order.
pub struct Iter<'a, K, V> {
    data: &'a [V],
    pos: usize,
    _marker: PhantomData<K>,
}

/// Walks the `(handle, &mut value)` pairs of a [`HandleMap`] in index order.
pub struct IterMut<'a, K, V> {
    rest: Option<&'a mut [V]>,
    pos: usize,
    _marker: PhantomData<K>,
}

/// Hands out the `(handle, value)` pairs of a [`HandleMap`] in index order.
pub struct IntoIter<K, V> {
    reversed: Vec<V>,
    pos: usize,
    _marker: PhantomData<K>,
}

impl<K: Handle, V> View for HandleMap<K, V> {
    type V = Seq<V>;

    /// The values, the value of the handle with index `i` at position `i`.
    closed spec fn view(&self) -> Seq<V> {
        self.data@
    }
}

impl<K: Handle, V> HandleMap<K, V> {
    /// Every value has a handle: the map holds no more values than there are handles.
    /// The constructors make such a map and `add`, `get_mut`, `index_mut` and `clear`
    /// keep it so; `from_iter` and `extend` give one only from few enough values.
    pub open spec fn well_formed(&self) -> bool {
        self@.len() <= K::index_limit()
    }

    /// Creates an empty map.
    pub fn new() -> (r: Self)
        ensures
            r@ == Seq::<V>::empty(),
            r.well_formed(),
    {
        Self { data: Vec::new(), _marker: PhantomData }
    }

    /// Creates an empty map with room for `capacity` values.
    pub fn with_capacity(capacity: usize) -> (r: Self)
        ensures
            r@ == Seq::<V>::empty(),
            r.well_formed(),
    {
        Self { data: Vec::with_capacity(capacity), _marker: PhantomData }
    }

    /// A map holding `values`, the value at position `i` under the handle with index `i`.
    pub fn from_iter(values: Vec<V>) -> (r: Self)
        ensures
            r@ == values@,
    {
        Self { data: values, _marker: PhantomData }
    }

    /// Appends `values`, in order, after the values already held.
    pub fn extend(&mut self, values: Vec<V>)
        ensures
            final(self)@ == old(self)@ + values@,
    {
        let mut values = values;
        self.data.append(&mut values);
    }

    /// Appends `element` and returns the handle that now stands for it.
    pub fn add(&mut self, element: V) -> (k: K)
        requires
            old(self)@.len() < K::index_limit(),
        ensures
            final(self)@ == old(self)@.push(element),
            k.spec_index() == old(self)@.len(),
            final(self).well_formed(),
    {
        let index = self.data.len();
        self.data.push(element);
        K::new(index)
    }

    /// The value of `id`, if the map holds one.
    pub fn get(&self, id: K) -> (r: Option<&V>)
        ensures
            match r {
                Some(v) => entry(self@, id.spec_index() as int) == Some(*v),
                None => entry(self@, id.spec_index() as int) is None,
            },
    {
        let index = id.index();
        if index < self.data.len() {
            Some(&self.data[index])
        } else {
            None
        }
    }

    /// Mutable access to the value of `id`, if the map holds one.
    pub fn get_mut(&mut self, id: K) -> (r: Option<&mut V>)
        ensures
            match r {
                Some(v) => entry(old(self)@, id.spec_index() as int) == Some(*v) && final(self)@
                    == old(self)@.update(id.spec_index() as int, *final(v)),
                None => entry(old(self)@, id.spec_index() as int) is None && final(self)@ == old(
                    self,
                )@,
            },
            old(self).well_formed() ==> final(self).well_formed(),
    {
        let index = id.index();
        if index < self.data.len() {
            Some(&mut self.data[index])
        } else {
            None
        }
    }

    /// Whether `k` stands for a value of the map.
    pub fn contains_key(&self, k: K) -> (r: bool)
        ensures
            r == (k.spec_index() < self@.len()),
    {
        k.index() < self.data.len()
    }

    /// The number of values.
    pub fn len(&self) -> (r: usize)
        ensures
            r == self@.len(),
    {
        self.data.len()
    }

    /// Whether the map holds no value.
    pub fn is_empty(&self) -> (r: bool)
        ensures
            r == (self@.len() == 0),
    {
        self.data.is_empty()
    }


    /// The handles of all values, in index order.
    pub fn keys(&self) -> (r: Vec<K>)
        requires
            self.well_formed(),
        ensures
            r@.len() == self@.len(),
            forall|i: int| 0 <= i < r@.len() ==> #[trigger] r@[i].spec_index() == i,
    {
        let n = self.data.len();
        let mut keys: Vec<K> = Vec::with_capacity(n);
        let mut i: usize = 0;
        while i < n
            invariant
                i <= n,
                n == self@.len(),
                n <= K::index_limit(),
                keys@.len() == i,
                forall|j: int| 0 <= j < i ==> #[trigger] keys@[j].spec_index() == j,
            decreases n - i,
        {
            keys.push(K::new(i));
            i = i + 1;
        }
        keys
    }

    /// The values, in index order.
    pub fn values(&self) -> (r: std::slice::Iter<'_, V>)
        ensures
            vstd::std_specs::iter::IteratorSpec::remaining(&r) == self@.as_ref(),
    {
        self.data.iter()
    }

    /// The values, in index order, for changing in place.
    pub fn values_mut(&mut self) -> (r: &mut [V])
        ensures
            r@ == old(self)@,
            final(self)@ == final(r)@,
    {
        self.data.as_mut_slice()
    }

    /// Walks the `(handle, &value)` pairs in index order.
    pub fn iter(&self) -> (r: Iter<'_, K, V>)
        ensures
            r.items() == self@,
            r.position() == 0,
    {
        Iter { data: self.data.as_slice(), pos: 0, _marker: PhantomData }
    }

    /// Walks the `(handle, &mut value)` pairs in index order.
    pub fn iter_mut(&mut self) -> (r: IterMut<'_, K, V>)
        ensures
            r.items() == old(self)@,
            r.position() == 0,
            r.rest_ref() is Some,
            final(self)@ == final(r.rest_ref()->Some_0)@,
    {
        IterMut { rest: Some(self.data.as_mut_slice()), pos: 0, _marker: PhantomData }
    }

    /// Consumes the map into its `(handle, value)` pairs, in index order.
    pub fn into_iter(self) -> (r: IntoIter<K, V>)
        ensures
            r.remaining() == self@,
            r.position() == 0,
            r.remaining().len() <= usize::MAX,
    {
        let mut data = self.data;
        let _ = data.len();
        let ghost all = data@;
        let mut reversed: Vec<V> = Vec::new();
        while data.len() > 0
            invariant
                data@.len() <= all.len(),
                data@ == all.subrange(0, data@.len() as int),
                reversed@.len() == all.len() - data@.len(),
                forall|j: int| 0 <= j < reversed@.len() ==> #[trigger] reversed@[j] == all[all.len() - 1 - j],
            decreases data@.len(),
        {
            let v = data.pop().unwrap();
            reversed.push(v);
        }
        proof {
            assert(reversed@.reverse() =~= all);
        }
        IntoIter { reversed, pos: 0, _marker: PhantomData }
    }

    /// A reference to the value of `k`.
    pub fn index(&self, k: K) -> (r: &V)
        requires
            k.spec_index() < self@.len(),
        ensures
            *r == self@[k.spec_index() as int],
    {
        &self.data[k.index()]
    }

    /// A mutable reference to the value of `k`.
    pub fn index_mut(&mut self, k: K) -> (r: &mut V)
        requires
            k.spec_index() < old(self)@.len(),
        ensures
            *r == old(self)@[k.spec_index() as int],
            final(self)@ == old(self)@.update(k.spec_index() as int, *final(r)),
            old(self).well_formed() ==> final(self).well_formed(),
    {
        let i = k.index();
        &mut self.data[i]
    }

    /// Removes every value.
    pub fn clear(&mut self)
        ensures
            final(self)@ == Seq::<V>::empty(),
            final(self).well_formed(),
    {
        self.data.clear()
    }
}

impl<K: Handle, V> Default for HandleMap<K, V> {
    fn default() -> (r: Self)
        ensures
            r@ == Seq::<V>::empty(),
            r.well_formed(),
    {
        Self::new()
    }
}

impl<'a, K: Handle, V> Iter<'a, K, V> {
    /// All values being walked, in index order.
    pub closed spec fn items(&self) -> Seq<V> {
        self.data@
    }

    /// The index of the next pair to hand out.
    pub closed spec fn position(&self) -> nat {
        self.pos as nat
    }

    /// What one call of `next` does: `r` is the pair at the current position, or `None`
    /// once all were handed out, and `after` is the walk it leaves.
    pub open spec fn next_step(&self, r: Option<(K, &'a V)>, after: &Self) -> bool {
        &&& after.items() == self.items()
        &&& match r {
            Some(pair) => {
                &&& self.position() < self.items().len()
                &&& pair.0.spec_index() == self.position()
                &&& *pair.1 == self.items()[self.position() as int]
                &&& after.position() == self.position() + 1
            },
            None => {
                &&& self.position() >= self.items().len()
                &&& after.position() == self.position()
            },
        }
    }

    /// The next `(handle, &value)` pair, or `None` when all were handed out.
    pub fn next(&mut self) -> (r: Option<(K, &'a V)>)
        requires
            old(self).items().len() <= K::index_limit(),
        ensures
            old(self).next_step(r, final(self)),
    {
        let data: &'a [V] = self.data;
        if self.pos < data.len() {
            let i = self.pos;
            self.pos = i + 1;
            Some((K::new(i), &data[i]))
        } else {
            None
        }
    }
}

impl<'a, K: Handle, V> IterMut<'a, K, V> {
    /// The values not handed out yet, in index order.
    pub closed spec fn items(&self) -> Seq<V> {
        match self.rest {
            Some(s) => s@,
            None => Seq::empty(),
        }
    }

    /// The index of the next pair to hand out.
    pub closed spec fn position(&self) -> nat {
        self.pos as nat
    }

    /// The borrowed values not handed out yet.
    pub closed spec fn rest_ref(&self) -> Option<&'a mut [V]> {
        self.rest
    }

    /// What one call of `next` hands out: `r` is the first pair not handed out yet, or
    /// `None` once all were, and `after` is what is left. What is written through the
    /// reference handed out is stated by `next` itself.
    pub open spec fn next_step(&self, r: Option<(K, &'a mut V)>, after: &Self) -> bool {
        match r {
            Some(pair) => {
                &&& self.items().len() > 0
                &&& pair.0.spec_index() == self.position()
                &&& *pair.1 == self.items()[0]
                &&& after.items() == self.items().drop_first()
                &&& after.position() == self.position() + 1
            },
            None => {
                &&& self.items().len() == 0
                &&& after.items() == self.items()
                &&& after.position() == self.position()
            },
        }
    }

    /// The next `(handle, &mut value)` pair, or `None` when all were handed out.
    pub fn next(&mut self) -> (r: Option<(K, &'a mut V)>)
        requires
            old(self).position() + old(self).items().len() <= K::index_limit(),
            old(self).position() + old(self).items().len() <= usize::MAX,
        ensures
            final(self).position() + final(self).items().len() == old(self).position() + old(
                self,
            ).items().len(),
            old(self).next_step(r, final(self)),
            match r {
                Some(pair) => {
                    &&& old(self).rest_ref() is Some
                    &&& final(self).rest_ref() is Some
                    &&& final(old(self).rest_ref()->Some_0)@
                        == seq![*final(pair.1)] + final(final(self).rest_ref()->Some_0)@
                },
                None => {
                    &&& final(self).rest_ref() is None
                    &&& old(self).rest_ref() is Some ==> final(old(self).rest_ref()->Some_0)@
                        == Seq::<V>::empty()
                },
            },
    {
        let slice = match self.rest.take() {
            Some(slice) => slice,
            None => {
                return None;
            },
        };
        if slice.len() == 0 {
            // Handing the empty slice on by value records that it ends empty.
            let _none = { slice }.first_mut();
            assert(self.items() =~= old(self).items());
            return None;
        }
        let (first, tail) = slice.split_at_mut(1);
        self.rest = Some(tail);
        let i = self.pos;
        self.pos = i + 1;
        proof {
            assert forall|x: V| final(first)@ == first@.update(0, x)
                implies final(first)@ == seq![x] by {
                assert(final(first)@ =~= seq![x]);
            }
        }
        let v = first.first_mut().unwrap();
        Some((K::new(i), v))
    }
}

impl<K: Handle, V> IntoIter<K, V> {
    /// The values not handed out yet, in index order.
    pub closed spec fn remaining(&self) -> Seq<V> {
        self.reversed@.reverse()
    }

    /// The index of the next pair to hand out.
    pub closed spec fn position(&self) -> nat {
        self.pos as nat
    }

    /// What one call of `next` does: `r` is the first pair not handed out yet, or `None`
    /// once all were, and `after` is what is left.
    pub open spec fn next_step(&self, r: Option<(K, V)>, after: &Self) -> bool {
        match r {
            Some(pair) => {
                &&& self.remaining().len() > 0
                &&& pair.0.spec_index() == self.position()
                &&& pair.1 == self.remaining()[0]
                &&& after.remaining() == self.remaining().drop_first()
                &&& after.position() == self.position() + 1
            },
            None => {
                &&& self.remaining().len() == 0
                &&& after.remaining() == self.remaining()
                &&& after.position() == self.position()
            },
        }
    }

    /// The next `(handle, value)` pair, or `None` when all were handed out.
    pub fn next(&mut self) -> (r: Option<(K, V)>)
        requires
            old(self).position() + old(self).remaining().len() <= K::index_limit(),
            old(self).position() + old(self).remaining().len() <= usize::MAX,
        ensures
            old(self).next_step(r, final(self)),
    {
        match self.reversed.pop() {
            Some(v) => {
                let i = self.pos;
                self.pos = i + 1;
                proof {
                    assert(self.reversed@.reverse() =~= old(self).reversed@.reverse().drop_first());
                }
                Some((K::new(i), v))
            },
            None => None,
        }
    }
}

} // verus!
