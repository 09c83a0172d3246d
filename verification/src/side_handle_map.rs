use vstd::prelude::*;

use crate::handle::Handle;
use std::marker::PhantomData;

verus! {

/// A map from handles to values kept beside data that owns the handles: any handle can
/// be given a value, and the map grows to reach it.
pub struct SideHandleMap<K, V> {
    data: Vec<Option<V>>,
    _marker: PhantomData<K>,
}

/// Walks the `(handle, &value)` pairs of a [`SideHandleMap`] in index order.
pub struct Iter<'a, K, V> {
    data: &'a [Option<V>],
    pos: usize,
    _marker: PhantomData<K>,
}

/// Walks the `(handle, &mut value)` pairs of a [`SideHandleMap`] in index order.
pub struct IterMut<'a, K, V> {
    rest: Option<&'a mut [Option<V>]>,
    pos: usize,
    _marker: PhantomData<K>,
}

/// Hands out the `(handle, value)` pairs of a [`SideHandleMap`] in index order.
pub struct IntoIter<K, V> {
    reversed: Vec<Option<V>>,
    pos: usize,
    _marker: PhantomData<K>,
}

/// The value held for index `i`: `None` for an empty slot or an index past the slots.
pub open spec fn slot_value<V>(s: Seq<Option<V>>, i: int) -> Option<V> {
    if 0 <= i < s.len() {
        s[i]
    } else {
        None
    }
}

/// The slots after giving index `i` the value `v`: slots are added, empty, up to `i`.
pub open spec fn with_value<V>(s: Seq<Option<V>>, i: int, v: V) -> Seq<Option<V>> {
    Seq::new(
        if i < s.len() {
            s.len()
        } else {
            (i + 1) as nat
        },
        |j: int|
            if j == i {
                Some(v)
            } else if j < s.len() {
                s[j]
            } else {
                None
            },
    )
}

/// The slots cut or extended with empty slots to `n`.
pub open spec fn resized<V>(s: Seq<Option<V>>, n: nat) -> Seq<Option<V>> {
    Seq::new(
        n,
        |j: int|
            if j < s.len() {
                s[j]
            } else {
                None
            },
    )
}

/// The indices of the slots among the first `n` that hold a value, in increasing order.
pub open spec fn present_keys<V>(s: Seq<Option<V>>, n: int) -> Seq<int>
    decreases n,
{
    if n <= 0 {
        Seq::empty()
    } else if s[n - 1] is Some {
        present_keys(s, n - 1).push(n - 1)
    } else {
        present_keys(s, n - 1)
    }
}

/// The values held by the first `n` slots, in slot order.
pub open spec fn present_values<V>(s: Seq<Option<V>>, n: int) -> Seq<V>
    decreases n,
{
    if n <= 0 {
        Seq::empty()
    } else if s[n - 1] is Some {
        present_values(s, n - 1).push(s[n - 1]->Some_0)
    } else {
        present_values(s, n - 1)
    }
}

/// The slots `s` with the values of their occupied slots replaced, in order, by `vals`.
pub open spec fn refilled<V>(s: Seq<Option<V>>, vals: Seq<V>) -> Seq<Option<V>>
    decreases s.len(),
{
    if s.len() == 0 {
        Seq::empty()
    } else if s.last() is Some {
        refilled(s.drop_last(), vals.drop_last()).push(Some(vals.last()))
    } else {
        refilled(s.drop_last(), vals).push(None)
    }
}

/// Every slot of `s` that holds a value lies, counted from `offset`, below `limit`.
pub open spec fn occupied_below<V>(s: Seq<Option<V>>, offset: int, limit: int) -> bool {
    forall|i: int| 0 <= i < s.len() && #[trigger] s[i] is Some ==> offset + i < limit
}

/// Refilling slots keeps their number and which of them hold a value.
pub proof fn lemma_refilled_shape<V>(s: Seq<Option<V>>, vals: Seq<V>)
    ensures
        refilled(s, vals).len() == s.len(),
        forall|i: int| 0 <= i < s.len() ==> (#[trigger] refilled(s, vals)[i] is Some <==> s[i] is Some),
    decreases s.len(),
{
    if s.len() > 0 {
        if s.last() is Some {
            lemma_refilled_shape(s.drop_last(), vals.drop_last());
        } else {
            lemma_refilled_shape(s.drop_last(), vals);
        }
    }
}

impl<K: Handle, V> View for SideHandleMap<K, V> {
    type V = Seq<Option<V>>;

    /// The slots: slot `i` holds the value of the handle with index `i`, if any.
    closed spec fn view(&self) -> Seq<Option<V>> {
        self.data@
    }
}

impl<K: Handle, V> SideHandleMap<K, V> {
    /// Every slot that holds a value was given it through a handle, so its index lies
    /// below the handles' limit. Every constructor makes a map like that and every method
    /// but `iter_mut` is shown to keep it so.
    pub open spec fn well_formed(&self) -> bool {
        occupied_below(self@, 0, K::index_limit() as int)
    }

    /// Creates an empty map.
    pub fn new() -> (r: Self)
        ensures
            r@ == Seq::<Option<V>>::empty(),
            r.well_formed(),
    {
        Self { data: Vec::new(), _marker: PhantomData }
    }

    /// Creates an empty map with room for `capacity` slots.
    pub fn with_capacity(capacity: usize) -> (r: Self)
        ensures
            r@ == Seq::<Option<V>>::empty(),
            r.well_formed(),
    {
        Self { data: Vec::with_capacity(capacity), _marker: PhantomData }
    }

    /// Gives `key` the value `value`, growing the map with empty slots if needed, and
    /// returns the value `key` held before.
    pub fn add(&mut self, key: K, value: V) -> (r: Option<V>)
        requires
            key.spec_index() < usize::MAX,
        ensures
            final(self)@ == with_value(old(self)@, key.spec_index() as int, value),
            final(self)@.len() == if key.spec_index() < old(self)@.len() {
                old(self)@.len() as int
            } else {
                key.spec_index() + 1int
            },
            final(self)@[key.spec_index() as int] == Some(value),
            r == slot_value(old(self)@, key.spec_index() as int),
            old(self).well_formed() ==> final(self).well_formed(),
    {
        proof {
            key.lemma_index_below_limit();
        }
        let index = key.index();
        if index >= self.data.len() {
            self.grow_to(index + 1);
        }
        let slot = &mut self.data[index];
        let previous = slot.take();
        *slot = Some(value);
        proof {
            assert(self@ =~= with_value(old(self)@, index as int, value));
        }
        previous
    }

    /// Adds empty slots until there are `n`.
    fn grow_to(&mut self, n: usize)
        requires
            old(self)@.len() <= n,
        ensures
            final(self)@ == resized(old(self)@, n as nat),
            final(self)@.len() == n,
    {
        while self.data.len() < n
            invariant
                old(self)@.len() <= self@.len() <= n,
                forall|j: int| 0 <= j < self@.len() ==> #[trigger] self@[j] == resized(old(self)@, n as nat)[j],
            decreases n - self@.len(),
        {
            self.data.push(None);
        }
        assert(self@ =~= resized(old(self)@, n as nat));
    }

    /// Cuts the map to `n` slots, or extends it with empty slots to `n`.
    pub fn resize(&mut self, n: usize)
        ensures
            final(self)@ == resized(old(self)@, n as nat),
            final(self)@.len() == n,
            old(self).well_formed() ==> final(self).well_formed(),
    {
        if n <= self.data.len() {
            self.data.truncate(n);
            assert(self@ =~= resized(old(self)@, n as nat));
        } else {
            self.grow_to(n);
        }
    }

    /// The value of `key`, if it has one.
    pub fn get(&self, key: K) -> (r: Option<&V>)
        ensures
            match r {
                Some(v) => slot_value(self@, key.spec_index() as int) == Some(*v),
                None => slot_value(self@, key.spec_index() as int) is None,
            },
    {
        let index = key.index();
        if index < self.data.len() {
            self.data[index].as_ref()
        } else {
            None
        }
    }

    /// Mutable access to the value of `key`, if it has one.
    pub fn get_mut(&mut self, key: K) -> (r: Option<&mut V>)
        ensures
            match r {
                Some(v) => slot_value(old(self)@, key.spec_index() as int) == Some(*v)
                    && final(self)@ == old(self)@.update(key.spec_index() as int, Some(*final(v))),
                None => slot_value(old(self)@, key.spec_index() as int) is None && final(self)@
                    == old(self)@,
            },
            old(self).well_formed() ==> final(self).well_formed(),
    {
        let index = key.index();
        if index < self.data.len() {
            self.data[index].as_mut()
        } else {
            None
        }
    }

    /// Takes the value of `key` out of the map, leaving its slot empty.
    pub fn remove(&mut self, key: K) -> (r: Option<V>)
        ensures
            r == slot_value(old(self)@, key.spec_index() as int),
            final(self)@ == if key.spec_index() < old(self)@.len() {
                old(self)@.update(key.spec_index() as int, None)
            } else {
                old(self)@
            },
            old(self).well_formed() ==> final(self).well_formed(),
    {
        let index = key.index();
        if index < self.data.len() {
            self.data[index].take()
        } else {
            None
        }
    }

    /// The number of slots, empty ones included.
    pub fn count(&self) -> (r: usize)
        ensures
            r == self@.len(),
    {
        self.data.len()
    }

    /// Whether the map has no slot.
    pub fn is_empty(&self) -> (r: bool)
        ensures
            r == (self@.len() == 0),
    {
        self.data.is_empty()
    }


    /// The handles that hold a value, in index order.
    pub fn keys(&self) -> (r: Vec<K>)
        requires
            self.well_formed(),
        ensures
            r@.len() == present_keys(self@, self@.len() as int).len(),
            forall|i: int|
                0 <= i < r@.len() ==> #[trigger] r@[i].spec_index() == present_keys(
                    self@,
                    self@.len() as int,
                )[i],
    {
        let n = self.data.len();
        let mut keys: Vec<K> = Vec::new();
        let mut i: usize = 0;
        while i < n
            invariant
                i <= n,
                n == self@.len(),
                self.well_formed(),
                keys@.len() == present_keys(self@, i as int).len(),
                forall|j: int|
                    0 <= j < keys@.len() ==> #[trigger] keys@[j].spec_index() == present_keys(
                        self@,
                        i as int,
                    )[j],
            decreases n - i,
        {
            if self.data[i].is_some() {
                keys.push(K::new(i));
            }
            i = i + 1;
        }
        keys
    }

    /// The values held, in index order.
    pub fn values(&self) -> (r: Vec<&V>)
        ensures
            r@.len() == present_values(self@, self@.len() as int).len(),
            forall|i: int|
                0 <= i < r@.len() ==> *#[trigger] r@[i] == present_values(self@, self@.len() as int)[i],
    {
        let n = self.data.len();
        let mut values: Vec<&V> = Vec::new();
        let mut i: usize = 0;
        while i < n
            invariant
                i <= n,
                n == self@.len(),
                values@.len() == present_values(self@, i as int).len(),
                forall|j: int|
                    0 <= j < values@.len() ==> *#[trigger] values@[j] == present_values(self@, i as int)[j],
            decreases n - i,
        {
            match self.data[i].as_ref() {
                Some(v) => values.push(v),
                None => {},
            }
            i = i + 1;
        }
        values
    }


    /// The values held, in index order, for changing in place.
    pub fn values_mut(&mut self) -> (r: Vec<&mut V>)
        ensures
            r@.len() == present_values(old(self)@, old(self)@.len() as int).len(),
            forall|i: int|
                0 <= i < r@.len() ==> *#[trigger] r@[i] == present_values(
                    old(self)@,
                    old(self)@.len() as int,
                )[i],
            final(self)@ == refilled(old(self)@, Seq::new(r@.len(), |i: int| *final(r@[i]))),
            old(self).well_formed() ==> final(self).well_formed(),
    {
        let ghost all = self@;
        let mut values: Vec<&mut V> = Vec::new();
        let mut rest: &mut [Option<V>] = self.data.as_mut_slice();
        let ghost orig = rest;
        let ghost mut done: int = 0;
        while rest.len() > 0
            invariant
                0 <= done <= all.len(),
                rest@ == all.skip(done),
                values@.len() == present_values(all, done).len(),
                forall|j: int|
                    0 <= j < values@.len() ==> *#[trigger] values@[j] == present_values(all, done)[j],
                final(orig)@ == refilled(
                    all.take(done),
                    Seq::new(values@.len(), |i: int| *final(values@[i])),
                ) + final(rest)@,
            decreases rest@.len(),
        {
            let (first, tail) = { rest }.split_at_mut(1);
            let ghost first_ref = first;
            proof {
                assert(first@[0] == all[done]);
                assert(tail@ =~= all.skip(done + 1));
                assert(all.take(done + 1).drop_last() =~= all.take(done));
            }
            if first[0].is_some() {
                proof {
                    assert forall|x: V| final(first)@ == first@.update(0, Some(x))
                        implies final(first)@ == seq![Some(x)] by {
                        assert(final(first)@ =~= seq![Some(x)]);
                    }
                }
                let slot = first.first_mut().unwrap();
                let v = slot.as_mut().unwrap();
                let ghost before = values@;
                values.push(v);
                proof {
                    let fin = Seq::new(values@.len(), |i: int| *final(values@[i]));
                    let fin0 = Seq::new(before.len(), |i: int| *final(before[i]));
                    assert(fin.drop_last() =~= fin0);
                    assert(refilled(all.take(done + 1), fin) == refilled(all.take(done), fin0).push(
                        Some(*final(values@.last())),
                    ));
                    assert(refilled(all.take(done), fin0) + final(first_ref)@ + final(tail)@ =~= refilled(
                        all.take(done + 1),
                        fin,
                    ) + final(tail)@);
                }
            } else {
                proof {
                    let fin0 = Seq::new(values@.len(), |i: int| *final(values@[i]));
                    assert(refilled(all.take(done + 1), fin0) == refilled(all.take(done), fin0).push(
                        None,
                    ));
                    assert(refilled(all.take(done), fin0) + final(first_ref)@ + final(tail)@ =~= refilled(
                        all.take(done + 1),
                        fin0,
                    ) + final(tail)@);
                }
            }
            rest = tail;
            proof {
                done = done + 1;
            }
        }
        proof {
            assert(done == all.len());
            assert(all.take(done) =~= all);
            lemma_refilled_shape(all, Seq::new(values@.len(), |i: int| *final(values@[i])));
        }
        values
    }

    /// Walks the `(handle, &value)` pairs in index order.
    pub fn iter(&self) -> (r: Iter<'_, K, V>)
        ensures
            r.items() == self@,
            r.position() == 0,
    {
        Iter { data: self.data.as_slice(), pos: 0, _marker: PhantomData }
    }

    /// Walks the `(handle, &mut value)` pairs in index order.
    pub fn iter_mut(&mut self) -> (r: IterMut<'_, K, V>)
        ensures
            r.items() == old(self)@,
            r.position() == 0,
            r.rest_ref() is Some,
            final(self)@ == final(r.rest_ref()->Some_0)@,
    {
        IterMut { rest: Some(self.data.as_mut_slice()), pos: 0, _marker: PhantomData }
    }

    /// Consumes the map into its `(handle, value)` pairs, in index order.
    pub fn into_iter(self) -> (r: IntoIter<K, V>)
        ensures
            r.items() == self@,
            r.position() == 0,
            r.items().len() <= usize::MAX,
    {
        let mut data = self.data;
        let _ = data.len();
        let ghost all = data@;
        let mut reversed: Vec<Option<V>> = Vec::new();
        while data.len() > 0
            invariant
                data@.len() <= all.len(),
                data@ == all.subrange(0, data@.len() as int),
                reversed@.len() == all.len() - data@.len(),
                forall|j: int| 0 <= j < reversed@.len() ==> #[trigger] reversed@[j] == all[all.len() - 1 - j],
            decreases data@.len(),
        {
            let v = data.pop().unwrap();
            reversed.push(v);
        }
        proof {
            assert(reversed@.reverse() =~= all);
        }
        IntoIter { reversed, pos: 0, _marker: PhantomData }
    }

    /// A reference to the value of `k`, which must hold one.
    pub fn index(&self, k: K) -> (r: &V)
        requires
            slot_value(self@, k.spec_index() as int) is Some,
        ensures
            slot_value(self@, k.spec_index() as int) == Some(*r),
    {
        self.data[k.index()].as_ref().unwrap()
    }

    /// A mutable reference to the value of `k`, which must hold one.
    pub fn index_mut(&mut self, k: K) -> (r: &mut V)
        requires
            slot_value(old(self)@, k.spec_index() as int) is Some,
        ensures
            slot_value(old(self)@, k.spec_index() as int) == Some(*r),
            final(self)@ == old(self)@.update(k.spec_index() as int, Some(*final(r))),
            old(self).well_formed() ==> final(self).well_formed(),
    {
        let i = k.index();
        self.data[i].as_mut().unwrap()
    }

    /// Removes every slot.
    pub fn clear(&mut self)
        ensures
            final(self)@ == Seq::<Option<V>>::empty(),
            final(self).well_formed(),
    {
        self.data.clear()
    }
}

impl<K: Handle, V> Default for SideHandleMap<K, V> {
    fn default() -> (r: Self)
        ensures
            r@ == Seq::<Option<V>>::empty(),
            r.well_formed(),
    {
        Self::new()
    }
}

impl<'a, K: Handle, V> Iter<'a, K, V> {
    /// All slots being walked.
    pub closed spec fn items(&self) -> Seq<Option<V>> {
        self.data@
    }

    /// The index of the next slot to look at.
    pub closed spec fn position(&self) -> nat {
        self.pos as nat
    }

    /// What one call of `next` does: `r` is the pair of the first slot from the current
    /// position on that holds a value, after which the walk goes on, or `None` when no
    /// such slot is left, after which the walk stays at the end; `after` is the walk it
    /// leaves.
    pub open spec fn next_step(&self, r: Option<(K, &'a V)>, after: &Self) -> bool {
        &&& after.items() == self.items()
        &&& match r {
            Some(pair) => {
                &&& self.position() <= pair.0.spec_index() < self.items().len()
                &&& self.items()[pair.0.spec_index() as int] == Some(*pair.1)
                &&& forall|j: int| self.position() <= j < pair.0.spec_index() ==> #[trigger] self.items()[j] is None
                &&& after.position() == pair.0.spec_index() + 1
            },
            None => {
                &&& forall|j: int| self.position() <= j < self.items().len() ==> #[trigger] self.items()[j] is None
                &&& after.position() == if self.position() < self.items().len() {
                    self.items().len()
                } else {
                    self.position()
                }
            },
        }
    }

    /// The next `(handle, &value)` pair, skipping empty slots, or `None` when no slot
    /// from `position()` on holds a value.
    pub fn next(&mut self) -> (r: Option<(K, &'a V)>)
        requires
            occupied_below(old(self).items(), 0, K::index_limit() as int),
        ensures
            old(self).next_step(r, final(self)),
    {
        let data: &'a [Option<V>] = self.data;
        while self.pos < data.len()
            invariant
                data@ == old(self).items(),
                self.data == old(self).data,
                occupied_below(data@, 0, K::index_limit() as int),
                old(self).position() <= self.pos,
                self.pos == old(self).position() || self.pos <= data@.len(),
                forall|j: int| old(self).position() <= j < self.pos ==> #[trigger] data@[j] is None,
            decreases data@.len() - self.pos,
        {
            let i = self.pos;
            self.pos = i + 1;
            match data[i].as_ref() {
                Some(v) => {
                    return Some((K::new(i), v));
                },
                None => {},
            }
        }
        None
    }
}

impl<'a, K: Handle, V> IterMut<'a, K, V> {
    /// The slots not walked yet.
    pub closed spec fn items(&self) -> Seq<Option<V>> {
        match self.rest {
            Some(s) => s@,
            None => Seq::empty(),
        }
    }

    /// The index of the next slot to look at.
    pub closed spec fn position(&self) -> nat {
        self.pos as nat
    }

    /// The borrowed slots not walked yet.
    pub closed spec fn rest_ref(&self) -> Option<&'a mut [Option<V>]> {
        self.rest
    }

    /// What one call of `next` hands out: `r` is the pair of the first slot left that holds
    /// a value, with the slots up to it passed, or `None` when no slot left holds one, with
    /// all slots passed; `after` is what is left. What is written through the reference
    /// handed out is stated by `next` itself.
    pub open spec fn next_step(&self, r: Option<(K, &'a mut V)>, after: &Self) -> bool {
        match r {
            Some(pair) => {
                let d = pair.0.spec_index() - self.position();
                &&& 0 <= d < self.items().len()
                &&& self.items()[d] == Some(*pair.1)
                &&& forall|j: int| 0 <= j < d ==> #[trigger] self.items()[j] is None
                &&& after.items() == self.items().skip(d + 1)
                &&& after.position() == pair.0.spec_index() + 1
            },
            None => {
                &&& forall|j: int| 0 <= j < self.items().len() ==> #[trigger] self.items()[j] is None
                &&& after.items().len() == 0
                &&& after.position() == self.position() + self.items().len()
            },
        }
    }

    /// The next `(handle, &mut value)` pair, skipping empty slots, or `None` when no
    /// slot left holds a value.
    pub fn next(&mut self) -> (r: Option<(K, &'a mut V)>)
        requires
            occupied_below(old(self).items(), old(self).position() as int, K::index_limit() as int),
            old(self).position() + old(self).items().len() <= usize::MAX,
        ensures
            old(self).next_step(r, final(self)),
            match r {
                Some(pair) => {
                    let d = pair.0.spec_index() - old(self).position();
                    &&& old(self).rest_ref() is Some
                    &&& final(self).rest_ref() is Some
                    &&& final(old(self).rest_ref()->Some_0)@ == old(self).items().take(d).push(
                        Some(*final(pair.1)),
                    ) + final(final(self).rest_ref()->Some_0)@
                },
                None => {
                    &&& final(self).rest_ref() is None
                    &&& old(self).rest_ref() is Some ==> final(old(self).rest_ref()->Some_0)@ == old(
                        self,
                    ).items()
                },
            },
    {
        if self.rest.is_none() {
            return None;
        }
        let ghost start = self.pos as int;
        let ghost all = self.items();
        let ghost orig = self.rest->Some_0;
        loop
            invariant
                start == old(self).position(),
                all == old(self).items(),
                orig == old(self).rest_ref()->Some_0,
                self.rest is Some,
                start <= self.pos,
                self.pos + self.items().len() == start + all.len(),
                occupied_below(all, start, K::index_limit() as int),
                start + all.len() <= usize::MAX,
                self.items() == all.skip(self.pos - start),
                forall|j: int| 0 <= j < self.pos - start ==> #[trigger] all[j] is None,
                final(orig)@ == all.take(self.pos - start) + final(self.rest->Some_0)@,
            decreases self.items().len(),
        {
            let slice = self.rest.take().unwrap();
            if slice.len() == 0 {
                // Handing the empty slice on by value records that it ends empty.
                let _none = { slice }.first_mut();
                proof {
                    assert(all.take(self.pos - start) =~= all);
                }
                return None;
            }
            let (first, tail) = slice.split_at_mut(1);
            let ghost step = self.pos - start;
            self.rest = Some(tail);
            let i = self.pos;
            self.pos = i + 1;
            proof {
                assert(all.skip(self.pos - start) =~= all.skip(step).skip(1));
                assert(first@ =~= seq![all[step]]);
            }
            if first[0].is_some() {
                proof {
                    assert forall|x: V| final(first)@ == first@.update(0, Some(x))
                        implies final(first)@ == seq![Some(x)] by {
                        assert(final(first)@ =~= seq![Some(x)]);
                    }
                }
                let slot = first.first_mut().unwrap();
                let v = slot.as_mut().unwrap();
                proof {
                    assert(all.take(step).push(Some(*final(v))) + final(tail)@ =~= all.take(step) + (
                    seq![Some(*final(v))] + final(tail)@));
                }
                return Some((K::new(i), v));
            }
            proof {
                assert(all.take(step + 1) =~= all.take(step).push(None));
                assert(all.take(step + 1) + final(tail)@ =~= all.take(step) + (seq![None] + final(
                tail)@));
            }
        }
    }
}

impl<K: Handle, V> IntoIter<K, V> {
    /// The slots not walked yet.
    pub closed spec fn items(&self) -> Seq<Option<V>> {
        self.reversed@.reverse()
    }

    /// The index of the next slot to look at.
    pub closed spec fn position(&self) -> nat {
        self.pos as nat
    }

    /// What one call of `next` does: `r` is the pair of the first slot left that holds a
    /// value, with the slots up to it dropped, or `None` when no slot left holds one, with
    /// all slots dropped; `after` is what is left.
    pub open spec fn next_step(&self, r: Option<(K, V)>, after: &Self) -> bool {
        match r {
            Some(pair) => {
                let d = pair.0.spec_index() - self.position();
                &&& 0 <= d < self.items().len()
                &&& self.items()[d] == Some(pair.1)
                &&& forall|j: int| 0 <= j < d ==> #[trigger] self.items()[j] is None
                &&& after.items() == self.items().skip(d + 1)
                &&& after.position() == pair.0.spec_index() + 1
            },
            None => {
                &&& forall|j: int|
                    0 <= j < self.items().len() ==> #[trigger] self.items()[j] is None
                &&& after.items().len() == 0
                &&& after.position() == self.position() + self.items().len()
            },
        }
    }

    /// The next `(handle, value)` pair, skipping empty slots, or `None` when no slot left
    /// holds a value.
    pub fn next(&mut self) -> (r: Option<(K, V)>)
        requires
            occupied_below(old(self).items(), old(self).position() as int, K::index_limit() as int),
            old(self).position() + old(self).items().len() <= usize::MAX,
        ensures
            old(self).next_step(r, final(self)),
    {
        let ghost start = self.pos as int;
        let ghost all = self.items();
        loop
            invariant
                start == old(self).position(),
                all == old(self).items(),
                start <= self.pos,
                self.pos + self.items().len() == start + all.len(),
                occupied_below(all, start, K::index_limit() as int),
                start + all.len() <= usize::MAX,
                self.items() == all.skip(self.pos - start),
                forall|j: int| 0 <= j < self.pos - start ==> #[trigger] all[j] is None,
            decreases self.items().len(),
        {
            let ghost before = self.reversed@;
            match self.reversed.pop() {
                Some(slot) => {
                    let i = self.pos;
                    self.pos = i + 1;
                    proof {
                        assert(self.reversed@.reverse() =~= before.reverse().drop_first());
                        assert(all.skip(self.pos - start) =~= all.skip(i - start).drop_first());
                        assert(before.reverse()[0] == before[before.len() - 1]);
                        assert(slot == all.skip(i - start)[0]);
                        assert(slot == all[i - start]);
                    }
                    match slot {
                        Some(v) => {
                            return Some((K::new(i), v));
                        },
                        None => {},
                    }
                },
                None => {
                    return None;
                },
            }
        }
    }
}

} // verus!
