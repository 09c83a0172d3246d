use vstd::prelude::*;

verus! {

/// Types that have a reserved value which can't be created any other way.
pub trait ReservedValue: Sized {
    /// Whether this is the reserved value.
    spec fn spec_is_reserved(&self) -> bool;

    /// Create an instance of the reserved value.
    fn reserved() -> (r: Self)
        ensures
            r.spec_is_reserved(),
    ;

    /// Checks whether value is the reserved one.
    fn is_reserved(&self) -> (r: bool)
        ensures
            r == self.spec_is_reserved(),
    ;
}

/// Packed representation of `Option<T>`.
///
/// This is a wrapper around a `T`, using `T::reserved` to represent `None`.
#[derive(Clone, Copy, PartialEq, PartialOrd, Eq, Ord, Hash)]
pub struct PackedOption<T: ReservedValue>(T);

/// The option that a packed value `t` stands for: `None` for the reserved value.
pub open spec fn unpacked<T: ReservedValue>(t: T) -> Option<T> {
    if t.spec_is_reserved() {
        None
    } else {
        Some(t)
    }
}

impl<T: ReservedValue> View for PackedOption<T> {
    type V = Option<T>;

    /// The option this packed value stands for.
    closed spec fn view(&self) -> Option<T> {
        unpacked(self.0)
    }
}

impl<T: ReservedValue> PackedOption<T> {
    /// A packed `Some` never holds the reserved value.
    pub proof fn lemma_some_not_reserved(&self)
        ensures
            self@ matches Some(t) ==> !t.spec_is_reserved(),
    {
    }

    /// Two packed options that are both `Some` of the same value are the same packed
    /// option.
    pub proof fn lemma_some_determines(&self, other: &Self)
        requires
            self@ is Some,
            self@ == other@,
        ensures
            *self == *other,
    {
    }

    /// Returns `true` if the packed option is a `None` value.
    pub fn is_none(&self) -> (r: bool)
        ensures
            r == (self@ is None),
    {
        self.0.is_reserved()
    }

    /// Returns `true` if the packed option is a `Some` value.
    pub fn is_some(&self) -> (r: bool)
        ensures
            r == (self@ is Some),
    {
        !self.0.is_reserved()
    }

    /// Expand the packed option into a normal `Option`.
    pub fn expand(self) -> (r: Option<T>)
        ensures
            r == self@,
            r matches Some(t) ==> !t.spec_is_reserved(),
    {
        if self.is_none() {
            None
        } else {
            Some(self.0)
        }
    }

    /// Maps a `PackedOption<T>` to `Option<U>` by applying a function to a contained value.
    pub fn map<U, F: FnOnce(T) -> U>(self, f: F) -> (r: Option<U>)
        requires
            self@ matches Some(t) ==> f.requires((t,)),
        ensures
            match self@ {
                Some(t) => r matches Some(u) && f.ensures((t,), u),
                None => r is None,
            },
    {
        self.expand().map(f)
    }

    /// Unwrap a packed `Some` value; the value must not be `None`.
    pub fn unwrap(self) -> (r: T)
        requires
            self@ is Some,
        ensures
            self@ == Some(r),
            !r.spec_is_reserved(),
    {
        self.expand().unwrap()
    }

    /// Unwrap a packed `Some` value; the value must not be `None` (`msg` names the failure).
    pub fn expect(self, msg: &str) -> (r: T)
        requires
            self@ is Some,
        ensures
            self@ == Some(r),
            !r.spec_is_reserved(),
    {
        self.expand().expect(msg)
    }

    /// Takes the value out of the packed option, leaving `None` in its place.
    pub fn take(&mut self) -> (r: Option<T>)
        ensures
            r == old(self)@,
            r matches Some(t) ==> !t.spec_is_reserved(),
            final(self)@ is None,
    {
        let mut taken = Self(T::reserved());
        std::mem::swap(self, &mut taken);
        taken.expand()
    }
}

impl<T: ReservedValue> Default for PackedOption<T> {
    /// Create a default packed option representing `None`.
    fn default() -> (r: Self)
        ensures
            r@ is None,
    {
        Self(T::reserved())
    }
}

/// `from_spec` names the packed option holding `v`. `obeys_from_spec` is false: `from`
/// is for values that are not the reserved one, and its own `ensures` says what it gives
/// for those.
impl<T: ReservedValue> vstd::std_specs::convert::FromSpecImpl<T> for PackedOption<T> {
    open spec fn obeys_from_spec() -> bool {
        false
    }

    closed spec fn from_spec(v: T) -> Self {
        PackedOption(v)
    }
}

impl<T: ReservedValue> From<T> for PackedOption<T> {
    /// Convert `t` into a packed `Some(t)`. `t` must not be the reserved value; the
    /// `ensures` speaks of that case only (a `From` impl cannot carry a `requires`).
    fn from(t: T) -> (r: Self)
        ensures
            !t.spec_is_reserved() ==> r@ == Some(t),
    {
        Self(t)
    }
}

/// `from_spec` names the packed option for `v`: the packed value for `Some`, a reserved one
/// for `None`. `obeys_from_spec` is false, because which reserved value `None` packs to is
/// left open and a `Some` must not hold the reserved value: `from` below states its result
/// in its own `ensures`.
impl<T: ReservedValue> vstd::std_specs::convert::FromSpecImpl<Option<T>> for PackedOption<T> {
    open spec fn obeys_from_spec() -> bool {
        false
    }

    closed spec fn from_spec(v: Option<T>) -> Self {
        match v {
            Some(t) => PackedOption(t),
            None => choose|p: Self| p@ is None,
        }
    }
}

impl<T: ReservedValue> From<Option<T>> for PackedOption<T> {
    /// Convert an option into its packed equivalent. A `Some` must not hold the reserved
    /// value; the `ensures` speaks of that case only.
    fn from(opt: Option<T>) -> (r: Self)
        ensures
            match opt {
                Some(t) => !t.spec_is_reserved() ==> r@ == Some(t),
                None => r@ is None,
            },
    {
        match opt {
            None => Self::default(),
            Some(t) => Self(t),
        }
    }
}

impl<T: ReservedValue> vstd::std_specs::convert::FromSpecImpl<PackedOption<T>> for Option<T> {
    open spec fn obeys_from_spec() -> bool {
        true
    }

    open spec fn from_spec(v: PackedOption<T>) -> Self {
        v@
    }
}

impl<T: ReservedValue> From<PackedOption<T>> for Option<T> {
    fn from(packed: PackedOption<T>) -> (r: Option<T>)
        ensures
            r == packed@,
    {
        packed.expand()
    }
}

} // verus!
