use handle_collections::{PackedOption, ReservedValue};

/// A small index type whose largest value is reserved to mean "none".
#[derive(Clone, Copy, PartialEq, Eq, PartialOrd, Ord, Hash, Debug)]
struct Slot(u16);

impl ReservedValue for Slot {
    // The specification function is read only by the verifier; compiled code never calls it.
    fn spec_is_reserved(&self) -> bool {
        unreachable!()
    }

    fn reserved() -> Self {
        Slot(u16::MAX)
    }

    fn is_reserved(&self) -> bool {
        self.0 == u16::MAX
    }
}

#[test]
fn default_is_none() {
    let p: PackedOption<Slot> = PackedOption::default();
    assert!(p.is_none());
    assert!(!p.is_some());
    assert_eq!(p.expand(), None);
}

#[test]
fn from_value_is_some() {
    let p = PackedOption::from(Slot(7));
    assert!(p.is_some());
    assert_eq!(p.expand(), Some(Slot(7)));
    assert_eq!(p.unwrap(), Slot(7));
    assert_eq!(p.expect("present"), Slot(7));
    assert_eq!(p.map(|s| s.0 * 2), Some(14));
}

#[test]
fn reserved_value_packs_to_none() {
    let p: PackedOption<Slot> = PackedOption::from(None);
    assert!(p.is_none());
    assert_eq!(p.map(|s| s.0), None);
    assert!(Slot::reserved().is_reserved());
}

#[test]
fn repacking_an_unwrapped_value_gives_it_back() {
    let p = PackedOption::from(Slot(41));
    let q = PackedOption::from(p.unwrap());
    assert!(q == p);
    assert!(!p.unwrap().is_reserved());
}

#[test]
fn option_round_trip() {
    let some: PackedOption<Slot> = Some(Slot(3)).into();
    let none: PackedOption<Slot> = None.into();
    let back: Option<Slot> = some.into();
    assert_eq!(back, Some(Slot(3)));
    let back: Option<Slot> = none.into();
    assert_eq!(back, None);
}

#[test]
fn take_leaves_none() {
    let mut p = PackedOption::from(Slot(1));
    assert_eq!(p.take(), Some(Slot(1)));
    assert!(p.is_none());
    assert_eq!(p.take(), None);
}

#[test]
fn packed_options_compare() {
    let a = PackedOption::from(Slot(1));
    let b = PackedOption::from(Slot(2));
    assert!(a < b);
    assert!(a == PackedOption::from(Slot(1)));
    assert_eq!(std::mem::size_of::<PackedOption<Slot>>(), 2);
}
