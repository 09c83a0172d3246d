use handle_collections::StaticBitSet;
use std::collections::BTreeSet;

const CAPACITY: usize = 256;
const NUM_OPS: u32 = 17;

/// A small deterministic generator for the model tests.
struct Lcg(u64);

impl Lcg {
    fn next(&mut self) -> u64 {
        self.0 = self.0.wrapping_mul(6364136223846793005).wrapping_add(1442695040888963407);
        self.0 >> 33
    }
}

fn run_model(seed: u64, steps: usize) {
    let mut rng = Lcg(seed);
    let mut bs = StaticBitSet::<u64, 4>::new();
    let mut model = BTreeSet::<usize>::new();
    for _ in 0..steps {
        let op = (rng.next() % NUM_OPS as u64) as u32;
        let bit = (rng.next() % CAPACITY as u64) as usize;
        match op {
            0 => {
                bs.add(bit);
                model.insert(bit);
            }
            1 => {
                bs.remove(bit);
                model.remove(&bit);
            }
            2 => {
                bs.toggle(bit);
                if !model.remove(&bit) {
                    model.insert(bit);
                }
            }
            3 => assert_eq!(bs.contains(bit), model.contains(&bit)),
            4 => assert_eq!(bs.count(), model.len()),
            5 => assert_eq!(bs.is_empty(), model.is_empty()),
            6 => assert_eq!(bs.is_full(), model.len() == CAPACITY),
            7 => assert_eq!(bs.first_set(), model.first().copied()),
            8 => assert_eq!(bs.last_set(), model.last().copied()),
            9 => {
                let expected = (0..CAPACITY).find(|i| !model.contains(i));
                assert_eq!(bs.first_unset(), expected);
            }
            10 => {
                let expected = (0..CAPACITY).rev().find(|i| !model.contains(i));
                assert_eq!(bs.last_unset(), expected);
            }
            11 => {
                let expected = ((bit + 1)..CAPACITY).find(|j| model.contains(j));
                assert_eq!(bs.first_set_after(bit), expected);
            }
            12 => {
                let expected = (0..bit).rev().find(|j| model.contains(j));
                assert_eq!(bs.last_set_before(bit), expected);
            }
            13 => {
                let expected = ((bit + 1)..CAPACITY).find(|j| !model.contains(j));
                assert_eq!(bs.first_unset_after(bit), expected);
            }
            14 => {
                let expected = (0..bit).rev().find(|j| !model.contains(j));
                assert_eq!(bs.last_unset_before(bit), expected);
            }
            15 => {
                bs.clear();
                model.clear();
            }
            _ => {
                let mut it = bs.iter();
                let mut bits = Vec::new();
                while let Some(b) = it.next() {
                    bits.push(b);
                }
                let model_bits: Vec<usize> = model.iter().copied().collect();
                assert_eq!(bits, model_bits);
            }
        }
    }
}

#[test]
fn matches_btreeset_model() {
    for seed in 0..40u64 {
        run_model(seed, 500);
    }
}

#[test]
fn dense_fill_then_unset_queries() {
    let mut bs = StaticBitSet::<u64, 4>::new();
    bs.fill();
    assert!(bs.is_full());
    assert_eq!(bs.count(), 256);
    assert_eq!(bs.first_unset(), None);
    assert_eq!(bs.last_unset(), None);
    bs.remove(200);
    bs.remove(3);
    assert_eq!(bs.first_unset(), Some(3));
    assert_eq!(bs.last_unset(), Some(200));
    assert_eq!(bs.first_unset_after(3), Some(200));
    assert_eq!(bs.first_unset_after(200), None);
    assert_eq!(bs.last_unset_before(200), Some(3));
    assert_eq!(bs.last_unset_before(3), None);
    assert_eq!(bs.last_unset_before(1000), Some(200));
    assert!(!bs.is_full());
    assert_eq!(bs.count(), 254);
}

#[test]
fn queries_at_word_boundaries() {
    let mut bs = StaticBitSet::<u64, 4>::new();
    bs.add(63);
    bs.add(64);
    bs.add(255);
    assert_eq!(bs.first_set(), Some(63));
    assert_eq!(bs.first_set_after(63), Some(64));
    assert_eq!(bs.first_set_after(64), Some(255));
    assert_eq!(bs.first_set_after(255), None);
    assert_eq!(bs.first_set_after(10_000), None);
    assert_eq!(bs.last_set(), Some(255));
    assert_eq!(bs.last_set_before(255), Some(64));
    assert_eq!(bs.last_set_before(64), Some(63));
    assert_eq!(bs.last_set_before(63), None);
    assert_eq!(bs.last_set_before(0), None);
    assert_eq!(bs.last_set_before(10_000), Some(255));
}

#[test]
fn empty_set_queries() {
    let bs = StaticBitSet::<u32, 2>::new();
    assert!(bs.is_empty());
    assert_eq!(bs.count(), 0);
    assert_eq!(bs.first_set(), None);
    assert_eq!(bs.last_set(), None);
    assert_eq!(bs.first_unset(), Some(0));
    assert_eq!(bs.last_unset(), Some(63));
    let mut it = bs.iter();
    assert_eq!(it.next(), None);
}

#[test]
fn from_lists_the_positions() {
    let bs = StaticBitSet::<u16, 3>::from(&[1, 17, 47, 17]);
    assert_eq!(bs.count(), 3);
    assert!(bs.contains(1));
    assert!(bs.contains(17));
    assert!(bs.contains(47));
    assert!(!bs.contains(0));
    assert_eq!(bs.words(), &[0b10u16, 0b10, 0x8000][..]);
}

#[test]
fn toggle_twice_restores() {
    let mut bs = StaticBitSet::<u8, 2>::from(&[0, 9]);
    let before = bs;
    bs.toggle(9);
    assert!(!bs.contains(9));
    bs.toggle(9);
    assert!(bs == before);
    bs.toggle(4);
    bs.toggle(4);
    assert!(bs == before);
}

#[test]
fn count_uses_every_word_width() {
    let mut a = StaticBitSet::<u8, 3>::new();
    a.fill();
    assert_eq!(a.count(), 24);
    let mut b = StaticBitSet::<u16, 1>::from(&[0, 5, 15]);
    assert_eq!(b.count(), 3);
    b.fill();
    assert_eq!(b.count(), 16);
    let c = StaticBitSet::<u32, 2>::from(&[31, 32, 33]);
    assert_eq!(c.count(), 3);
    let d = StaticBitSet::<u64, 1>::from(&[0, 1, 2, 63]);
    assert_eq!(d.count(), 4);
    let e = StaticBitSet::<u128, 2>::from(&[0, 64, 127, 128, 255]);
    assert_eq!(e.count(), 5);
    let f = StaticBitSet::<usize, 2>::from(&[0, 7, usize::BITS as usize]);
    assert_eq!(f.count(), 3);
}

#[test]
fn u128_words_search_both_halves() {
    let mut bs = StaticBitSet::<u128, 2>::new();
    bs.add(100);
    bs.add(130);
    assert_eq!(bs.first_set(), Some(100));
    assert_eq!(bs.last_set(), Some(130));
    assert_eq!(bs.first_set_after(100), Some(130));
    assert_eq!(bs.last_set_before(130), Some(100));
    assert_eq!(bs.first_unset(), Some(0));
    bs.fill();
    bs.remove(70);
    assert_eq!(bs.first_unset(), Some(70));
    assert_eq!(bs.last_unset(), Some(70));
}

#[test]
fn usize_words_search() {
    let mut bs = StaticBitSet::<usize, 2>::new();
    let top = 2 * usize::BITS as usize - 1;
    bs.add(top);
    bs.add(5);
    assert_eq!(bs.last_set(), Some(top));
    assert_eq!(bs.first_set(), Some(5));
    assert_eq!(bs.last_unset(), Some(top - 1));
    assert!(bs.contains(top));
}

#[test]
fn set_operators() {
    let a = StaticBitSet::<u64, 2>::from(&[1, 2, 100]);
    let b = StaticBitSet::<u64, 2>::from(&[2, 3, 100, 127]);
    let u = &a | &b;
    let i = &a & &b;
    let x = &a ^ &b;
    let n = !&a;
    assert_eq!(u.count(), 5);
    assert!(u.contains(1) && u.contains(3) && u.contains(127));
    assert_eq!(i.count(), 2);
    assert!(i.contains(2) && i.contains(100));
    assert_eq!(x.count(), 3);
    assert!(x.contains(1) && x.contains(3) && x.contains(127) && !x.contains(2));
    assert_eq!(n.count(), 125);
    assert!(!n.contains(1) && n.contains(0));

    let mut c = a;
    c |= &b;
    assert!(c == u);
    let mut d = a;
    d &= &b;
    assert!(d == i);
    let mut e = a;
    e ^= &b;
    assert!(e == x);
}

#[test]
fn words_mut_writes_through() {
    let mut bs = StaticBitSet::<u8, 2>::new();
    bs.words_mut()[1] = 0b1000_0001;
    assert!(bs.contains(8));
    assert!(bs.contains(15));
    assert_eq!(bs.count(), 2);
}

#[test]
fn iterator_restarts_after_the_end() {
    let bs = StaticBitSet::<u64, 1>::from(&[4, 9]);
    let mut it = bs.iter();
    assert_eq!(it.next(), Some(4));
    assert_eq!(it.next(), Some(9));
    assert_eq!(it.next(), None);
    assert_eq!(it.next(), Some(4));
}

#[test]
fn default_is_empty() {
    let bs: StaticBitSet<u32, 3> = Default::default();
    assert!(bs.is_empty());
}

#[test]
fn complement_twice_restores() {
    let a = StaticBitSet::<u32, 2>::from(&[0, 31, 40]);
    let once = !&a;
    assert_eq!(once.count(), 61);
    let twice = !&once;
    assert!(twice == a);
}

#[test]
fn add_then_remove_restores() {
    let a = StaticBitSet::<u64, 1>::from(&[2, 50]);
    let mut b = a;
    b.add(7);
    assert!(b.contains(7));
    assert!(b != a);
    b.remove(7);
    assert!(!b.contains(7));
    assert!(b == a);
}

#[test]
fn walk_lists_every_member_once_in_order() {
    let bs = StaticBitSet::<u8, 3>::from(&[23, 0, 7, 8, 15, 16, 7]);
    let mut it = bs.iter();
    let mut seen = Vec::new();
    while let Some(b) = it.next() {
        seen.push(b);
    }
    assert_eq!(seen, vec![0, 7, 8, 15, 16, 23]);
    assert_eq!(seen.len(), bs.count());
    assert_eq!(seen.last().copied(), bs.last_set());
    for b in 0..24 {
        assert_eq!(bs.contains(b), seen.contains(&b));
    }
}

#[test]
fn walk_of_empty_set_ends_at_once() {
    let bs = StaticBitSet::<u32, 2>::new();
    let mut it = bs.iter();
    assert_eq!(it.next(), None);
    assert_eq!(bs.count(), 0);
    assert_eq!(bs.last_set(), None);
}

#[test]
fn count_steps_with_add_and_remove() {
    let mut bs = StaticBitSet::<u16, 2>::from(&[3, 17]);
    assert_eq!(bs.count(), 2);
    bs.add(20);
    assert_eq!(bs.count(), 3);
    let before = bs;
    bs.add(20);
    assert!(bs == before);
    assert_eq!(bs.count(), 3);
    bs.remove(3);
    assert_eq!(bs.count(), 2);
    let before = bs;
    bs.remove(3);
    assert!(bs == before);
    assert_eq!(bs.count(), 2);
}

#[test]
fn cleared_set_is_new() {
    let mut bs = StaticBitSet::<u32, 2>::from(&[0, 33, 63]);
    bs.clear();
    assert!(bs.is_empty());
    assert_eq!(bs.count(), 0);
    assert_eq!(bs.first_set(), None);
    assert_eq!(bs.last_set(), None);
    assert!(bs == StaticBitSet::new());
    assert!(bs.words().iter().all(|w| *w == 0));
}

#[test]
fn from_counts_distinct_positions() {
    let bs = StaticBitSet::<u8, 2>::from(&[9, 2, 9, 15, 2, 2]);
    assert_eq!(bs.count(), 3);
    let mut it = bs.iter();
    let mut seen = Vec::new();
    while let Some(b) = it.next() {
        seen.push(b);
    }
    assert_eq!(seen, vec![2, 9, 15]);
}
