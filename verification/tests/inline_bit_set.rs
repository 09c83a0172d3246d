use handle_collections::InlineBitSet;
use std::collections::BTreeSet;

/// A small deterministic generator for the model test.
struct Lcg(u64);

impl Lcg {
    fn next(&mut self) -> u64 {
        self.0 = self.0.wrapping_mul(6364136223846793005).wrapping_add(1442695040888963407);
        self.0 >> 33
    }
}

#[test]
fn inline_matches_btreeset_model() {
    for seed in 0..20u64 {
        let mut rng = Lcg(seed);
        let mut bs = InlineBitSet::<2>::new();
        let mut model = BTreeSet::<usize>::new();
        for _ in 0..400 {
            let bit = (rng.next() % 128) as usize;
            match rng.next() % 8 {
                0 | 1 => {
                    bs.insert(bit);
                    model.insert(bit);
                }
                2 => {
                    bs.remove(bit);
                    model.remove(&bit);
                }
                3 => {
                    bs.toggle(bit);
                    if !model.remove(&bit) {
                        model.insert(bit);
                    }
                }
                4 => {
                    assert_eq!(bs.len(), model.len());
                    assert_eq!(bs.contains(bit), model.contains(&bit));
                }
                5 => {
                    assert_eq!(bs.first_set_after(bit), ((bit + 1)..128).find(|j| model.contains(j)));
                    assert_eq!(bs.last_set_before(bit), (0..bit).rev().find(|j| model.contains(j)));
                }
                6 => {
                    assert_eq!(bs.first_unset_after(bit), ((bit + 1)..128).find(|j| !model.contains(j)));
                    assert_eq!(bs.last_unset_before(bit), (0..bit).rev().find(|j| !model.contains(j)));
                }
                _ => {
                    let mut it = bs.iter();
                    let mut bits = Vec::new();
                    while let Some(b) = it.next() {
                        bits.push(b);
                    }
                    assert_eq!(bits, model.iter().copied().collect::<Vec<_>>());
                    assert_eq!(bs.first_set(), model.first().copied());
                    assert_eq!(bs.last_set(), model.last().copied());
                    assert_eq!(bs.is_empty(), model.is_empty());
                    assert_eq!(bs.first_unset(), (0..128).find(|j| !model.contains(j)));
                    assert_eq!(bs.last_unset(), (0..128).rev().find(|j| !model.contains(j)));
                }
            }
        }
    }
}

#[test]
fn inline_default_word_is_u64() {
    let mut bs: InlineBitSet<1> = InlineBitSet::new();
    bs.insert(63);
    assert_eq!(bs.words(), &[1u64 << 63][..]);
    bs.fill();
    assert!(bs.is_full());
    assert_eq!(bs.len(), 64);
    bs.clear();
    assert!(bs.is_empty());
}

#[test]
fn inline_operators_and_words() {
    let mut a = InlineBitSet::<1, u8>::new();
    a.insert(1);
    a.insert(6);
    let mut b = InlineBitSet::<1, u8>::default();
    b.insert(6);
    b.insert(7);
    assert_eq!((&a | &b).len(), 3);
    assert_eq!((&a & &b).len(), 1);
    assert_eq!((&a ^ &b).len(), 2);
    assert_eq!((!&a).len(), 6);
    let mut c = a;
    c |= &b;
    c &= &b;
    assert!(c == b);
    c ^= &b;
    assert!(c.is_empty());
    c.words_mut()[0] = 0xff;
    assert!(c.is_full());
}

#[test]
fn inline_walk_matches_count_and_last() {
    let mut bs = InlineBitSet::<2, u64>::new();
    for b in [127usize, 0, 63, 64, 5] {
        bs.insert(b);
    }
    let mut it = bs.iter();
    let mut seen = Vec::new();
    while let Some(b) = it.next() {
        seen.push(b);
    }
    assert_eq!(seen, vec![0, 5, 63, 64, 127]);
    assert_eq!(seen.len(), bs.len());
    assert_eq!(seen.last().copied(), bs.last_set());
    assert_eq!(it.next(), Some(0));
}
