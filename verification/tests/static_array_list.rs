use handle_collections::StaticArrayList;

const CAPACITY: usize = 8;
const NUM_OPS: u64 = 12;

/// A small deterministic generator for the model test.
struct Lcg(u64);

impl Lcg {
    fn next(&mut self) -> u64 {
        self.0 = self.0.wrapping_mul(6364136223846793005).wrapping_add(1442695040888963407);
        self.0 >> 33
    }
}

fn run_model(seed: u64, steps: usize) {
    let mut rng = Lcg(seed);
    let mut list = StaticArrayList::<u8, CAPACITY>::new();
    let mut model = Vec::<u8>::new();
    for _ in 0..steps {
        let op = rng.next() % NUM_OPS;
        let value = rng.next() as u8;
        let index = (rng.next() % CAPACITY as u64) as usize;
        match op {
            0 => {
                if model.len() < CAPACITY {
                    list.add_last(value);
                    model.push(value);
                }
            }
            1 => assert_eq!(list.pop(), model.pop()),
            2 => {
                if !model.is_empty() {
                    let i = index % model.len();
                    assert_eq!(*list.get(i), model[i]);
                }
            }
            3 => {
                if model.len() < CAPACITY {
                    let i = index % (model.len() + 1);
                    list.add(i, value);
                    model.insert(i, value);
                }
            }
            4 => {
                if !model.is_empty() {
                    let i = index % model.len();
                    assert_eq!(list.remove(i), model.remove(i));
                }
            }
            5 => assert_eq!(list.count(), model.len()),
            6 => assert_eq!(list.is_empty(), model.is_empty()),
            7 => assert_eq!(list.is_full(), model.len() == CAPACITY),
            8 => assert_eq!(list.capacity(), CAPACITY),
            9 => assert_eq!(list.slice(), model.as_slice()),
            10 => {
                if !model.is_empty() {
                    let new_len = index % (model.len() + 1);
                    list.truncate(new_len);
                    model.truncate(new_len);
                }
            }
            _ => {
                list.clear();
                model.clear();
            }
        }
    }
}

#[test]
fn matches_vec_model() {
    for seed in 0..40u64 {
        run_model(seed, 500);
    }
}

#[test]
fn fills_to_capacity() {
    let mut list = StaticArrayList::<u32, 3>::new();
    assert!(list.is_empty());
    list.add_last(1);
    list.add_last(2);
    list.add_last(3);
    assert!(list.is_full());
    assert_eq!(list.count(), 3);
    assert_eq!(list.slice(), &[1, 2, 3]);
    assert_eq!(list.pop(), Some(3));
    assert_eq!(list.pop(), Some(2));
    assert_eq!(list.pop(), Some(1));
    assert_eq!(list.pop(), None);
}

#[test]
fn insert_remove_round_trip() {
    let mut list = StaticArrayList::<char, 5>::new();
    list.add_last('a');
    list.add_last('c');
    list.add(1, 'b');
    list.add(0, '_');
    assert_eq!(list.slice(), &['_', 'a', 'b', 'c']);
    assert_eq!(list.remove(0), '_');
    assert_eq!(list.remove(1), 'b');
    assert_eq!(list.slice(), &['a', 'c']);
}

#[test]
fn last_and_mutation() {
    let mut list: StaticArrayList<i32, 4> = Default::default();
    assert_eq!(list.last(), None);
    assert!(list.last_mut().is_none());
    list.add_last(5);
    list.add_last(6);
    assert_eq!(list.last(), Some(&6));
    *list.last_mut().unwrap() = 60;
    *list.get_mut(0) += 1;
    for v in list.iter_mut() {
        *v += 1;
    }
    list.slice_mut()[0] += 100;
    let items: Vec<i32> = list.iter().copied().collect();
    assert_eq!(items, vec![107, 61]);
    list.truncate(1);
    assert_eq!(list.slice(), &[107]);
    list.clear();
    assert!(list.is_empty());
}

#[test]
fn try_from_slice() {
    let ok = StaticArrayList::<String, 3>::try_from(&["x".to_string(), "y".to_string()][..]);
    let ok = ok.unwrap();
    assert_eq!(ok.count(), 2);
    assert_eq!(ok.get(1), "y");
    let too_long = StaticArrayList::<u8, 2>::try_from(&[1u8, 2, 3][..]);
    assert!(too_long.is_err());
    let exact = StaticArrayList::<u8, 2>::try_from(&[1u8, 2][..]).unwrap();
    assert!(exact.is_full());
}
