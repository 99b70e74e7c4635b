use rand::Rng;
use skiparena::arena::Arena;
use skiparena::{SkipList, SkipListIterator};
use std::collections::hash_map::DefaultHasher;
use std::hash::{Hash, Hasher};
use std::sync::atomic::{AtomicU64, Ordering};

const K: u64 = 4;

type Key = u64;

fn key(key: Key) -> u64 {
    key >> 40
}
fn gen(key: Key) -> u64 {
    (key >> 8) & 0xffffffff
}
fn hash(key: Key) -> u64 {
    key & 0xff
}

fn hash_numbers(k: u64, g: u64) -> u64 {
    let mut hasher = DefaultHasher::new();
    k.hash(&mut hasher);
    g.hash(&mut hasher);
    hasher.finish()
}

fn make_key(k: u64, g: u64) -> Key {
    assert!(k <= K);
    assert!(g <= 0xffffffff);
    (k << 40) | (g << 8) | (hash_numbers(k, g) & 0xff)
}

fn is_valid_key(k: Key) -> bool {
    hash(k) == (hash_numbers(key(k), gen(k)) & 0xff)
}

fn random_target(rng: &mut impl Rng) -> Key {
    match rng.gen_range(0..10) {
        0 => make_key(0, 0),
        1 => make_key(K, 0),
        _ => make_key(rng.gen_range(0..K), 0),
    }
}

struct State {
    generation: Vec<AtomicU64>,
}

impl State {
    fn new() -> Self {
        let generation = (0..K).map(|_| AtomicU64::new(0)).collect();
        State { generation }
    }

    fn set(&self, k: usize, v: u64) {
        self.generation[k].store(v, Ordering::Release);
    }

    fn get(&self, k: usize) -> u64 {
        self.generation[k].load(Ordering::Acquire)
    }
}

struct ConcurrentTest {
    current: State,
    list: SkipList,
}

impl ConcurrentTest {
    fn new() -> Self {
        let arena = Arena::new();
        ConcurrentTest { current: State::new(), list: SkipList::new(arena) }
    }

    fn write_step(&mut self, rng: &mut impl Rng) {
        let k = rng.gen_range(0..K) as usize;
        let g = self.current.get(k) + 1;
        let key = make_key(k as u64, g);
        self.list.insert(key);
        self.current.set(k, g);
    }

    fn read_step(&self, rng: &mut impl Rng) {
        let initial_state = State::new();
        for k in 0..K as usize {
            initial_state.set(k, self.current.get(k));
        }

        let mut pos = random_target(rng);
        let mut iter = SkipListIterator::new(&self.list);
        iter.seek(pos);

        loop {
            let current = if iter.valid() {
                iter.key()
            } else {
                make_key(K, 0)
            };

            assert!(is_valid_key(current));
            assert!(pos <= current, "should not go backwards");

            while pos < current {
                assert!(key(pos) < K);

                if gen(pos) != 0 {
                    assert!(gen(pos) > initial_state.get(key(pos) as usize) as u64);
                }

                if key(pos) < key(current) {
                    pos = make_key(key(pos) + 1, 0);
                } else {
                    pos = make_key(key(pos), gen(pos) + 1);
                }
            }

            if !iter.valid() {
                break;
            }

            if rng.gen_bool(0.5) {
                iter.next();
                pos = make_key(key(pos), gen(pos) + 1);
            } else {
                let new_target = random_target(rng);
                if new_target > pos {
                    pos = new_target;
                    iter.seek(new_target);
                }
            }
        }
    }
}

#[test]
fn concurrent_without_threads() {
    let mut test = ConcurrentTest::new();
    let mut rng = rand::thread_rng();
    for _ in 0..10000 {
        test.read_step(&mut rng);
        test.write_step(&mut rng);
    }
}
