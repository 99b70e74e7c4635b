use rand::Rng;
use skiparena::arena::Arena;
use skiparena::{Node, SkipList, SkipListIterator};

#[test]
fn test_empty() {
    let arena = Arena::new();
    let list = SkipList::new(arena);
    assert_eq!(list.contains(10), false);

    let mut iter = SkipListIterator::new(&list);
    assert_eq!(iter.valid(), false);
    iter.seek_to_first();
    assert_eq!(iter.valid(), false);
    iter.seek(100);
    assert_eq!(iter.valid(), false);
    iter.seek_to_last();
    assert_eq!(iter.valid(), false);
}

#[test]
fn insert_and_lookup() {
    let n = 2000;
    let r = 5000;
    let mut rnd = rand::thread_rng();
    let mut keys = std::collections::btree_set::BTreeSet::new();
    let arena = Arena::new();
    let mut list = SkipList::new(arena);

    for _ in 0..r {
        let key: u64 = rnd.gen_range(0..r);
        if keys.insert(key) {
            list.insert(key);
            continue;
        }
    }

    for i in 0..n {
        if list.contains(i) {
            assert!(keys.contains(&i));
        } else {
            assert!(!keys.contains(&i));
        }
    }

    {
        let mut iter = SkipListIterator::new(&list);
        iter.seek_to_first();
        for i in 0..r {
            if keys.contains(&i) {
                assert_eq!(iter.valid(), true);
                assert_eq!(iter.key(), i);
                iter.next();
            }
        }
        assert_eq!(iter.valid(), false);
    }

    {
        let mut iter = SkipListIterator::new(&list);
        assert!(!iter.valid());

        iter.seek(0);
        assert!(iter.valid());
        assert_eq!(*keys.iter().next().unwrap(), iter.key());

        iter.seek_to_first();
        assert!(iter.valid());
        assert_eq!(*keys.iter().next().unwrap(), iter.key());

        iter.seek_to_last();
        assert!(iter.valid());
        assert_eq!(*keys.iter().rev().next().unwrap(), iter.key());
    }

    // Forward iteration test
    for i in 0..r {
        let mut iter = SkipListIterator::new(&list);
        iter.seek(i);
        let mut model_iter = keys.range(i..);

        for _ in 0..3 {
            let v = model_iter.next();
            if v.is_none() {
                assert!(!iter.valid());
                break;
            } else {
                assert!(iter.valid());
                assert_eq!(*v.unwrap(), iter.key());
                iter.next();
            }
        }
    }

    // Backward iteration test
    {
        let mut iter = SkipListIterator::new(&list);
        iter.seek_to_last();

        for k in keys.iter().rev() {
            assert!(iter.valid());
            assert_eq!(*k, iter.key());
            iter.prev();
        }

        assert!(!iter.valid());
    }
}

#[test]
fn small_scenario_seek_next_prev() {
    let arena = Arena::new();
    let mut list = SkipList::new(arena);
    list.insert(3);
    list.insert(1);
    list.insert(7);

    assert!(list.contains(1));
    assert!(list.contains(3));
    assert!(list.contains(7));
    assert!(!list.contains(2));
    assert!(!list.contains(8));

    let mut iter = SkipListIterator::new(&list);
    iter.seek_to_first();
    assert!(iter.valid());
    assert_eq!(iter.key(), 1);
    iter.next();
    assert_eq!(iter.key(), 3);
    iter.next();
    assert_eq!(iter.key(), 7);
    iter.next();
    assert!(!iter.valid());

    iter.seek(2);
    assert!(iter.valid());
    assert_eq!(iter.key(), 3);
    iter.seek(7);
    assert_eq!(iter.key(), 7);
    iter.seek(8);
    assert!(!iter.valid());

    iter.seek_to_last();
    assert_eq!(iter.key(), 7);
    iter.prev();
    assert_eq!(iter.key(), 3);
    iter.prev();
    assert_eq!(iter.key(), 1);
    iter.prev();
    assert!(!iter.valid());
}

#[test]
fn forward_walk_never_regresses() {
    let arena = Arena::new();
    let mut list = SkipList::new(arena);
    for i in 0..100u64 {
        list.insert(i * 13 % 997);
    }
    for t in 0..1000u64 {
        let mut iter = SkipListIterator::new(&list);
        iter.seek(t);
        let mut last = t;
        let mut steps = 0;
        while iter.valid() && steps < 5 {
            let k = iter.key();
            assert!(k >= last);
            last = k;
            iter.next();
            steps += 1;
        }
    }
}

#[test]
fn node_cells_start_empty_and_update_one_at_a_time() {
    let mut n = Node::new(5, 3);
    for l in 0..3 {
        assert!(n.next(l).is_none());
    }
    n.set_next(0, Some(7));
    assert_eq!(n.next(0), Some(7));
    assert!(n.next(1).is_none());
    assert!(n.next(2).is_none());
}

#[test]
fn index_level_searches_agree() {
    let arena = Arena::new();
    let mut list = SkipList::new(arena);
    list.insert(2);
    list.insert(9);

    let two = match list.find_greater_or_equal(2) {
        Some(n) => n,
        None => unreachable!(),
    };
    let nine = match list.find_greater_or_equal(9) {
        Some(n) => n,
        None => unreachable!(),
    };
    assert!(list.find_greater_or_equal(10).is_none());

    // the last node below 9 is the node holding 2; below 2 there is none
    assert_eq!(list.find_less_than(9), two);
    assert_eq!(list.find_less_than(2), 0);
    assert_eq!(list.find_last(), nine);

    // the descent moves right exactly past strictly smaller keys
    assert!(list.key_is_after_node(5, Some(two)));
    assert!(!list.key_is_after_node(5, Some(nine)));
    assert!(!list.key_is_after_node(5, None));
}

#[test]
fn random_height_stays_in_range() {
    let arena = Arena::new();
    let mut list = SkipList::new(arena);
    let mut saw_tall = false;
    for _ in 0..1000 {
        let h = list.random_height();
        assert!(1 <= h && h <= 12);
        if h > 1 {
            saw_tall = true;
        }
    }
    // with branching 4, a thousand draws yield a tall node in practice
    assert!(saw_tall);
}
