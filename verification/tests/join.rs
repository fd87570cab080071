use async_ecs::join::{join_indices, join_maybe_indices};
use async_ecs::{BitIter, BitProducer, JoinIter, Mask, Split};

fn mask_of(indices: &[u32]) -> Mask {
    let mut m = Mask::new();
    for &i in indices {
        m.add(i);
    }
    m
}

#[test]
fn join_yields_sorted_intersection() {
    let a = mask_of(&[1, 2, 3]);
    let b = mask_of(&[2, 3, 4]);

    assert_eq!(vec![2, 3], join_indices(&a, &b));
}

#[test]
fn maybe_join_keeps_constrained_side() {
    let a = mask_of(&[1, 2, 3]);
    let b = mask_of(&[2, 3, 4]);

    assert_eq!(vec![(1, false), (2, true), (3, true)], join_maybe_indices(&a, &b));
}

#[test]
fn join_with_empty_mask_is_empty() {
    let a = mask_of(&[1, 2, 3]);
    let b = Mask::new();

    assert_eq!(Vec::<u32>::new(), join_indices(&a, &b));
}

#[test]
fn join_iter_yields_in_order() {
    let a = mask_of(&[5, 1, 9]);
    let mut iter = JoinIter::new(&a);

    assert_eq!(Some(1), iter.next());
    assert_eq!(Some(5), iter.next());
    assert!(iter.contains(9));
    assert!(!iter.contains(2));
    assert_eq!(Some(9), iter.next());
    assert_eq!(None, iter.next());
}

#[test]
fn iterator_clone() {
    let mut set = Mask::new();

    set.add(1);
    set.add(3);

    let mut iter = BitIter::new(&set);
    iter.next();

    let mut a = iter.clone();
    let mut b = iter;
    loop {
        let x = a.next();
        let y = b.next();
        assert_eq!(x, y);
        if x.is_none() {
            break;
        }
    }
}

#[test]
fn bit_iter_split_balances() {
    let set = mask_of(&[1, 2, 3, 4, 5]);
    let iter = BitIter::new(&set);

    let (mut left, right) = iter.split();
    let mut right = right.unwrap();

    assert_eq!(Some(1), left.next());
    assert_eq!(Some(2), left.next());
    assert_eq!(Some(3), left.next());
    assert_eq!(None, left.next());

    assert_eq!(Some(4), right.next());
    assert_eq!(Some(5), right.next());
    assert_eq!(None, right.next());
}

#[test]
fn bit_iter_split_singleton_has_no_right() {
    let set = mask_of(&[7]);
    let iter = BitIter::new(&set);

    let (mut left, right) = iter.split();
    assert!(right.is_none());
    assert_eq!(Some(7), left.next());
    assert_eq!(None, left.next());
}

#[test]
fn bit_producer_splits_like_its_iterator() {
    let set = mask_of(&[10, 20, 30, 40]);
    let producer = BitProducer::new(BitIter::new(&set));

    let (left, right) = producer.split();
    let mut l = left.iter;
    let mut r = right.unwrap().iter;

    assert_eq!(Some(10), l.next());
    assert_eq!(Some(20), l.next());
    assert_eq!(None, l.next());
    assert_eq!(Some(30), r.next());
    assert_eq!(Some(40), r.next());
    assert_eq!(None, r.next());
}

#[test]
fn split_of_three_tuple() {
    let (left, right) = (1, "a", 2.5).split();
    assert_eq!((1,), left);
    assert_eq!(("a", 2.5), right);
}

#[test]
fn anti_join_yields_the_difference() {
    let a = mask_of(&[1, 2, 3]);
    let b = mask_of(&[2, 3, 4]);

    assert_eq!(vec![1], async_ecs::join::join_without_indices(&a, &b));
}

#[test]
fn three_way_join_intersects_all() {
    let a = mask_of(&[1, 2, 3, 4]);
    let b = mask_of(&[2, 3, 4]);
    let c = mask_of(&[3, 4, 5]);

    assert_eq!(vec![3, 4], async_ecs::join::join_indices3(&a, &b, &c));
}

#[test]
fn four_way_join_intersects_all() {
    let a = mask_of(&[1, 2, 3, 4, 5]);
    let b = mask_of(&[2, 3, 4, 5]);
    let c = mask_of(&[3, 4, 5]);
    let d = mask_of(&[1, 3, 5]);

    assert_eq!(vec![3, 5], async_ecs::join::join_indices4(&a, &b, &c, &d));
}

#[test]
fn n_way_join_matches_chained_pairs() {
    let a = mask_of(&[1, 2, 3, 4, 5, 6]);
    let b = mask_of(&[2, 4, 6]);
    let c = mask_of(&[4, 5, 6]);

    let masks = vec![&a, &b, &c];
    assert_eq!(vec![4, 6], async_ecs::join::join_indices_all(&masks));

    let single = vec![&a];
    assert_eq!(vec![1, 2, 3, 4, 5, 6], async_ecs::join::join_indices_all(&single));
}
