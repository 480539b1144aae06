use sorted_set::{BucketList, SortedMultiset, SortedSet};

fn items<T: Copy>(refs: Vec<&T>) -> Vec<T> {
    refs.into_iter().copied().collect()
}

#[test]
fn contains_iff_counted() {
    let m = SortedMultiset::from_vec(vec![1, 4, 4, 9]);
    for x in 0..11 {
        assert_eq!(m.contains(&x), m.count(&x) > 0);
    }
}

#[test]
fn count_is_difference_of_indices() {
    let m = SortedMultiset::from_vec(vec![1, 4, 4, 4, 9]);
    for x in 0..11 {
        assert_eq!(m.count(&x), m.index_right(&x) - m.index(&x));
    }
    assert_eq!(m.count(&4), 3);
}

#[test]
fn add_then_contains() {
    let mut s = SortedSet::from_vec(vec![2, 8]);
    s.add(5);
    assert!(s.contains(&5));
    s.add(5);
    assert!(s.contains(&5));
    assert_eq!(items(s.iter()), [2, 5, 8]);
}

#[test]
fn add_then_discard_restores() {
    let mut m = SortedMultiset::from_vec(vec![1, 3, 3, 7]);
    let before = items(m.iter());
    assert!(m.add(3));
    assert!(m.discard(&3));
    assert_eq!(items(m.iter()), before);

    let mut s = SortedSet::from_vec(vec![1, 3, 7]);
    let before = items(s.iter());
    assert!(s.add(4));
    assert!(s.discard(&4));
    assert_eq!(items(s.iter()), before);
}

#[test]
fn set_discard_removes_value() {
    let mut s = SortedSet::from_vec(vec![1, 3, 7]);
    assert!(s.discard(&3));
    assert!(!s.contains(&3));
    assert!(!s.discard(&3));
}

#[test]
fn discard_lowers_count_by_one() {
    let mut m = SortedMultiset::from_vec(vec![3, 3, 3, 6]);
    assert!(m.discard(&3));
    assert_eq!(m.count(&3), 2);
    assert_eq!(m.count(&6), 1);
}

#[test]
fn neighbour_queries_are_extremal() {
    let s = SortedMultiset::from_vec(vec![1, 4, 4, 9]);
    let v = items(s.iter());
    for x in 0..11 {
        assert_eq!(s.lt(&x).copied(), v.iter().copied().filter(|y| *y < x).max());
        assert_eq!(s.le(&x).copied(), v.iter().copied().filter(|y| *y <= x).max());
        assert_eq!(s.gt(&x).copied(), v.iter().copied().filter(|y| *y > x).min());
        assert_eq!(s.ge(&x).copied(), v.iter().copied().filter(|y| *y >= x).min());
    }
}

#[test]
fn negative_index_counts_from_end() {
    let l = BucketList::from_vec(vec![4, 5, 6, 7]);
    for k in 1..=4 {
        assert_eq!(l.get(-(k as isize)), l.get(4 - k as isize));
    }
}

#[test]
fn insert_then_pop_restores() {
    let mut l = BucketList::from_vec(vec![4, 5, 6]);
    for i in 0..=3 {
        assert_eq!(l.insert(i, 9), Ok(()));
        assert_eq!(l.get(i), Some(&9));
        assert_eq!(l.pop(i), Some(9));
        assert_eq!(items(l.iter()), [4, 5, 6]);
    }
}

#[test]
fn reverse_twice_restores() {
    let mut l = BucketList::from_vec((0..70).collect());
    l.reverse();
    l.reverse();
    assert_eq!(items(l.iter()), (0..70).collect::<Vec<_>>());
}

#[test]
fn sorted_after_every_operation() {
    let mut s = SortedMultiset::new();
    for x in [5, 1, 9, 1, 7, 3, 3] {
        s.add(x);
        let v = items(s.iter());
        assert!(v.windows(2).all(|w| w[0] <= w[1]));
    }
    s.pop(2);
    s.discard(&9);
    let v = items(s.iter());
    assert!(v.windows(2).all(|w| w[0] <= w[1]));
    let mut t = SortedSet::new();
    for x in [5, 1, 9, 1, 7, 3, 3] {
        t.add(x);
        let v = items(t.iter());
        assert!(v.windows(2).all(|w| w[0] < w[1]));
    }
}

#[test]
fn equality_by_items() {
    let a = SortedSet::from_vec(vec![3, 2, 1]);
    let mut b = SortedSet::new();
    b.add(1);
    b.add(2);
    b.add(3);
    assert_eq!(a, b);
}

#[test]
fn insert_accepts_only_in_range_indices() {
    let mut l = BucketList::from_vec(vec![1, 2, 3]);
    assert_eq!(l.insert(-4, 0), Err(0));
    assert_eq!(l.insert(4, 0), Err(0));
    assert_eq!(l.insert(-3, 0), Ok(()));
    assert_eq!(items(l.iter()), [0, 1, 2, 3]);
    assert_eq!(l.insert(-1, 9), Ok(()));
    assert_eq!(items(l.iter()), [0, 1, 2, 9, 3]);
    assert_eq!(l.insert(5, 7), Ok(()));
    assert_eq!(items(l.iter()), [0, 1, 2, 9, 3, 7]);
    let mut e = BucketList::new();
    assert_eq!(e.insert(1, 5), Err(5));
    assert_eq!(e.insert(0, 5), Ok(()));
}
