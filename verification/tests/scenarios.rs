use sorted_set::{BucketList, SortedMultiset, SortedSet};

fn items<T: Copy>(refs: Vec<&T>) -> Vec<T> {
    refs.into_iter().copied().collect()
}

#[test]
fn readme_set_walkthrough() {
    let mut s = SortedSet::from_vec(vec![3, 1, 3, 2]);
    assert!(s.add(4));
    assert_eq!(s.lt(&3), Some(&2));
    assert_eq!(s.index(&3), 2);
    assert_eq!(s[-1], 4);
    assert_eq!(s.get(-1), Some(&4));
    assert_eq!(s.pop(-1), Some(4));

    let mut m = SortedMultiset::from_vec(vec![2, 2, 1]);
    assert!(m.discard(&2));
    assert_eq!(m.count(&2), 1);
}

#[test]
fn example_program_walkthrough() {
    let mut set = SortedSet::from_vec(vec![3, 1, 4, 1, 5]);
    assert!(!set.add(3));
    assert!(set.add(2));
    assert_eq!(set.lt(&3), Some(&2));
    assert_eq!(set.ge(&3), Some(&3));
    assert_eq!(set.index(&3), 2);
    assert_eq!(set[-1], 5);
    assert_eq!(set.pop_last(), Some(5));
    assert_eq!(items(set.iter()), [1, 2, 3, 4]);

    let mut multi = SortedMultiset::from_vec(vec![2, 2, 1]);
    multi.discard(&2);
    assert_eq!(multi.count(&2), 1);

    let mut list = BucketList::from_vec(vec![3, 1, 2]);
    list.insert(-1, 9).unwrap();
    list.reverse();
    assert_eq!(items(list.iter()), [2, 9, 1, 3]);
}

#[test]
fn sorting_construction_sorts_and_deduplicates() {
    let s = SortedSet::from_vec(vec![5, 3, 9, 3, 1, 9]);
    assert_eq!(items(s.iter()), [1, 3, 5, 9]);
    let m = SortedMultiset::from_vec(vec![5, 3, 9, 3, 1, 9]);
    assert_eq!(items(m.iter()), [1, 3, 3, 5, 9, 9]);
    let sorted_input = SortedMultiset::from_vec(vec![1, 1, 2, 7]);
    assert_eq!(items(sorted_input.iter()), [1, 1, 2, 7]);
    let empty = SortedSet::<i32>::from_vec(Vec::new());
    assert!(empty.is_empty());
    assert!(empty.buckets().is_empty());
}

#[test]
fn neighbours_of_missing_and_present_values() {
    let s = SortedSet::from_vec(vec![10, 20, 30]);
    assert_eq!(s.lt(&20), Some(&10));
    assert_eq!(s.le(&20), Some(&20));
    assert_eq!(s.gt(&20), Some(&30));
    assert_eq!(s.ge(&20), Some(&20));
    assert_eq!(s.lt(&25), Some(&20));
    assert_eq!(s.le(&25), Some(&20));
    assert_eq!(s.gt(&25), Some(&30));
    assert_eq!(s.ge(&25), Some(&30));
    assert_eq!(s.lt(&10), None);
    assert_eq!(s.le(&5), None);
    assert_eq!(s.gt(&30), None);
    assert_eq!(s.ge(&31), None);
    assert_eq!(s.index(&25), 2);
    assert_eq!(s.index_right(&20), 2);
    assert_eq!(s.index(&0), 0);
    assert_eq!(s.index_right(&99), 3);
    assert_eq!(s.count(&20), 1);
    assert_eq!(s.count(&21), 0);
}

#[test]
fn empty_collections() {
    let mut s = SortedMultiset::<i32>::new();
    assert!(s.is_empty());
    assert_eq!(s.len(), 0);
    assert_eq!(s.lt(&0), None);
    assert_eq!(s.le(&0), None);
    assert_eq!(s.gt(&0), None);
    assert_eq!(s.ge(&0), None);
    assert_eq!(s.index(&0), 0);
    assert_eq!(s.index_right(&0), 0);
    assert_eq!(s.count(&0), 0);
    assert!(!s.contains(&0));
    assert!(!s.discard(&0));
    assert_eq!(s.get(0), None);
    assert_eq!(s.get(-1), None);
    assert_eq!(s.pop(0), None);
    assert_eq!(s.pop_last(), None);
    let d = SortedSet::<i32>::default();
    assert!(d.is_empty());
    let l = BucketList::<i32>::default();
    assert!(l.is_empty());
}

#[test]
fn negative_indices() {
    let s = SortedSet::from_vec(vec![1, 3, 5]);
    assert_eq!(s.get(-3), Some(&1));
    assert_eq!(s.get(-4), None);
    assert_eq!(s.get(2), Some(&5));
    assert_eq!(s.get(3), None);
    let l = BucketList::from_vec(vec![1, 3, 5]);
    assert_eq!(l.get(0), Some(&1));
    assert_eq!(l.get(-1), Some(&5));
    assert_eq!(l.get(3), None);
    assert_eq!(l[0], 1);
    assert_eq!(l[-1], 5);
}

#[test]
fn bucket_list_doc_examples() {
    let s = BucketList::from_vec(vec![3, 1, 3]);
    assert_eq!(items(s.iter()), [3, 1, 3]);
    assert_eq!(s.len(), 3);
    assert_eq!(s.count(&3), 2);
    assert_eq!(s.count(&2), 0);
    assert_eq!(s.index(&3), Some(0));
    assert_eq!(s.index(&9), None);
    assert!(s.contains(&1));
    assert!(!s.contains(&2));

    let mut s = BucketList::from_vec(vec![1, 3, 5]);
    assert_eq!(s.insert(-1, 4), Ok(()));
    assert_eq!(items(s.iter()), [1, 3, 4, 5]);
    assert_eq!(s.insert(99, 7), Err(7));
    assert_eq!(s.len(), 4);

    let mut s = BucketList::from_vec(vec![1, 3, 5]);
    s.append(2);
    assert_eq!(items(s.iter()), [1, 3, 5, 2]);

    let mut s = BucketList::from_vec(vec![1, 3, 5]);
    assert_eq!(s.pop(-1), Some(5));
    assert_eq!(s.pop(0), Some(1));
    assert_eq!(s.pop(9), None);
    assert_eq!(s.len(), 1);

    let mut s = BucketList::from_vec(vec![5]);
    assert_eq!(s.pop_last(), Some(5));
    assert_eq!(s.pop_last(), None);

    let mut s = BucketList::from_vec(vec![3, 1, 3]);
    assert_eq!(s.remove(&3), Some(3));
    assert_eq!(items(s.iter()), [1, 3]);
    assert_eq!(s.remove(&9), None);

    let mut s = BucketList::from_vec(vec![1, 3, 5]);
    *s.get_mut(-1).unwrap() = 9;
    assert_eq!(s.get(-1), Some(&9));
    assert_eq!(s.get_mut(3), None);

    let mut s = BucketList::from_vec(vec![1]);
    s.extend(vec![3, 3]);
    assert_eq!(items(s.iter()), [1, 3, 3]);

    let mut s = BucketList::from_vec(vec![1, 3, 5]);
    s.clear();
    assert!(s.is_empty());
    assert!(s.buckets().is_empty());
}

#[test]
fn initial_bucket_layout() {
    let s = BucketList::from_vec((0..100).collect());
    // ceil(sqrt(100 / 16)) = 3 buckets of 33, 33 and 34 items.
    let sizes: Vec<usize> = s.buckets().iter().map(|b| b.len()).collect();
    assert_eq!(sizes, [33, 33, 34]);
    let one = BucketList::from_vec(vec![1, 2, 3]);
    assert_eq!(one.buckets().len(), 1);
    let exact = BucketList::from_vec((0..64).collect());
    assert_eq!(exact.buckets().len(), 2);
    let just_over = BucketList::from_vec((0..65).collect());
    assert_eq!(just_over.buckets().len(), 3);
}

#[test]
fn buckets_split_when_grown() {
    let mut s = SortedSet::new();
    for x in 0..100 {
        s.add(x);
    }
    assert!(s.buckets().len() > 1);
    assert!(s.buckets().iter().all(|b| !b.is_empty()));
    assert!(s.buckets().iter().all(|b| b.len() <= 24 * s.buckets().len()));
    assert_eq!(items(s.iter()), (0..100).collect::<Vec<_>>());
}

#[test]
fn extend_adds_each_value() {
    let mut s = SortedSet::from_vec(vec![2]);
    s.extend(vec![3, 1, 2, 3]);
    assert_eq!(items(s.iter()), [1, 2, 3]);
    let mut m = SortedMultiset::from_vec(vec![2]);
    m.extend(vec![3, 1, 2, 3]);
    assert_eq!(items(m.iter()), [1, 2, 2, 3, 3]);
}

#[test]
fn equality_ignores_bucket_layout() {
    let mut grown = BucketList::new();
    for x in 0..200 {
        grown.append(x);
    }
    let built = BucketList::from_vec((0..200).collect());
    assert_ne!(grown.buckets().len(), built.buckets().len());
    assert_eq!(grown, built);
    let shorter = BucketList::from_vec((0..199).collect());
    assert_ne!(grown, shorter);
    let a = SortedMultiset::from_vec(vec![1, 1, 2]);
    let b = SortedMultiset::from_vec(vec![1, 2, 2]);
    assert_ne!(a, b);
}

#[test]
fn reverse_list() {
    let mut s = BucketList::from_vec(vec![1, 3, 5]);
    s.reverse();
    assert_eq!(items(s.iter()), [5, 3, 1]);
    let mut big = BucketList::from_vec((0..300).collect());
    big.reverse();
    assert_eq!(items(big.iter()), (0..300).rev().collect::<Vec<_>>());
}

#[test]
fn multiset_discard_removes_one_copy() {
    let mut m = SortedMultiset::from_vec(vec![2, 2, 2, 5]);
    assert!(m.discard(&2));
    assert_eq!(m.count(&2), 2);
    assert_eq!(m.count(&5), 1);
    assert_eq!(items(m.iter()), [2, 2, 5]);
}

#[test]
fn set_add_existing_is_refused() {
    let mut s = SortedSet::from_vec(vec![1, 2]);
    assert!(!s.add(2));
    assert_eq!(items(s.iter()), [1, 2]);
    let mut m = SortedMultiset::from_vec(vec![1, 2]);
    assert!(m.add(2));
    assert_eq!(items(m.iter()), [1, 2, 2]);
}

#[test]
fn bucket_cut_in_two_when_too_long() {
    let mut s = BucketList::new();
    for x in 0..24 {
        s.append(x);
    }
    assert_eq!(s.buckets().len(), 1);
    s.append(24);
    let sizes: Vec<usize> = s.buckets().iter().map(|b| b.len()).collect();
    assert_eq!(sizes, [12, 13]);
    assert_eq!(items(s.iter()), (0..25).collect::<Vec<_>>());
}

#[test]
fn emptied_bucket_is_dropped() {
    let mut s = BucketList::new();
    for x in 0..25 {
        s.append(x);
    }
    for _ in 0..12 {
        s.pop(0);
    }
    assert_eq!(s.buckets().len(), 1);
    assert_eq!(s.buckets()[0], (12..25).collect::<Vec<_>>());
}

#[test]
fn sorted_add_goes_to_first_bucket_reaching_value() {
    let mut s = SortedSet::from_vec((0..100).map(|x| 2 * x).collect());
    let before: Vec<usize> = s.buckets().iter().map(|b| b.len()).collect();
    assert_eq!(before, [33, 33, 34]);
    assert!(s.add(65));
    let after: Vec<usize> = s.buckets().iter().map(|b| b.len()).collect();
    assert_eq!(after, [33, 34, 34]);
    assert!(s.add(1000));
    let last: Vec<usize> = s.buckets().iter().map(|b| b.len()).collect();
    assert_eq!(last, [33, 34, 35]);
}
