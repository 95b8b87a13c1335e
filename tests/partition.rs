use reconstruct_image::partition::partition_around;

fn check(before: &[u64], after: &[u64], lo: usize, hi: usize, mid: usize, pivot: u64) {
    assert!(lo <= mid && mid < hi);
    assert_eq!(after[mid], pivot);
    assert!(after[lo..mid].iter().all(|x| *x < pivot));
    assert!(after[mid..hi].iter().all(|x| *x >= pivot));
    assert_eq!(&after[..lo], &before[..lo]);
    assert_eq!(&after[hi..], &before[hi..]);
    let mut a = before.to_vec();
    let mut b = after.to_vec();
    a.sort();
    b.sort();
    assert_eq!(a, b);
}

#[test]
fn partition_whole_range() {
    let before = vec![5u64, 1, 9, 3, 7, 2];
    let mut keys = before.clone();
    let mid = partition_around(&mut keys, 0, 6, 4);
    assert_eq!(mid, 4);
    check(&before, &keys, 0, 6, mid, 7);
}

#[test]
fn partition_with_duplicate_pivot_values() {
    let before = vec![4u64, 4, 1, 4, 0, 4, 4];
    let mut keys = before.clone();
    let mid = partition_around(&mut keys, 0, 7, 3);
    assert_eq!(mid, 2);
    check(&before, &keys, 0, 7, mid, 4);
}

#[test]
fn partition_on_minimum_and_maximum() {
    let before = vec![3u64, 8, 6, 1];
    let mut keys = before.clone();
    assert_eq!(partition_around(&mut keys, 0, 4, 3), 0);
    check(&before, &keys, 0, 4, 0, 1);
    let mut keys = before.clone();
    assert_eq!(partition_around(&mut keys, 0, 4, 1), 3);
    check(&before, &keys, 0, 4, 3, 8);
}

#[test]
fn partition_leaves_outside_of_range_alone() {
    let before = vec![100u64, 6, 2, 9, 4, 0];
    let mut keys = before.clone();
    let mid = partition_around(&mut keys, 1, 5, 1);
    assert_eq!(mid, 3);
    check(&before, &keys, 1, 5, mid, 6);
}

#[test]
fn partition_single_entry() {
    let mut keys = vec![7u64, 3, 5];
    assert_eq!(partition_around(&mut keys, 1, 2, 1), 1);
    assert_eq!(keys, vec![7, 3, 5]);
}

#[test]
fn partition_all_equal() {
    let before = vec![2u64; 5];
    let mut keys = before.clone();
    let mid = partition_around(&mut keys, 0, 5, 2);
    assert_eq!(mid, 0);
    assert_eq!(keys, before);
}
