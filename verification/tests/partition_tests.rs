//! Behaviour of the in-place partitioners on concrete data.

use rt_accel::algorithm::{partition, partition_pair, partition_span};

#[test]
fn partition_splits_by_predicate() {
    let mut v: Vec<i64> = vec![5, 2, 9, 1, 7, 4, 8, 3];
    let r = partition(&mut v, |x: &i64| *x < 5);
    assert_eq!(r, 4);
    for (i, x) in v.iter().enumerate() {
        if i < r {
            assert!(*x < 5);
        } else {
            assert!(*x >= 5);
        }
    }
    let mut sorted = v.clone();
    sorted.sort();
    assert_eq!(sorted, vec![1, 2, 3, 4, 5, 7, 8, 9]);
}

#[test]
fn partition_empty_returns_zero() {
    let mut v: Vec<i64> = vec![];
    let r = partition(&mut v, |x: &i64| *x < 5);
    assert_eq!(r, 0);
}

#[test]
fn partition_all_true_and_all_false() {
    let mut v: Vec<i64> = vec![1, 2, 3];
    assert_eq!(partition(&mut v, |_x: &i64| true), 3);
    assert_eq!(partition(&mut v, |_x: &i64| false), 0);
}

#[test]
fn partition_span_leaves_outside_untouched() {
    let mut v: Vec<i64> = vec![100, 9, 1, 8, 2, 200];
    let r = partition_span(&mut v, 1, 5, |x: &i64| *x < 5);
    assert_eq!(r, 3);
    assert_eq!(v[0], 100);
    assert_eq!(v[5], 200);
    assert!(v[1] < 5 && v[2] < 5);
    assert!(v[3] >= 5 && v[4] >= 5);
}

#[test]
fn partition_pair_keeps_lockstep() {
    // The pairing of element i in A with element i in B must survive the
    // reorder: the same pairs exist afterwards, reordered identically.
    let mut a: Vec<i64> = vec![10, 3, 7, 2, 9, 5];
    let mut b: Vec<u8> = vec![110, 103, 107, 102, 109, 105];
    let before: Vec<(i64, u8)> = a.iter().cloned().zip(b.iter().cloned()).collect();
    let r = partition_pair(&mut a, &mut b, |_i: usize, x: &i64, _y: &u8| *x < 6);
    assert_eq!(r, 3);
    for i in 0..a.len() {
        if i < r {
            assert!(a[i] < 6);
        } else {
            assert!(a[i] >= 6);
        }
        // Each pair is preserved: the partner value still travels with
        // its mate.
        assert_eq!(b[i] as i64, a[i] + 100);
    }
    let mut after: Vec<(i64, u8)> = a.iter().cloned().zip(b.iter().cloned()).collect();
    let mut before_sorted = before.clone();
    before_sorted.sort();
    after.sort();
    assert_eq!(before_sorted, after);
}

#[test]
fn partition_pair_passes_slot_index() {
    // The predicate sees the slot an element occupies at test time.
    let mut a: Vec<i64> = vec![0, 1, 2, 3];
    let mut b: Vec<i64> = vec![0, 0, 0, 0];
    let r = partition_pair(&mut a, &mut b, |i: usize, x: &i64, _y: &i64| (i as i64) == *x);
    // Every element starts at the slot equal to its value, so the forward
    // scan sees all of them in place and none is moved.
    assert_eq!(r, 4);
    assert_eq!(a, vec![0, 1, 2, 3]);
}
