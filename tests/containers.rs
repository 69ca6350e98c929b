use bound_stl::Heap;
use bound_stl::{LowerBound, UpperBound};
use std::collections::{BTreeMap, BTreeSet};

#[test]
fn btreeset_upper_bound_and_forms() {
    let s: BTreeSet<i32> = [1, 2, 4, 5, 6].into_iter().collect();
    assert_eq!(s.upper_bound(&0), Ok(0));
    assert_eq!(s.upper_bound(&4), Ok(3));
    assert_eq!(s.upper_bound(&6), Err(5));
    assert_eq!(s.lower_bound_by(|e| e.cmp(&5)), Ok(3));
    assert_eq!(s.upper_bound_by(|e| e.cmp(&5)), Ok(4));
    assert_eq!(s.lower_bound_by_key(&8, |e| e * 2), Ok(2));
    assert_eq!(s.upper_bound_by_key(&8, |e| e * 2), Ok(3));
    let empty = BTreeSet::<i32>::new();
    assert_eq!(empty.upper_bound(&3), Err(0));
}

#[test]
fn btreemap_compares_keys_only() {
    let mut m = BTreeMap::new();
    m.insert(5, "five");
    m.insert(1, "one");
    m.insert(3, "three");
    m.insert(9, "nine");
    assert_eq!(m.lower_bound(&3), Ok(1));
    assert_eq!(m.upper_bound(&3), Ok(2));
    assert_eq!(m.lower_bound(&10), Err(4));
    assert_eq!(m.upper_bound(&9), Err(4));
    assert_eq!(m.lower_bound(&0), Ok(0));
    assert_eq!(m.lower_bound_by(|k| k.cmp(&4)), Ok(2));
    assert_eq!(m.upper_bound_by(|k| k.cmp(&5)), Ok(3));
    assert_eq!(m.lower_bound_by_key(&10, |k| k * 2), Ok(2));
    assert_eq!(m.upper_bound_by_key(&2, |k| k / 2), Ok(3));
    let empty: BTreeMap<u8, ()> = BTreeMap::new();
    assert_eq!(empty.lower_bound(&1), Err(0));
}

#[test]
fn ordered_scans_agree_with_vec() {
    let v = vec![-4, 0, 3, 8, 15];
    let s: BTreeSet<i32> = v.iter().copied().collect();
    let m: BTreeMap<i32, usize> = v.iter().enumerate().map(|(i, k)| (*k, i)).collect();
    for x in -6..18 {
        assert_eq!(s.lower_bound(&x), v.lower_bound(&x));
        assert_eq!(s.upper_bound(&x), v.upper_bound(&x));
        assert_eq!(m.lower_bound(&x), v.lower_bound(&x));
        assert_eq!(m.upper_bound(&x), v.upper_bound(&x));
    }
}

fn position_of(items: &[i32], pred: impl Fn(i32) -> bool) -> Result<usize, usize> {
    match items.iter().position(|e| pred(*e)) {
        Some(i) => Ok(i),
        None => Err(items.len()),
    }
}

#[test]
fn heap_push_keeps_the_greatest_in_front() {
    let mut h = Heap::new();
    for x in [3, 9, 1, 7, 7, 2, 12] {
        h.push(x);
    }
    assert_eq!(h.len(), 7);
    let items = h.as_slice().to_vec();
    assert_eq!(items[0], 12);
    for i in 1..items.len() {
        assert!(items[(i - 1) / 2] >= items[i]);
    }
    let mut sorted = items.clone();
    sorted.sort();
    assert_eq!(sorted, vec![1, 2, 3, 7, 7, 9, 12]);
}

#[test]
fn heap_scans_in_storage_order() {
    let mut h = Heap::new();
    for x in [4, 8, 1, 6, 6, 3] {
        h.push(x);
    }
    let items = h.as_slice().to_vec();
    for x in 0..10 {
        assert_eq!(h.lower_bound(&x), position_of(&items, |e| e >= x));
        assert_eq!(h.upper_bound(&x), position_of(&items, |e| e > x));
        assert_eq!(h.lower_bound_by(|e| e.cmp(&x)), h.lower_bound(&x));
        assert_eq!(h.upper_bound_by_key(&x, |e| *e), h.upper_bound(&x));
    }
    let empty: Heap<i32> = Heap::new();
    assert_eq!(empty.lower_bound(&0), Err(0));
    assert_eq!(empty.upper_bound(&0), Err(0));
}

#[test]
fn heap_with_equal_elements_agrees_with_vec() {
    let mut h = Heap::new();
    let v = vec![5, 5, 5, 5];
    for x in &v {
        h.push(*x);
    }
    for x in 3..8 {
        assert_eq!(h.lower_bound(&x), v.lower_bound(&x));
        assert_eq!(h.upper_bound(&x), v.upper_bound(&x));
    }
}

#[test]
fn maps_with_the_same_keys_agree_for_any_comparator() {
    let a: BTreeMap<i32, &str> = [(1, "a"), (4, "b"), (6, "c")].into_iter().collect();
    let b: BTreeMap<i32, u8> = [(1, 9), (4, 8), (6, 7)].into_iter().collect();
    let odd_first = |k: &i32| {
        if k % 2 == 0 {
            std::cmp::Ordering::Greater
        } else {
            std::cmp::Ordering::Less
        }
    };
    assert_eq!(a.lower_bound_by(odd_first), Ok(1));
    assert_eq!(a.lower_bound_by(odd_first), b.lower_bound_by(odd_first));
    assert_eq!(a.upper_bound_by(odd_first), b.upper_bound_by(odd_first));
}

#[test]
fn scans_report_the_first_match_in_any_order() {
    let mut h = Heap::new();
    for x in [2, 10, 7, 1] {
        h.push(x);
    }
    let items = h.as_slice().to_vec();
    let first_even = position_of(&items, |e| e % 2 == 0);
    let r = h.lower_bound_by(|e| {
        if e % 2 == 0 {
            std::cmp::Ordering::Equal
        } else {
            std::cmp::Ordering::Less
        }
    });
    assert_eq!(r, first_even);
    let none = h.upper_bound_by(|_| std::cmp::Ordering::Less);
    assert_eq!(none, Err(4));
}
