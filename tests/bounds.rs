use bound_stl::{LowerBound, UpperBound};
use std::collections::{BTreeSet, VecDeque};

#[test]
fn test_lower_bound() {
    let v = Vec::<i32>::new();
    assert_eq!(v.lower_bound(&0), Err(0));
    assert_eq!(v.lower_bound(&1), Err(0));

    let v = vec![1, 2, 4, 5, 5, 6, 6];
    assert_eq!(v.lower_bound(&0), Ok(0));
    assert_eq!(v.lower_bound(&1), Ok(0));
    assert_eq!(v.lower_bound(&2), Ok(1));
    assert_eq!(v.lower_bound(&3), Ok(2));
    assert_eq!(v.lower_bound(&4), Ok(2));
    assert_eq!(v.lower_bound(&5), Ok(3));
    assert_eq!(v.lower_bound(&6), Ok(5));
    assert_eq!(v.lower_bound(&7), Err(7));
    assert_eq!(v.lower_bound(&8), Err(7));
    assert_eq!(v.lower_bound(&9), Err(7));
}

#[test]
fn test_upper_bound() {
    let v = Vec::<i32>::new();
    assert_eq!(v.upper_bound(&0), Err(0));
    assert_eq!(v.upper_bound(&1), Err(0));

    let v = vec![-1, 1, 2, 4, 5, 5, 6, 6];
    assert_eq!(v.upper_bound(&0), Ok(1));
    assert_eq!(v.upper_bound(&1), Ok(2));
    assert_eq!(v.upper_bound(&2), Ok(3));
    assert_eq!(v.upper_bound(&3), Ok(3));
    assert_eq!(v.upper_bound(&4), Ok(4));
    assert_eq!(v.upper_bound(&5), Ok(6));
    assert_eq!(v.upper_bound(&6), Err(8));
    assert_eq!(v.upper_bound(&7), Err(8));
    assert_eq!(v.upper_bound(&8), Err(8));
    assert_eq!(v.upper_bound(&9), Err(8));
}

#[test]
fn duplicates_are_bracketed() {
    let v = vec![1, 2, 4, 5, 5, 6, 6];
    assert_eq!(v.lower_bound(&5), Ok(3));
    assert_eq!(v.upper_bound(&5), Ok(5));
}

#[test]
fn boundaries_at_the_ends() {
    let v = vec![1, 2, 4, 5, 5, 6, 6];
    assert_eq!(v.lower_bound(&0), Ok(0));
    assert_eq!(v.lower_bound(&9), Err(7));
    assert_eq!(v.upper_bound(&6), Err(7));
}

#[test]
fn empty_collections_report_append_at_zero() {
    let v: Vec<u64> = Vec::new();
    assert_eq!(v.lower_bound(&u64::MAX), Err(0));
    assert_eq!(v.upper_bound(&0), Err(0));
    let s: &[i64] = &[];
    assert_eq!(s.lower_bound_by(|e| e.cmp(&3)), Err(0));
    assert_eq!(s.upper_bound_by_key(&3, |e| *e), Err(0));
    let d: VecDeque<i32> = VecDeque::new();
    assert_eq!(d.lower_bound(&1), Err(0));
    assert_eq!(d.upper_bound(&1), Err(0));
}

#[test]
fn upper_not_before_lower_and_equal_when_absent() {
    let v = vec![1, 2, 4, 5, 5, 6, 6];
    for x in -1..9 {
        let lo = v.lower_bound(&x).unwrap_or_else(|e| e);
        let hi = v.upper_bound(&x).unwrap_or_else(|e| e);
        assert!(lo <= hi);
        assert_eq!(lo == hi, !v.contains(&x));
    }
}

#[test]
fn boundaries_grow_with_the_query() {
    let v = vec![-3, -3, 0, 2, 2, 2, 7, 11];
    let mut last_lo = 0;
    let mut last_hi = 0;
    for x in -5..13 {
        let lo = v.lower_bound(&x).unwrap_or_else(|e| e);
        let hi = v.upper_bound(&x).unwrap_or_else(|e| e);
        assert!(last_lo <= lo);
        assert!(last_hi <= hi);
        last_lo = lo;
        last_hi = hi;
    }
}

#[test]
fn comparator_and_key_forms_agree_with_value_form() {
    let v = vec![-1, 1, 2, 4, 5, 5, 6, 6];
    for x in -2..8 {
        assert_eq!(v.lower_bound_by(|e| e.cmp(&x)), v.lower_bound(&x));
        assert_eq!(v.lower_bound_by_key(&x, |e| *e), v.lower_bound(&x));
        assert_eq!(v.upper_bound_by(|e| e.cmp(&x)), v.upper_bound(&x));
        assert_eq!(v.upper_bound_by_key(&x, |e| *e), v.upper_bound(&x));
    }
}

#[test]
fn key_form_searches_by_projection() {
    let v = vec![(1, 'a'), (3, 'b'), (3, 'c'), (8, 'd')];
    assert_eq!(v.lower_bound_by_key(&3, |p| p.0), Ok(1));
    assert_eq!(v.upper_bound_by_key(&3, |p| p.0), Ok(3));
    assert_eq!(v.upper_bound_by_key(&8, |p| p.0), Err(4));
    let words = vec!["a", "bb", "ccc", "dddd"];
    assert_eq!(words.lower_bound_by(|w| w.len().cmp(&3)), Ok(2));
    assert_eq!(words.upper_bound_by(|w| w.len().cmp(&3)), Ok(3));
}

#[test]
fn slice_and_vec_agree() {
    let v = vec![2u8, 4, 4, 9];
    for x in 0..11u8 {
        assert_eq!(v.as_slice().lower_bound(&x), v.lower_bound(&x));
        assert_eq!(v.as_slice().upper_bound(&x), v.upper_bound(&x));
    }
}

#[test]
fn contiguous_deque_matches_vec() {
    let v = vec![1, 2, 4, 5, 5, 6, 6];
    let mut d = VecDeque::new();
    for e in &v {
        d.push_back(*e);
    }
    d.make_contiguous();
    for x in 0..9 {
        assert_eq!(d.lower_bound(&x), v.lower_bound(&x));
        assert_eq!(d.upper_bound(&x), v.upper_bound(&x));
        assert_eq!(d.lower_bound_by(|e| e.cmp(&x)), v.lower_bound(&x));
        assert_eq!(d.upper_bound_by_key(&x, |e| *e), v.upper_bound(&x));
    }
    let mut d = VecDeque::new();
    d.push_back(2);
    d.push_back(3);
    assert_eq!(d.lower_bound(&2), Ok(0));
    assert_eq!(d.upper_bound(&2), Ok(1));
    assert_eq!(d.upper_bound(&0), Ok(0));
    assert_eq!(d.lower_bound(&4), Err(2));
}

#[test]
fn wrapped_deque_searches_only_its_front_segment() {
    let mut d = VecDeque::with_capacity(4);
    d.push_back(4);
    d.push_back(5);
    d.push_front(2);
    d.push_front(1);
    let front_len = d.as_slices().0.len();
    let whole = vec![1, 2, 4, 5];
    if front_len < d.len() {
        assert_eq!(d.lower_bound(&4), Err(front_len));
        assert_ne!(d.lower_bound(&4), whole.lower_bound(&4));
    }
    assert_eq!(d.lower_bound(&1), Ok(0));
    d.make_contiguous();
    for x in 0..7 {
        assert_eq!(d.lower_bound(&x), whole.lower_bound(&x));
        assert_eq!(d.upper_bound(&x), whole.upper_bound(&x));
    }
}

#[test]
fn unsorted_input_still_gives_a_position_in_range() {
    let v = vec![9, 1, 8, 2, 7];
    for x in 0..10 {
        match v.lower_bound(&x) {
            Ok(i) => assert!(i < v.len()),
            Err(i) => assert_eq!(i, v.len()),
        }
        match v.upper_bound_by(|e| e.cmp(&x)) {
            Ok(i) => assert!(i < v.len()),
            Err(i) => assert_eq!(i, v.len()),
        }
    }
}

#[test]
fn test_lower_bound_btreeset() {
    let v = BTreeSet::<i32>::new();
    assert_eq!(v.lower_bound(&0), Err(0));
    assert_eq!(v.lower_bound(&1), Err(0));

    let v = vec![1, 2, 4, 5, 5, 6, 6].into_iter().collect::<BTreeSet<_>>();
    assert_eq!(format!("{v:?}"), "{1, 2, 4, 5, 6}");
    assert_eq!(v.lower_bound(&0), Ok(0));
    assert_eq!(v.lower_bound(&1), Ok(0));
    assert_eq!(v.lower_bound(&2), Ok(1));
    assert_eq!(v.lower_bound(&3), Ok(2));
    assert_eq!(v.lower_bound(&4), Ok(2));
    assert_eq!(v.lower_bound(&5), Ok(3));
    assert_eq!(v.lower_bound(&6), Ok(4));
    assert_eq!(v.lower_bound(&7), Err(5));
    assert_eq!(v.lower_bound(&8), Err(5));
    assert_eq!(v.lower_bound(&9), Err(5));
}

#[test]
fn unsorted_input_gives_a_transition_point() {
    let v = vec![9, 1, 8, 2, 7, 3];
    for x in 0..11 {
        let lo = v.lower_bound(&x);
        let i = lo.unwrap_or_else(|e| e);
        if i > 0 {
            assert!(v[i - 1] < x);
        }
        if let Ok(i) = lo {
            assert!(v[i] >= x);
        }
        let hi = v.upper_bound(&x);
        let j = hi.unwrap_or_else(|e| e);
        if j > 0 {
            assert!(v[j - 1] <= x);
        }
        if let Ok(j) = hi {
            assert!(v[j] > x);
        }
    }
}
