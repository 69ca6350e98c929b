//! Binary search over contiguous sequences: slices, and vectors through them.
use crate::boundary::{
    answers_greater, answers_less, answers_not_greater, answers_not_less, callable_on, lands_at,
    lower_reported_by, lower_split_by, outcome_index, outcome_within, sorted, total_order,
    upper_reported_by, upper_split_by,
};
use crate::laws::{
    lemma_key_as_comparator, lemma_key_reports, lemma_lower_index, lemma_upper_index,
    lemma_value_as_comparator, lemma_value_reports,
};
use crate::search::{LowerBound, UpperBound};
use std::cmp::Ordering;
use vstd::prelude::*;
use vstd::std_specs::cmp::OrdSpec;

verus! {

/// The outcome for a search that converged on `left`.
fn settle(left: usize, len: usize) -> (r: Result<usize, usize>)
    requires
        left <= len,
    ensures
        outcome_within(r, len as int, true),
        lands_at(r, left as int, true),
        outcome_index(r) == left,
{
    if left == len {
        Err(left)
    } else {
        Ok(left)
    }
}

impl<T: Ord> LowerBound for [T] {
    type Item = T;

    open spec fn bound_items(&self) -> Seq<T> {
        self@
    }

    open spec fn bound_whole(&self) -> bool {
        true
    }

    open spec fn bound_valid(&self) -> bool {
        true
    }

    open spec fn bound_scans(&self) -> bool {
        false
    }

    fn lower_bound(&self, x: &T) -> (r: Result<usize, usize>) {
        let f = |y: &T| -> (o: Ordering)
            ensures
                T::obeys_cmp_spec() ==> o == y.cmp_spec(x),
            { y.cmp(x) };
        let r = self.lower_bound_by(f);
        proof {
            if T::obeys_cmp_spec() {
                lemma_value_as_comparator(self@, *x, f);
                lemma_value_reports(self@, *x, f, r, false);
            }
            if total_order::<T>() && sorted(self@) {
                lemma_lower_index(self@, *x);
            }
        }
        r
    }

    fn lower_bound_by<F: Fn(&T) -> Ordering>(&self, f: F) -> (r: Result<usize, usize>) {
        let len = self.len();
        let mut left: usize = 0;
        let mut right: usize = len;
        while left < right
            invariant
                left <= right <= len,
                len == self@.len(),
                callable_on(self@, f),
                forall|b: int| #[trigger] lower_split_by(self@, f, b) ==> left <= b <= right,
                0 < left ==> answers_less(f, self@[left - 1]),
                right < len ==> answers_not_less(f, self@[right as int]),
            decreases right - left,
        {
            let mid = left + (right - left) / 2;
            let o = f(&self[mid]);
            proof {
                assert(f.ensures((&self@[mid as int],), o));
            }
            match o {
                Ordering::Less => left = mid + 1,
                _ => right = mid,
            }
        }
        settle(left, len)
    }

    fn lower_bound_by_key<K: Ord, F: Fn(&T) -> K>(&self, k: &K, f: F) -> (r: Result<
        usize,
        usize,
    >) {
        let fr = &f;
        let g = |e: &T| -> (o: Ordering)
            requires
                fr.requires((e,)),
            ensures
                exists|y: K|
                    fr.ensures((e,), y) && (K::obeys_cmp_spec() ==> o == y.cmp_spec(k)),
            {
                let y = fr(e);
                let o = y.cmp(k);
                proof {
                    assert(fr.ensures((e,), y));
                    assert(K::obeys_cmp_spec() ==> o == y.cmp_spec(k));
                }
                o
            };
        let r = self.lower_bound_by(g);
        proof {
            if K::obeys_cmp_spec() {
                lemma_key_as_comparator(self@, *k, f, g);
                lemma_key_reports(self@, *k, f, g, r, false);
            }
        }
        r
    }
}

impl<T: Ord> UpperBound for [T] {
    type Item = T;

    open spec fn bound_items(&self) -> Seq<T> {
        self@
    }

    open spec fn bound_whole(&self) -> bool {
        true
    }

    open spec fn bound_valid(&self) -> bool {
        true
    }

    open spec fn bound_scans(&self) -> bool {
        false
    }

    fn upper_bound(&self, x: &T) -> (r: Result<usize, usize>) {
        let f = |y: &T| -> (o: Ordering)
            ensures
                T::obeys_cmp_spec() ==> o == y.cmp_spec(x),
            { y.cmp(x) };
        let r = self.upper_bound_by(f);
        proof {
            if T::obeys_cmp_spec() {
                lemma_value_as_comparator(self@, *x, f);
                lemma_value_reports(self@, *x, f, r, false);
            }
            if total_order::<T>() && sorted(self@) {
                lemma_upper_index(self@, *x);
            }
        }
        r
    }

    fn upper_bound_by<F: Fn(&T) -> Ordering>(&self, f: F) -> (r: Result<usize, usize>) {
        let len = self.len();
        let mut left: usize = 0;
        let mut right: usize = len;
        while left < right
            invariant
                left <= right <= len,
                len == self@.len(),
                callable_on(self@, f),
                forall|b: int| #[trigger] upper_split_by(self@, f, b) ==> left <= b <= right,
                0 < left ==> answers_not_greater(f, self@[left - 1]),
                right < len ==> answers_greater(f, self@[right as int]),
            decreases right - left,
        {
            let mid = left + (right - left) / 2;
            let o = f(&self[mid]);
            proof {
                assert(f.ensures((&self@[mid as int],), o));
            }
            match o {
                Ordering::Greater => right = mid,
                _ => left = mid + 1,
            }
        }
        settle(left, len)
    }

    fn upper_bound_by_key<K: Ord, F: Fn(&T) -> K>(&self, k: &K, f: F) -> (r: Result<
        usize,
        usize,
    >) {
        let fr = &f;
        let g = |e: &T| -> (o: Ordering)
            requires
                fr.requires((e,)),
            ensures
                exists|y: K|
                    fr.ensures((e,), y) && (K::obeys_cmp_spec() ==> o == y.cmp_spec(k)),
            {
                let y = fr(e);
                let o = y.cmp(k);
                proof {
                    assert(fr.ensures((e,), y));
                    assert(K::obeys_cmp_spec() ==> o == y.cmp_spec(k));
                }
                o
            };
        let r = self.upper_bound_by(g);
        proof {
            if K::obeys_cmp_spec() {
                lemma_key_as_comparator(self@, *k, f, g);
                lemma_key_reports(self@, *k, f, g, r, false);
            }
        }
        r
    }
}

impl<T: Ord> LowerBound for Vec<T> {
    type Item = T;

    open spec fn bound_items(&self) -> Seq<T> {
        self@
    }

    open spec fn bound_whole(&self) -> bool {
        true
    }

    open spec fn bound_valid(&self) -> bool {
        true
    }

    open spec fn bound_scans(&self) -> bool {
        false
    }

    fn lower_bound(&self, x: &T) -> (r: Result<usize, usize>) {
        self.as_slice().lower_bound(x)
    }

    fn lower_bound_by<F: Fn(&T) -> Ordering>(&self, f: F) -> (r: Result<usize, usize>) {
        self.as_slice().lower_bound_by(f)
    }

    fn lower_bound_by_key<K: Ord, F: Fn(&T) -> K>(&self, k: &K, f: F) -> (r: Result<
        usize,
        usize,
    >) {
        self.as_slice().lower_bound_by_key(k, f)
    }
}

impl<T: Ord> UpperBound for Vec<T> {
    type Item = T;

    open spec fn bound_items(&self) -> Seq<T> {
        self@
    }

    open spec fn bound_whole(&self) -> bool {
        true
    }

    open spec fn bound_valid(&self) -> bool {
        true
    }

    open spec fn bound_scans(&self) -> bool {
        false
    }

    fn upper_bound(&self, x: &T) -> (r: Result<usize, usize>) {
        self.as_slice().upper_bound(x)
    }

    fn upper_bound_by<F: Fn(&T) -> Ordering>(&self, f: F) -> (r: Result<usize, usize>) {
        self.as_slice().upper_bound_by(f)
    }

    fn upper_bound_by_key<K: Ord, F: Fn(&T) -> K>(&self, k: &K, f: F) -> (r: Result<
        usize,
        usize,
    >) {
        self.as_slice().upper_bound_by_key(k, f)
    }
}

} // verus!
