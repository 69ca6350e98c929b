//! The double-ended queue searched through its front segment.
use crate::boundary::{
    callable_on, lower_split_by, outcome_index, sorted, total_order, upper_split_by,
};
use crate::laws::{
    lemma_key_as_comparator, lemma_key_reports, lemma_lower_index, lemma_upper_index,
    lemma_value_as_comparator, lemma_value_reports,
};
use crate::search::{LowerBound, UpperBound};
use std::cmp::Ordering;
use std::collections::VecDeque;
use vstd::prelude::*;
use vstd::std_specs::cmp::OrdSpec;

verus! {

/// Relies on `VecDeque::as_slices`: the two slices hold the contents of the
/// deque, in order.
#[verifier::external_body]
fn segments<T>(d: &VecDeque<T>) -> (r: (&[T], &[T]))
    ensures
        r.0@ + r.1@ == d@,
{
    d.as_slices()
}

/// A split of a sequence gives a split of each of its prefixes.
proof fn lemma_prefix_split<T, F: Fn(&T) -> Ordering>(s: Seq<T>, f: F, m: int)
    requires
        0 <= m <= s.len(),
    ensures
        callable_on(s, f) ==> callable_on(s.subrange(0, m), f),
        forall|b: int|
            #[trigger] lower_split_by(s, f, b) ==> lower_split_by(
                s.subrange(0, m),
                f,
                if b < m { b } else { m },
            ),
        forall|b: int|
            #[trigger] upper_split_by(s, f, b) ==> upper_split_by(
                s.subrange(0, m),
                f,
                if b < m { b } else { m },
            ),
{
    let p = s.subrange(0, m);
    assert(forall|k: int| 0 <= k < m ==> p[k] == s[k]);
}

impl<T: Ord> LowerBound for VecDeque<T> {
    type Item = T;

    /// The whole contents, front to back.
    open spec fn bound_items(&self) -> Seq<T> {
        self@
    }

    /// Only the front segment is searched; it holds everything once the
    /// deque has been made contiguous.
    open spec fn bound_whole(&self) -> bool {
        false
    }

    open spec fn bound_valid(&self) -> bool {
        true
    }

    open spec fn bound_scans(&self) -> bool {
        false
    }

    fn lower_bound(&self, x: &T) -> (r: Result<usize, usize>) {
        let f = |y: &T| -> (o: Ordering)
            ensures
                T::obeys_cmp_spec() ==> o == y.cmp_spec(x),
            { y.cmp(x) };
        let r = self.lower_bound_by(f);
        proof {
            if T::obeys_cmp_spec() {
                lemma_value_as_comparator(self@, *x, f);
                lemma_value_reports(self@, *x, f, r, false);
            }
            if total_order::<T>() && sorted(self@) {
                lemma_lower_index(self@, *x);
            }
        }
        r
    }

    fn lower_bound_by<F: Fn(&T) -> Ordering>(&self, f: F) -> (r: Result<usize, usize>) {
        let front = segments(self).0;
        proof {
            lemma_prefix_split(self@, f, front@.len() as int);
            assert(front@ == self@.subrange(0, front@.len() as int));
        }
        let r = front.lower_bound_by(f);
        proof {
            let i = outcome_index(r);
            if 0 < i {
                assert(front@[i - 1] == self@[i - 1]);
            }
            if r is Ok {
                assert(front@[i] == self@[i]);
            }
        }
        r
    }

    fn lower_bound_by_key<K: Ord, F: Fn(&T) -> K>(&self, k: &K, f: F) -> (r: Result<
        usize,
        usize,
    >) {
        let fr = &f;
        let g = |e: &T| -> (o: Ordering)
            requires
                fr.requires((e,)),
            ensures
                exists|y: K|
                    fr.ensures((e,), y) && (K::obeys_cmp_spec() ==> o == y.cmp_spec(k)),
            {
                let y = fr(e);
                let o = y.cmp(k);
                proof {
                    assert(fr.ensures((e,), y));
                    assert(K::obeys_cmp_spec() ==> o == y.cmp_spec(k));
                }
                o
            };
        let r = self.lower_bound_by(g);
        proof {
            if K::obeys_cmp_spec() {
                lemma_key_as_comparator(self@, *k, f, g);
                lemma_key_reports(self@, *k, f, g, r, false);
            }
        }
        r
    }
}

impl<T: Ord> UpperBound for VecDeque<T> {
    type Item = T;

    /// The whole contents, front to back.
    open spec fn bound_items(&self) -> Seq<T> {
        self@
    }

    /// Only the front segment is searched; it holds everything once the
    /// deque has been made contiguous.
    open spec fn bound_whole(&self) -> bool {
        false
    }

    open spec fn bound_valid(&self) -> bool {
        true
    }

    open spec fn bound_scans(&self) -> bool {
        false
    }

    fn upper_bound(&self, x: &T) -> (r: Result<usize, usize>) {
        let f = |y: &T| -> (o: Ordering)
            ensures
                T::obeys_cmp_spec() ==> o == y.cmp_spec(x),
            { y.cmp(x) };
        let r = self.upper_bound_by(f);
        proof {
            if T::obeys_cmp_spec() {
                lemma_value_as_comparator(self@, *x, f);
                lemma_value_reports(self@, *x, f, r, false);
            }
            if total_order::<T>() && sorted(self@) {
                lemma_upper_index(self@, *x);
            }
        }
        r
    }

    fn upper_bound_by<F: Fn(&T) -> Ordering>(&self, f: F) -> (r: Result<usize, usize>) {
        let front = segments(self).0;
        proof {
            lemma_prefix_split(self@, f, front@.len() as int);
            assert(front@ == self@.subrange(0, front@.len() as int));
        }
        let r = front.upper_bound_by(f);
        proof {
            let i = outcome_index(r);
            if 0 < i {
                assert(front@[i - 1] == self@[i - 1]);
            }
            if r is Ok {
                assert(front@[i] == self@[i]);
            }
        }
        r
    }

    fn upper_bound_by_key<K: Ord, F: Fn(&T) -> K>(&self, k: &K, f: F) -> (r: Result<
        usize,
        usize,
    >) {
        let fr = &f;
        let g = |e: &T| -> (o: Ordering)
            requires
                fr.requires((e,)),
            ensures
                exists|y: K|
                    fr.ensures((e,), y) && (K::obeys_cmp_spec() ==> o == y.cmp_spec(k)),
            {
                let y = fr(e);
                let o = y.cmp(k);
                proof {
                    assert(fr.ensures((e,), y));
                    assert(K::obeys_cmp_spec() ==> o == y.cmp_spec(k));
                }
                o
            };
        let r = self.upper_bound_by(g);
        proof {
            if K::obeys_cmp_spec() {
                lemma_key_as_comparator(self@, *k, f, g);
                lemma_key_reports(self@, *k, f, g, r, false);
            }
        }
        r
    }
}

} // verus!
