//! The two search interfaces that every collection shape implements.
use crate::boundary::{
    callable_on, lands_at, lower_index, lower_reported, lower_reported_by,
    lower_reported_by_key, lower_split, lower_split_by, lower_split_by_key, outcome_within,
    sorted, total_order, upper_index, upper_reported, upper_reported_by, upper_reported_by_key,
    upper_split, upper_split_by, upper_split_by_key,
};
use std::cmp::Ordering;
use vstd::prelude::*;
use vstd::std_specs::cmp::OrdSpec;

verus! {

/// The first position whose element is not less than a query.
///
/// A found position is below the number of elements searched; not-found
/// carries the append position. The collection is expected to be ordered
/// consistently with the comparison; when it is not, the outcome is still
/// a place where the answers turn from `Less` to something else, and a
/// collection that scans reports the first element that does not answer
/// `Less`, whatever the order.
pub trait LowerBound {
    type Item: Ord;

    /// The elements that a search visits, in the order in which it visits them.
    spec fn bound_items(&self) -> Seq<Self::Item>;

    /// Whether a search reaches every element of `bound_items`.
    spec fn bound_whole(&self) -> bool;

    /// Whether the order in which the collection hands out its elements is
    /// known: always for sequences; for ordered sets and maps, when the key
    /// type's comparison obeys the laws of `Ord`.
    spec fn bound_valid(&self) -> bool;

    /// Whether a search visits the elements front to back and stops at the
    /// first that meets its test, rather than bisecting them.
    spec fn bound_scans(&self) -> bool;

    fn lower_bound(&self, x: &Self::Item) -> (r: Result<usize, usize>)
        requires
            self.bound_valid(),
        ensures
            outcome_within(r, self.bound_items().len() as int, self.bound_whole()),
            Self::Item::obeys_cmp_spec() ==> forall|b: int|
                #[trigger] lower_split(self.bound_items(), *x, b) ==> lands_at(
                    r,
                    b,
                    self.bound_whole(),
                ),
            total_order::<Self::Item>() && sorted(self.bound_items()) ==> lands_at(
                r,
                lower_index(self.bound_items(), *x),
                self.bound_whole(),
            ),
            self.bound_items().len() == 0 ==> r == Err::<usize, usize>(0),
            Self::Item::obeys_cmp_spec() ==> lower_reported(
                self.bound_items(),
                *x,
                r,
                self.bound_scans(),
            ),
    ;

    fn lower_bound_by<F: Fn(&Self::Item) -> Ordering>(&self, f: F) -> (r: Result<usize, usize>)
        requires
            self.bound_valid(),
            callable_on(self.bound_items(), f),
        ensures
            outcome_within(r, self.bound_items().len() as int, self.bound_whole()),
            forall|b: int|
                #[trigger] lower_split_by(self.bound_items(), f, b) ==> lands_at(
                    r,
                    b,
                    self.bound_whole(),
                ),
            lower_reported_by(self.bound_items(), f, r, self.bound_scans()),
    ;

    fn lower_bound_by_key<K: Ord, F: Fn(&Self::Item) -> K>(&self, k: &K, f: F) -> (r: Result<
        usize,
        usize,
    >)
        requires
            self.bound_valid(),
            callable_on(self.bound_items(), f),
        ensures
            outcome_within(r, self.bound_items().len() as int, self.bound_whole()),
            K::obeys_cmp_spec() ==> forall|b: int|
                #[trigger] lower_split_by_key(self.bound_items(), *k, f, b) ==> lands_at(
                    r,
                    b,
                    self.bound_whole(),
                ),
            K::obeys_cmp_spec() ==> lower_reported_by_key(
                self.bound_items(),
                *k,
                f,
                r,
                self.bound_scans(),
            ),
    ;
}

/// The first position whose element is greater than a query.
///
/// The outcomes follow the same rules as those of [`LowerBound`], with
/// `Greater` as the test.
pub trait UpperBound {
    type Item: Ord;

    /// The elements that a search visits, in the order in which it visits them.
    spec fn bound_items(&self) -> Seq<Self::Item>;

    /// Whether a search reaches every element of `bound_items`.
    spec fn bound_whole(&self) -> bool;

    /// Whether the order in which the collection hands out its elements is
    /// known: always for sequences; for ordered sets and maps, when the key
    /// type's comparison obeys the laws of `Ord`.
    spec fn bound_valid(&self) -> bool;

    /// Whether a search visits the elements front to back and stops at the
    /// first that meets its test, rather than bisecting them.
    spec fn bound_scans(&self) -> bool;

    fn upper_bound(&self, x: &Self::Item) -> (r: Result<usize, usize>)
        requires
            self.bound_valid(),
        ensures
            outcome_within(r, self.bound_items().len() as int, self.bound_whole()),
            Self::Item::obeys_cmp_spec() ==> forall|b: int|
                #[trigger] upper_split(self.bound_items(), *x, b) ==> lands_at(
                    r,
                    b,
                    self.bound_whole(),
                ),
            total_order::<Self::Item>() && sorted(self.bound_items()) ==> lands_at(
                r,
                upper_index(self.bound_items(), *x),
                self.bound_whole(),
            ),
            self.bound_items().len() == 0 ==> r == Err::<usize, usize>(0),
            Self::Item::obeys_cmp_spec() ==> upper_reported(
                self.bound_items(),
                *x,
                r,
                self.bound_scans(),
            ),
    ;

    fn upper_bound_by<F: Fn(&Self::Item) -> Ordering>(&self, f: F) -> (r: Result<usize, usize>)
        requires
            self.bound_valid(),
            callable_on(self.bound_items(), f),
        ensures
            outcome_within(r, self.bound_items().len() as int, self.bound_whole()),
            forall|b: int|
                #[trigger] upper_split_by(self.bound_items(), f, b) ==> lands_at(
                    r,
                    b,
                    self.bound_whole(),
                ),
            upper_reported_by(self.bound_items(), f, r, self.bound_scans()),
    ;

    fn upper_bound_by_key<K: Ord, F: Fn(&Self::Item) -> K>(&self, k: &K, f: F) -> (r: Result<
        usize,
        usize,
    >)
        requires
            self.bound_valid(),
            callable_on(self.bound_items(), f),
        ensures
            outcome_within(r, self.bound_items().len() as int, self.bound_whole()),
            K::obeys_cmp_spec() ==> forall|b: int|
                #[trigger] upper_split_by_key(self.bound_items(), *k, f, b) ==> lands_at(
                    r,
                    b,
                    self.bound_whole(),
                ),
            K::obeys_cmp_spec() ==> upper_reported_by_key(
                self.bound_items(),
                *k,
                f,
                r,
                self.bound_scans(),
            ),
    ;
}

} // verus!
