//! Facts about boundaries: where they exist, how the comparison forms of a
//! search relate, and the laws that every search obeys.
use crate::boundary::{
    answers_greater, answers_less, answers_not_greater, answers_not_less, key_answers, lands_at,
    lower_index, lower_reported, lower_reported_by, lower_reported_by_key, lower_split,
    lower_split_by, lower_split_by_key, outcome_index, outcome_within, sorted, total_order,
    upper_index, upper_reported, upper_reported_by, upper_reported_by_key, upper_split,
    upper_split_by, upper_split_by_key,
};
use crate::search::{LowerBound, UpperBound};
use std::cmp::Ordering;
use vstd::prelude::*;
use vstd::std_specs::cmp::OrdSpec;

verus! {

proof fn lemma_sorted_drop_last<T: Ord>(s: Seq<T>)
    requires
        sorted(s),
        s.len() > 0,
    ensures
        sorted(s.drop_last()),
{
    let t = s.drop_last();
    assert forall|i: int, j: int| 0 <= i < j < t.len() implies (#[trigger] t[i].cmp_spec(
        &t[j],
    )) != Ordering::Greater by {
        assert(t[i] == s[i] && t[j] == s[j]);
        assert(s[i].cmp_spec(&s[j]) != Ordering::Greater);
    }
}

/// A sorted sequence splits at a lower boundary for every query.
pub proof fn lemma_lower_split_exists<T: Ord>(s: Seq<T>, x: T)
    requires
        total_order::<T>(),
        sorted(s),
    ensures
        exists|b: int| lower_split(s, x, b),
    decreases s.len(),
{
    if s.len() == 0 {
        assert(lower_split(s, x, 0));
    } else {
        let t = s.drop_last();
        let n = t.len() as int;
        lemma_sorted_drop_last(s);
        lemma_lower_split_exists(t, x);
        let c = choose|b: int| lower_split(t, x, b);
        assert(forall|k: int| 0 <= k < n ==> t[k] == s[k]);
        if c < n {
            assert(s[c].cmp_spec(&s[n]) != Ordering::Greater);
            assert(s[c].cmp_spec(&x) != Ordering::Less);
            if s[n].cmp_spec(&x) == Ordering::Less {
                assert(s[c].cmp_spec(&x) == Ordering::Less);
            }
            assert(lower_split(s, x, c));
        } else if s[n].cmp_spec(&x) == Ordering::Less {
            assert(lower_split(s, x, n + 1));
        } else {
            assert(lower_split(s, x, n));
        }
    }
}

/// A sorted sequence splits at an upper boundary for every query.
pub proof fn lemma_upper_split_exists<T: Ord>(s: Seq<T>, x: T)
    requires
        total_order::<T>(),
        sorted(s),
    ensures
        exists|b: int| upper_split(s, x, b),
    decreases s.len(),
{
    if s.len() == 0 {
        assert(upper_split(s, x, 0));
    } else {
        let t = s.drop_last();
        let n = t.len() as int;
        lemma_sorted_drop_last(s);
        lemma_upper_split_exists(t, x);
        let c = choose|b: int| upper_split(t, x, b);
        assert(forall|k: int| 0 <= k < n ==> t[k] == s[k]);
        if c < n {
            assert(s[c].cmp_spec(&s[n]) != Ordering::Greater);
            assert(s[c].cmp_spec(&x) == Ordering::Greater);
            assert(x.cmp_spec(&s[c]) == Ordering::Less);
            assert(x.cmp_spec(&s[n]) == Ordering::Less);
            assert(s[n].cmp_spec(&x) == Ordering::Greater);
            assert(upper_split(s, x, c));
        } else if s[n].cmp_spec(&x) == Ordering::Greater {
            assert(upper_split(s, x, n));
        } else {
            assert(upper_split(s, x, n + 1));
        }
    }
}

/// In a sorted sequence `lower_index` is where the lower boundary lies.
pub proof fn lemma_lower_index<T: Ord>(s: Seq<T>, x: T)
    requires
        total_order::<T>(),
        sorted(s),
    ensures
        lower_split(s, x, lower_index(s, x)),
{
    lemma_lower_split_exists(s, x);
}

/// In a sorted sequence `upper_index` is where the upper boundary lies.
pub proof fn lemma_upper_index<T: Ord>(s: Seq<T>, x: T)
    requires
        total_order::<T>(),
        sorted(s),
    ensures
        upper_split(s, x, upper_index(s, x)),
{
    lemma_upper_split_exists(s, x);
}

/// A comparator that answers as `cmp` against `x` splits a sequence where
/// `x` itself does.
pub proof fn lemma_value_as_comparator<T: Ord, F: Fn(&T) -> Ordering>(s: Seq<T>, x: T, f: F)
    requires
        T::obeys_cmp_spec(),
        forall|e: T, o: Ordering| #[trigger] f.ensures((&e,), o) ==> o == e.cmp_spec(&x),
    ensures
        forall|b: int| #[trigger] lower_split(s, x, b) ==> lower_split_by(s, f, b),
        forall|b: int| #[trigger] upper_split(s, x, b) ==> upper_split_by(s, f, b),
{
    assert forall|b: int| #[trigger] lower_split(s, x, b) implies lower_split_by(s, f, b) by {
        assert forall|k: int, o: Ordering|
            0 <= k < b && #[trigger] f.ensures((&s[k],), o) implies o == Ordering::Less by {
            assert(s[k].cmp_spec(&x) == Ordering::Less);
        }
        assert forall|k: int, o: Ordering|
            b <= k < s.len() && #[trigger] f.ensures((&s[k],), o) implies o
            != Ordering::Less by {
            assert(s[k].cmp_spec(&x) != Ordering::Less);
        }
    }
    assert forall|b: int| #[trigger] upper_split(s, x, b) implies upper_split_by(s, f, b) by {
        assert forall|k: int, o: Ordering|
            0 <= k < b && #[trigger] f.ensures((&s[k],), o) implies o
            != Ordering::Greater by {
            assert(s[k].cmp_spec(&x) != Ordering::Greater);
        }
        assert forall|k: int, o: Ordering|
            b <= k < s.len() && #[trigger] f.ensures((&s[k],), o) implies o
            == Ordering::Greater by {
            assert(s[k].cmp_spec(&x) == Ordering::Greater);
        }
    }
}

/// A comparator that compares the key `f` gives against `key` splits a
/// sequence where the keys do.
pub proof fn lemma_key_as_comparator<T, K: Ord, F: Fn(&T) -> K, G: Fn(&T) -> Ordering>(
    s: Seq<T>,
    key: K,
    f: F,
    g: G,
)
    requires
        K::obeys_cmp_spec(),
        forall|e: T, o: Ordering| #[trigger]
            g.ensures((&e,), o) ==> exists|y: K| f.ensures((&e,), y) && o == y.cmp_spec(&key),
    ensures
        forall|b: int| #[trigger] lower_split_by_key(s, key, f, b) ==> lower_split_by(s, g, b),
        forall|b: int| #[trigger] upper_split_by_key(s, key, f, b) ==> upper_split_by(s, g, b),
{
    assert forall|b: int| #[trigger] lower_split_by_key(s, key, f, b) implies lower_split_by(
        s,
        g,
        b,
    ) by {
        assert forall|k: int, o: Ordering|
            0 <= k < b && #[trigger] g.ensures((&s[k],), o) implies o == Ordering::Less by {
            let y = choose|y: K| f.ensures((&s[k],), y) && o == y.cmp_spec(&key);
        }
        assert forall|k: int, o: Ordering|
            b <= k < s.len() && #[trigger] g.ensures((&s[k],), o) implies o
            != Ordering::Less by {
            let y = choose|y: K| f.ensures((&s[k],), y) && o == y.cmp_spec(&key);
        }
    }
    assert forall|b: int| #[trigger] upper_split_by_key(s, key, f, b) implies upper_split_by(
        s,
        g,
        b,
    ) by {
        assert forall|k: int, o: Ordering|
            0 <= k < b && #[trigger] g.ensures((&s[k],), o) implies o
            != Ordering::Greater by {
            let y = choose|y: K| f.ensures((&s[k],), y) && o == y.cmp_spec(&key);
        }
        assert forall|k: int, o: Ordering|
            b <= k < s.len() && #[trigger] g.ensures((&s[k],), o) implies o
            == Ordering::Greater by {
            let y = choose|y: K| f.ensures((&s[k],), y) && o == y.cmp_spec(&key);
        }
    }
}

/// Monotonicity: for queries `x1 <= x2`, each boundary for `x1` lies at or
/// before the same boundary for `x2`.
pub proof fn lemma_bounds_monotone<T: Ord>(s: Seq<T>, x1: T, x2: T)
    requires
        total_order::<T>(),
        sorted(s),
        x1.cmp_spec(&x2) != Ordering::Greater,
    ensures
        lower_index(s, x1) <= lower_index(s, x2),
        upper_index(s, x1) <= upper_index(s, x2),
{
    lemma_lower_index(s, x1);
    lemma_lower_index(s, x2);
    lemma_upper_index(s, x1);
    lemma_upper_index(s, x2);
    let l1 = lower_index(s, x1);
    let l2 = lower_index(s, x2);
    let u1 = upper_index(s, x1);
    let u2 = upper_index(s, x2);
    if l2 < l1 {
        assert(s[l2].cmp_spec(&x1) == Ordering::Less);
        assert(s[l2].cmp_spec(&x2) != Ordering::Less);
    }
    if u2 < u1 {
        assert(s[u2].cmp_spec(&x1) != Ordering::Greater);
        assert(s[u2].cmp_spec(&x2) == Ordering::Greater);
    }
}

/// The upper boundary never lies before the lower one, and the two
/// coincide exactly when no element is equal to the query.
pub proof fn lemma_upper_after_lower<T: Ord>(s: Seq<T>, x: T)
    requires
        total_order::<T>(),
        sorted(s),
    ensures
        lower_index(s, x) <= upper_index(s, x),
        lower_index(s, x) == upper_index(s, x) <==> !(exists|k: int|
            0 <= k < s.len() && #[trigger] s[k].cmp_spec(&x) == Ordering::Equal),
{
    lemma_lower_index(s, x);
    lemma_upper_index(s, x);
    let l = lower_index(s, x);
    let u = upper_index(s, x);
    if u < l {
        assert(s[u].cmp_spec(&x) == Ordering::Less);
        assert(s[u].cmp_spec(&x) == Ordering::Greater);
    }
    if exists|k: int| 0 <= k < s.len() && #[trigger] s[k].cmp_spec(&x) == Ordering::Equal {
        let k = choose|k: int| 0 <= k < s.len() && #[trigger] s[k].cmp_spec(&x) == Ordering::Equal;
        assert(l <= k < u);
    }
    if l < u {
        assert(s[l].cmp_spec(&x) == Ordering::Equal);
    }
}

/// The comparator and key forms agree with the value form when the
/// comparator is the comparison against the query and the key is the
/// element itself: all three split a sorted sequence at the same places.
pub proof fn lemma_identity_forms_agree<T: Ord, F: Fn(&T) -> Ordering, G: Fn(&T) -> T>(
    s: Seq<T>,
    x: T,
    f: F,
    g: G,
)
    requires
        total_order::<T>(),
        sorted(s),
        forall|e: T, o: Ordering| #[trigger] f.ensures((&e,), o) ==> o == e.cmp_spec(&x),
        forall|e: T, y: T| #[trigger] g.ensures((&e,), y) ==> y == e,
    ensures
        lower_split(s, x, lower_index(s, x)),
        lower_split_by(s, f, lower_index(s, x)),
        lower_split_by_key(s, x, g, lower_index(s, x)),
        upper_split(s, x, upper_index(s, x)),
        upper_split_by(s, f, upper_index(s, x)),
        upper_split_by_key(s, x, g, upper_index(s, x)),
{
    lemma_lower_index(s, x);
    lemma_upper_index(s, x);
    lemma_value_as_comparator(s, x, f);
}

/// An outcome that is well-formed and lands on boundary `b` of a search
/// that reaches every element is determined by `b` alone.
pub proof fn lemma_outcome_determined(r: Result<usize, usize>, len: int, b: int)
    requires
        outcome_within(r, len, true),
        lands_at(r, b, true),
    ensures
        r == (if b < len {
            Ok::<usize, usize>(b as usize)
        } else {
            Err::<usize, usize>(b as usize)
        }),
{
}

/// Cross-container consistency: two collections that hand out the same
/// elements, each searched whole, give the same lower-bound outcome for a
/// sorted content.
pub proof fn lemma_lower_bound_consistent<A: LowerBound, B: LowerBound<Item = A::Item>>(
    a: &A,
    b: &B,
    x: A::Item,
    ra: Result<usize, usize>,
    rb: Result<usize, usize>,
)
    requires
        total_order::<A::Item>(),
        a.bound_items() == b.bound_items(),
        sorted(a.bound_items()),
        a.bound_whole(),
        b.bound_whole(),
        call_ensures(A::lower_bound, (a, &x), ra),
        call_ensures(B::lower_bound, (b, &x), rb),
    ensures
        ra == rb,
{
    let s = a.bound_items();
    lemma_outcome_determined(ra, s.len() as int, lower_index(s, x));
    lemma_outcome_determined(rb, s.len() as int, lower_index(s, x));
}

/// Cross-container consistency: two collections that hand out the same
/// elements, each searched whole, give the same upper-bound outcome for a
/// sorted content.
pub proof fn lemma_upper_bound_consistent<A: UpperBound, B: UpperBound<Item = A::Item>>(
    a: &A,
    b: &B,
    x: A::Item,
    ra: Result<usize, usize>,
    rb: Result<usize, usize>,
)
    requires
        total_order::<A::Item>(),
        a.bound_items() == b.bound_items(),
        sorted(a.bound_items()),
        a.bound_whole(),
        b.bound_whole(),
        call_ensures(A::upper_bound, (a, &x), ra),
        call_ensures(B::upper_bound, (b, &x), rb),
    ensures
        ra == rb,
{
    let s = a.bound_items();
    lemma_outcome_determined(ra, s.len() as int, upper_index(s, x));
    lemma_outcome_determined(rb, s.len() as int, upper_index(s, x));
}

/// A search that may stop short of the end (a double-ended queue whose
/// contents wrap around) agrees with a whole search of the same sorted
/// elements on every found position, reports not-found no later than the
/// whole search does, and gives the same outcome once it reaches every
/// element (the queue made contiguous).
pub proof fn lemma_lower_bound_partial_agrees<A: LowerBound, B: LowerBound<Item = A::Item>>(
    a: &A,
    b: &B,
    x: A::Item,
    ra: Result<usize, usize>,
    rb: Result<usize, usize>,
)
    requires
        total_order::<A::Item>(),
        a.bound_items() == b.bound_items(),
        sorted(a.bound_items()),
        a.bound_whole(),
        call_ensures(A::lower_bound, (a, &x), ra),
        call_ensures(B::lower_bound, (b, &x), rb),
    ensures
        rb is Ok ==> rb == ra,
        outcome_index(rb) <= outcome_index(ra),
        b.bound_whole() ==> rb == ra,
{
    let s = a.bound_items();
    lemma_outcome_determined(ra, s.len() as int, lower_index(s, x));
    if b.bound_whole() {
        lemma_outcome_determined(rb, s.len() as int, lower_index(s, x));
    }
}

/// The upper-bound counterpart of `lemma_lower_bound_partial_agrees`.
pub proof fn lemma_upper_bound_partial_agrees<A: UpperBound, B: UpperBound<Item = A::Item>>(
    a: &A,
    b: &B,
    x: A::Item,
    ra: Result<usize, usize>,
    rb: Result<usize, usize>,
)
    requires
        total_order::<A::Item>(),
        a.bound_items() == b.bound_items(),
        sorted(a.bound_items()),
        a.bound_whole(),
        call_ensures(A::upper_bound, (a, &x), ra),
        call_ensures(B::upper_bound, (b, &x), rb),
    ensures
        rb is Ok ==> rb == ra,
        outcome_index(rb) <= outcome_index(ra),
        b.bound_whole() ==> rb == ra,
{
    let s = a.bound_items();
    lemma_outcome_determined(ra, s.len() as int, upper_index(s, x));
    if b.bound_whole() {
        lemma_outcome_determined(rb, s.len() as int, upper_index(s, x));
    }
}

/// The primitive integer types order totally, so every law above applies
/// to collections of them.
pub proof fn lemma_integers_total_order()
    ensures
        total_order::<u8>(),
        total_order::<u16>(),
        total_order::<u32>(),
        total_order::<u64>(),
        total_order::<u128>(),
        total_order::<usize>(),
        total_order::<i8>(),
        total_order::<i16>(),
        total_order::<i32>(),
        total_order::<i64>(),
        total_order::<i128>(),
        total_order::<isize>(),
{
}

/// What a comparator that answers as `cmp` against `x` reported, the
/// elements themselves report against `x`.
pub proof fn lemma_value_reports<T: Ord, F: Fn(&T) -> Ordering>(
    s: Seq<T>,
    x: T,
    f: F,
    r: Result<usize, usize>,
    scans: bool,
)
    requires
        T::obeys_cmp_spec(),
        forall|e: T, o: Ordering| #[trigger] f.ensures((&e,), o) ==> o == e.cmp_spec(&x),
    ensures
        lower_reported_by(s, f, r, scans) ==> lower_reported(s, x, r, scans),
        upper_reported_by(s, f, r, scans) ==> upper_reported(s, x, r, scans),
{
    if lower_reported_by(s, f, r, scans) && scans {
        assert forall|k: int|
            0 <= k < outcome_index(r) && k < s.len() implies (#[trigger] s[k].cmp_spec(&x))
                == Ordering::Less by {
            assert(answers_less(f, s[k]));
        }
    }
    if upper_reported_by(s, f, r, scans) && scans {
        assert forall|k: int|
            0 <= k < outcome_index(r) && k < s.len() implies (#[trigger] s[k].cmp_spec(&x))
                != Ordering::Greater by {
            assert(answers_not_greater(f, s[k]));
        }
    }
}

/// What a comparator that compares the key `f` gives against `key`
/// reported, the keys themselves report against `key`.
pub proof fn lemma_key_reports<T, K: Ord, F: Fn(&T) -> K, G: Fn(&T) -> Ordering>(
    s: Seq<T>,
    key: K,
    f: F,
    g: G,
    r: Result<usize, usize>,
    scans: bool,
)
    requires
        K::obeys_cmp_spec(),
        forall|e: T, o: Ordering| #[trigger]
            g.ensures((&e,), o) ==> exists|y: K| f.ensures((&e,), y) && o == y.cmp_spec(&key),
    ensures
        lower_reported_by(s, g, r, scans) ==> lower_reported_by_key(s, key, f, r, scans),
        upper_reported_by(s, g, r, scans) ==> upper_reported_by_key(s, key, f, r, scans),
{
    if lower_reported_by(s, g, r, scans) && scans {
        assert forall|k: int|
            0 <= k < outcome_index(r) && k < s.len() implies #[trigger] key_answers(
            f,
            s[k],
            key,
            Ordering::Less,
            false,
        ) by {
            assert(answers_less(g, s[k]));
        }
    }
    if upper_reported_by(s, g, r, scans) && scans {
        assert forall|k: int|
            0 <= k < outcome_index(r) && k < s.len() implies #[trigger] key_answers(
            f,
            s[k],
            key,
            Ordering::Greater,
            true,
        ) by {
            assert(answers_not_greater(g, s[k]));
        }
    }
}

/// `f` gives one answer on each element of `s`.
pub open spec fn answers_determined<T, F: Fn(&T) -> Ordering>(s: Seq<T>, f: F) -> bool {
    forall|k: int, o1: Ordering, o2: Ordering|
        0 <= k < s.len() && #[trigger] f.ensures((&s[k],), o1) && #[trigger] f.ensures(
            (&s[k],),
            o2,
        ) ==> o1 == o2
}

/// A whole scan is determined by the answers of a comparator that gives
/// one answer per element: it reports the first element that did not
/// answer `Less`, else not-found at the end.
pub proof fn lemma_lower_scans_agree<T, F: Fn(&T) -> Ordering>(
    s: Seq<T>,
    f: F,
    r1: Result<usize, usize>,
    r2: Result<usize, usize>,
)
    requires
        answers_determined(s, f),
        outcome_within(r1, s.len() as int, true),
        outcome_within(r2, s.len() as int, true),
        lower_reported_by(s, f, r1, true),
        lower_reported_by(s, f, r2, true),
    ensures
        r1 == r2,
{
    let i1 = outcome_index(r1);
    let i2 = outcome_index(r2);
    if i1 < i2 {
        assert(answers_less(f, s[i1]));
        assert(answers_not_less(f, s[i1]));
    }
    if i2 < i1 {
        assert(answers_less(f, s[i2]));
        assert(answers_not_less(f, s[i2]));
    }
}

/// A whole scan is determined by the answers of a comparator that gives
/// one answer per element: it reports the first element that answered
/// `Greater`, else not-found at the end.
pub proof fn lemma_upper_scans_agree<T, F: Fn(&T) -> Ordering>(
    s: Seq<T>,
    f: F,
    r1: Result<usize, usize>,
    r2: Result<usize, usize>,
)
    requires
        answers_determined(s, f),
        outcome_within(r1, s.len() as int, true),
        outcome_within(r2, s.len() as int, true),
        upper_reported_by(s, f, r1, true),
        upper_reported_by(s, f, r2, true),
    ensures
        r1 == r2,
{
    let i1 = outcome_index(r1);
    let i2 = outcome_index(r2);
    if i1 < i2 {
        assert(answers_not_greater(f, s[i1]));
        assert(answers_greater(f, s[i1]));
    }
    if i2 < i1 {
        assert(answers_not_greater(f, s[i2]));
        assert(answers_greater(f, s[i2]));
    }
}

/// Two scanning collections that hand out the same elements (two maps
/// with the same keys, whatever their values) give the same lower-bound
/// outcome for any comparator that gives one answer per element.
pub proof fn lemma_lower_bound_by_scans_agree<
    A: LowerBound,
    B: LowerBound<Item = A::Item>,
    F: Fn(&A::Item) -> Ordering,
>(a: &A, b: &B, f: F, ra: Result<usize, usize>, rb: Result<usize, usize>)
    requires
        a.bound_items() == b.bound_items(),
        a.bound_scans(),
        b.bound_scans(),
        a.bound_whole(),
        b.bound_whole(),
        answers_determined(a.bound_items(), f),
        call_ensures(A::lower_bound_by::<F>, (a, f), ra),
        call_ensures(B::lower_bound_by::<F>, (b, f), rb),
    ensures
        ra == rb,
{
    lemma_lower_scans_agree(a.bound_items(), f, ra, rb);
}

/// The upper-bound counterpart of `lemma_lower_bound_by_scans_agree`.
pub proof fn lemma_upper_bound_by_scans_agree<
    A: UpperBound,
    B: UpperBound<Item = A::Item>,
    F: Fn(&A::Item) -> Ordering,
>(a: &A, b: &B, f: F, ra: Result<usize, usize>, rb: Result<usize, usize>)
    requires
        a.bound_items() == b.bound_items(),
        a.bound_scans(),
        b.bound_scans(),
        a.bound_whole(),
        b.bound_whole(),
        answers_determined(a.bound_items(), f),
        call_ensures(A::upper_bound_by::<F>, (a, f), ra),
        call_ensures(B::upper_bound_by::<F>, (b, f), rb),
    ensures
        ra == rb,
{
    lemma_upper_scans_agree(a.bound_items(), f, ra, rb);
}

} // verus!
