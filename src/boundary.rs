//! The mathematical model of a boundary search: where a sequence splits
//! under a comparison, and how a search outcome reports that split.
use std::cmp::Ordering;
use vstd::prelude::*;
use vstd::std_specs::cmp::OrdSpec;

verus! {

/// The position that an outcome carries, found or not.
pub open spec fn outcome_index(r: Result<usize, usize>) -> int {
    match r {
        Ok(i) => i as int,
        Err(i) => i as int,
    }
}

/// `r` is a well-formed outcome of a search over `len` elements: a found
/// position lies inside, a not-found position is the append position.
/// A search that may stop short of the end (`whole` false) may report
/// not-found at an earlier position.
pub open spec fn outcome_within(r: Result<usize, usize>, len: int, whole: bool) -> bool {
    match r {
        Ok(i) => i < len,
        Err(i) => i <= len && (whole ==> i == len),
    }
}

/// `r` reports the boundary `b`: a found position is `b` itself; a search
/// that stopped short reports not-found no later than `b`.
pub open spec fn lands_at(r: Result<usize, usize>, b: int, whole: bool) -> bool {
    match r {
        Ok(i) => i == b,
        Err(i) => i <= b && (whole ==> i == b),
    }
}

/// Every element before `b` compares `Less` under `f`, whatever `f` answers,
/// and no element from `b` on does.
pub open spec fn lower_split_by<T, F: Fn(&T) -> Ordering>(s: Seq<T>, f: F, b: int) -> bool {
    &&& 0 <= b <= s.len()
    &&& forall|k: int, o: Ordering|
        0 <= k < b && #[trigger] f.ensures((&s[k],), o) ==> o == Ordering::Less
    &&& forall|k: int, o: Ordering|
        b <= k < s.len() && #[trigger] f.ensures((&s[k],), o) ==> o != Ordering::Less
}

/// No element before `b` compares `Greater` under `f`, and every element
/// from `b` on does.
pub open spec fn upper_split_by<T, F: Fn(&T) -> Ordering>(s: Seq<T>, f: F, b: int) -> bool {
    &&& 0 <= b <= s.len()
    &&& forall|k: int, o: Ordering|
        0 <= k < b && #[trigger] f.ensures((&s[k],), o) ==> o != Ordering::Greater
    &&& forall|k: int, o: Ordering|
        b <= k < s.len() && #[trigger] f.ensures((&s[k],), o) ==> o == Ordering::Greater
}

/// The elements before `b` are less than `x`, the others are not.
pub open spec fn lower_split<T: Ord>(s: Seq<T>, x: T, b: int) -> bool {
    &&& 0 <= b <= s.len()
    &&& forall|k: int| 0 <= k < b ==> (#[trigger] s[k].cmp_spec(&x)) == Ordering::Less
    &&& forall|k: int| b <= k < s.len() ==> (#[trigger] s[k].cmp_spec(&x)) != Ordering::Less
}

/// The elements before `b` are not greater than `x`, the others are.
pub open spec fn upper_split<T: Ord>(s: Seq<T>, x: T, b: int) -> bool {
    &&& 0 <= b <= s.len()
    &&& forall|k: int| 0 <= k < b ==> (#[trigger] s[k].cmp_spec(&x)) != Ordering::Greater
    &&& forall|k: int| b <= k < s.len() ==> (#[trigger] s[k].cmp_spec(&x)) == Ordering::Greater
}

/// The keys that `f` gives to the elements before `b` are less than `key`,
/// the keys of the others are not.
pub open spec fn lower_split_by_key<T, K: Ord, F: Fn(&T) -> K>(
    s: Seq<T>,
    key: K,
    f: F,
    b: int,
) -> bool {
    &&& 0 <= b <= s.len()
    &&& forall|k: int, y: K|
        0 <= k < b && #[trigger] f.ensures((&s[k],), y) ==> y.cmp_spec(&key) == Ordering::Less
    &&& forall|k: int, y: K|
        b <= k < s.len() && #[trigger] f.ensures((&s[k],), y) ==> y.cmp_spec(&key)
            != Ordering::Less
}

/// The keys that `f` gives to the elements before `b` are not greater than
/// `key`, the keys of the others are.
pub open spec fn upper_split_by_key<T, K: Ord, F: Fn(&T) -> K>(
    s: Seq<T>,
    key: K,
    f: F,
    b: int,
) -> bool {
    &&& 0 <= b <= s.len()
    &&& forall|k: int, y: K|
        0 <= k < b && #[trigger] f.ensures((&s[k],), y) ==> y.cmp_spec(&key)
            != Ordering::Greater
    &&& forall|k: int, y: K|
        b <= k < s.len() && #[trigger] f.ensures((&s[k],), y) ==> y.cmp_spec(&key)
            == Ordering::Greater
}

/// `f` may be called on every element of `s`.
pub open spec fn callable_on<T, R, F: Fn(&T) -> R>(s: Seq<T>, f: F) -> bool {
    forall|k: int| 0 <= k < s.len() ==> #[trigger] f.requires((&s[k],))
}

/// `cmp_spec` on `T` is a total order, as `Ord` documents it.
pub open spec fn total_order<T: Ord>() -> bool {
    &&& T::obeys_cmp_spec()
    &&& forall|a: T, b: T|
        #![trigger a.cmp_spec(&b)]
        #![trigger b.cmp_spec(&a)]
        a.cmp_spec(&b) == Ordering::Less <==> b.cmp_spec(&a) == Ordering::Greater
    &&& forall|a: T, b: T, c: T|
        #![trigger a.cmp_spec(&b), b.cmp_spec(&c)]
        a.cmp_spec(&b) != Ordering::Greater && b.cmp_spec(&c) != Ordering::Greater ==> a.cmp_spec(
            &c,
        ) != Ordering::Greater
    &&& forall|a: T, b: T, c: T|
        #![trigger a.cmp_spec(&b), b.cmp_spec(&c)]
        a.cmp_spec(&b) == Ordering::Less && b.cmp_spec(&c) != Ordering::Greater ==> a.cmp_spec(&c)
            == Ordering::Less
    &&& forall|a: T, b: T, c: T|
        #![trigger a.cmp_spec(&b), b.cmp_spec(&c)]
        a.cmp_spec(&b) != Ordering::Greater && b.cmp_spec(&c) == Ordering::Less ==> a.cmp_spec(&c)
            == Ordering::Less
}

/// `s` is in non-decreasing order.
pub open spec fn sorted<T: Ord>(s: Seq<T>) -> bool {
    forall|i: int, j: int|
        0 <= i < j < s.len() ==> (#[trigger] s[i].cmp_spec(&s[j])) != Ordering::Greater
}

/// The first position whose element is not less than `x`.
pub open spec fn lower_index<T: Ord>(s: Seq<T>, x: T) -> int {
    choose|b: int| lower_split(s, x, b)
}

/// The first position whose element is greater than `x`.
pub open spec fn upper_index<T: Ord>(s: Seq<T>, x: T) -> int {
    choose|b: int| upper_split(s, x, b)
}

/// `f` may answer `Less` on `e`.
pub open spec fn answers_less<T, F: Fn(&T) -> Ordering>(f: F, e: T) -> bool {
    exists|o: Ordering| #[trigger] f.ensures((&e,), o) && o == Ordering::Less
}

/// `f` may answer something other than `Less` on `e`.
pub open spec fn answers_not_less<T, F: Fn(&T) -> Ordering>(f: F, e: T) -> bool {
    exists|o: Ordering| #[trigger] f.ensures((&e,), o) && o != Ordering::Less
}

/// `f` may answer `Greater` on `e`.
pub open spec fn answers_greater<T, F: Fn(&T) -> Ordering>(f: F, e: T) -> bool {
    exists|o: Ordering| #[trigger] f.ensures((&e,), o) && o == Ordering::Greater
}

/// `f` may answer something other than `Greater` on `e`.
pub open spec fn answers_not_greater<T, F: Fn(&T) -> Ordering>(f: F, e: T) -> bool {
    exists|o: Ordering| #[trigger] f.ensures((&e,), o) && o != Ordering::Greater
}

/// `f` may give `e` a key whose comparison against `key` is `want`, or,
/// with `negate`, is anything but `want`.
pub open spec fn key_answers<T, K: Ord, F: Fn(&T) -> K>(
    f: F,
    e: T,
    key: K,
    want: Ordering,
    negate: bool,
) -> bool {
    exists|y: K| #[trigger] f.ensures((&e,), y) && ((y.cmp_spec(&key) == want) != negate)
}

/// How a lower-bound outcome `r` over `s` reflects the comparator's answers:
/// the element before the position answered `Less`, a found element did
/// not; a scan (`scans`) also saw `Less` from every element before it.
pub open spec fn lower_reported_by<T, F: Fn(&T) -> Ordering>(
    s: Seq<T>,
    f: F,
    r: Result<usize, usize>,
    scans: bool,
) -> bool {
    let i = outcome_index(r);
    &&& 0 < i <= s.len() ==> answers_less(f, s[i - 1])
    &&& r is Ok && i < s.len() ==> answers_not_less(f, s[i])
    &&& scans ==> forall|k: int| 0 <= k < i && k < s.len() ==> #[trigger] answers_less(f, s[k])
}

/// The upper-bound counterpart of `lower_reported_by`, with `Greater` as
/// the test.
pub open spec fn upper_reported_by<T, F: Fn(&T) -> Ordering>(
    s: Seq<T>,
    f: F,
    r: Result<usize, usize>,
    scans: bool,
) -> bool {
    let i = outcome_index(r);
    &&& 0 < i <= s.len() ==> answers_not_greater(f, s[i - 1])
    &&& r is Ok && i < s.len() ==> answers_greater(f, s[i])
    &&& scans ==> forall|k: int|
        0 <= k < i && k < s.len() ==> #[trigger] answers_not_greater(f, s[k])
}

/// `lower_reported_by` for the comparison against `x`.
pub open spec fn lower_reported<T: Ord>(
    s: Seq<T>,
    x: T,
    r: Result<usize, usize>,
    scans: bool,
) -> bool {
    let i = outcome_index(r);
    &&& 0 < i <= s.len() ==> s[i - 1].cmp_spec(&x) == Ordering::Less
    &&& r is Ok && i < s.len() ==> s[i].cmp_spec(&x) != Ordering::Less
    &&& scans ==> forall|k: int|
        0 <= k < i && k < s.len() ==> (#[trigger] s[k].cmp_spec(&x)) == Ordering::Less
}

/// `upper_reported_by` for the comparison against `x`.
pub open spec fn upper_reported<T: Ord>(
    s: Seq<T>,
    x: T,
    r: Result<usize, usize>,
    scans: bool,
) -> bool {
    let i = outcome_index(r);
    &&& 0 < i <= s.len() ==> s[i - 1].cmp_spec(&x) != Ordering::Greater
    &&& r is Ok && i < s.len() ==> s[i].cmp_spec(&x) == Ordering::Greater
    &&& scans ==> forall|k: int|
        0 <= k < i && k < s.len() ==> (#[trigger] s[k].cmp_spec(&x)) != Ordering::Greater
}

/// `lower_reported_by` for the comparison of the key that `f` gives
/// against `key`.
pub open spec fn lower_reported_by_key<T, K: Ord, F: Fn(&T) -> K>(
    s: Seq<T>,
    key: K,
    f: F,
    r: Result<usize, usize>,
    scans: bool,
) -> bool {
    let i = outcome_index(r);
    &&& 0 < i <= s.len() ==> key_answers(f, s[i - 1], key, Ordering::Less, false)
    &&& r is Ok && i < s.len() ==> key_answers(f, s[i], key, Ordering::Less, true)
    &&& scans ==> forall|k: int|
        0 <= k < i && k < s.len() ==> #[trigger] key_answers(f, s[k], key, Ordering::Less, false)
}

/// `upper_reported_by` for the comparison of the key that `f` gives
/// against `key`.
pub open spec fn upper_reported_by_key<T, K: Ord, F: Fn(&T) -> K>(
    s: Seq<T>,
    key: K,
    f: F,
    r: Result<usize, usize>,
    scans: bool,
) -> bool {
    let i = outcome_index(r);
    &&& 0 < i <= s.len() ==> key_answers(f, s[i - 1], key, Ordering::Greater, true)
    &&& r is Ok && i < s.len() ==> key_answers(f, s[i], key, Ordering::Greater, false)
    &&& scans ==> forall|k: int|
        0 <= k < i && k < s.len() ==> #[trigger] key_answers(
            f,
            s[k],
            key,
            Ordering::Greater,
            true,
        )
}

} // verus!
