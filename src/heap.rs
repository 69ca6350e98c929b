//! A max-heap kept in a vector, searched by a scan in storage order.
use crate::boundary::{
    answers_less, answers_not_greater, callable_on, lower_split_by, sorted, total_order,
    upper_split_by,
};
use crate::laws::{
    lemma_key_as_comparator, lemma_key_reports, lemma_lower_index, lemma_upper_index,
    lemma_value_as_comparator, lemma_value_reports,
};
use crate::search::{LowerBound, UpperBound};
use std::cmp::Ordering;
use vstd::prelude::*;
use vstd::std_specs::cmp::OrdSpec;

verus! {

broadcast use vstd::seq_lib::group_to_multiset_ensures, vstd::multiset::group_multiset_axioms;

/// Every element is at least as large as its children, the children of
/// position `i` being `2 * i + 1` and `2 * i + 2`.
pub open spec fn heap_ordered<T: Ord>(s: Seq<T>) -> bool {
    forall|i: int|
        0 < i < s.len() ==> (#[trigger] s[(i - 1) / 2].cmp_spec(&s[i])) != Ordering::Less
}

/// Relies on `<[T]>::swap`: exchanges the elements at `i` and `j`.
#[verifier::external_body]
fn swap_items<T>(v: &mut Vec<T>, i: usize, j: usize)
    requires
        i < old(v).len(),
        j < old(v).len(),
    ensures
        final(v)@ == old(v)@.update(i as int, old(v)@[j as int]).update(
            j as int,
            old(v)@[i as int],
        ),
{
    v.swap(i, j)
}

/// Every parent-child pair is ordered but possibly the one above `c`, and
/// the parent of `c` is at least as large as the children of `c`.
pub open spec fn heap_ordered_except<T: Ord>(s: Seq<T>, c: int) -> bool {
    &&& forall|i: int|
        0 < i < s.len() && i != c ==> (#[trigger] s[(i - 1) / 2].cmp_spec(&s[i]))
            != Ordering::Less
    &&& c > 0 ==> forall|i: int|
        0 < i < s.len() && (i - 1) / 2 == c ==> (#[trigger] s[(c - 1) / 2].cmp_spec(&s[i]))
            != Ordering::Less
}

/// Exchanging a child with a smaller parent moves the one possibly
/// unordered pair up to the parent.
proof fn lemma_sift_step<T: Ord>(old_data: Seq<T>, new_data: Seq<T>, p: int, c: int)
    requires
        0 <= p < c < old_data.len(),
        p == (c - 1) / 2,
        new_data == old_data.update(p, old_data[c]).update(c, old_data[p]),
        total_order::<T>() ==> old_data[c].cmp_spec(&old_data[p]) == Ordering::Greater,
        total_order::<T>() ==> heap_ordered_except(old_data, c),
    ensures
        new_data.to_multiset() == old_data.to_multiset(),
        new_data.len() == old_data.len(),
        total_order::<T>() ==> heap_ordered_except(new_data, p),
{
    assert(new_data.to_multiset() =~= old_data.to_multiset());
    if total_order::<T>() {
        let d = new_data;
        assert(old_data[p].cmp_spec(&old_data[c]) == Ordering::Less);
        assert forall|i: int| 0 < i < d.len() && i != p implies (#[trigger] d[(i - 1) / 2].cmp_spec(
            &d[i],
        )) != Ordering::Less by {
            let q = (i - 1) / 2;
            if i == c {
            } else if q == c {
                assert(old_data[(c - 1) / 2].cmp_spec(&old_data[i]) != Ordering::Less);
            } else if q == p {
                assert(old_data[p].cmp_spec(&old_data[i]) != Ordering::Less);
                assert(old_data[i].cmp_spec(&old_data[p]) != Ordering::Greater);
                assert(old_data[i].cmp_spec(&old_data[c]) == Ordering::Less);
            } else {
                assert(old_data[q].cmp_spec(&old_data[i]) != Ordering::Less);
            }
        }
        if p > 0 {
            let g = (p - 1) / 2;
            assert(old_data[g].cmp_spec(&old_data[p]) != Ordering::Less);
            assert(old_data[p].cmp_spec(&old_data[g]) != Ordering::Greater);
            assert forall|i: int| 0 < i < d.len() && (i - 1) / 2 == p implies (#[trigger] d[(p - 1)
                / 2].cmp_spec(&d[i])) != Ordering::Less by {
                if i != c {
                    assert(old_data[p].cmp_spec(&old_data[i]) != Ordering::Less);
                    assert(old_data[i].cmp_spec(&old_data[p]) != Ordering::Greater);
                    assert(old_data[i].cmp_spec(&old_data[g]) != Ordering::Greater);
                }
            }
        }
    }
}

/// A max-heap: the greatest element sits at the front, and iteration runs
/// in storage order, which need not be sorted.
pub struct Heap<T> {
    data: Vec<T>,
}

impl<T: Ord> Heap<T> {
    /// The elements in storage order.
    pub closed spec fn items(&self) -> Seq<T> {
        self.data@
    }

    /// The heap order holds whenever `T`'s comparison is a total order.
    pub open spec fn wf(&self) -> bool {
        total_order::<T>() ==> heap_ordered(self.items())
    }

    pub fn new() -> (h: Self)
        ensures
            h.wf(),
            h.items() == Seq::<T>::empty(),
    {
        Heap { data: Vec::new() }
    }

    pub fn len(&self) -> (n: usize)
        ensures
            n == self.items().len(),
    {
        self.data.len()
    }

    /// The elements in storage order.
    pub fn as_slice(&self) -> (s: &[T])
        ensures
            s@ == self.items(),
    {
        self.data.as_slice()
    }

    /// Adds `x`, moving it towards the front past every smaller ancestor.
    pub fn push(&mut self, x: T)
        requires
            old(self).wf(),
            old(self).items().len() < usize::MAX,
        ensures
            final(self).wf(),
            final(self).items().to_multiset() == old(self).items().to_multiset().insert(x),
    {
        let ghost before = self.data@;
        self.data.push(x);
        let mut c: usize = self.data.len() - 1;
        proof {
            assert(self.data@ == before.push(x));
        }
        let mut settled = false;
        while c > 0 && !settled
            invariant
                c < self.data@.len(),
                self.data@.len() == before.len() + 1,
                self.data@.to_multiset() == before.to_multiset().insert(x),
                total_order::<T>() ==> heap_ordered_except(self.data@, c as int),
                total_order::<T>() && settled && c > 0 ==> self.data@[(c - 1) / 2].cmp_spec(
                    &self.data@[c as int],
                ) != Ordering::Less,
            decreases c + if settled {
                0int
            } else {
                1int
            },
        {
            let p = (c - 1) / 2;
            let o = self.data[c].cmp(&self.data[p]);
            match o {
                Ordering::Greater => {
                    let ghost old_data = self.data@;
                    swap_items(&mut self.data, p, c);
                    proof {
                        lemma_sift_step(old_data, self.data@, p as int, c as int);
                    }
                    c = p;
                },
                _ => {
                    settled = true;
                },
            }
        }
        proof {
            if total_order::<T>() {
                let d = self.data@;
                assert forall|i: int| 0 < i < d.len() implies (#[trigger] d[(i - 1) / 2].cmp_spec(
                    &d[i],
                )) != Ordering::Less by {
                    if i == c as int {
                    }
                }
                assert(heap_ordered(self.items()));
            }
        }
    }
}

impl<T: Ord> LowerBound for Heap<T> {
    type Item = T;

    /// The elements in storage order, which is the order of the scan.
    open spec fn bound_items(&self) -> Seq<T> {
        self.items()
    }

    open spec fn bound_whole(&self) -> bool {
        true
    }

    open spec fn bound_valid(&self) -> bool {
        true
    }

    open spec fn bound_scans(&self) -> bool {
        true
    }

    fn lower_bound(&self, x: &T) -> (r: Result<usize, usize>) {
        let f = |y: &T| -> (o: Ordering)
            ensures
                T::obeys_cmp_spec() ==> o == y.cmp_spec(x),
            { y.cmp(x) };
        let r = self.lower_bound_by(f);
        proof {
            if T::obeys_cmp_spec() {
                lemma_value_as_comparator(self.items(), *x, f);
                lemma_value_reports(self.items(), *x, f, r, true);
            }
            if total_order::<T>() && sorted(self.items()) {
                lemma_lower_index(self.items(), *x);
            }
        }
        r
    }

    fn lower_bound_by<F: Fn(&T) -> Ordering>(&self, f: F) -> (r: Result<usize, usize>) {
        let len = self.data.len();
        let mut i: usize = 0;
        while i < len
            invariant
                i <= len,
                len == self.items().len(),
                callable_on(self.items(), f),
                forall|b: int| #[trigger] lower_split_by(self.items(), f, b) ==> i <= b,
                forall|k: int| 0 <= k < i ==> #[trigger] answers_less(f, self.items()[k]),
            decreases len - i,
        {
            let o = f(&self.data[i]);
            proof {
                assert(f.ensures((&self.items()[i as int],), o));
            }
            match o {
                Ordering::Less => {},
                _ => {
                    return Ok(i);
                },
            }
            proof {
                assert forall|b: int|
                    #[trigger] lower_split_by(self.items(), f, b) implies i + 1 <= b by {
                    if b <= i {
                        assert(f.ensures((&self.items()[i as int],), o));
                    }
                }
            }
            i += 1;
        }
        Err(len)
    }

    fn lower_bound_by_key<K: Ord, F: Fn(&T) -> K>(&self, k: &K, f: F) -> (r: Result<
        usize,
        usize,
    >) {
        let fr = &f;
        let g = |e: &T| -> (o: Ordering)
            requires
                fr.requires((e,)),
            ensures
                exists|y: K|
                    fr.ensures((e,), y) && (K::obeys_cmp_spec() ==> o == y.cmp_spec(k)),
            {
                let y = fr(e);
                let o = y.cmp(k);
                proof {
                    assert(fr.ensures((e,), y));
                    assert(K::obeys_cmp_spec() ==> o == y.cmp_spec(k));
                }
                o
            };
        let r = self.lower_bound_by(g);
        proof {
            if K::obeys_cmp_spec() {
                lemma_key_as_comparator(self.items(), *k, f, g);
                lemma_key_reports(self.items(), *k, f, g, r, true);
            }
        }
        r
    }
}

impl<T: Ord> UpperBound for Heap<T> {
    type Item = T;

    /// The elements in storage order, which is the order of the scan.
    open spec fn bound_items(&self) -> Seq<T> {
        self.items()
    }

    open spec fn bound_whole(&self) -> bool {
        true
    }

    open spec fn bound_valid(&self) -> bool {
        true
    }

    open spec fn bound_scans(&self) -> bool {
        true
    }

    fn upper_bound(&self, x: &T) -> (r: Result<usize, usize>) {
        let f = |y: &T| -> (o: Ordering)
            ensures
                T::obeys_cmp_spec() ==> o == y.cmp_spec(x),
            { y.cmp(x) };
        let r = self.upper_bound_by(f);
        proof {
            if T::obeys_cmp_spec() {
                lemma_value_as_comparator(self.items(), *x, f);
                lemma_value_reports(self.items(), *x, f, r, true);
            }
            if total_order::<T>() && sorted(self.items()) {
                lemma_upper_index(self.items(), *x);
            }
        }
        r
    }

    fn upper_bound_by<F: Fn(&T) -> Ordering>(&self, f: F) -> (r: Result<usize, usize>) {
        let len = self.data.len();
        let mut i: usize = 0;
        while i < len
            invariant
                i <= len,
                len == self.items().len(),
                callable_on(self.items(), f),
                forall|b: int| #[trigger] upper_split_by(self.items(), f, b) ==> i <= b,
                forall|k: int| 0 <= k < i ==> #[trigger] answers_not_greater(f, self.items()[k]),
            decreases len - i,
        {
            let o = f(&self.data[i]);
            proof {
                assert(f.ensures((&self.items()[i as int],), o));
            }
            match o {
                Ordering::Greater => {
                    return Ok(i);
                },
                _ => {},
            }
            proof {
                assert forall|b: int|
                    #[trigger] upper_split_by(self.items(), f, b) implies i + 1 <= b by {
                    if b <= i {
                        assert(f.ensures((&self.items()[i as int],), o));
                    }
                }
            }
            i += 1;
        }
        Err(len)
    }

    fn upper_bound_by_key<K: Ord, F: Fn(&T) -> K>(&self, k: &K, f: F) -> (r: Result<
        usize,
        usize,
    >) {
        let fr = &f;
        let g = |e: &T| -> (o: Ordering)
            requires
                fr.requires((e,)),
            ensures
                exists|y: K|
                    fr.ensures((e,), y) && (K::obeys_cmp_spec() ==> o == y.cmp_spec(k)),
            {
                let y = fr(e);
                let o = y.cmp(k);
                proof {
                    assert(fr.ensures((e,), y));
                    assert(K::obeys_cmp_spec() ==> o == y.cmp_spec(k));
                }
                o
            };
        let r = self.upper_bound_by(g);
        proof {
            if K::obeys_cmp_spec() {
                lemma_key_as_comparator(self.items(), *k, f, g);
                lemma_key_reports(self.items(), *k, f, g, r, true);
            }
        }
        r
    }
}

} // verus!
