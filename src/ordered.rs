//! Ordered sets and maps, scanned in ascending key order.
use crate::boundary::{
    answers_less, answers_not_greater, callable_on, lower_split_by, sorted, total_order,
    upper_split_by,
};
use crate::laws::{
    lemma_key_as_comparator, lemma_key_reports, lemma_lower_index, lemma_upper_index,
    lemma_value_as_comparator, lemma_value_reports,
};
use crate::search::{LowerBound, UpperBound};
use std::cmp::Ordering;
use std::collections::{BTreeMap, BTreeSet};
use vstd::laws_cmp::{
    obeys_cmp, obeys_cmp_ord, obeys_cmp_partial_ord, obeys_partial_cmp_spec_properties,
};
use vstd::laws_eq::obeys_eq_spec_properties;
use vstd::prelude::*;
use vstd::std_specs::btree::{
    increasing_seq, spec_btree_keys_iter, spec_btree_map_iter, spec_keys_iter,
};
use vstd::std_specs::cmp::{OrdSpec, PartialOrdSpec};
use vstd::std_specs::iter::IteratorSpec;

verus! {

broadcast use vstd::std_specs::btree::group_btree_axioms;

/// `q` lists the elements of `s` once each, in strictly increasing order.
pub open spec fn ascending_listing<T: Ord>(q: Seq<T>, s: Set<T>) -> bool {
    &&& q.to_set() == s
    &&& forall|i: int, j: int|
        0 <= i < j < q.len() ==> (#[trigger] q[i].cmp_spec(&q[j])) == Ordering::Less
}

/// The elements of `s` in increasing order.
pub open spec fn ascending_items<T: Ord>(s: Set<T>) -> Seq<T> {
    choose|q: Seq<T>| ascending_listing(q, s)
}

proof fn lemma_ref_obeys_cmp<T: Ord>()
    requires
        obeys_cmp::<T>(),
    ensures
        obeys_cmp::<&T>(),
{
    reveal(obeys_partial_cmp_spec_properties);
    reveal(obeys_cmp_ord);
    reveal(obeys_cmp_partial_ord);
    reveal(obeys_eq_spec_properties);
}

proof fn lemma_cmp_antisymmetric<T: Ord>()
    requires
        obeys_cmp::<T>(),
    ensures
        forall|a: T, b: T|
            #![trigger a.cmp_spec(&b)]
            #![trigger b.cmp_spec(&a)]
            a.cmp_spec(&b) == Ordering::Less <==> b.cmp_spec(&a) == Ordering::Greater,
{
    reveal(obeys_partial_cmp_spec_properties);
    reveal(obeys_cmp_ord);
    assert forall|a: T, b: T|
        #![trigger a.cmp_spec(&b)]
        #![trigger b.cmp_spec(&a)]
        a.cmp_spec(&b) == Ordering::Less <==> b.cmp_spec(&a) == Ordering::Greater by {
        assert(a.partial_cmp_spec(&b) == Some(a.cmp_spec(&b)));
        assert(b.partial_cmp_spec(&a) == Some(b.cmp_spec(&a)));
    }
}

/// A set has at most one ascending listing.
proof fn lemma_listing_unique<T: Ord>(p: Seq<T>, q: Seq<T>, s: Set<T>)
    requires
        obeys_cmp::<T>(),
        ascending_listing(p, s),
        ascending_listing(q, s),
    ensures
        p == q,
    decreases p.len(),
{
    lemma_cmp_antisymmetric::<T>();
    if p.len() == 0 {
        if q.len() > 0 {
            assert(q.to_set().contains(q[0]));
        }
        assert(p =~= q);
    } else if q.len() == 0 {
        assert(p.to_set().contains(p[0]));
    } else {
        assert(q.to_set().contains(p[0]));
        assert(p.to_set().contains(q[0]));
        let j = choose|j: int| 0 <= j < q.len() && q[j] == p[0];
        let i = choose|i: int| 0 <= i < p.len() && p[i] == q[0];
        if i > 0 && j > 0 {
            assert(p[0].cmp_spec(&p[i]) == Ordering::Less);
            assert(q[0].cmp_spec(&q[j]) == Ordering::Less);
        }
        assert(p[0] == q[0]);
        let s_rest = s.remove(p[0]);
        let p_rest = p.drop_first();
        let q_rest = q.drop_first();
        assert forall|e: T| p_rest.to_set().contains(e) <==> s_rest.contains(e) by {
            if p_rest.to_set().contains(e) {
                let k = choose|k: int| 0 <= k < p_rest.len() && p_rest[k] == e;
                assert(p_rest[k] == p[k + 1]);
                assert(p[0].cmp_spec(&p[k + 1]) == Ordering::Less);
                assert(p.to_set().contains(e));
            }
            if s_rest.contains(e) {
                assert(p.to_set().contains(e));
                let k = choose|k: int| 0 <= k < p.len() && p[k] == e;
                assert(k > 0 && p_rest[k - 1] == e);
            }
        }
        assert forall|e: T| q_rest.to_set().contains(e) <==> s_rest.contains(e) by {
            if q_rest.to_set().contains(e) {
                let k = choose|k: int| 0 <= k < q_rest.len() && q_rest[k] == e;
                assert(q[0].cmp_spec(&q[k + 1]) == Ordering::Less);
                assert(q.to_set().contains(e));
            }
            if s_rest.contains(e) {
                assert(q.to_set().contains(e));
                let k = choose|k: int| 0 <= k < q.len() && q[k] == e;
                assert(k > 0 && q_rest[k - 1] == e);
            }
        }
        assert(p_rest.to_set() =~= s_rest);
        assert(q_rest.to_set() =~= s_rest);
        assert forall|a: int, b: int|
            0 <= a < b < p_rest.len() implies (#[trigger] p_rest[a].cmp_spec(&p_rest[b]))
                == Ordering::Less by {
            assert(p[a + 1].cmp_spec(&p[b + 1]) == Ordering::Less);
        }
        assert forall|a: int, b: int|
            0 <= a < b < q_rest.len() implies (#[trigger] q_rest[a].cmp_spec(&q_rest[b]))
                == Ordering::Less by {
            assert(q[a + 1].cmp_spec(&q[b + 1]) == Ordering::Less);
        }
        lemma_listing_unique(p_rest, q_rest, s_rest);
        assert forall|k: int| 0 <= k < p.len() implies p[k] == q[k] by {
            if k > 0 {
                assert(p[k] == p_rest[k - 1] && q[k] == q_rest[k - 1]);
            }
        }
        assert(p =~= q);
    }
}

/// What a set's iterator hands out, when the key type obeys `Ord`'s laws,
/// is the ascending listing of the set.
proof fn lemma_set_iter_listing<T: Ord>(s: &BTreeSet<T>)
    requires
        obeys_cmp::<T>(),
    ensures
        spec_btree_keys_iter(s).remaining().unref() == ascending_items(s@),
        ascending_items(s@).len() == s@.len(),
{
    lemma_ref_listing(spec_btree_keys_iter(s).remaining(), s@);
}

/// A strictly increasing sequence of references to the elements of `s`
/// is, once dereferenced, the ascending listing of `s`.
proof fn lemma_ref_listing<T: Ord>(r: Seq<&T>, s: Set<T>)
    requires
        obeys_cmp::<T>(),
        increasing_seq(r),
        r.unref().to_set() == s,
    ensures
        r.unref() == ascending_items(s),
        ascending_listing(ascending_items(s), s),
{
    lemma_ref_obeys_cmp::<T>();
    let q = r.unref();
    vstd::std_specs::btree::axiom_increasing_seq_meaning::<&T>(r);
    assert forall|i: int, j: int| 0 <= i < j < q.len() implies (#[trigger] q[i].cmp_spec(&q[j]))
        == Ordering::Less by {
        assert(<&T as OrdSpec>::cmp_spec(&r[i], &r[j]) is Less);
        assert(q[i] == *r[i]);
    }
    assert(ascending_listing(q, s));
    lemma_listing_unique(q, ascending_items(s), s);
}

/// An ordered set hands out its elements sorted.
pub proof fn lemma_set_items_sorted<T: Ord>(s: &BTreeSet<T>)
    requires
        obeys_cmp::<T>(),
    ensures
        sorted(ascending_items(s@)),
        ascending_listing(ascending_items(s@), s@),
{
    lemma_ref_listing(spec_btree_keys_iter(s).remaining(), s@);
}

/// An ordered map hands out its keys sorted.
pub proof fn lemma_map_keys_sorted<K: Ord, V>(m: &BTreeMap<K, V>)
    requires
        obeys_cmp::<K>(),
    ensures
        sorted(ascending_items(m@.dom())),
        ascending_listing(ascending_items(m@.dom()), m@.dom()),
{
    lemma_ref_listing(spec_keys_iter(m).remaining(), m@.dom());
}

/// What a map's iterator hands out, when the key type obeys `Ord`'s laws,
/// lists the keys of the map in ascending order.
proof fn lemma_map_iter_listing<K: Ord, V>(m: &BTreeMap<K, V>, r: Seq<(&K, &V)>)
    requires
        obeys_cmp::<K>(),
        r == spec_btree_map_iter(m).remaining(),
        increasing_seq(r.map_values(|kv: (&K, &V)| *kv.0)),
    ensures
        r.map_values(|kv: (&K, &V)| *kv.0) == ascending_items(m@.dom()),
        ascending_items(m@.dom()).len() == m@.dom().len(),
{
    let q = r.map_values(|kv: (&K, &V)| *kv.0);
    assert(r.len() == m@.dom().len());
    assert forall|k: K| q.to_set().contains(k) <==> m@.dom().contains(k) by {
        if q.to_set().contains(k) {
            let i = choose|i: int| 0 <= i < q.len() && q[i] == k;
            assert(m@.contains_key(*r[i].0));
        }
        if m@.dom().contains(k) {
            assert(m@.contains_key(k));
            assert(r.contains((&k, &m@[k])));
            let i = choose|i: int| 0 <= i < r.len() && r[i] == (&k, &m@[k]);
            assert(q[i] == k);
        }
    }
    assert(q.to_set() =~= m@.dom());
    assert(ascending_listing(q, m@.dom()));
    lemma_listing_unique(q, ascending_items(m@.dom()), m@.dom());
}

impl<T: Ord> LowerBound for BTreeSet<T> {
    type Item = T;

    /// The elements of the set, in ascending order.
    open spec fn bound_items(&self) -> Seq<T> {
        ascending_items(self@)
    }

    open spec fn bound_whole(&self) -> bool {
        true
    }

    /// The listing of an ordered collection is known when its key type
    /// obeys the laws of `Ord`.
    open spec fn bound_valid(&self) -> bool {
        obeys_cmp::<T>()
    }

    open spec fn bound_scans(&self) -> bool {
        true
    }

    fn lower_bound(&self, x: &T) -> (r: Result<usize, usize>) {
        let f = |y: &T| -> (o: Ordering)
            ensures
                T::obeys_cmp_spec() ==> o == y.cmp_spec(x),
            { y.cmp(x) };
        let r = self.lower_bound_by(f);
        proof {
            if T::obeys_cmp_spec() {
                lemma_value_as_comparator(ascending_items(self@), *x, f);
                lemma_value_reports(ascending_items(self@), *x, f, r, true);
            }
            if total_order::<T>() && sorted(ascending_items(self@)) {
                lemma_lower_index(ascending_items(self@), *x);
            }
        }
        r
    }

    fn lower_bound_by<F: Fn(&T) -> Ordering>(&self, f: F) -> (r: Result<usize, usize>) {
        let len = self.len();
        let iter = self.iter();
        proof {
            lemma_set_iter_listing(self);
        }
        let mut i: usize = 0;
        for e in it: iter
            invariant
                i == it.index(),
                it.seq().unref() == ascending_items(self@),
                len == ascending_items(self@).len(),
                callable_on(ascending_items(self@), f),
                forall|b: int| #[trigger] lower_split_by(ascending_items(self@), f, b) ==> i <= b,
                forall|k: int| 0 <= k < i ==> #[trigger] answers_less(f, ascending_items(self@)[k]),
        {
            let o = f(e);
            proof {
                assert(it.seq().unref()[i as int] == *e);
                assert(f.ensures((&ascending_items(self@)[i as int],), o));
            }
            match o {
                Ordering::Less => {},
                _ => {
                    return Ok(i);
                },
            }
            proof {
                let q = ascending_items(self@);
                assert forall|b: int| #[trigger] lower_split_by(q, f, b) implies i + 1 <= b by {
                    if b <= i {
                        assert(f.ensures((&q[i as int],), o));
                    }
                }
            }
            i += 1;
        }
        Err(len)
    }

    fn lower_bound_by_key<K: Ord, F: Fn(&T) -> K>(&self, k: &K, f: F) -> (r: Result<
        usize,
        usize,
    >) {
        let fr = &f;
        let g = |e: &T| -> (o: Ordering)
            requires
                fr.requires((e,)),
            ensures
                exists|y: K|
                    fr.ensures((e,), y) && (K::obeys_cmp_spec() ==> o == y.cmp_spec(k)),
            {
                let y = fr(e);
                let o = y.cmp(k);
                proof {
                    assert(fr.ensures((e,), y));
                    assert(K::obeys_cmp_spec() ==> o == y.cmp_spec(k));
                }
                o
            };
        let r = self.lower_bound_by(g);
        proof {
            if K::obeys_cmp_spec() {
                lemma_key_as_comparator(ascending_items(self@), *k, f, g);
                lemma_key_reports(ascending_items(self@), *k, f, g, r, true);
            }
        }
        r
    }
}

impl<T: Ord> UpperBound for BTreeSet<T> {
    type Item = T;

    /// The elements of the set, in ascending order.
    open spec fn bound_items(&self) -> Seq<T> {
        ascending_items(self@)
    }

    open spec fn bound_whole(&self) -> bool {
        true
    }

    /// The listing of an ordered collection is known when its key type
    /// obeys the laws of `Ord`.
    open spec fn bound_valid(&self) -> bool {
        obeys_cmp::<T>()
    }

    open spec fn bound_scans(&self) -> bool {
        true
    }

    fn upper_bound(&self, x: &T) -> (r: Result<usize, usize>) {
        let f = |y: &T| -> (o: Ordering)
            ensures
                T::obeys_cmp_spec() ==> o == y.cmp_spec(x),
            { y.cmp(x) };
        let r = self.upper_bound_by(f);
        proof {
            if T::obeys_cmp_spec() {
                lemma_value_as_comparator(ascending_items(self@), *x, f);
                lemma_value_reports(ascending_items(self@), *x, f, r, true);
            }
            if total_order::<T>() && sorted(ascending_items(self@)) {
                lemma_upper_index(ascending_items(self@), *x);
            }
        }
        r
    }

    fn upper_bound_by<F: Fn(&T) -> Ordering>(&self, f: F) -> (r: Result<usize, usize>) {
        let len = self.len();
        let iter = self.iter();
        proof {
            lemma_set_iter_listing(self);
        }
        let mut i: usize = 0;
        for e in it: iter
            invariant
                i == it.index(),
                it.seq().unref() == ascending_items(self@),
                len == ascending_items(self@).len(),
                callable_on(ascending_items(self@), f),
                forall|b: int| #[trigger] upper_split_by(ascending_items(self@), f, b) ==> i <= b,
                forall|k: int|
                    0 <= k < i ==> #[trigger] answers_not_greater(f, ascending_items(self@)[k]),
        {
            let o = f(e);
            proof {
                assert(it.seq().unref()[i as int] == *e);
                assert(f.ensures((&ascending_items(self@)[i as int],), o));
            }
            match o {
                Ordering::Greater => {
                    return Ok(i);
                },
                _ => {},
            }
            proof {
                let q = ascending_items(self@);
                assert forall|b: int| #[trigger] upper_split_by(q, f, b) implies i + 1 <= b by {
                    if b <= i {
                        assert(f.ensures((&q[i as int],), o));
                    }
                }
            }
            i += 1;
        }
        Err(len)
    }

    fn upper_bound_by_key<K: Ord, F: Fn(&T) -> K>(&self, k: &K, f: F) -> (r: Result<
        usize,
        usize,
    >) {
        let fr = &f;
        let g = |e: &T| -> (o: Ordering)
            requires
                fr.requires((e,)),
            ensures
                exists|y: K|
                    fr.ensures((e,), y) && (K::obeys_cmp_spec() ==> o == y.cmp_spec(k)),
            {
                let y = fr(e);
                let o = y.cmp(k);
                proof {
                    assert(fr.ensures((e,), y));
                    assert(K::obeys_cmp_spec() ==> o == y.cmp_spec(k));
                }
                o
            };
        let r = self.upper_bound_by(g);
        proof {
            if K::obeys_cmp_spec() {
                lemma_key_as_comparator(ascending_items(self@), *k, f, g);
                lemma_key_reports(ascending_items(self@), *k, f, g, r, true);
            }
        }
        r
    }
}

impl<T: Ord, V> LowerBound for BTreeMap<T, V> {
    type Item = T;

    /// The keys of the map, in ascending order; values are not compared.
    open spec fn bound_items(&self) -> Seq<T> {
        ascending_items(self@.dom())
    }

    open spec fn bound_whole(&self) -> bool {
        true
    }

    /// The listing of an ordered collection is known when its key type
    /// obeys the laws of `Ord`.
    open spec fn bound_valid(&self) -> bool {
        obeys_cmp::<T>()
    }

    open spec fn bound_scans(&self) -> bool {
        true
    }

    fn lower_bound(&self, x: &T) -> (r: Result<usize, usize>) {
        let f = |y: &T| -> (o: Ordering)
            ensures
                T::obeys_cmp_spec() ==> o == y.cmp_spec(x),
            { y.cmp(x) };
        let r = self.lower_bound_by(f);
        proof {
            if T::obeys_cmp_spec() {
                lemma_value_as_comparator(ascending_items(self@.dom()), *x, f);
                lemma_value_reports(ascending_items(self@.dom()), *x, f, r, true);
            }
            if total_order::<T>() && sorted(ascending_items(self@.dom())) {
                lemma_lower_index(ascending_items(self@.dom()), *x);
            }
        }
        r
    }

    fn lower_bound_by<F: Fn(&T) -> Ordering>(&self, f: F) -> (r: Result<usize, usize>) {
        let len = self.len();
        let iter = self.iter();
        proof {
            lemma_map_iter_listing(self, iter.remaining());
        }
        let ghost keys = ascending_items(self@.dom());
        let mut i: usize = 0;
        for kv in it: iter
            invariant
                i == it.index(),
                it.seq().map_values(|kv: (&T, &V)| *kv.0) == keys,
                keys == ascending_items(self@.dom()),
                len == keys.len(),
                callable_on(keys, f),
                forall|b: int| #[trigger] lower_split_by(keys, f, b) ==> i <= b,
                forall|k: int| 0 <= k < i ==> #[trigger] answers_less(f, keys[k]),
        {
            proof {
                assert(it.seq().map_values(|kv: (&T, &V)| *kv.0)[i as int] == *kv.0);
                assert(f.requires((&keys[i as int],)));
            }
            let o = f(kv.0);
            proof {
                assert(f.ensures((&keys[i as int],), o));
            }
            match o {
                Ordering::Less => {},
                _ => {
                    return Ok(i);
                },
            }
            proof {
                assert forall|b: int| #[trigger] lower_split_by(keys, f, b) implies i + 1 <= b by {
                    if b <= i {
                        assert(f.ensures((&keys[i as int],), o));
                    }
                }
            }
            i += 1;
        }
        Err(len)
    }

    fn lower_bound_by_key<K: Ord, F: Fn(&T) -> K>(&self, k: &K, f: F) -> (r: Result<
        usize,
        usize,
    >) {
        let fr = &f;
        let g = |e: &T| -> (o: Ordering)
            requires
                fr.requires((e,)),
            ensures
                exists|y: K|
                    fr.ensures((e,), y) && (K::obeys_cmp_spec() ==> o == y.cmp_spec(k)),
            {
                let y = fr(e);
                let o = y.cmp(k);
                proof {
                    assert(fr.ensures((e,), y));
                    assert(K::obeys_cmp_spec() ==> o == y.cmp_spec(k));
                }
                o
            };
        let r = self.lower_bound_by(g);
        proof {
            if K::obeys_cmp_spec() {
                lemma_key_as_comparator(ascending_items(self@.dom()), *k, f, g);
                lemma_key_reports(ascending_items(self@.dom()), *k, f, g, r, true);
            }
        }
        r
    }
}

impl<T: Ord, V> UpperBound for BTreeMap<T, V> {
    type Item = T;

    /// The keys of the map, in ascending order; values are not compared.
    open spec fn bound_items(&self) -> Seq<T> {
        ascending_items(self@.dom())
    }

    open spec fn bound_whole(&self) -> bool {
        true
    }

    /// The listing of an ordered collection is known when its key type
    /// obeys the laws of `Ord`.
    open spec fn bound_valid(&self) -> bool {
        obeys_cmp::<T>()
    }

    open spec fn bound_scans(&self) -> bool {
        true
    }

    fn upper_bound(&self, x: &T) -> (r: Result<usize, usize>) {
        let f = |y: &T| -> (o: Ordering)
            ensures
                T::obeys_cmp_spec() ==> o == y.cmp_spec(x),
            { y.cmp(x) };
        let r = self.upper_bound_by(f);
        proof {
            if T::obeys_cmp_spec() {
                lemma_value_as_comparator(ascending_items(self@.dom()), *x, f);
                lemma_value_reports(ascending_items(self@.dom()), *x, f, r, true);
            }
            if total_order::<T>() && sorted(ascending_items(self@.dom())) {
                lemma_upper_index(ascending_items(self@.dom()), *x);
            }
        }
        r
    }

    fn upper_bound_by<F: Fn(&T) -> Ordering>(&self, f: F) -> (r: Result<usize, usize>) {
        let len = self.len();
        let iter = self.iter();
        proof {
            lemma_map_iter_listing(self, iter.remaining());
        }
        let ghost keys = ascending_items(self@.dom());
        let mut i: usize = 0;
        for kv in it: iter
            invariant
                i == it.index(),
                it.seq().map_values(|kv: (&T, &V)| *kv.0) == keys,
                keys == ascending_items(self@.dom()),
                len == keys.len(),
                callable_on(keys, f),
                forall|b: int| #[trigger] upper_split_by(keys, f, b) ==> i <= b,
                forall|k: int| 0 <= k < i ==> #[trigger] answers_not_greater(f, keys[k]),
        {
            proof {
                assert(it.seq().map_values(|kv: (&T, &V)| *kv.0)[i as int] == *kv.0);
                assert(f.requires((&keys[i as int],)));
            }
            let o = f(kv.0);
            proof {
                assert(f.ensures((&keys[i as int],), o));
            }
            match o {
                Ordering::Greater => {
                    return Ok(i);
                },
                _ => {},
            }
            proof {
                assert forall|b: int| #[trigger] upper_split_by(keys, f, b) implies i + 1 <= b by {
                    if b <= i {
                        assert(f.ensures((&keys[i as int],), o));
                    }
                }
            }
            i += 1;
        }
        Err(len)
    }

    fn upper_bound_by_key<K: Ord, F: Fn(&T) -> K>(&self, k: &K, f: F) -> (r: Result<
        usize,
        usize,
    >) {
        let fr = &f;
        let g = |e: &T| -> (o: Ordering)
            requires
                fr.requires((e,)),
            ensures
                exists|y: K|
                    fr.ensures((e,), y) && (K::obeys_cmp_spec() ==> o == y.cmp_spec(k)),
            {
                let y = fr(e);
                let o = y.cmp(k);
                proof {
                    assert(fr.ensures((e,), y));
                    assert(K::obeys_cmp_spec() ==> o == y.cmp_spec(k));
                }
                o
            };
        let r = self.upper_bound_by(g);
        proof {
            if K::obeys_cmp_spec() {
                lemma_key_as_comparator(ascending_items(self@.dom()), *k, f, g);
                lemma_key_reports(ascending_items(self@.dom()), *k, f, g, r, true);
            }
        }
        r
    }
}

} // verus!
