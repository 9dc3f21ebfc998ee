//! Shared helpers for flat lists of key/value pairs.
//!
//! [`Keylist`](crate::Keylist) and [`VecKeylist`](crate::VecKeylist) both
//! store a vector of pairs; the lookups and the sorted searches on such a
//! vector live here, stated over the deep view of the vector.

use vstd::prelude::*;
use crate::order::{Element, TotalOrder};

verus! {

/// The deep view of each element of a sequence, in order.
pub open spec fn dv_seq<T: DeepView>(s: Seq<T>) -> Seq<T::V> {
    Seq::new(s.len(), |i: int| s[i].deep_view())
}

pub proof fn lemma_dv_push<T: DeepView>(s: Seq<T>, x: T)
    ensures
        dv_seq(s.push(x)) == dv_seq(s).push(x.deep_view()),
{
    assert(dv_seq(s.push(x)) =~= dv_seq(s).push(x.deep_view()));
}

pub proof fn lemma_dv_remove<T: DeepView>(s: Seq<T>, i: int)
    requires
        0 <= i < s.len(),
    ensures
        dv_seq(s.remove(i)) == dv_seq(s).remove(i),
{
    assert(dv_seq(s.remove(i)) =~= dv_seq(s).remove(i));
}

pub proof fn lemma_dv_insert<T: DeepView>(s: Seq<T>, i: int, x: T)
    requires
        0 <= i <= s.len(),
    ensures
        dv_seq(s.insert(i, x)) == dv_seq(s).insert(i, x.deep_view()),
{
    assert(dv_seq(s.insert(i, x)) =~= dv_seq(s).insert(i, x.deep_view()));
}

/// Whether some pair of `ps` has key `k`.
pub open spec fn has_key<KV, VV>(ps: Seq<(KV, VV)>, k: KV) -> bool {
    exists|i: int| 0 <= i < ps.len() && (#[trigger] ps[i]).0 == k
}

/// The position of the first pair of `ps` whose key is `k`; meaningful only
/// when such a pair exists.
pub open spec fn first_key_index<KV, VV>(ps: Seq<(KV, VV)>, k: KV) -> int
    decreases ps.len(),
{
    if ps.len() == 0 {
        0
    } else if ps[0].0 == k {
        0
    } else {
        1 + first_key_index(ps.drop_first(), k)
    }
}

/// A position that holds `k` with no earlier occurrence of `k` is exactly
/// `first_key_index`.
pub proof fn lemma_first_key_index<KV, VV>(ps: Seq<(KV, VV)>, k: KV, i: int)
    requires
        0 <= i < ps.len(),
        ps[i].0 == k,
        forall|j: int| 0 <= j < i ==> (#[trigger] ps[j]).0 != k,
    ensures
        first_key_index(ps, k) == i,
    decreases i,
{
    if i > 0 {
        assert(ps[0].0 != k);
        assert(ps.drop_first()[i - 1] == ps[i]);
        assert forall|j: int| 0 <= j < i - 1 implies (#[trigger] ps.drop_first()[j]).0 != k by {
            assert(ps.drop_first()[j] == ps[j + 1]);
        }
        lemma_first_key_index(ps.drop_first(), k, i - 1);
    }
}

/// The subsequence of pairs of `ps` whose key is `k`, in order.
pub open spec fn key_class<KV, VV>(ps: Seq<(KV, VV)>, k: KV) -> Seq<(KV, VV)> {
    ps.filter(|p: (KV, VV)| p.0 == k)
}

/// The subsequence of pairs of `ps` whose value is `v`, in order.
pub open spec fn value_class<KV, VV>(ps: Seq<(KV, VV)>, v: VV) -> Seq<(KV, VV)> {
    ps.filter(|p: (KV, VV)| p.1 == v)
}

/// The values of the pairs of `ps` whose key is `k`, in order.
pub open spec fn key_values<KV, VV>(ps: Seq<(KV, VV)>, k: KV) -> Seq<VV> {
    key_class(ps, k).map_values(|p: (KV, VV)| p.1)
}

/// The pairs of `ps` are ordered by key.
pub open spec fn sorted_by_key<K: TotalOrder, V: DeepView>(
    ps: Seq<(<K as DeepView>::V, <V as DeepView>::V)>,
) -> bool {
    forall|i: int, j: int| 0 <= i < j < ps.len() ==> K::le_spec(#[trigger] ps[i].0, #[trigger] ps[j].0)
}

/// The pairs of `ps` are ordered by value.
pub open spec fn sorted_by_value<K: DeepView, V: TotalOrder>(
    ps: Seq<(<K as DeepView>::V, <V as DeepView>::V)>,
) -> bool {
    forall|i: int, j: int| 0 <= i < j < ps.len() ==> V::le_spec(#[trigger] ps[i].1, #[trigger] ps[j].1)
}

/// Find the index of the first pair of `list` whose key equals `key`.
pub fn find_index<K: Element, V: DeepView>(list: &Vec<(K, V)>, key: &K) -> (r: Option<usize>)
    ensures
        match r {
            Some(i) => i < list.len() && list.deep_view()[i as int].0 == key.deep_view()
                && has_key(list.deep_view(), key.deep_view()) && i as int == first_key_index(
                list.deep_view(),
                key.deep_view(),
            ) && forall|j: int| 0 <= j < i ==> (#[trigger] list.deep_view()[j]).0
                != key.deep_view(),
            None => !has_key(list.deep_view(), key.deep_view()),
        },
{
    let mut i: usize = 0;
    while i < list.len()
        invariant
            i <= list.len(),
            forall|j: int| 0 <= j < i ==> (#[trigger] list.deep_view()[j]).0 != key.deep_view(),
        decreases list.len() - i,
    {
        if list[i].0.eq_elem(key) {
            proof {
                assert(list.deep_view()[i as int] == list@[i as int].deep_view());
                assert((list.deep_view()[i as int]).0 == key.deep_view());
                assert(has_key(list.deep_view(), key.deep_view()));
                lemma_first_key_index(list.deep_view(), key.deep_view(), i as int);
            }
            return Some(i);
        }
        i = i + 1;
    }
    None
}

/// Turn every pair `(k, v)` into `(v, k)`, keeping the order.
pub fn swap_pairs<K: DeepView, V: DeepView>(pairs_in: Vec<(K, V)>) -> (r: Vec<(V, K)>)
    ensures
        r.deep_view() == pairs_in.deep_view().map_values(
            |p: (<K as DeepView>::V, <V as DeepView>::V)| (p.1, p.0),
        ),
{
    let ghost orig = pairs_in.deep_view();
    let ghost swapped = orig.map_values(
        |p: (<K as DeepView>::V, <V as DeepView>::V)| (p.1, p.0),
    );
    let mut inp = pairs_in;
    let mut out: Vec<(V, K)> = Vec::new();
    proof {
        assert(dv_seq(inp@) =~= orig.skip(0));
        assert(dv_seq(out@) =~= swapped.take(0));
    }
    while inp.len() > 0
        invariant
            inp@.len() <= orig.len(),
            swapped == orig.map_values(
                |p: (<K as DeepView>::V, <V as DeepView>::V)| (p.1, p.0),
            ),
            dv_seq(inp@) == orig.skip(orig.len() - inp@.len()),
            dv_seq(out@) == swapped.take(orig.len() - inp@.len()),
        decreases inp@.len(),
    {
        let ghost k = orig.len() - inp@.len();
        let ghost inp0 = inp@;
        proof {
            assert(swapped.len() == orig.len());
            assert(dv_seq(out@) == swapped.take(k));
            assert(swapped.take(k).len() == k);
            assert(out@.len() == k);
        }
        let (a, b) = inp.remove(0);
        proof {
            lemma_dv_remove(inp0, 0int);
            assert(dv_seq(inp0).remove(0) =~= orig.skip(k + 1));
            assert(dv_seq(inp0)[0] == orig[k]);
        }
        let ghost av = a.deep_view();
        let ghost bv = b.deep_view();
        let pr = (b, a);
        let ghost prv = pr.deep_view();
        proof {
            assert(prv == (bv, av));
            assert((av, bv) == orig[k]);
            assert(swapped[k] == (orig[k].1, orig[k].0));
        }
        let ghost out0 = out@;
        out.push(pr);
        proof {
            assert(out@.len() == k + 1);
            assert(dv_seq(out@)[k] == prv);
            assert forall|j: int| 0 <= j < k implies dv_seq(out@)[j] == #[trigger] swapped[j] by {
                assert(out@[j] == out0[j]);
                assert(dv_seq(out0)[j] == swapped.take(k)[j]);
            }
            assert(dv_seq(out@) =~= swapped.take(k + 1));
        }
    }
    proof {
        assert(dv_seq(out@) =~= swapped);
    }
    out
}

/// Copies of all pairs of `list` whose key matches `key`, in order.
pub fn collect_key_pairs<K: Element, V: Element>(list: &Vec<(K, V)>, key: &K) -> (r: Vec<(K, V)>)
    ensures
        r.deep_view() == key_class(list.deep_view(), key.deep_view()),
{
    let ghost ps = list.deep_view();
    let ghost kv = key.deep_view();
    let ghost pred = |p: (<K as DeepView>::V, <V as DeepView>::V)| p.0 == kv;
    let mut out: Vec<(K, V)> = Vec::new();
    proof {
        reveal(Seq::filter);
        assert(ps.take(0) =~= Seq::<(<K as DeepView>::V, <V as DeepView>::V)>::empty());
        assert(dv_seq(out@) =~= ps.take(0).filter(pred));
    }
    let mut i: usize = 0;
    while i < list.len()
        invariant
            i <= ps.len(),
            ps == list.deep_view(),
            kv == key.deep_view(),
            pred == (|p: (<K as DeepView>::V, <V as DeepView>::V)| p.0 == kv),
            dv_seq(out@) == ps.take(i as int).filter(pred),
        decreases ps.len() - i,
    {
        let ghost out0 = out@;
        let p = &list[i];
        if p.0.eq_elem(key) {
            out.push((p.0.dup(), p.1.dup()));
        }
        proof {
            ps.lemma_take_succ_push(i as int);
            ps.take(i as int).lemma_filter_push(ps[i as int], pred);
            assert(dv_seq(out@) =~= ps.take(i as int + 1).filter(pred));
        }
        i = i + 1;
    }
    proof {
        assert(ps.take(ps.len() as int) =~= ps);
    }
    out
}

/// Copies of the values of all pairs of `list` whose key matches `key`.
pub fn collect_key_values<K: Element, V: Element>(list: &Vec<(K, V)>, key: &K) -> (r: Vec<V>)
    ensures
        r.deep_view() == key_values(list.deep_view(), key.deep_view()),
{
    let pairs_found = collect_key_pairs(list, key);
    let ghost found = pairs_found.deep_view();
    let mut out: Vec<V> = Vec::new();
    let mut i: usize = 0;
    while i < pairs_found.len()
        invariant
            i <= found.len(),
            found == pairs_found.deep_view(),
            out@.len() == i,
            forall|j: int| 0 <= j < i ==> dv_seq(out@)[j] == (#[trigger] found[j]).1,
        decreases found.len() - i,
    {
        out.push(pairs_found[i].1.dup());
        proof {
            assert(found[i as int] == pairs_found@[i as int].deep_view());
        }
        i = i + 1;
    }
    proof {
        assert(dv_seq(out@) =~= found.map_values(
            |p: (<K as DeepView>::V, <V as DeepView>::V)| p.1,
        ));
        assert(dv_seq(out@) == key_values(list.deep_view(), key.deep_view()));
    }
    out
}

/// Copies of all keys of `list`, in order.
pub fn collect_keys<K: Element, V: DeepView>(list: &Vec<(K, V)>) -> (r: Vec<K>)
    ensures
        r.deep_view() == list.deep_view().map_values(
            |p: (<K as DeepView>::V, <V as DeepView>::V)| p.0,
        ),
{
    let ghost ps = list.deep_view();
    let mut out: Vec<K> = Vec::new();
    let mut i: usize = 0;
    while i < list.len()
        invariant
            i <= ps.len(),
            ps == list.deep_view(),
            out@.len() == i,
            forall|j: int| 0 <= j < i ==> dv_seq(out@)[j] == (#[trigger] ps[j]).0,
        decreases ps.len() - i,
    {
        out.push(list[i].0.dup());
        proof {
            assert(ps[i as int] == list@[i as int].deep_view());
        }
        i = i + 1;
    }
    proof {
        assert(dv_seq(out@) =~= ps.map_values(
            |p: (<K as DeepView>::V, <V as DeepView>::V)| p.0,
        ));
    }
    out
}

/// Copies of all values of `list`, in order.
pub fn collect_values<K: DeepView, V: Element>(list: &Vec<(K, V)>) -> (r: Vec<V>)
    ensures
        r.deep_view() == list.deep_view().map_values(
            |p: (<K as DeepView>::V, <V as DeepView>::V)| p.1,
        ),
{
    let ghost ps = list.deep_view();
    let mut out: Vec<V> = Vec::new();
    let mut i: usize = 0;
    while i < list.len()
        invariant
            i <= ps.len(),
            ps == list.deep_view(),
            out@.len() == i,
            forall|j: int| 0 <= j < i ==> dv_seq(out@)[j] == (#[trigger] ps[j]).1,
        decreases ps.len() - i,
    {
        out.push(list[i].1.dup());
        proof {
            assert(ps[i as int] == list@[i as int].deep_view());
        }
        i = i + 1;
    }
    proof {
        assert(dv_seq(out@) =~= ps.map_values(
            |p: (<K as DeepView>::V, <V as DeepView>::V)| p.1,
        ));
    }
    out
}

/// Whether `list` holds a pair equal to `item`.
pub fn contains_pair<K: Element, V: Element>(list: &Vec<(K, V)>, item: &(K, V)) -> (r: bool)
    ensures
        r == list.deep_view().contains(item.deep_view()),
{
    let ghost ps = list.deep_view();
    let mut i: usize = 0;
    while i < list.len()
        invariant
            i <= ps.len(),
            ps == list.deep_view(),
            forall|j: int| 0 <= j < i ==> (#[trigger] ps[j]) != item.deep_view(),
        decreases ps.len() - i,
    {
        if list[i].eq_elem(item) {
            proof {
                assert(ps[i as int] == item.deep_view());
            }
            return true;
        }
        i = i + 1;
    }
    proof {
        assert(!ps.contains(item.deep_view()));
    }
    false
}

/// Binary search for a pair with key `key`.  When the list is ordered by
/// key, a `None` answer means that no pair has this key; the index found is
/// one of possibly several matches.
pub fn binary_search_index<K: TotalOrder, V: DeepView>(list: &Vec<(K, V)>, key: &K) -> (r:
    Option<usize>)
    ensures
        match r {
            Some(i) => i < list.len() && list.deep_view()[i as int].0 == key.deep_view(),
            None => sorted_by_key::<K, V>(list.deep_view()) ==> !has_key(
                list.deep_view(),
                key.deep_view(),
            ),
        },
{
    let ghost ps = list.deep_view();
    let ghost kv = key.deep_view();
    let mut lo: usize = 0;
    let mut hi: usize = list.len();
    while lo < hi
        invariant
            lo <= hi <= list.len(),
            ps == list.deep_view(),
            kv == key.deep_view(),
            sorted_by_key::<K, V>(ps) ==> forall|m: int|
                0 <= m < ps.len() && (#[trigger] ps[m]).0 == kv ==> lo <= m < hi,
        decreases hi - lo,
    {
        let mid: usize = lo + (hi - lo) / 2;
        if list[mid].0.eq_elem(key) {
            return Some(mid);
        } else if list[mid].0.le_elem(key) {
            proof {
                if sorted_by_key::<K, V>(ps) {
                    assert forall|m: int|
                        0 <= m < ps.len() && (#[trigger] ps[m]).0 == kv implies mid + 1 <= m
                        < hi by {
                        if m < mid {
                            assert(K::le_spec(ps[m].0, ps[mid as int].0));
                            K::lemma_antisymmetric(ps[mid as int].0, kv);
                        }
                    }
                }
            }
            lo = mid + 1;
        } else {
            proof {
                if sorted_by_key::<K, V>(ps) {
                    assert forall|m: int|
                        0 <= m < ps.len() && (#[trigger] ps[m]).0 == kv implies lo <= m
                        < mid by {
                        if m == mid {
                            K::lemma_total(kv, kv);
                        } else if m > mid {
                            assert(K::le_spec(ps[mid as int].0, ps[m].0));
                        }
                    }
                }
            }
            hi = mid;
        }
    }
    None
}

} // verus!
