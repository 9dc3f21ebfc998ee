//! Verified insertion sorts.
//!
//! Three sorts are provided: one over any [`TotalOrder`] element type, and
//! two stable sorts over pair vectors that order by key only or by value
//! only.  The stable sorts promise that the subsequence of pairs sharing a
//! key (or a value) is kept exactly as it was.

use vstd::prelude::*;
use vstd::seq_lib::*;
use vstd::multiset::Multiset;
use crate::order::TotalOrder;
use crate::pairs::{
    dv_seq, key_class, value_class, sorted_by_key, sorted_by_value, lemma_dv_remove,
    lemma_dv_insert,
};

verus! {

/// The deep views in `s` are in nondecreasing order.
pub open spec fn sorted_elems<T: TotalOrder>(s: Seq<<T as DeepView>::V>) -> bool {
    forall|a: int, b: int| 0 <= a < b < s.len() ==> T::le_spec(#[trigger] s[a], #[trigger] s[b])
}

/// Moving one element to an earlier position permutes the sequence.
pub proof fn lemma_move_multiset<A>(s: Seq<A>, p: int, i: int)
    requires
        0 <= p <= i < s.len(),
    ensures
        s.remove(i).insert(p, s[i]).to_multiset() == s.to_multiset(),
{
    broadcast use vstd::multiset::group_multiset_axioms;

    to_multiset_remove(s, i);
    to_multiset_insert(s.remove(i), p, s[i]);
    assert(s.contains(s[i]));
    to_multiset_contains(s, s[i]);
    assert(s.remove(i).insert(p, s[i]).to_multiset() =~= s.to_multiset());
}

/// Moving `s[i]` down to position `p` does not change what a filter keeps,
/// as long as the skipped stretch shares no kept element with `s[i]`.
pub proof fn lemma_filter_move<A>(s: Seq<A>, p: int, i: int, pred: spec_fn(A) -> bool)
    requires
        0 <= p <= i < s.len(),
        forall|m: int| p <= m < i ==> !(pred(#[trigger] s[m]) && pred(s[i])),
    ensures
        s.remove(i).insert(p, s[i]).filter(pred) == s.filter(pred),
{
    let x = s[i];
    let pre = s.take(p);
    let win = s.subrange(p, i);
    let post = s.subrange(i + 1, s.len() as int);
    assert(s =~= pre + (win + (seq![x] + post)));
    assert(s.remove(i).insert(p, x) =~= pre + (seq![x] + (win + post)));
    Seq::filter_distributes_over_add(pre, win + (seq![x] + post), pred);
    Seq::filter_distributes_over_add(win, seq![x] + post, pred);
    post.lemma_filter_prepend(x, pred);
    Seq::filter_distributes_over_add(pre, seq![x] + (win + post), pred);
    (win + post).lemma_filter_prepend(x, pred);
    Seq::filter_distributes_over_add(win, post, pred);
    if pred(x) {
        assert forall|m: int| 0 <= m < win.len() implies !pred(#[trigger] win[m]) by {
            assert(win[m] == s[p + m]);
        }
        assert(win.all(|a: A| !pred(a)));
        win.lemma_all_neg_filter_empty(pred);
        assert(win.filter(pred) =~= Seq::<A>::empty());
        assert(s.remove(i).insert(p, x).filter(pred) =~= s.filter(pred));
    } else {
        assert(s.remove(i).insert(p, x).filter(pred) =~= s.filter(pred));
    }
}

/// Sort the elements into nondecreasing order of their abstract values.
pub fn sort_elems<T: TotalOrder>(list: &mut Vec<T>)
    ensures
        sorted_elems::<T>(final(list).deep_view()),
        final(list).deep_view().to_multiset() == old(list).deep_view().to_multiset(),
        final(list)@.len() == old(list)@.len(),
{
    let ghost orig = dv_seq(old(list)@);
    let mut i: usize = 1;
    while i < list.len()
        invariant
            i >= 1,
            list@.len() == old(list)@.len(),
            dv_seq(list@).to_multiset() == orig.to_multiset(),
            orig == dv_seq(old(list)@),
            forall|a: int, b: int|
                0 <= a < b < i && b < list@.len() ==> T::le_spec(
                    #[trigger] dv_seq(list@)[a],
                    #[trigger] dv_seq(list@)[b],
                ),
        decreases list.len() - i,
    {
        let ghost v0 = list@;
        let ghost s = dv_seq(v0);
        let ghost x = s[i as int];
        let mut p: usize = 0;
        while p < i && list[p].le_elem(&list[i])
            invariant
                p <= i < list@.len(),
                list@ == v0,
                s == dv_seq(v0),
                x == s[i as int],
                forall|m: int| 0 <= m < p ==> T::le_spec(#[trigger] s[m], x),
            decreases i - p,
        {
            p = p + 1;
        }
        proof {
            assert forall|m: int| p <= m < i implies T::le_spec(x, #[trigger] s[m]) by {
                if m == p {
                    T::lemma_total(s[m], x);
                } else {
                    assert(T::le_spec(s[p as int], s[m]));
                    if T::le_spec(s[m], x) {
                        T::lemma_transitive(s[p as int], s[m], x);
                    }
                    T::lemma_total(s[m], x);
                }
            }
        }
        let y = list.remove(i);
        list.insert(p, y);
        proof {
            lemma_dv_remove(v0, i as int);
            lemma_dv_insert(v0.remove(i as int), p as int, y);
            let s1 = dv_seq(list@);
            assert(s1 == s.remove(i as int).insert(p as int, x));
            lemma_move_multiset(s, p as int, i as int);
            assert forall|a: int, b: int|
                0 <= a < b < i + 1 && b < list@.len() implies T::le_spec(
                #[trigger] s1[a],
                #[trigger] s1[b],
            ) by {
                let pi = p as int;
                let av = if a < pi { s[a] } else if a == pi { x } else { s[a - 1] };
                let bv = if b < pi { s[b] } else if b == pi { x } else { s[b - 1] };
                assert(s1[a] == av);
                assert(s1[b] == bv);
                if a < pi && b == pi {
                } else if a == pi {
                } else if a < pi && b > pi {
                    assert(T::le_spec(s[a], s[b - 1]));
                }
            }
        }
        i = i + 1;
    }
}

/// Stable sort of a pair vector by key alone: afterwards the keys are in
/// nondecreasing order and, for every key, the subsequence of pairs holding
/// that key is exactly what it was.
pub fn sort_pairs_by_key<K: TotalOrder, V: DeepView>(list: &mut Vec<(K, V)>)
    ensures
        sorted_by_key::<K, V>(final(list).deep_view()),
        final(list).deep_view().to_multiset() == old(list).deep_view().to_multiset(),
        final(list)@.len() == old(list)@.len(),
        forall|k: <K as DeepView>::V| #[trigger] key_class(final(list).deep_view(), k)
            == key_class(old(list).deep_view(), k),
{
    let ghost orig = dv_seq(old(list)@);
    let mut i: usize = 1;
    while i < list.len()
        invariant
            i >= 1,
            list@.len() == old(list)@.len(),
            dv_seq(list@).to_multiset() == orig.to_multiset(),
            orig == dv_seq(old(list)@),
            forall|k: <K as DeepView>::V| #[trigger] key_class(dv_seq(list@), k) == key_class(
                orig,
                k,
            ),
            forall|a: int, b: int|
                0 <= a < b < i && b < list@.len() ==> K::le_spec(
                    (#[trigger] dv_seq(list@)[a]).0,
                    (#[trigger] dv_seq(list@)[b]).0,
                ),
        decreases list.len() - i,
    {
        let ghost v0 = list@;
        let ghost s = dv_seq(v0);
        let ghost x = s[i as int];
        let mut p: usize = 0;
        while p < i && list[p].0.le_elem(&list[i].0)
            invariant
                p <= i < list@.len(),
                list@ == v0,
                s == dv_seq(v0),
                x == s[i as int],
                forall|m: int| 0 <= m < p ==> K::le_spec((#[trigger] s[m]).0, x.0),
            decreases i - p,
        {
            p = p + 1;
        }
        proof {
            assert forall|m: int| p <= m < i implies !K::le_spec((#[trigger] s[m]).0, x.0) by {
                if m > p && K::le_spec(s[m].0, x.0) {
                    assert(K::le_spec(s[p as int].0, s[m].0));
                    K::lemma_transitive(s[p as int].0, s[m].0, x.0);
                }
            }
        }
        let y = list.remove(i);
        list.insert(p, y);
        proof {
            lemma_dv_remove(v0, i as int);
            lemma_dv_insert(v0.remove(i as int), p as int, y);
            let s1 = dv_seq(list@);
            assert(s1 == s.remove(i as int).insert(p as int, x));
            lemma_move_multiset(s, p as int, i as int);
            assert forall|k: <K as DeepView>::V| #[trigger] key_class(s1, k) == key_class(
                orig,
                k,
            ) by {
                let pred = |pp: (<K as DeepView>::V, <V as DeepView>::V)| pp.0 == k;
                assert forall|m: int| p <= m < i implies !(pred(#[trigger] s[m]) && pred(
                    s[i as int],
                )) by {
                    if pred(s[m]) && pred(s[i as int]) {
                        K::lemma_total(x.0, x.0);
                    }
                }
                lemma_filter_move(s, p as int, i as int, pred);
                assert(key_class(s, k) == key_class(orig, k));
            }
            assert forall|a: int, b: int|
                0 <= a < b < i + 1 && b < list@.len() implies K::le_spec(
                (#[trigger] s1[a]).0,
                (#[trigger] s1[b]).0,
            ) by {
                let pi = p as int;
                assert(s1[a] == (if a < pi {
                    s[a]
                } else if a == pi {
                    x
                } else {
                    s[a - 1]
                }));
                assert(s1[b] == (if b < pi {
                    s[b]
                } else if b == pi {
                    x
                } else {
                    s[b - 1]
                }));
                if b == pi || (a < pi && b > pi) {
                    if a < pi && b > pi {
                        assert(K::le_spec(s[a].0, s[b - 1].0));
                    }
                } else if a >= pi && b > pi {
                    if a == pi {
                        K::lemma_total(s[b - 1].0, x.0);
                    }
                }
            }
        }
        i = i + 1;
    }
}

/// Stable sort of a pair vector by value alone: the mirror image of
/// [`sort_pairs_by_key`].
pub fn sort_pairs_by_value<K: DeepView, V: TotalOrder>(list: &mut Vec<(K, V)>)
    ensures
        sorted_by_value::<K, V>(final(list).deep_view()),
        final(list).deep_view().to_multiset() == old(list).deep_view().to_multiset(),
        final(list)@.len() == old(list)@.len(),
        forall|v: <V as DeepView>::V| #[trigger] value_class(final(list).deep_view(), v)
            == value_class(old(list).deep_view(), v),
{
    let ghost orig = dv_seq(old(list)@);
    let mut i: usize = 1;
    while i < list.len()
        invariant
            i >= 1,
            list@.len() == old(list)@.len(),
            dv_seq(list@).to_multiset() == orig.to_multiset(),
            orig == dv_seq(old(list)@),
            forall|v: <V as DeepView>::V| #[trigger] value_class(dv_seq(list@), v) == value_class(
                orig,
                v,
            ),
            forall|a: int, b: int|
                0 <= a < b < i && b < list@.len() ==> V::le_spec(
                    (#[trigger] dv_seq(list@)[a]).1,
                    (#[trigger] dv_seq(list@)[b]).1,
                ),
        decreases list.len() - i,
    {
        let ghost v0 = list@;
        let ghost s = dv_seq(v0);
        let ghost x = s[i as int];
        let mut p: usize = 0;
        while p < i && list[p].1.le_elem(&list[i].1)
            invariant
                p <= i < list@.len(),
                list@ == v0,
                s == dv_seq(v0),
                x == s[i as int],
                forall|m: int| 0 <= m < p ==> V::le_spec((#[trigger] s[m]).1, x.1),
            decreases i - p,
        {
            p = p + 1;
        }
        proof {
            assert forall|m: int| p <= m < i implies !V::le_spec((#[trigger] s[m]).1, x.1) by {
                if m > p && V::le_spec(s[m].1, x.1) {
                    assert(V::le_spec(s[p as int].1, s[m].1));
                    V::lemma_transitive(s[p as int].1, s[m].1, x.1);
                }
            }
        }
        let y = list.remove(i);
        list.insert(p, y);
        proof {
            lemma_dv_remove(v0, i as int);
            lemma_dv_insert(v0.remove(i as int), p as int, y);
            let s1 = dv_seq(list@);
            assert(s1 == s.remove(i as int).insert(p as int, x));
            lemma_move_multiset(s, p as int, i as int);
            assert forall|v: <V as DeepView>::V| #[trigger] value_class(s1, v) == value_class(
                orig,
                v,
            ) by {
                let pred = |pp: (<K as DeepView>::V, <V as DeepView>::V)| pp.1 == v;
                assert forall|m: int| p <= m < i implies !(pred(#[trigger] s[m]) && pred(
                    s[i as int],
                )) by {
                    if pred(s[m]) && pred(s[i as int]) {
                        V::lemma_total(x.1, x.1);
                    }
                }
                lemma_filter_move(s, p as int, i as int, pred);
                assert(value_class(s, v) == value_class(orig, v));
            }
            assert forall|a: int, b: int|
                0 <= a < b < i + 1 && b < list@.len() implies V::le_spec(
                (#[trigger] s1[a]).1,
                (#[trigger] s1[b]).1,
            ) by {
                let pi = p as int;
                assert(s1[a] == (if a < pi {
                    s[a]
                } else if a == pi {
                    x
                } else {
                    s[a - 1]
                }));
                assert(s1[b] == (if b < pi {
                    s[b]
                } else if b == pi {
                    x
                } else {
                    s[b - 1]
                }));
                if b == pi || (a < pi && b > pi) {
                    if a < pi && b > pi {
                        assert(V::le_spec(s[a].1, s[b - 1].1));
                    }
                } else if a >= pi && b > pi {
                    if a == pi {
                        V::lemma_total(s[b - 1].1, x.1);
                    }
                }
            }
        }
        i = i + 1;
    }
}

} // verus!
