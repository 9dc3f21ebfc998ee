//! Order-preserving key/value multimaps.
//!
//! A keylist is a sequence of `(key, value)` pairs in which keys may repeat
//! and the insertion order of the pairs is kept.  [`Keylist`] and
//! [`VecKeylist`] store the pairs directly in one vector; [`HashKeylist`]
//! additionally groups the values by key so that lookups do not scan the
//! whole sequence.

use vstd::prelude::*;

pub mod hash_keylist;
pub mod order;
pub mod pairs;
pub mod sorting;
pub mod vec_keylist;

use crate::order::{Element, TotalOrder};
use crate::pairs::{
    dv_seq, has_key, first_key_index, key_class, key_values, value_class, sorted_by_key,
    sorted_by_value, lemma_dv_push, lemma_dv_remove, lemma_dv_insert, find_index,
    binary_search_index, swap_pairs, collect_key_pairs, collect_key_values, collect_keys,
    collect_values, contains_pair,
};
use crate::sorting::{sorted_elems, sort_elems, sort_pairs_by_key, sort_pairs_by_value};

verus! {

/// A map-like wrapper around a list of key/value pairs.
///
/// The pairs stay in the order they were given; a key may occur any number
/// of times.  Lookups scan the list from the front, so the first pair with
/// a matching key wins.  Its abstract value is the sequence of pairs of
/// abstract keys and values, in order.
#[derive(Debug, PartialEq, Clone)]
pub struct Keylist<K, V>(pub Vec<(K, V)>);

impl<K: DeepView, V: DeepView> View for Keylist<K, V> {
    type V = Seq<(<K as DeepView>::V, <V as DeepView>::V)>;

    open spec fn view(&self) -> Seq<(<K as DeepView>::V, <V as DeepView>::V)> {
        self.0.deep_view()
    }
}

impl<K: DeepView, V: DeepView> Keylist<K, V> {
    /// The empty keylist.
    pub fn new() -> (r: Self)
        ensures
            r@ == Seq::<(<K as DeepView>::V, <V as DeepView>::V)>::empty(),
    {
        let r = Keylist(Vec::new());
        proof {
            assert(r@ =~= Seq::<(<K as DeepView>::V, <V as DeepView>::V)>::empty());
        }
        r
    }

    /// Turn every pair `(k, v)` into `(v, k)`, keeping the order.
    pub fn into_swapped(self) -> (r: Keylist<V, K>)
        ensures
            r@ == self@.map_values(
                |p: (<K as DeepView>::V, <V as DeepView>::V)| (p.1, p.0),
            ),
    {
        Keylist(swap_pairs(self.0))
    }

    /// Insert the pair `(k, v)` so that it becomes the pair at `index`.
    pub fn insert(&mut self, index: usize, k: K, v: V)
        requires
            index <= old(self)@.len(),
        ensures
            final(self)@ == old(self)@.insert(
                index as int,
                (k.deep_view(), v.deep_view()),
            ),
    {
        let ghost v0 = self.0@;
        self.0.insert(index, (k, v));
        proof {
            lemma_dv_insert(v0, index as int, (k, v));
        }
    }

    /// Append the pair `(k, v)` at the end.
    pub fn push(&mut self, k: K, v: V)
        ensures
            final(self)@ == old(self)@.push((k.deep_view(), v.deep_view())),
    {
        let ghost v0 = self.0@;
        self.0.push((k, v));
        proof {
            lemma_dv_push(v0, (k, v));
        }
    }

    /// Remove and return the last pair, if any.
    pub fn pop(&mut self) -> (r: Option<(K, V)>)
        ensures
            match r {
                Some(p) => old(self)@.len() > 0 && p.deep_view() == old(self)@.last()
                    && final(self)@ == old(self)@.drop_last(),
                None => old(self)@.len() == 0 && final(self)@ == old(self)@,
            },
    {
        let ghost v0 = self.0@;
        let r = self.0.pop();
        proof {
            if v0.len() > 0 {
                assert(dv_seq(v0.drop_last()) =~= dv_seq(v0).drop_last());
            }
        }
        r
    }

    /// Remove and return the pair at `index`.
    pub fn remove(&mut self, index: usize) -> (r: (K, V))
        requires
            index < old(self)@.len(),
        ensures
            r.deep_view() == old(self)@[index as int],
            final(self)@ == old(self)@.remove(index as int),
    {
        let ghost v0 = self.0@;
        let r = self.0.remove(index);
        proof {
            lemma_dv_remove(v0, index as int);
        }
        r
    }

    /// The underlying list of pairs.
    pub fn iter(&self) -> (r: &Vec<(K, V)>)
        ensures
            r@ == self.0@,
            r.deep_view() == self@,
    {
        &self.0
    }

    /// The underlying list of pairs, for mutation in place.
    pub fn iter_mut(&mut self) -> (r: &mut Vec<(K, V)>)
        ensures
            r@ == old(self).0@,
            final(self).0 == *final(r),
    {
        &mut self.0
    }

    /// Whether the keylist holds no pairs.
    pub fn is_empty(&self) -> (r: bool)
        ensures
            r == (self@.len() == 0),
    {
        self.0.is_empty()
    }

    /// The number of pairs.
    pub fn len(&self) -> (r: usize)
        ensures
            r == self@.len(),
    {
        self.0.len()
    }

    /// A mutable reference to the key of the pair at `index`.
    pub fn keys_mut(&mut self, index: usize) -> (r: &mut K)
        requires
            index < old(self)@.len(),
        ensures
            (*r).deep_view() == old(self)@[index as int].0,
            final(self)@ == old(self)@.update(
                index as int,
                ((*final(r)).deep_view(), old(self)@[index as int].1),
            ),
    {
        &mut self.0[index].0
    }

    /// A mutable reference to the value of the pair at `index`.
    pub fn values_mut(&mut self, index: usize) -> (r: &mut V)
        requires
            index < old(self)@.len(),
        ensures
            (*r).deep_view() == old(self)@[index as int].1,
            final(self)@ == old(self)@.update(
                index as int,
                (old(self)@[index as int].0, (*final(r)).deep_view()),
            ),
    {
        &mut self.0[index].1
    }
}

impl<K: Element, V: DeepView> Keylist<K, V> {
    /// The first pair whose key matches, if any.
    pub fn get_key_value(&self, key: &K) -> (r: Option<&(K, V)>)
        ensures
            match r {
                Some(p) => has_key(self@, key.deep_view()) && p.deep_view() == self@[
                    first_key_index(self@, key.deep_view())
                ],
                None => !has_key(self@, key.deep_view()),
            },
    {
        match find_index(&self.0, key) {
            Some(i) => Some(&self.0[i]),
            None => None,
        }
    }

    /// A mutable reference to the first pair whose key matches, if any.
    pub fn get_key_value_mut(&mut self, key: &K) -> (r: Option<&mut (K, V)>)
        ensures
            match r {
                Some(p) => has_key(old(self)@, key.deep_view()) && (*p).deep_view() == old(
                    self,
                )@[first_key_index(old(self)@, key.deep_view())] && final(self)@ == old(
                    self,
                )@.update(
                    first_key_index(old(self)@, key.deep_view()),
                    (*final(p)).deep_view(),
                ),
                None => !has_key(old(self)@, key.deep_view()) && final(self)@ == old(self)@,
            },
    {
        match find_index(&self.0, key) {
            Some(i) => Some(&mut self.0[i]),
            None => None,
        }
    }

    /// The value of the first pair whose key matches, if any.
    pub fn get(&self, key: &K) -> (r: Option<&V>)
        ensures
            match r {
                Some(v) => has_key(self@, key.deep_view()) && v.deep_view() == self@[
                    first_key_index(self@, key.deep_view())
                ].1,
                None => !has_key(self@, key.deep_view()),
            },
    {
        match find_index(&self.0, key) {
            Some(i) => Some(&self.0[i].1),
            None => None,
        }
    }

    /// A mutable reference to the value of the first pair whose key matches.
    pub fn get_mut(&mut self, key: &K) -> (r: Option<&mut V>)
        ensures
            match r {
                Some(v) => has_key(old(self)@, key.deep_view()) && (*v).deep_view() == old(
                    self,
                )@[first_key_index(old(self)@, key.deep_view())].1 && final(self)@ == old(
                    self,
                )@.update(
                    first_key_index(old(self)@, key.deep_view()),
                    (
                        old(self)@[first_key_index(old(self)@, key.deep_view())].0,
                        (*final(v)).deep_view(),
                    ),
                ),
                None => !has_key(old(self)@, key.deep_view()) && final(self)@ == old(self)@,
            },
    {
        match find_index(&self.0, key) {
            Some(i) => Some(&mut self.0[i].1),
            None => None,
        }
    }
}

impl<K: Element, V: Element> Keylist<K, V> {
    /// Copies of all pairs whose key matches, in order.
    pub fn get_all_get_key_value(&self, key: &K) -> (r: Vec<(K, V)>)
        ensures
            r.deep_view() == key_class(self@, key.deep_view()),
    {
        collect_key_pairs(&self.0, key)
    }

    /// Copies of the values of all pairs whose key matches, in order.
    pub fn get_all(&self, key: &K) -> (r: Vec<V>)
        ensures
            r.deep_view() == key_values(self@, key.deep_view()),
    {
        collect_key_values(&self.0, key)
    }

    /// Copies of all keys, in order.
    pub fn keys(&self) -> (r: Vec<K>)
        ensures
            r.deep_view() == self@.map_values(
                |p: (<K as DeepView>::V, <V as DeepView>::V)| p.0,
            ),
    {
        collect_keys(&self.0)
    }

    /// Copies of all values, in order.
    pub fn values(&self) -> (r: Vec<V>)
        ensures
            r.deep_view() == self@.map_values(
                |p: (<K as DeepView>::V, <V as DeepView>::V)| p.1,
            ),
    {
        collect_values(&self.0)
    }

    /// Whether the pair is present.
    pub fn contains(&self, item: &(K, V)) -> (r: bool)
        ensures
            r == self@.contains(item.deep_view()),
    {
        contains_pair(&self.0, item)
    }
}

impl<K: TotalOrder, V: DeepView> Keylist<K, V> {
    /// Stable sort by key alone: value order within equal keys is kept.
    pub fn sort_by_key(&mut self)
        ensures
            sorted_by_key::<K, V>(final(self)@),
            final(self)@.to_multiset() == old(self)@.to_multiset(),
            forall|k: <K as DeepView>::V| #[trigger] key_class(final(self)@, k) == key_class(
                old(self)@,
                k,
            ),
    {
        sort_pairs_by_key(&mut self.0);
    }
}

impl<K: DeepView, V: TotalOrder> Keylist<K, V> {
    /// Stable sort by value alone: key order within equal values is kept.
    pub fn sort_by_value(&mut self)
        ensures
            sorted_by_value::<K, V>(final(self)@),
            final(self)@.to_multiset() == old(self)@.to_multiset(),
            forall|v: <V as DeepView>::V| #[trigger] value_class(final(self)@, v) == value_class(
                old(self)@,
                v,
            ),
    {
        sort_pairs_by_value(&mut self.0);
    }
}

impl<K: TotalOrder, V: TotalOrder> Keylist<K, V> {
    /// Sort the pairs by key, with ties broken by value.
    pub fn sort(&mut self)
        ensures
            sorted_elems::<(K, V)>(final(self)@),
            final(self)@.to_multiset() == old(self)@.to_multiset(),
    {
        sort_elems(&mut self.0);
    }

    /// Binary search for a pair with this key; any match may be returned.
    /// Meaningful only after sorting by key.
    pub fn get_key_value_sorted(&self, key: &K) -> (r: Option<&(K, V)>)
        ensures
            match r {
                Some(p) => p.deep_view().0 == key.deep_view() && self@.contains(p.deep_view()),
                None => sorted_by_key::<K, V>(self@) ==> !has_key(self@, key.deep_view()),
            },
    {
        match binary_search_index(&self.0, key) {
            Some(i) => {
                proof {
                    assert(self@[i as int] == self.0@[i as int].deep_view());
                }
                Some(&self.0[i])
            },
            None => None,
        }
    }

    /// Binary search for a value under this key; any match may be returned.
    /// Meaningful only after sorting by key.
    pub fn get_sorted(&self, key: &K) -> (r: Option<&V>)
        ensures
            match r {
                Some(v) => exists|i: int|
                    0 <= i < self@.len() && (#[trigger] self@[i]).0 == key.deep_view()
                        && self@[i].1 == v.deep_view(),
                None => sorted_by_key::<K, V>(self@) ==> !has_key(self@, key.deep_view()),
            },
    {
        match binary_search_index(&self.0, key) {
            Some(i) => {
                proof {
                    assert(self@[i as int] == self.0@[i as int].deep_view());
                }
                Some(&self.0[i].1)
            },
            None => None,
        }
    }
}

} // verus!
