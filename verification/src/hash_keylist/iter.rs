//! Iterators over a [`HashKeylist`](crate::hash_keylist::HashKeylist).
//!
//! The iterators own a snapshot of what they yield, taken when they are
//! created; their abstract value is the sequence of pairs still to come.

use vstd::prelude::*;
use crate::order::Element;
use crate::pairs::dv_seq;

verus! {

/// Iterator over copies of the pairs, in global order.
pub struct Iter<K, V> {
    pub(crate) elems: Vec<(K, V)>,
    pub(crate) pos: usize,
}

impl<K: DeepView, V: DeepView> Iter<K, V> {
    /// The position never runs past the snapshot.
    pub closed spec fn wf(self) -> bool {
        self.pos <= self.elems@.len()
    }
}

impl<K: DeepView, V: DeepView> View for Iter<K, V> {
    type V = Seq<(<K as DeepView>::V, <V as DeepView>::V)>;

    closed spec fn view(&self) -> Seq<(<K as DeepView>::V, <V as DeepView>::V)> {
        self.elems.deep_view().skip(self.pos as int)
    }
}

impl<K: DeepView, V: DeepView> Iter<K, V> {
    /// An iterator handing out the given pairs front to back.
    pub(crate) fn from_elems(elems: Vec<(K, V)>) -> (r: Self)
        ensures
            r.wf(),
            r@ == elems.deep_view(),
    {
        let r = Iter { elems, pos: 0 };
        proof {
            assert(r@ =~= r.elems.deep_view());
        }
        r
    }
}

impl<K: Element, V: Element> Iter<K, V> {
    /// The next pair, or nothing once the snapshot is exhausted.
    pub fn next(&mut self) -> (r: Option<(K, V)>)
        requires
            old(self).wf(),
        ensures
            final(self).wf(),
            match r {
                Some(p) => old(self)@.len() > 0 && p.deep_view() == old(self)@[0] && final(self)@ == old(self)@.drop_first(),
                None => old(self)@.len() == 0 && final(self)@ == old(self)@,
            },
    {
        if self.pos < self.elems.len() {
            let p = &self.elems[self.pos];
            let out = (p.0.dup(), p.1.dup());
            proof {
                assert(self.elems.deep_view()[self.pos as int] == self.elems@[
                    self.pos as int
                ].deep_view());
                assert(self@[0] == self.elems.deep_view()[self.pos as int]);
            }
            self.pos = self.pos + 1;
            proof {
                assert(old(self)@.drop_first() =~= self.elems.deep_view().skip(
                    self.pos as int,
                ));
            }
            Some(out)
        } else {
            None
        }
    }
}

/// Consuming iterator over the pairs, in global order.
pub struct IntoIter<K, V> {
    pub(crate) elems: Vec<(K, V)>,
}

impl<K: DeepView, V: DeepView> View for IntoIter<K, V> {
    type V = Seq<(<K as DeepView>::V, <V as DeepView>::V)>;

    closed spec fn view(&self) -> Seq<(<K as DeepView>::V, <V as DeepView>::V)> {
        self.elems.deep_view()
    }
}

impl<K: DeepView, V: DeepView> IntoIter<K, V> {
    /// An iterator taking ownership of the given pairs.
    pub(crate) fn from_elems(elems: Vec<(K, V)>) -> (r: Self)
        ensures
            r@ == elems.deep_view(),
    {
        IntoIter { elems }
    }

    /// The next pair, or nothing once all pairs were handed out.
    pub fn next(&mut self) -> (r: Option<(K, V)>)
        ensures
            match r {
                Some(p) => old(self)@.len() > 0 && p.deep_view() == old(self)@[0] && final(self)@ == old(self)@.drop_first(),
                None => old(self)@.len() == 0 && final(self)@ == old(self)@,
            },
    {
        if self.elems.len() > 0 {
            let ghost v0 = self.elems@;
            let p = self.elems.remove(0);
            proof {
                crate::pairs::lemma_dv_remove(v0, 0int);
                assert(dv_seq(v0).remove(0) =~= dv_seq(v0).drop_first());
            }
            Some(p)
        } else {
            None
        }
    }
}

/// Iterator pairing one key with each value of its row, in row order.
pub struct IterKeyValue<K, V> {
    pub(crate) key: K,
    pub(crate) values: Vec<V>,
    pub(crate) pos: usize,
}

impl<K: DeepView, V: DeepView> IterKeyValue<K, V> {
    /// The position never runs past the row.
    pub closed spec fn wf(self) -> bool {
        self.pos <= self.values@.len()
    }
}

impl<K: DeepView, V: DeepView> View for IterKeyValue<K, V> {
    type V = Seq<(<K as DeepView>::V, <V as DeepView>::V)>;

    closed spec fn view(&self) -> Seq<(<K as DeepView>::V, <V as DeepView>::V)> {
        Seq::new(
            (self.values@.len() - self.pos) as nat,
            |i: int| (self.key.deep_view(), self.values.deep_view()[self.pos + i]),
        )
    }
}

impl<K: DeepView, V: DeepView> IterKeyValue<K, V> {
    /// An iterator pairing `key` with each of `values` in turn.
    pub(crate) fn from_row(key: K, values: Vec<V>) -> (r: Self)
        ensures
            r.wf(),
            r@ == Seq::new(
                values.deep_view().len(),
                |i: int| (key.deep_view(), values.deep_view()[i]),
            ),
    {
        let r = IterKeyValue { key, values, pos: 0 };
        proof {
            assert(r@ =~= Seq::new(
                r.values.deep_view().len(),
                |i: int| (r.key.deep_view(), r.values.deep_view()[i]),
            ));
        }
        r
    }
}

impl<K: Element, V: Element> IterKeyValue<K, V> {
    /// The next pair, or nothing once the row is exhausted.
    pub fn next(&mut self) -> (r: Option<(K, V)>)
        requires
            old(self).wf(),
        ensures
            final(self).wf(),
            match r {
                Some(p) => old(self)@.len() > 0 && p.deep_view() == old(self)@[0] && final(self)@ == old(self)@.drop_first(),
                None => old(self)@.len() == 0 && final(self)@ == old(self)@,
            },
    {
        if self.pos < self.values.len() {
            let v = self.values[self.pos].dup();
            let out = (self.key.dup(), v);
            proof {
                assert(self.values.deep_view()[self.pos as int] == self.values@[
                    self.pos as int
                ].deep_view());
            }
            self.pos = self.pos + 1;
            proof {
                assert(old(self)@.drop_first() =~= self@);
            }
            Some(out)
        } else {
            None
        }
    }
}

} // verus!
