//! The hash-accelerated keylist.
//!
//! [`HashKeylist`] keeps two synchronized representations of one sequence
//! of key/value pairs: the flat ordered key sequence, and per-key rows that
//! group the values.  Iteration reconstructs the global order by consuming
//! each key's row front to back as the key sequence is scanned.

use vstd::prelude::*;

pub mod iter;
pub mod model;

use vstd::seq_lib::*;
use crate::order::{Element, TotalOrder};
use crate::pairs::dv_seq;
use crate::sorting::{sort_elems, sorted_elems};
use self::model::{
    occ_count, KeylistModel, lemma_occ_contains, lemma_occ_monotone, lemma_occ_at,
    lemma_occ_multiset, lemma_push_pair, lemma_insert_pair, lemma_remove_pair, lemma_update_value,
    push_all_model, from_pairs_model,
};

verus! {

/// One distinct key together with the ordered values stored under it.
#[derive(Debug, Clone)]
struct Row<K, V> {
    key: K,
    values: Vec<V>,
}

/// The rows as a map from abstract key to abstract value sequence.  Later
/// rows win, but a well-formed keylist never holds two rows for one key.
spec fn rows_map<K: DeepView, V: DeepView>(rs: Seq<Row<K, V>>) -> Map<
    <K as DeepView>::V,
    Seq<<V as DeepView>::V>,
>
    decreases rs.len(),
{
    if rs.len() == 0 {
        Map::empty()
    } else {
        rows_map(rs.drop_last()).insert(
            rs.last().key.deep_view(),
            rs.last().values.deep_view(),
        )
    }
}

/// A key/value multimap with the pairs in insertion order and the values
/// grouped by key.
#[derive(Debug, Clone)]
pub struct HashKeylist<K, V> {
    rows: Vec<Row<K, V>>,
    keys: Vec<K>,
}

impl<K: DeepView, V: DeepView> View for HashKeylist<K, V> {
    type V = KeylistModel<<K as DeepView>::V, <V as DeepView>::V>;

    closed spec fn view(&self) -> KeylistModel<<K as DeepView>::V, <V as DeepView>::V> {
        KeylistModel { keys: self.keys.deep_view(), rows: rows_map(self.rows@) }
    }
}

/// No two rows of `rs` share a key.
spec fn rows_distinct_seq<K: DeepView, V: DeepView>(rs: Seq<Row<K, V>>) -> bool {
    forall|i: int, j: int|
        0 <= i < j < rs.len() ==> (#[trigger] rs[i]).key.deep_view() != (
        #[trigger] rs[j]).key.deep_view()
}

/// A key is in the map exactly when some row holds it.
proof fn lemma_rows_map_dom<K: DeepView, V: DeepView>(rs: Seq<Row<K, V>>, kv: <K as DeepView>::V)
    ensures
        rows_map(rs).dom().contains(kv) <==> exists|j: int|
            0 <= j < rs.len() && (#[trigger] rs[j]).key.deep_view() == kv,
    decreases rs.len(),
{
    if rs.len() > 0 {
        lemma_rows_map_dom(rs.drop_last(), kv);
        if rows_map(rs).dom().contains(kv) && rs.last().key.deep_view() != kv {
            let j = choose|j: int|
                0 <= j < rs.len() - 1 && (#[trigger] rs.drop_last()[j]).key.deep_view() == kv;
            assert(rs[j].key.deep_view() == kv);
        }
        if exists|j: int| 0 <= j < rs.len() && (#[trigger] rs[j]).key.deep_view() == kv {
            let j = choose|j: int| 0 <= j < rs.len() && (#[trigger] rs[j]).key.deep_view() == kv;
            if j < rs.len() - 1 {
                assert(rs.drop_last()[j].key.deep_view() == kv);
            }
        }
    }
}

/// With distinct rows, the map sends each row's key to that row's values.
proof fn lemma_rows_map_index<K: DeepView, V: DeepView>(rs: Seq<Row<K, V>>, j: int)
    requires
        rows_distinct_seq(rs),
        0 <= j < rs.len(),
    ensures
        rows_map(rs).dom().contains(rs[j].key.deep_view()),
        rows_map(rs)[rs[j].key.deep_view()] == rs[j].values.deep_view(),
    decreases rs.len(),
{
    if j < rs.len() - 1 {
        assert(rs.drop_last()[j] == rs[j]);
        assert(rows_distinct_seq(rs.drop_last())) by {
            assert forall|a: int, b: int|
                0 <= a < b < rs.len() - 1 implies (#[trigger] rs.drop_last()[a]).key.deep_view()
                != (#[trigger] rs.drop_last()[b]).key.deep_view() by {
                assert(rs.drop_last()[a] == rs[a]);
                assert(rs.drop_last()[b] == rs[b]);
            }
        }
        lemma_rows_map_index(rs.drop_last(), j);
    }
}

/// Replacing the row at `j` with one under the same key updates the map at
/// that key alone.
proof fn lemma_rows_map_update<K: DeepView, V: DeepView>(rs: Seq<Row<K, V>>, j: int, r2: Row<K, V>)
    requires
        rows_distinct_seq(rs),
        0 <= j < rs.len(),
        r2.key.deep_view() == rs[j].key.deep_view(),
    ensures
        rows_map(rs.update(j, r2)) == rows_map(rs).insert(r2.key.deep_view(), r2.values.deep_view()),
    decreases rs.len(),
{
    let kj = r2.key.deep_view();
    if j == rs.len() - 1 {
        assert(rs.update(j, r2).drop_last() =~= rs.drop_last());
        assert(rs.update(j, r2).last() == r2);
        assert(rows_map(rs.update(j, r2)) =~= rows_map(rs).insert(kj, r2.values.deep_view()));
    } else {
        assert(rs.update(j, r2).drop_last() =~= rs.drop_last().update(j, r2));
        assert(rows_distinct_seq(rs.drop_last())) by {
            assert forall|a: int, b: int|
                0 <= a < b < rs.len() - 1 implies (#[trigger] rs.drop_last()[a]).key.deep_view()
                != (#[trigger] rs.drop_last()[b]).key.deep_view() by {
                assert(rs.drop_last()[a] == rs[a]);
                assert(rs.drop_last()[b] == rs[b]);
            }
        }
        assert(rs.drop_last()[j] == rs[j]);
        lemma_rows_map_update(rs.drop_last(), j, r2);
        assert(rs.update(j, r2).last() == rs.last());
        assert(rs.last().key.deep_view() != kj);
        assert(rows_map(rs.update(j, r2)) =~= rows_map(rs).insert(kj, r2.values.deep_view()));
    }
}

/// Removing the row at `j` removes its key from the map.
proof fn lemma_rows_map_remove<K: DeepView, V: DeepView>(rs: Seq<Row<K, V>>, j: int)
    requires
        rows_distinct_seq(rs),
        0 <= j < rs.len(),
    ensures
        rows_map(rs.remove(j)) == rows_map(rs).remove(rs[j].key.deep_view()),
    decreases rs.len(),
{
    let kj = rs[j].key.deep_view();
    assert(rows_distinct_seq(rs.drop_last())) by {
        assert forall|a: int, b: int|
            0 <= a < b < rs.len() - 1 implies (#[trigger] rs.drop_last()[a]).key.deep_view() != (
            #[trigger] rs.drop_last()[b]).key.deep_view() by {
            assert(rs.drop_last()[a] == rs[a]);
            assert(rs.drop_last()[b] == rs[b]);
        }
    }
    if j == rs.len() - 1 {
        assert(rs.remove(j) =~= rs.drop_last());
        lemma_rows_map_dom(rs.drop_last(), kj);
        assert forall|a: int| 0 <= a < rs.len() - 1 implies (#[trigger] rs.drop_last()[
            a
        ]).key.deep_view() != kj by {
            assert(rs.drop_last()[a] == rs[a]);
        }
        assert(!rows_map(rs.drop_last()).dom().contains(kj));
        assert(rows_map(rs.remove(j)) =~= rows_map(rs).remove(kj));
    } else {
        assert(rs.remove(j).drop_last() =~= rs.drop_last().remove(j));
        assert(rs.drop_last()[j] == rs[j]);
        lemma_rows_map_remove(rs.drop_last(), j);
        assert(rs.remove(j).last() == rs.last());
        assert(rs.last().key.deep_view() != kj);
        assert(rows_map(rs.remove(j)) =~= rows_map(rs).remove(kj));
    }
}

/// Rows with the same keys in the same places map to their own values:
/// the pointwise description of the map, for reasoning about a rows vector
/// whose exact shape is only known through another one.
broadcast proof fn lemma_rows_map_pointwise<K: DeepView, V: DeepView>(
    rs1: Seq<Row<K, V>>,
    rs2: Seq<Row<K, V>>,
)
    requires
        rows_distinct_seq(rs1),
        rs1.len() == rs2.len(),
        forall|i: int| 0 <= i < rs1.len() ==> (#[trigger] rs2[i]).key.deep_view() == rs1[
            i
        ].key.deep_view(),
    ensures
        #![trigger rows_map(rs1), rows_map(rs2)]
        rows_map(rs2).dom() == rows_map(rs1).dom(),
        rows_distinct_seq(rs2),
        forall|i: int|
            0 <= i < rs2.len() ==> rows_map(rs2)[(#[trigger] rs2[i]).key.deep_view()] == rs2[
                i
            ].values.deep_view(),
        forall|kv: <K as DeepView>::V| #[trigger] rows_map(rs1).dom().contains(kv)
            ==> exists|i: int| 0 <= i < rs1.len() && (#[trigger] rs1[i]).key.deep_view() == kv,
{
    assert(rows_distinct_seq(rs2));
    assert forall|kv: <K as DeepView>::V| #[trigger] rows_map(rs1).dom().contains(kv)
        implies exists|i: int|
        0 <= i < rs1.len() && (#[trigger] rs1[i]).key.deep_view() == kv by {
        lemma_rows_map_dom(rs1, kv);
    }
    assert forall|i: int|
        0 <= i < rs2.len() implies rows_map(rs2)[(#[trigger] rs2[i]).key.deep_view()] == rs2[
        i
    ].values.deep_view() by {
        lemma_rows_map_index(rs2, i);
    }
    assert forall|kv: <K as DeepView>::V| #[trigger] rows_map(rs2).dom().contains(kv)
        == rows_map(rs1).dom().contains(kv) by {
        lemma_rows_map_dom(rs1, kv);
        lemma_rows_map_dom(rs2, kv);
        if rows_map(rs1).dom().contains(kv) {
            let i = choose|i: int| 0 <= i < rs1.len() && (#[trigger] rs1[i]).key.deep_view()
                == kv;
            assert(rs2[i].key.deep_view() == kv);
        }
        if rows_map(rs2).dom().contains(kv) {
            let i = choose|i: int| 0 <= i < rs2.len() && (#[trigger] rs2[i]).key.deep_view()
                == kv;
            assert(rs1[i].key.deep_view() == kv);
        }
    }
    assert(rows_map(rs2).dom() =~= rows_map(rs1).dom());
}

impl<K: DeepView, V: DeepView> HashKeylist<K, V> {
    /// No two rows share a key.
    spec fn rows_distinct(self) -> bool {
        rows_distinct_seq(self.rows@)
    }

    /// The representation invariant: rows are distinct and the two halves
    /// agree as [`KeylistModel::wf`] asks.
    pub closed spec fn wf(self) -> bool {
        &&& self.rows_distinct()
        &&& self@.wf()
    }

    /// A well-formed keylist has a well-formed abstract state, so every
    /// lemma about [`KeylistModel`] — the size invariant among them —
    /// applies to it.
    pub proof fn lemma_wf_model(self)
        requires
            self.wf(),
        ensures
            self@.wf(),
    {
    }
}

impl<K: Element, V: DeepView> HashKeylist<K, V> {
    /// The position of the row holding `key`, if one exists.
    fn find_row(&self, key: &K) -> (r: Option<usize>)
        requires
            self.rows_distinct(),
        ensures
            match r {
                Some(j) => j < self.rows@.len() && self.rows@[j as int].key.deep_view()
                    == key.deep_view() && rows_map(self.rows@).dom().contains(key.deep_view())
                    && rows_map(self.rows@)[key.deep_view()] == self.rows@[
                    j as int
                ].values.deep_view(),
                None => !rows_map(self.rows@).dom().contains(key.deep_view()),
            },
    {
        let mut j: usize = 0;
        while j < self.rows.len()
            invariant
                self.rows_distinct(),
                j <= self.rows@.len(),
                forall|i: int| 0 <= i < j ==> (#[trigger] self.rows@[i]).key.deep_view()
                    != key.deep_view(),
            decreases self.rows@.len() - j,
        {
            if self.rows[j].key.eq_elem(key) {
                proof {
                    lemma_rows_map_index(self.rows@, j as int);
                }
                return Some(j);
            }
            j = j + 1;
        }
        proof {
            lemma_rows_map_dom(self.rows@, key.deep_view());
        }
        None
    }
}

impl<K: DeepView, V: DeepView> HashKeylist<K, V> {
    /// The empty keylist.
    pub fn new() -> (r: Self)
        ensures
            r.wf(),
            r@ == KeylistModel::<<K as DeepView>::V, <V as DeepView>::V>::empty(),
    {
        let r = HashKeylist { rows: Vec::new(), keys: Vec::new() };
        proof {
            assert(r.keys.deep_view() =~= Seq::<<K as DeepView>::V>::empty());
            assert(Seq::<<K as DeepView>::V>::empty().to_set() =~= Set::empty());
            assert(r@ =~= KeylistModel::<<K as DeepView>::V, <V as DeepView>::V>::empty());
        }
        r
    }

    /// The empty keylist; the capacity is advisory only.
    pub fn with_capacity(capacity: usize) -> (r: Self)
        ensures
            r.wf(),
            r@ == KeylistModel::<<K as DeepView>::V, <V as DeepView>::V>::empty(),
    {
        let r = HashKeylist { rows: Vec::new(), keys: Vec::with_capacity(capacity) };
        proof {
            assert(r.keys.deep_view() =~= Seq::<<K as DeepView>::V>::empty());
            assert(Seq::<<K as DeepView>::V>::empty().to_set() =~= Set::empty());
            assert(r@ =~= KeylistModel::<<K as DeepView>::V, <V as DeepView>::V>::empty());
        }
        r
    }

    /// The empty keylist.  The flat representation keeps no hasher state,
    /// but the constructor form of hash-map-backed keylists is kept.
    pub fn with_hasher<S>(hash_builder: S) -> (r: Self)
        ensures
            r.wf(),
            r@ == KeylistModel::<<K as DeepView>::V, <V as DeepView>::V>::empty(),
    {
        let _ = hash_builder;
        Self::new()
    }

    /// The empty keylist; see [`HashKeylist::with_hasher`].
    pub fn with_capacity_and_hasher<S>(capacity: usize, hash_builder: S) -> (r: Self)
        ensures
            r.wf(),
            r@ == KeylistModel::<<K as DeepView>::V, <V as DeepView>::V>::empty(),
    {
        let _ = hash_builder;
        Self::with_capacity(capacity)
    }

    /// The number of stored pairs.
    pub fn len(&self) -> (r: usize)
        ensures
            r == self@.len(),
    {
        self.keys.len()
    }

    /// Whether the keylist holds no pairs.
    pub fn is_empty(&self) -> (r: bool)
        ensures
            r == (self@.len() == 0),
    {
        self.keys.is_empty()
    }
}

impl<K: Element, V: DeepView> HashKeylist<K, V> {
    /// Append `(k, v)`: the value goes to the end of the key's row — the
    /// row is created if the key is new — and the key to the end of the key
    /// sequence.
    pub fn push(&mut self, k: K, v: V)
        requires
            old(self).wf(),
        ensures
            final(self).wf(),
            final(self)@ == old(self)@.push_pair(k.deep_view(), v.deep_view()),
            final(self)@.pairs() == old(self)@.pairs().push((k.deep_view(), v.deep_view())),
    {
        let ghost m0 = self@;
        let ghost kv = k.deep_view();
        let ghost vv = v.deep_view();
        proof {
            lemma_push_pair(m0, kv, vv);
        }
        match self.find_row(&k) {
            Some(j) => {
                let ghost rs0 = self.rows@;
                let mut row = self.rows.remove(j);
                row.values.push(v);
                let ghost rowg = row;
                self.rows.insert(j, row);
                proof {
                    assert(self.rows@ =~= rs0.update(j as int, rowg));
                    assert(rowg.key == rs0[j as int].key);
                    assert(rowg.values.deep_view() =~= rs0[j as int].values.deep_view().push(vv));
                    lemma_rows_map_update(rs0, j as int, rowg);
                    assert(rows_map(self.rows@) =~= m0.rows.insert(kv, m0.row_of(kv).push(vv)));
                }
            },
            None => {
                let ghost rs0 = self.rows@;
                let mut vs: Vec<V> = Vec::new();
                vs.push(v);
                let row = Row { key: k.dup(), values: vs };
                let ghost rowg = row;
                self.rows.push(row);
                proof {
                    assert(self.rows@ =~= rs0.push(rowg));
                    assert(rs0.push(rowg).drop_last() =~= rs0);
                    assert(rowg.values.deep_view() =~= Seq::<<V as DeepView>::V>::empty().push(
                        vv,
                    ));
                    assert(m0.row_of(kv) == Seq::<<V as DeepView>::V>::empty());
                    assert(rows_map(self.rows@) =~= m0.rows.insert(kv, m0.row_of(kv).push(vv)));
                    lemma_rows_map_dom(rs0, kv);
                    assert forall|a: int, b: int|
                        0 <= a < b < self.rows@.len() implies (#[trigger] self.rows@[
                        a
                    ]).key.deep_view() != (#[trigger] self.rows@[b]).key.deep_view() by {
                        if b == self.rows@.len() - 1 {
                            assert(self.rows@[a] == rs0[a]);
                        } else {
                            assert(self.rows@[a] == rs0[a]);
                            assert(self.rows@[b] == rs0[b]);
                        }
                    }
                }
            },
        }
        let ghost keys0 = self.keys@;
        self.keys.push(k);
        proof {
            assert(self.keys.deep_view() =~= m0.keys.push(kv));
            assert(self@ =~= m0.push_pair(kv, vv));
        }
    }

    /// How many of the first `index` keys equal `key`: the per-key offset
    /// that the pair at global position `index` selects in `key`'s row.
    fn index_to_position(&self, key: &K, index: usize) -> (r: usize)
        requires
            index <= self@.keys.len(),
        ensures
            r == occ_count(self@.keys, key.deep_view(), index as int),
    {
        let ghost kseq = self@.keys;
        let mut count: usize = 0;
        let mut i: usize = 0;
        while i < index
            invariant
                i <= index <= kseq.len(),
                kseq == self@.keys,
                count <= i,
                count == occ_count(kseq, key.deep_view(), i as int),
            decreases index - i,
        {
            if self.keys[i].eq_elem(key) {
                count = count + 1;
            }
            proof {
                assert(kseq[i as int] == self.keys@[i as int].deep_view());
            }
            i = i + 1;
        }
        count
    }

    /// Insert `(k, v)` so that it becomes the pair at global position
    /// `index`: the key enters the key sequence there, and the value enters
    /// the key's row at the matching per-key offset, leaving the relative
    /// order of the key's other values unchanged.
    pub fn insert(&mut self, index: usize, k: K, v: V)
        requires
            old(self).wf(),
            index <= old(self)@.len(),
        ensures
            final(self).wf(),
            final(self)@ == old(self)@.insert_pair(index as int, k.deep_view(), v.deep_view()),
            final(self)@.pairs() == old(self)@.pairs().insert(
                index as int,
                (k.deep_view(), v.deep_view()),
            ),
    {
        let ghost m0 = self@;
        let ghost kv = k.deep_view();
        let ghost vv = v.deep_view();
        proof {
            lemma_insert_pair(m0, index as int, kv, vv);
        }
        let pos = self.index_to_position(&k, index);
        match self.find_row(&k) {
            Some(j) => {
                let ghost rs0 = self.rows@;
                let mut row = self.rows.remove(j);
                proof {
                    lemma_occ_monotone(m0.keys, kv, index as int, m0.keys.len() as int);
                    assert(pos <= row.values.deep_view().len());
                }
                let ghost vals0 = row.values@;
                row.values.insert(pos, v);
                let ghost rowg = row;
                self.rows.insert(j, row);
                proof {
                    crate::pairs::lemma_dv_insert(vals0, pos as int, v);
                    assert(self.rows@ =~= rs0.update(j as int, rowg));
                    assert(rowg.key == rs0[j as int].key);
                    assert(rowg.values.deep_view() == rs0[j as int].values.deep_view().insert(
                        pos as int,
                        vv,
                    ));
                    lemma_rows_map_update(rs0, j as int, rowg);
                    assert(rows_map(self.rows@) =~= m0.rows.insert(
                        kv,
                        m0.row_of(kv).insert(pos as int, vv),
                    ));
                }
            },
            None => {
                let ghost rs0 = self.rows@;
                proof {
                    lemma_occ_contains(m0.keys, kv);
                    lemma_occ_monotone(m0.keys, kv, index as int, m0.keys.len() as int);
                    assert(pos == 0);
                }
                let mut vs: Vec<V> = Vec::new();
                vs.push(v);
                let row = Row { key: k.dup(), values: vs };
                let ghost rowg = row;
                self.rows.push(row);
                proof {
                    assert(self.rows@ =~= rs0.push(rowg));
                    assert(rs0.push(rowg).drop_last() =~= rs0);
                    assert(rowg.values.deep_view() =~= Seq::<<V as DeepView>::V>::empty().insert(
                        0,
                        vv,
                    ));
                    assert(m0.row_of(kv) == Seq::<<V as DeepView>::V>::empty());
                    assert(rows_map(self.rows@) =~= m0.rows.insert(
                        kv,
                        m0.row_of(kv).insert(pos as int, vv),
                    ));
                    lemma_rows_map_dom(rs0, kv);
                    assert forall|a: int, b: int|
                        0 <= a < b < self.rows@.len() implies (#[trigger] self.rows@[
                        a
                    ]).key.deep_view() != (#[trigger] self.rows@[b]).key.deep_view() by {
                        if b == self.rows@.len() - 1 {
                            assert(self.rows@[a] == rs0[a]);
                        } else {
                            assert(self.rows@[a] == rs0[a]);
                            assert(self.rows@[b] == rs0[b]);
                        }
                    }
                }
            },
        }
        let ghost keys0 = self.keys@;
        self.keys.insert(index, k);
        proof {
            crate::pairs::lemma_dv_insert(keys0, index as int, k);
            assert(self.keys.deep_view() == m0.keys.insert(index as int, kv));
            assert(self@ =~= m0.insert_pair(index as int, kv, vv));
        }
    }

    /// Remove and return the pair at global position `index`: the key
    /// leaves the key sequence, its row loses the value at the matching
    /// per-key offset, and a row left empty is erased entirely.
    pub fn remove(&mut self, index: usize) -> (r: (K, V))
        requires
            old(self).wf(),
            index < old(self)@.len(),
        ensures
            final(self).wf(),
            final(self)@ == old(self)@.remove_pair(index as int),
            final(self)@.pairs() == old(self)@.pairs().remove(index as int),
            r.deep_view() == old(self)@.pairs()[index as int],
    {
        let ghost m0 = self@;
        let ghost k0 = m0.keys[index as int];
        proof {
            lemma_remove_pair(m0, index as int);
            assert(m0.keys[index as int] == self.keys@[index as int].deep_view());
        }
        let pos = self.index_to_position(&self.keys[index], index);
        let j_opt = self.find_row(&self.keys[index]);
        let j = match j_opt {
            Some(j) => j,
            None => {
                proof {
                    assert(m0.keys.to_set().contains(k0));
                    assert(false);
                }
                0
            },
        };
        let ghost keys0 = self.keys@;
        let key = self.keys.remove(index);
        let ghost rs0 = self.rows@;
        let mut row = self.rows.remove(j);
        proof {
            lemma_occ_at(m0.keys, index as int);
            assert(pos < row.values.deep_view().len());
        }
        let ghost vals0 = row.values@;
        let value = row.values.remove(pos);
        let ghost rowg = row;
        let keep = row.values.len() > 0;
        if keep {
            self.rows.insert(j, row);
        }
        proof {
            crate::pairs::lemma_dv_remove(vals0, pos as int);
            assert(rowg.values.deep_view() == rs0[j as int].values.deep_view().remove(
                pos as int,
            ));
            assert(value.deep_view() == rs0[j as int].values.deep_view()[pos as int]);
            if keep {
                assert(self.rows@ =~= rs0.update(j as int, rowg));
                lemma_rows_map_update(rs0, j as int, rowg);
                assert(rows_map(self.rows@) =~= m0.remove_pair(index as int).rows);
            } else {
                assert(self.rows@ =~= rs0.remove(j as int));
                lemma_rows_map_remove(rs0, j as int);
                assert(rows_map(self.rows@) =~= m0.remove_pair(index as int).rows);
                assert forall|a: int, b: int|
                    0 <= a < b < self.rows@.len() implies (#[trigger] self.rows@[
                    a
                ]).key.deep_view() != (#[trigger] self.rows@[b]).key.deep_view() by {
                    assert(self.rows@[a] == if a < j { rs0[a] } else { rs0[a + 1] });
                    assert(self.rows@[b] == if b < j { rs0[b] } else { rs0[b + 1] });
                }
            }
            assert(self.keys.deep_view() == m0.keys.remove(index as int)) by {
                crate::pairs::lemma_dv_remove(keys0, index as int);
                assert(self.keys.deep_view() =~= m0.keys.remove(index as int));
            }
            assert(self@ =~= m0.remove_pair(index as int));
            assert(key.deep_view() == k0);
            assert((key.deep_view(), value.deep_view()) == m0.pairs()[index as int]);
        }
        (key, value)
    }

    /// Remove and return the last pair, if any: the last key of the key
    /// sequence together with the last value of that key's row.
    pub fn pop(&mut self) -> (r: Option<(K, V)>)
        requires
            old(self).wf(),
        ensures
            final(self).wf(),
            match r {
                Some(p) => old(self)@.len() > 0 && p.deep_view() == old(self)@.pairs().last()
                    && final(self)@ == old(self)@.remove_pair(old(self)@.len() as int - 1)
                    && final(self)@.pairs() == old(self)@.pairs().drop_last(),
                None => old(self)@.len() == 0 && final(self)@ == old(self)@,
            },
    {
        let n = self.keys.len();
        if n == 0 {
            return None;
        }
        let p = self.remove(n - 1);
        proof {
            assert(old(self)@.pairs().remove(n as int - 1) =~= old(self)@.pairs().drop_last());
        }
        Some(p)
    }

    /// The canonical key and the first value of its row, if the key is
    /// known.
    pub fn get_key_value(&self, key: &K) -> (r: Option<(&K, &V)>)
        requires
            self.wf(),
        ensures
            match r {
                Some(p) => self@.rows.dom().contains(key.deep_view()) && p.0.deep_view()
                    == key.deep_view() && p.1.deep_view() == self@.rows[key.deep_view()][0],
                None => !self@.rows.dom().contains(key.deep_view()),
            },
    {
        match self.find_row(key) {
            Some(j) => {
                proof {
                    self.lemma_row_nonempty(key.deep_view());
                }
                let row = &self.rows[j];
                Some((&row.key, &row.values[0]))
            },
            None => None,
        }
    }

    /// The first value of the key's row, if the key is known.
    pub fn get(&self, key: &K) -> (r: Option<&V>)
        requires
            self.wf(),
        ensures
            match r {
                Some(v) => self@.rows.dom().contains(key.deep_view()) && v.deep_view()
                    == self@.rows[key.deep_view()][0],
                None => !self@.rows.dom().contains(key.deep_view()),
            },
    {
        match self.find_row(key) {
            Some(j) => {
                proof {
                    self.lemma_row_nonempty(key.deep_view());
                }
                Some(&self.rows[j].values[0])
            },
            None => None,
        }
    }

    /// The full row of the key, in insertion order, if the key is known.
    pub fn get_all(&self, key: &K) -> (r: Option<&Vec<V>>)
        requires
            self.wf(),
        ensures
            match r {
                Some(vs) => self@.rows.dom().contains(key.deep_view()) && vs.deep_view()
                    == self@.rows[key.deep_view()],
                None => !self@.rows.dom().contains(key.deep_view()),
            },
    {
        match self.find_row(key) {
            Some(j) => Some(&self.rows[j].values),
            None => None,
        }
    }

    /// A known key's row is never empty.
    proof fn lemma_row_nonempty(self, kv: <K as DeepView>::V)
        requires
            self.wf(),
            self@.rows.dom().contains(kv),
        ensures
            self@.rows[kv].len() > 0,
    {
        lemma_occ_contains(self@.keys, kv);
    }

    /// A mutable reference to the first value of the key's row, if the key
    /// is known.
    pub fn get_mut(&mut self, key: &K) -> (r: Option<&mut V>)
        requires
            old(self).wf(),
        ensures
            match r {
                Some(v) => old(self)@.rows.dom().contains(key.deep_view()) && (*v).deep_view()
                    == old(self)@.rows[key.deep_view()][0] && final(self)@.keys == old(
                    self,
                )@.keys && (final(self)@.rows =~~= old(self)@.rows.insert(
                    key.deep_view(),
                    old(self)@.rows[key.deep_view()].update(0, (*final(v)).deep_view()),
                )) && final(self).wf(),
                None => !old(self)@.rows.dom().contains(key.deep_view()) && *final(self) == *old(
                    self,
                ),
            },
    {
        broadcast use lemma_rows_map_pointwise;

        let ghost m0 = self@;
        let ghost kv = key.deep_view();
        match self.find_row(key) {
            Some(j) => {
                proof {
                    self.lemma_row_nonempty(kv);
                }
                let ghost rs0 = self.rows@;
                let v = &mut self.rows[j].values[0];
                Some(v)
            },
            None => None,
        }
    }

    /// A mutable reference to the key's whole row, if the key is known.
    ///
    /// Changing the number of values through this reference leaves the key
    /// sequence untouched, so the keylist is well-formed again only when
    /// the row is handed back with its length unchanged; to add a pair,
    /// use [`HashKeylist::push`] instead.
    pub fn get_all_mut(&mut self, key: &K) -> (r: Option<&mut Vec<V>>)
        requires
            old(self).wf(),
        ensures
            match r {
                Some(vs) => old(self)@.rows.dom().contains(key.deep_view())
                    && (*vs).deep_view() == old(self)@.rows[key.deep_view()] && final(self)@.keys
                    == old(self)@.keys && (final(self)@.rows =~~= old(self)@.rows.insert(
                    key.deep_view(),
                    (*final(vs)).deep_view(),
                )) && ((*final(vs)).deep_view().len() == old(self)@.rows[key.deep_view()].len()
                    ==> final(self).wf()),
                None => !old(self)@.rows.dom().contains(key.deep_view()) && *final(self) == *old(
                    self,
                ),
            },
    {
        broadcast use lemma_rows_map_pointwise;

        match self.find_row(key) {
            Some(j) => {
                let ghost rs0 = self.rows@;
                let vs = &mut self.rows[j].values;
                Some(vs)
            },
            None => None,
        }
    }

    /// A mutable reference to the value that global position `index`
    /// selects: the value of the pair yielded `index`-th by iteration.
    pub fn values_mut(&mut self, index: usize) -> (r: &mut V)
        requires
            old(self).wf(),
            index < old(self)@.len(),
        ensures
            (*r).deep_view() == old(self)@.pairs()[index as int].1,
            final(self)@.keys == old(self)@.keys,
            (final(self)@.rows =~~= old(self)@.rows.insert(
                old(self)@.keys[index as int],
                old(self)@.rows[old(self)@.keys[index as int]].update(
                    occ_count(old(self)@.keys, old(self)@.keys[index as int], index as int) as int,
                    (*final(r)).deep_view(),
                ),
            )),
            final(self).wf(),
    {
        broadcast use lemma_rows_map_pointwise;

        let ghost m0 = self@;
        let ghost k0 = m0.keys[index as int];
        proof {
            assert(m0.keys[index as int] == self.keys@[index as int].deep_view());
        }
        let pos = self.index_to_position(&self.keys[index], index);
        let j = match self.find_row(&self.keys[index]) {
            Some(j) => j,
            None => {
                proof {
                    assert(m0.keys.to_set().contains(k0));
                    assert(false);
                }
                0
            },
        };
        let ghost rs0 = self.rows@;
        proof {
            lemma_occ_at(m0.keys, index as int);
        }
        let v = &mut self.rows[j].values[pos];
        proof {
            lemma_update_value(m0, index as int, (*final(v)).deep_view());
        }
        v
    }

    /// The pair that global position `index` selects, with the value open
    /// to mutation: the key is read from the key sequence and the value is
    /// the one iteration would yield `index`-th.
    pub fn iter_mut(&mut self, index: usize) -> ((rk, rv): (&K, &mut V))
        requires
            old(self).wf(),
            index < old(self)@.len(),
        ensures
            rk.deep_view() == old(self)@.keys[index as int],
            (*rv).deep_view() == old(self)@.pairs()[index as int].1,
            final(self)@.keys == old(self)@.keys,
            (final(self)@.rows =~~= old(self)@.rows.insert(
                old(self)@.keys[index as int],
                old(self)@.rows[old(self)@.keys[index as int]].update(
                    occ_count(old(self)@.keys, old(self)@.keys[index as int], index as int) as int,
                    (*final(rv)).deep_view(),
                ),
            )),
            final(self).wf(),
    {
        broadcast use lemma_rows_map_pointwise;

        let ghost m0 = self@;
        let ghost k0 = m0.keys[index as int];
        proof {
            assert(m0.keys[index as int] == self.keys@[index as int].deep_view());
        }
        let pos = self.index_to_position(&self.keys[index], index);
        let j = match self.find_row(&self.keys[index]) {
            Some(j) => j,
            None => {
                proof {
                    assert(m0.keys.to_set().contains(k0));
                    assert(false);
                }
                0
            },
        };
        proof {
            lemma_occ_at(m0.keys, index as int);
        }
        let rk = &self.keys[index];
        let rv = &mut self.rows[j].values[pos];
        (rk, rv)
    }

    /// Copies of all keys, in order, duplicates included.
    pub fn keys(&self) -> (r: Vec<K>)
        ensures
            r.deep_view() == self@.keys,
    {
        let mut out: Vec<K> = Vec::new();
        let mut i: usize = 0;
        while i < self.keys.len()
            invariant
                i <= self.keys@.len(),
                out@.len() == i,
                forall|t: int| 0 <= t < i ==> out.deep_view()[t] == (#[trigger] self.keys@[
                    t
                ]).deep_view(),
            decreases self.keys@.len() - i,
        {
            out.push(self.keys[i].dup());
            i = i + 1;
        }
        proof {
            assert(out.deep_view() =~= self@.keys);
        }
        out
    }
}

impl<K: Element, V: Element> HashKeylist<K, V> {
    /// The interleaved pairs, in global order: the key sequence is scanned
    /// front to back, and each key takes the next unconsumed value of its
    /// row.
    fn collect_pairs(&self) -> (r: Vec<(K, V)>)
        requires
            self.wf(),
        ensures
            r.deep_view() == self@.pairs(),
    {
        let ghost m = self@;
        let mut cursors: Vec<usize> = Vec::new();
        while cursors.len() < self.rows.len()
            invariant
                cursors@.len() <= self.rows@.len(),
                forall|t: int| 0 <= t < cursors@.len() ==> cursors@[t] == 0,
            decreases self.rows@.len() - cursors@.len(),
        {
            cursors.push(0);
        }
        let mut out: Vec<(K, V)> = Vec::new();
        let mut i: usize = 0;
        while i < self.keys.len()
            invariant
                self.wf(),
                m == self@,
                i <= self.keys@.len(),
                cursors@.len() == self.rows@.len(),
                forall|t: int|
                    0 <= t < cursors@.len() ==> cursors@[t] == occ_count(
                        m.keys,
                        (#[trigger] self.rows@[t]).key.deep_view(),
                        i as int,
                    ),
                out@.len() == i,
                forall|t: int| 0 <= t < i ==> out.deep_view()[t] == #[trigger] m.pairs()[t],
            decreases self.keys@.len() - i,
        {
            let ghost kv = m.keys[i as int];
            proof {
                assert(m.keys[i as int] == self.keys@[i as int].deep_view());
                assert(m.keys.to_set().contains(kv));
            }
            let j = match self.find_row(&self.keys[i]) {
                Some(j) => j,
                None => {
                    proof {
                        assert(false);
                    }
                    0
                },
            };
            let c = cursors[j];
            proof {
                lemma_occ_at(m.keys, i as int);
                assert(self.rows@[j as int].values.deep_view() == m.rows[kv]);
                assert(c < self.rows@[j as int].values@.len());
            }
            let p = &self.rows[j];
            let row_len = p.values.len();
            let kd = self.keys[i].dup();
            let vd = p.values[c].dup();
            let ghost kdv = kd.deep_view();
            let ghost vdv = vd.deep_view();
            out.push((kd, vd));
            let cr = &mut cursors[j];
            *cr = c + 1;
            proof {
                assert(out.deep_view()[i as int] == (kdv, vdv));
                assert(vdv == m.rows[kv][c as int]);
                assert forall|t: int|
                    0 <= t < cursors@.len() implies cursors@[t] == occ_count(
                    m.keys,
                    (#[trigger] self.rows@[t]).key.deep_view(),
                    i as int + 1,
                ) by {
                    let kt = self.rows@[t].key.deep_view();
                    assert(occ_count(m.keys, kt, i as int + 1) == occ_count(m.keys, kt, i as int)
                        + (if m.keys[i as int] == kt {
                        1nat
                    } else {
                        0nat
                    }));
                    if t != j {
                        assert(kt != kv);
                    }
                }
                assert(out.deep_view()[i as int] == m.pairs()[i as int]);
            }
            i = i + 1;
        }
        proof {
            assert(out.deep_view() =~= m.pairs());
        }
        out
    }

    /// Iterator over copies of the pairs, in global order.
    pub fn iter(&self) -> (r: iter::Iter<K, V>)
        requires
            self.wf(),
        ensures
            r.wf(),
            r@ == self@.pairs(),
    {
        let elems = self.collect_pairs();
        iter::Iter::from_elems(elems)
    }

    /// Consuming iterator over the pairs, in global order.
    pub fn into_iter(self) -> (r: iter::IntoIter<K, V>)
        requires
            self.wf(),
        ensures
            r@ == self@.pairs(),
    {
        let elems = self.collect_pairs();
        iter::IntoIter::from_elems(elems)
    }

    /// Copies of all values, in global pair order.
    pub fn values(&self) -> (r: Vec<V>)
        requires
            self.wf(),
        ensures
            r.deep_view() == self@.pairs().map_values(
                |p: (<K as DeepView>::V, <V as DeepView>::V)| p.1,
            ),
    {
        let ps = self.collect_pairs();
        crate::pairs::collect_values(&ps)
    }

    /// Iterator pairing the canonical key with each value of its row; empty
    /// when the key is unknown.
    pub fn get_all_key_value(&self, key: &K) -> (r: iter::IterKeyValue<K, V>)
        requires
            self.wf(),
        ensures
            r.wf(),
            r@ == Seq::new(
                self@.row_of(key.deep_view()).len(),
                |i: int| (key.deep_view(), self@.row_of(key.deep_view())[i]),
            ),
    {
        let ghost kv = key.deep_view();
        match self.find_row(key) {
            Some(j) => {
                let p = &self.rows[j];
                let mut vals: Vec<V> = Vec::new();
                let mut t: usize = 0;
                while t < p.values.len()
                    invariant
                        t <= p.values@.len(),
                        vals@.len() == t,
                        forall|u: int| 0 <= u < t ==> vals.deep_view()[u] == (
                        #[trigger] p.values@[u]).deep_view(),
                    decreases p.values@.len() - t,
                {
                    vals.push(p.values[t].dup());
                    t = t + 1;
                }
                proof {
                    assert(vals.deep_view() =~= self@.row_of(kv));
                }
                let r = iter::IterKeyValue::from_row(p.key.dup(), vals);
                proof {
                    assert(r@ =~= Seq::new(
                        self@.row_of(kv).len(),
                        |i: int| (kv, self@.row_of(kv)[i]),
                    ));
                }
                r
            },
            None => {
                let empty_vals: Vec<V> = Vec::new();
                proof {
                    assert(empty_vals.deep_view() =~= self@.row_of(kv));
                }
                let r = iter::IterKeyValue::from_row(key.dup(), empty_vals);
                proof {
                    assert(r@ =~= Seq::new(
                        self@.row_of(kv).len(),
                        |i: int| (kv, self@.row_of(kv)[i]),
                    ));
                }
                r
            },
        }
    }

    /// Append every pair of `items`, in order, as `push` would.
    pub fn extend(&mut self, items: Vec<(K, V)>)
        requires
            old(self).wf(),
        ensures
            final(self).wf(),
            final(self)@ == push_all_model(old(self)@, items.deep_view()),
            final(self)@.pairs() == old(self)@.pairs() + items.deep_view(),
    {
        let ghost m0 = self@;
        let ghost ps = items.deep_view();
        let mut inp = items;
        proof {
            assert(dv_seq(inp@) =~= ps.skip(0));
            assert(m0.pairs() + ps.take(0) =~= m0.pairs());
        }
        while inp.len() > 0
            invariant
                self.wf(),
                inp@.len() <= ps.len(),
                dv_seq(inp@) == ps.skip(ps.len() - inp@.len()),
                self@ == push_all_model(m0, ps.take(ps.len() - inp@.len())),
                self@.pairs() == m0.pairs() + ps.take(ps.len() - inp@.len()),
            decreases inp@.len(),
        {
            let ghost done = ps.len() - inp@.len();
            let ghost inp0 = inp@;
            let (k, v) = inp.remove(0);
            proof {
                crate::pairs::lemma_dv_remove(inp0, 0int);
                assert(dv_seq(inp0).remove(0) =~= ps.skip(done + 1));
                assert(dv_seq(inp0)[0] == ps[done]);
            }
            let ghost kdv = k.deep_view();
            let ghost vdv = v.deep_view();
            self.push(k, v);
            proof {
                assert((kdv, vdv) == ps[done]);
                assert(ps.take(done + 1).drop_last() =~= ps.take(done));
                assert(ps.take(done + 1).last() == ps[done]);
                assert(self@ == push_all_model(m0, ps.take(done + 1)));
                assert(self@.pairs() =~= m0.pairs() + ps.take(done + 1));
            }
        }
        proof {
            assert(ps.take(ps.len() as int) =~= ps);
        }
    }

    /// Build a keylist from a list of pairs, pushing them in order.
    pub fn from_pairs(pairs_in: Vec<(K, V)>) -> (r: Self)
        ensures
            r.wf(),
            r@ == from_pairs_model(pairs_in.deep_view()),
            r@.pairs() == pairs_in.deep_view(),
    {
        let mut r = Self::new();
        r.extend(pairs_in);
        proof {
            assert(KeylistModel::<<K as DeepView>::V, <V as DeepView>::V>::empty().pairs()
                =~= Seq::<(<K as DeepView>::V, <V as DeepView>::V)>::empty());
            assert(r@.pairs() =~= pairs_in.deep_view());
        }
        r
    }

    /// The pairs, in global order, consuming the keylist.
    pub fn into_pairs(self) -> (r: Vec<(K, V)>)
        requires
            self.wf(),
        ensures
            r.deep_view() == self@.pairs(),
    {
        self.collect_pairs()
    }
}

impl<K: TotalOrder, V: DeepView> HashKeylist<K, V> {
    /// Sort the key sequence alone; the rows are untouched.  Iteration
    /// afterwards pairs the n-th occurrence of each key in the new order
    /// with the n-th value of that key's unchanged row.
    pub fn sort_by_key(&mut self)
        requires
            old(self).wf(),
        ensures
            final(self).wf(),
            final(self)@.rows == old(self)@.rows,
            final(self)@.keys.to_multiset() == old(self)@.keys.to_multiset(),
            sorted_elems::<K>(final(self)@.keys),
    {
        let ghost m0 = self@;
        sort_elems(&mut self.keys);
        proof {
            let k1 = m0.keys;
            let k2 = self@.keys;
            assert forall|kv: <K as DeepView>::V| #[trigger] k2.to_set().contains(kv)
                == k1.to_set().contains(kv) by {
                to_multiset_contains(k1, kv);
                to_multiset_contains(k2, kv);
            }
            assert(k2.to_set() =~= k1.to_set());
            assert forall|kv: <K as DeepView>::V|
                self@.rows.dom().contains(kv) implies (#[trigger] self@.rows[kv]).len()
                == occ_count(k2, kv, k2.len() as int) by {
                lemma_occ_multiset(k1, kv);
                lemma_occ_multiset(k2, kv);
            }
            assert(self@.wf());
        }
    }
}

impl<K: TotalOrder, V: TotalOrder> HashKeylist<K, V> {
    /// Sort the key sequence, then sort each row's values in place.
    pub fn sort(&mut self)
        requires
            old(self).wf(),
        ensures
            final(self).wf(),
            final(self)@.keys.to_multiset() == old(self)@.keys.to_multiset(),
            sorted_elems::<K>(final(self)@.keys),
            final(self)@.rows.dom() == old(self)@.rows.dom(),
            forall|kv: <K as DeepView>::V| #[trigger] old(self)@.rows.dom().contains(kv)
                ==> sorted_elems::<V>(final(self)@.rows[kv]) && final(self)@.rows[
                kv
            ].to_multiset() == old(self)@.rows[kv].to_multiset(),
    {
        broadcast use lemma_rows_map_pointwise;

        self.sort_by_key();
        let ghost mid = self@;
        let ghost rsmid = self.rows@;
        let mut j: usize = 0;
        while j < self.rows.len()
            invariant
                self@.keys == mid.keys,
                rsmid.len() == self.rows@.len(),
                rows_distinct_seq(rsmid),
                mid == (KeylistModel {
                    keys: self.keys.deep_view(),
                    rows: rows_map(rsmid),
                }),
                mid.wf(),
                j <= self.rows@.len(),
                forall|t: int| 0 <= t < rsmid.len() ==> (#[trigger] self.rows@[t]).key == rsmid[
                    t
                ].key,
                forall|t: int|
                    0 <= t < j ==> sorted_elems::<V>(
                        (#[trigger] self.rows@[t]).values.deep_view(),
                    ) && self.rows@[t].values.deep_view().to_multiset() == rsmid[
                        t
                    ].values.deep_view().to_multiset(),
                forall|t: int| j <= t < rsmid.len() ==> (#[trigger] self.rows@[t]) == rsmid[t],
            decreases self.rows@.len() - j,
        {
            let ghost rs_prev = self.rows@;
            let mut row = self.rows.remove(j);
            sort_elems(&mut row.values);
            let ghost rowg = row;
            self.rows.insert(j, row);
            proof {
                assert(self.rows@ =~= rs_prev.update(j as int, rowg));
            }
            j = j + 1;
        }
        proof {
            let rsf = self.rows@;
            assert forall|kv: <K as DeepView>::V| #[trigger] mid.rows.dom().contains(kv)
                implies sorted_elems::<V>(rows_map(rsf)[kv]) && rows_map(rsf)[kv].to_multiset()
                == mid.rows[kv].to_multiset() by {
                let i = choose|i: int|
                    0 <= i < rsmid.len() && (#[trigger] rsmid[i]).key.deep_view() == kv;
                assert(rows_map(rsf)[rsf[i].key.deep_view()] == rsf[i].values.deep_view());
                assert(rows_map(rsmid)[rsmid[i].key.deep_view()] == rsmid[i].values.deep_view());
            }
            assert forall|kv: <K as DeepView>::V|
                rows_map(rsf).dom().contains(kv) implies (#[trigger] rows_map(rsf)[kv]).len()
                == occ_count(mid.keys, kv, mid.keys.len() as int) by {
                to_multiset_len(rows_map(rsf)[kv]);
                to_multiset_len(mid.rows[kv]);
            }
            assert(self@.wf());
        }
    }
}

} // verus!
