//! The abstract state of a [`HashKeylist`](crate::hash_keylist::HashKeylist).
//!
//! The model keeps the two synchronized halves of the structure: the global
//! key sequence (with duplicates, in insertion order) and the rows, a map
//! from each distinct key to the ordered values stored under it.  The
//! interleaved pair sequence — what iteration yields — pairs the n-th
//! occurrence of a key in the key sequence with the n-th value of its row.

use vstd::prelude::*;
use vstd::seq_lib::*;
use vstd::multiset::Multiset;

verus! {

/// How often `k` occurs among the first `end` entries of `keys`.
pub open spec fn occ_count<KV>(keys: Seq<KV>, k: KV, end: int) -> nat
    decreases end,
{
    if end <= 0 {
        0
    } else {
        occ_count(keys, k, end - 1) + (if keys[end - 1] == k {
            1nat
        } else {
            0nat
        })
    }
}

/// Counting stops caring about entries past `end`: two sequences that agree
/// below `end` have the same count.
pub proof fn lemma_occ_agree<KV>(keys1: Seq<KV>, keys2: Seq<KV>, k: KV, end: int)
    requires
        forall|i: int| 0 <= i < end ==> keys1[i] == keys2[i],
    ensures
        occ_count(keys1, k, end) == occ_count(keys2, k, end),
    decreases end,
{
    if end > 0 {
        lemma_occ_agree(keys1, keys2, k, end - 1);
    }
}

/// Counts grow with the prefix length.
pub proof fn lemma_occ_monotone<KV>(keys: Seq<KV>, k: KV, end1: int, end2: int)
    requires
        end1 <= end2,
    ensures
        occ_count(keys, k, end1) <= occ_count(keys, k, end2),
    decreases end2 - end1,
{
    if end1 < end2 {
        lemma_occ_monotone(keys, k, end1, end2 - 1);
    }
}

/// A key occurs in the whole sequence exactly when its count is positive.
pub proof fn lemma_occ_contains<KV>(keys: Seq<KV>, k: KV)
    ensures
        occ_count(keys, k, keys.len() as int) > 0 <==> keys.contains(k),
    decreases keys.len(),
{
    if keys.len() > 0 {
        lemma_occ_agree(keys, keys.drop_last(), k, keys.len() - 1);
        lemma_occ_contains(keys.drop_last(), k);
        if keys.contains(k) && keys.last() != k {
            let i = choose|i: int| 0 <= i < keys.len() && keys[i] == k;
            assert(keys.drop_last()[i] == k);
            assert(keys.drop_last().contains(k));
        }
        if keys.drop_last().contains(k) {
            let i = choose|i: int| 0 <= i < keys.len() - 1 && keys.drop_last()[i] == k;
            assert(keys[i] == k);
        }
    }
}

/// Counting after an insertion at `at`: prefixes below `at` are untouched,
/// prefixes beyond it gain one occurrence when the inserted key matches.
pub proof fn lemma_occ_insert<KV>(keys: Seq<KV>, k: KV, at: int, x: KV, end: int)
    requires
        0 <= at <= keys.len(),
    ensures
        end <= at ==> occ_count(keys.insert(at, x), k, end) == occ_count(keys, k, end),
        at < end <= keys.len() + 1 ==> occ_count(keys.insert(at, x), k, end) == occ_count(
            keys,
            k,
            end - 1,
        ) + (if x == k {
            1nat
        } else {
            0nat
        }),
    decreases end,
{
    let keys2 = keys.insert(at, x);
    if end <= at {
        lemma_occ_agree(keys2, keys, k, end);
    } else if end <= keys.len() + 1 {
        lemma_occ_insert(keys, k, at, x, end - 1);
        if end - 1 == at {
            assert(keys2[end - 1] == x);
        } else {
            assert(keys2[end - 1] == keys[end - 2]);
        }
    }
}

/// Counting after a removal at `at`: the mirror image of insertion.
pub proof fn lemma_occ_remove<KV>(keys: Seq<KV>, k: KV, at: int, end: int)
    requires
        0 <= at < keys.len(),
    ensures
        end <= at ==> occ_count(keys.remove(at), k, end) == occ_count(keys, k, end),
        at < end <= keys.len() - 1 ==> occ_count(keys.remove(at), k, end) == occ_count(
            keys,
            k,
            end + 1,
        ) - (if keys[at] == k {
            1nat
        } else {
            0nat
        }),
    decreases end,
{
    let keys2 = keys.remove(at);
    if end <= at {
        lemma_occ_agree(keys2, keys, k, end);
    } else if end <= keys.len() - 1 {
        lemma_occ_remove(keys, k, at, end - 1);
        assert(keys2[end - 1] == keys[end]);
        assert(occ_count(keys2, k, end) == occ_count(keys2, k, end - 1) + (if keys2[end - 1]
            == k {
            1nat
        } else {
            0nat
        }));
        assert(occ_count(keys, k, end + 1) == occ_count(keys, k, end) + (if keys[end] == k {
            1nat
        } else {
            0nat
        }));
        if end - 1 == at {
            assert(occ_count(keys, k, at + 1) == occ_count(keys, k, at) + (if keys[at] == k {
                1nat
            } else {
                0nat
            }));
        }
    }
}

/// The count over the whole sequence is the multiset multiplicity.
pub proof fn lemma_occ_multiset<KV>(keys: Seq<KV>, k: KV)
    ensures
        occ_count(keys, k, keys.len() as int) == keys.to_multiset().count(k),
    decreases keys.len(),
{
    broadcast use vstd::multiset::group_multiset_axioms;

    if keys.len() == 0 {
        to_multiset_contains(keys, k);
    } else {
        let rest = keys.drop_last();
        lemma_occ_multiset(rest, k);
        lemma_occ_agree(keys, rest, k, keys.len() - 1);
        assert(keys =~= rest.push(keys.last()));
        to_multiset_build(rest, keys.last());
    }
}

/// The abstract state of a hash keylist: the ordered key sequence and the
/// per-key rows of values.
#[verifier::ext_equal]
#[verifier::reject_recursive_types(KV)]
pub ghost struct KeylistModel<KV, VV> {
    pub keys: Seq<KV>,
    pub rows: Map<KV, Seq<VV>>,
}

impl<KV, VV> KeylistModel<KV, VV> {
    /// The empty state.
    pub open spec fn empty() -> Self {
        KeylistModel { keys: Seq::empty(), rows: Map::empty() }
    }

    /// The number of stored pairs.
    pub open spec fn len(self) -> nat {
        self.keys.len()
    }

    /// The two halves agree: the rows are keyed exactly by the keys that
    /// occur, and each row is as long as its key has occurrences.
    pub open spec fn wf(self) -> bool {
        &&& self.rows.dom() == self.keys.to_set()
        &&& forall|k: KV|
            self.rows.dom().contains(k) ==> (#[trigger] self.rows[k]).len() == occ_count(
                self.keys,
                k,
                self.keys.len() as int,
            )
    }

    /// The row of `k`, empty when `k` is unknown.
    pub open spec fn row_of(self, k: KV) -> Seq<VV> {
        if self.rows.dom().contains(k) {
            self.rows[k]
        } else {
            Seq::empty()
        }
    }

    /// The pair at global position `i`: the key there, paired with the value
    /// of its row selected by the number of earlier occurrences of that key.
    pub open spec fn pair_at(self, i: int) -> (KV, VV) {
        (self.keys[i], self.row_of(self.keys[i])[occ_count(self.keys, self.keys[i], i) as int])
    }

    /// The interleaved pair sequence, in global order.
    pub open spec fn pairs(self) -> Seq<(KV, VV)> {
        Seq::new(self.keys.len(), |i: int| self.pair_at(i))
    }

    /// The state after appending `(k, v)`.
    pub open spec fn push_pair(self, k: KV, v: VV) -> Self {
        KeylistModel { keys: self.keys.push(k), rows: self.rows.insert(k, self.row_of(k).push(v)) }
    }

    /// The state after inserting `(k, v)` at global position `i`.
    pub open spec fn insert_pair(self, i: int, k: KV, v: VV) -> Self {
        KeylistModel {
            keys: self.keys.insert(i, k),
            rows: self.rows.insert(
                k,
                self.row_of(k).insert(occ_count(self.keys, k, i) as int, v),
            ),
        }
    }

    /// The state after removing the pair at global position `i`.
    pub open spec fn remove_pair(self, i: int) -> Self {
        let k = self.keys[i];
        let row = self.row_of(k).remove(occ_count(self.keys, k, i) as int);
        KeylistModel {
            keys: self.keys.remove(i),
            rows: if row.len() == 0 {
                self.rows.remove(k)
            } else {
                self.rows.insert(k, row)
            },
        }
    }
}

/// The state built by pushing the pairs of `ps` in order onto `m`.
pub open spec fn push_all_model<KV, VV>(m: KeylistModel<KV, VV>, ps: Seq<(KV, VV)>) -> KeylistModel<
    KV,
    VV,
>
    decreases ps.len(),
{
    if ps.len() == 0 {
        m
    } else {
        push_all_model(m, ps.drop_last()).push_pair(ps.last().0, ps.last().1)
    }
}

/// The state built by pushing the pairs of `ps` in order, starting empty.
pub open spec fn from_pairs_model<KV, VV>(ps: Seq<(KV, VV)>) -> KeylistModel<KV, VV> {
    push_all_model(KeylistModel::empty(), ps)
}

/// The count of the key standing at `i` is still growing at `i`: its row
/// holds more values beyond the one `i` selects.
pub proof fn lemma_occ_at<KV>(keys: Seq<KV>, i: int)
    requires
        0 <= i < keys.len(),
    ensures
        occ_count(keys, keys[i], i) < occ_count(keys, keys[i], keys.len() as int),
{
    assert(occ_count(keys, keys[i], i + 1) == occ_count(keys, keys[i], i) + 1);
    lemma_occ_monotone(keys, keys[i], i + 1, keys.len() as int);
}

/// Appending a pair appends it to the interleaving and keeps the state
/// well-formed.
pub proof fn lemma_push_pair<KV, VV>(m: KeylistModel<KV, VV>, k: KV, v: VV)
    requires
        m.wf(),
    ensures
        m.push_pair(k, v).wf(),
        m.push_pair(k, v).pairs() == m.pairs().push((k, v)),
{
    let m2 = m.push_pair(k, v);
    let keys = m.keys;
    let keys2 = m2.keys;
    let n = keys.len() as int;
    keys.lemma_push_to_set_commute(k);
    assert(m2.rows.dom() =~= keys2.to_set());
    lemma_occ_contains(keys, k);
    assert(m.row_of(k).len() == occ_count(keys, k, n));
    assert forall|k2: KV| m2.rows.dom().contains(k2) implies (#[trigger] m2.rows[k2]).len()
        == occ_count(keys2, k2, keys2.len() as int) by {
        lemma_occ_agree(keys2, keys, k2, n);
        assert(occ_count(keys2, k2, n + 1) == occ_count(keys2, k2, n) + (if k == k2 {
            1nat
        } else {
            0nat
        }));
    }
    assert(m2.wf());
    assert forall|i: int| 0 <= i < n + 1 implies m2.pairs()[i] == m.pairs().push((k, v))[i] by {
        if i < n {
            assert(keys2[i] == keys[i]);
            lemma_occ_agree(keys2, keys, keys[i], i);
            if keys[i] == k {
                lemma_occ_at(keys, i);
            }
        } else {
            lemma_occ_agree(keys2, keys, k, n);
        }
    }
    assert(m2.pairs() =~= m.pairs().push((k, v)));
}

/// Inserting a pair at global position `at` — with its value placed at the
/// matching per-key offset of its row — inserts it into the interleaving at
/// exactly `at`, and keeps the state well-formed.
pub proof fn lemma_insert_pair<KV, VV>(m: KeylistModel<KV, VV>, at: int, k: KV, v: VV)
    requires
        m.wf(),
        0 <= at <= m.keys.len(),
    ensures
        m.insert_pair(at, k, v).wf(),
        m.insert_pair(at, k, v).pairs() == m.pairs().insert(at, (k, v)),
{
    let m2 = m.insert_pair(at, k, v);
    let keys = m.keys;
    let keys2 = m2.keys;
    let n = keys.len() as int;
    let pos = occ_count(keys, k, at) as int;
    let row = m.row_of(k);
    lemma_occ_contains(keys, k);
    lemma_occ_monotone(keys, k, at, n);
    assert(pos <= row.len());

    // The key sets agree.
    assert forall|x: KV| #[trigger] keys2.to_set().contains(x) implies m2.rows.dom().contains(
        x,
    ) by {
        let j = choose|j: int| 0 <= j < keys2.len() && keys2[j] == x;
        if j < at {
            assert(keys[j] == x);
        } else if j > at {
            assert(keys[j - 1] == x);
        }
    }
    assert forall|x: KV| m2.rows.dom().contains(x) implies #[trigger] keys2.to_set().contains(
        x,
    ) by {
        if x == k {
            assert(keys2[at] == x);
        } else {
            let j = choose|j: int| 0 <= j < keys.len() && keys[j] == x;
            if j < at {
                assert(keys2[j] == x);
            } else {
                assert(keys2[j + 1] == x);
            }
        }
    }
    assert(m2.rows.dom() =~= keys2.to_set());

    // The row lengths still match the counts.
    assert forall|k2: KV| m2.rows.dom().contains(k2) implies (#[trigger] m2.rows[k2]).len()
        == occ_count(keys2, k2, keys2.len() as int) by {
        lemma_occ_insert(keys, k2, at, k, n + 1);
    }
    assert(m2.wf());

    // The interleaving gains exactly one pair at `at`.
    assert forall|j: int| 0 <= j < n + 1 implies m2.pairs()[j] == m.pairs().insert(
        at,
        (k, v),
    )[j] by {
        row.insert_ensures(pos, v);
        lemma_occ_insert(keys, keys2[j], at, k, j);
        if j < at {
            assert(keys2[j] == keys[j]);
            if keys[j] == k {
                assert(occ_count(keys, k, j + 1) == occ_count(keys, k, j) + 1);
                lemma_occ_monotone(keys, k, j + 1, at);
                assert(occ_count(keys, k, j) < pos);
            }
        } else if j == at {
            assert(keys2[at] == k);
            assert(m2.row_of(k)[pos] == v);
        } else {
            assert(keys2[j] == keys[j - 1]);
            let k2 = keys[j - 1];
            if k2 == k {
                lemma_occ_monotone(keys, k, at, j - 1);
                lemma_occ_at(keys, j - 1);
                assert(m2.row_of(k)[occ_count(keys, k, j - 1) as int + 1] == row[occ_count(
                    keys,
                    k,
                    j - 1,
                ) as int]);
            }
        }
    }
    assert(m2.pairs() =~= m.pairs().insert(at, (k, v)));
}

/// Overwriting the value that global position `at` selects — at the
/// matching per-key offset of its key's row — updates the interleaving at
/// exactly `at`, and keeps the state well-formed.
pub proof fn lemma_update_value<KV, VV>(m: KeylistModel<KV, VV>, at: int, nv: VV)
    requires
        m.wf(),
        0 <= at < m.keys.len(),
    ensures
        ({
            let k0 = m.keys[at];
            let pos = occ_count(m.keys, k0, at) as int;
            let m2 = KeylistModel {
                keys: m.keys,
                rows: m.rows.insert(k0, m.rows[k0].update(pos, nv)),
            };
            m2.wf() && m2.pairs() == m.pairs().update(at, (k0, nv))
        }),
{
    let keys = m.keys;
    let n = keys.len() as int;
    let k0 = keys[at];
    let pos = occ_count(keys, k0, at) as int;
    let m2 = KeylistModel { keys: keys, rows: m.rows.insert(k0, m.rows[k0].update(pos, nv)) };
    assert(keys.to_set().contains(k0));
    lemma_occ_at(keys, at);
    assert(m2.rows.dom() =~= m.rows.dom());
    assert forall|k2: KV| m2.rows.dom().contains(k2) implies (#[trigger] m2.rows[k2]).len()
        == occ_count(keys, k2, n) by {
        if k2 != k0 {
            assert(m2.rows[k2] == m.rows[k2]);
        } else {
            assert(m.rows[k0].len() == occ_count(keys, k0, n));
            assert(0 <= pos < m.rows[k0].len());
            assert(m2.rows[k0] == m.rows[k0].update(pos, nv));
            assert(m2.rows[k0].len() == m.rows[k0].len());
        }
    }
    assert(m2.rows.dom() == m.keys.to_set());
    assert(m2.wf());
    assert forall|t: int| 0 <= t < n implies m2.pairs()[t] == m.pairs().update(
        at,
        (k0, nv),
    )[t] by {
        lemma_occ_at(keys, t);
        if keys[t] == k0 && t != at {
            if t < at {
                assert(occ_count(keys, k0, t + 1) == occ_count(keys, k0, t) + 1);
                lemma_occ_monotone(keys, k0, t + 1, at);
                assert(occ_count(keys, k0, t) < pos);
            } else {
                assert(occ_count(keys, k0, at + 1) == pos + 1);
                lemma_occ_monotone(keys, k0, at + 1, t);
                assert(occ_count(keys, k0, t) > pos);
            }
        }
    }
    assert(m2.pairs() =~= m.pairs().update(at, (k0, nv)));
}

/// Removing the pair at global position `at` — erasing its value from the
/// matching per-key offset of its row, and the row itself once empty —
/// removes it from the interleaving at exactly `at`, and keeps the state
/// well-formed.
pub proof fn lemma_remove_pair<KV, VV>(m: KeylistModel<KV, VV>, at: int)
    requires
        m.wf(),
        0 <= at < m.keys.len(),
    ensures
        m.remove_pair(at).wf(),
        m.remove_pair(at).pairs() == m.pairs().remove(at),
{
    let m2 = m.remove_pair(at);
    let keys = m.keys;
    let keys2 = m2.keys;
    let n = keys.len() as int;
    let k0 = keys[at];
    let pos = occ_count(keys, k0, at) as int;
    let row = m.row_of(k0);
    let row2 = row.remove(pos);
    assert(keys.to_set().contains(k0));
    lemma_occ_at(keys, at);
    assert(pos < row.len());

    // The key sets agree.
    assert forall|x: KV| #[trigger] keys2.to_set().contains(x) implies m2.rows.dom().contains(
        x,
    ) by {
        let j = choose|j: int| 0 <= j < keys2.len() && keys2[j] == x;
        if j < at {
            assert(keys[j] == x);
        } else {
            assert(keys[j + 1] == x);
        }
        if x == k0 && row2.len() == 0 {
            // a second occurrence of `k0` would make its row longer than one
            if j < at {
                assert(occ_count(keys, k0, j + 1) >= 1);
                lemma_occ_monotone(keys, k0, j + 1, at);
                assert(occ_count(keys, k0, at + 1) >= 2);
                lemma_occ_monotone(keys, k0, at + 1, n);
            } else {
                assert(occ_count(keys, k0, at + 1) == pos + 1);
                assert(occ_count(keys, k0, j + 2) >= occ_count(keys, k0, j + 1) + 1);
                lemma_occ_monotone(keys, k0, at + 1, j + 1);
                lemma_occ_monotone(keys, k0, j + 2, n);
            }
        }
    }
    assert forall|x: KV| m2.rows.dom().contains(x) implies #[trigger] keys2.to_set().contains(
        x,
    ) by {
        if x == k0 {
            assert(row2.len() > 0);
            assert(occ_count(keys2, k0, keys2.len() as int) == row2.len()) by {
                lemma_occ_remove(keys, k0, at, n - 1);
            }
            lemma_occ_contains(keys2, k0);
        } else {
            let j = choose|j: int| 0 <= j < keys.len() && keys[j] == x;
            if j < at {
                assert(keys2[j] == x);
            } else {
                assert(j != at);
                assert(keys2[j - 1] == x);
            }
        }
    }
    assert(m2.rows.dom() =~= keys2.to_set());

    // The row lengths still match the counts.
    assert forall|k2: KV| m2.rows.dom().contains(k2) implies (#[trigger] m2.rows[k2]).len()
        == occ_count(keys2, k2, keys2.len() as int) by {
        lemma_occ_remove(keys, k2, at, n - 1);
    }
    assert(m2.wf());

    // The interleaving loses exactly the pair at `at`.
    assert forall|j: int| 0 <= j < n - 1 implies m2.pairs()[j] == m.pairs().remove(at)[j] by {
        row.remove_ensures(pos);
        lemma_occ_remove(keys, keys2[j], at, j);
        if j < at {
            assert(keys2[j] == keys[j]);
            if keys[j] == k0 {
                assert(occ_count(keys, k0, j + 1) == occ_count(keys, k0, j) + 1);
                lemma_occ_monotone(keys, k0, j + 1, at);
                assert(occ_count(keys, k0, j) < pos);
            }
        } else {
            assert(keys2[j] == keys[j + 1]);
            let k2 = keys[j + 1];
            if j == at {
                assert(occ_count(keys2, k2, at) == occ_count(keys, k2, at)) by {
                    lemma_occ_remove(keys, k2, at, at);
                }
                assert(occ_count(keys, k2, at + 1) == occ_count(keys, k2, at) + (if k0 == k2 {
                    1nat
                } else {
                    0nat
                }));
                if k2 == k0 {
                    lemma_occ_at(keys, j + 1);
                    assert(row2[pos] == row[pos + 1]);
                }
            } else {
                if k2 == k0 {
                    lemma_occ_monotone(keys, k0, at + 1, j + 1);
                    lemma_occ_at(keys, j + 1);
                    assert(occ_count(keys, k0, j + 1) >= pos + 1);
                    assert(row2[occ_count(keys, k0, j + 1) - 1] == row[occ_count(
                        keys,
                        k0,
                        j + 1,
                    ) as int]);
                }
            }
        }
    }
    assert(m2.pairs() =~= m.pairs().remove(at));
}

impl<KV, VV> KeylistModel<KV, VV> {
    /// The pair that `pop` hands out: the last one of the interleaving.
    pub open spec fn last_pair(self) -> (KV, VV) {
        self.pairs().last()
    }

    /// The state after popping the last pair.
    pub open spec fn pop_pair(self) -> Self {
        self.remove_pair(self.keys.len() - 1)
    }
}

/// Popping right after pushing returns the pushed pair and restores the
/// state exactly.
pub proof fn lemma_push_pop<KV, VV>(m: KeylistModel<KV, VV>, k: KV, v: VV)
    requires
        m.wf(),
    ensures
        m.push_pair(k, v).last_pair() == (k, v),
        m.push_pair(k, v).pop_pair() == m,
{
    let m2 = m.push_pair(k, v);
    let n = m.keys.len() as int;
    lemma_push_pair(m, k, v);
    assert(m2.pairs().last() == (k, v));
    let row = m.row_of(k);
    lemma_occ_contains(m.keys, k);
    lemma_occ_agree(m2.keys, m.keys, k, n);
    assert(occ_count(m2.keys, k, n) == row.len());
    let row2 = m2.row_of(k).remove(row.len() as int);
    assert(row2 =~= row);
    assert(m2.pop_pair().keys =~= m.keys);
    if row.len() == 0 {
        assert(!m.rows.dom().contains(k));
        assert(m2.pop_pair().rows =~= m.rows);
    } else {
        assert(m.rows.dom().contains(k));
        assert(m.rows[k] == row);
        assert(m2.pop_pair().rows =~= m.rows);
    }
    assert(m2.pop_pair() =~= m);
}

/// Pushing back what was just popped restores the state exactly.
pub proof fn lemma_pop_push<KV, VV>(m: KeylistModel<KV, VV>)
    requires
        m.wf(),
        m.keys.len() > 0,
    ensures
        m.pop_pair().push_pair(m.last_pair().0, m.last_pair().1) == m,
{
    let n = m.keys.len() as int;
    let k0 = m.keys[n - 1];
    let v0 = m.last_pair().1;
    let mp = m.pop_pair();
    lemma_remove_pair(m, n - 1);
    assert(m.last_pair().0 == k0);
    assert(m.keys.to_set().contains(k0));
    let row = m.rows[k0];
    lemma_occ_at(m.keys, n - 1);
    assert(occ_count(m.keys, k0, n) == row.len());
    let pos = occ_count(m.keys, k0, n - 1) as int;
    assert(pos == row.len() - 1);
    assert(v0 == row[pos]);
    let row2 = row.remove(pos);
    assert(row2 =~= row.drop_last());
    assert(mp.push_pair(k0, v0).keys =~= m.keys);
    lemma_occ_remove(m.keys, k0, n - 1, n - 1);
    if row2.len() == 0 {
        assert(mp.rows == m.rows.remove(k0));
        assert(!mp.rows.dom().contains(k0));
        assert(mp.row_of(k0).push(v0) =~= row);
        assert(mp.push_pair(k0, v0).rows =~= m.rows);
    } else {
        assert(mp.rows == m.rows.insert(k0, row2));
        assert(mp.row_of(k0).push(v0) =~= row);
        assert(mp.push_pair(k0, v0).rows =~= m.rows);
    }
    assert(mp.push_pair(k0, v0) =~= m);
}

/// Pushing keeps the state well-formed, pair after pair.
pub proof fn lemma_push_all_wf<KV, VV>(m: KeylistModel<KV, VV>, ps: Seq<(KV, VV)>)
    requires
        m.wf(),
    ensures
        push_all_model(m, ps).wf(),
    decreases ps.len(),
{
    if ps.len() > 0 {
        lemma_push_all_wf(m, ps.drop_last());
        lemma_push_pair(push_all_model(m, ps.drop_last()), ps.last().0, ps.last().1);
    }
}

/// The states and pairs seen while popping `n` times: the end state, and
/// the popped pairs in pop order.
pub open spec fn pop_all_model<KV, VV>(m: KeylistModel<KV, VV>, n: nat) -> (
    KeylistModel<KV, VV>,
    Seq<(KV, VV)>,
)
    decreases n,
{
    if n == 0 {
        (m, Seq::empty())
    } else {
        let rest = pop_all_model(m.pop_pair(), (n - 1) as nat);
        (rest.0, seq![m.last_pair()] + rest.1)
    }
}

/// Push/pop duality: pushing any pairs and then popping as many returns
/// them in exact reverse order and restores the starting state — started
/// empty, the structure ends empty.
pub proof fn lemma_push_pop_duality<KV, VV>(m: KeylistModel<KV, VV>, ps: Seq<(KV, VV)>)
    requires
        m.wf(),
    ensures
        pop_all_model(push_all_model(m, ps), ps.len()) == (m, ps.reverse()),
    decreases ps.len(),
{
    if ps.len() == 0 {
        assert(ps.reverse() =~= Seq::<(KV, VV)>::empty());
    } else {
        let init = ps.drop_last();
        let lastp = ps.last();
        let mb = push_all_model(m, init);
        lemma_push_all_wf(m, init);
        lemma_push_pop(mb, lastp.0, lastp.1);
        lemma_push_pair(mb, lastp.0, lastp.1);
        lemma_push_pop_duality(m, init);
        let mt = push_all_model(m, ps);
        assert(mt == mb.push_pair(lastp.0, lastp.1));
        assert(mt.pop_pair() == mb);
        assert(mt.last_pair() == lastp);
        let rest = pop_all_model(mt.pop_pair(), (ps.len() - 1) as nat);
        assert(rest == (m, init.reverse()));
        assert(pop_all_model(mt, ps.len()).1 == seq![lastp] + init.reverse());
        assert(seq![lastp] + init.reverse() =~= ps.reverse());
    }
}

/// Round trip: rebuilding a well-formed state from its own interleaved
/// pairs — the tuple-sequence wire form — gives back the same state, key
/// sequence and rows alike, duplicates included.
pub proof fn lemma_pairs_round_trip<KV, VV>(m: KeylistModel<KV, VV>)
    requires
        m.wf(),
    ensures
        from_pairs_model(m.pairs()) == m,
    decreases m.keys.len(),
{
    let n = m.keys.len() as int;
    if n == 0 {
        assert(m.keys =~= Seq::<KV>::empty());
        assert(m.keys.to_set() =~= Set::<KV>::empty());
        assert(m.rows =~= Map::<KV, Seq<VV>>::empty());
        assert(m.pairs() =~= Seq::<(KV, VV)>::empty());
        assert(from_pairs_model(m.pairs()) =~= m);
    } else {
        let mp = m.pop_pair();
        lemma_remove_pair(m, n - 1);
        assert(mp.pairs() == m.pairs().remove(n - 1));
        assert(m.pairs().remove(n - 1) =~= m.pairs().drop_last());
        lemma_pairs_round_trip(mp);
        lemma_pop_push(m);
        assert(m.pairs().len() == n);
        assert(from_pairs_model(m.pairs()) == from_pairs_model(
            m.pairs().drop_last(),
        ).push_pair(m.last_pair().0, m.last_pair().1));
        assert(from_pairs_model(m.pairs()) == mp.push_pair(m.last_pair().0, m.last_pair().1));
    }
}

/// The sum of `f` over a finite set.
pub open spec fn set_sum<A>(s: Set<A>, f: spec_fn(A) -> nat) -> nat
    decreases s.len(),
    when s.finite()
{
    if s.finite() && s.len() > 0 {
        let x = s.choose();
        f(x) + set_sum(s.remove(x), f)
    } else {
        0
    }
}

/// Any member may be split off the sum first.
proof fn lemma_set_sum_remove<A>(s: Set<A>, f: spec_fn(A) -> nat, x: A)
    requires
        s.finite(),
        s.contains(x),
    ensures
        set_sum(s, f) == f(x) + set_sum(s.remove(x), f),
    decreases s.len(),
{
    broadcast use vstd::set_lib::group_set_properties;

    let c = s.choose();
    assert(s.contains(c));
    if c != x {
        lemma_set_sum_remove(s.remove(c), f, x);
        lemma_set_sum_remove(s.remove(x), f, c);
        assert(s.remove(c).remove(x) =~= s.remove(x).remove(c));
    }
}

/// Sums agree when the summands agree on the set.
proof fn lemma_set_sum_congruent<A>(s: Set<A>, f: spec_fn(A) -> nat, g: spec_fn(A) -> nat)
    requires
        s.finite(),
        forall|x: A| s.contains(x) ==> f(x) == g(x),
    ensures
        set_sum(s, f) == set_sum(s, g),
    decreases s.len(),
{
    broadcast use vstd::set_lib::group_set_properties;

    if s.len() > 0 {
        let c = s.choose();
        assert(s.contains(c));
        lemma_set_sum_congruent(s.remove(c), f, g);
    }
}

/// The occurrence counts of the distinct keys add up to the length of the
/// key sequence.
proof fn lemma_occ_sum<KV>(keys: Seq<KV>)
    ensures
        keys.to_set().finite(),
        set_sum(keys.to_set(), |k: KV| occ_count(keys, k, keys.len() as int)) == keys.len(),
    decreases keys.len(),
{
    broadcast use vstd::seq_lib::seq_to_set_is_finite;
    broadcast use vstd::set_lib::group_set_properties;

    let n = keys.len() as int;
    let f = |k: KV| occ_count(keys, k, n);
    if keys.len() == 0 {
        assert(keys.to_set() =~= Set::<KV>::empty());
    } else {
        let ks = keys.drop_last();
        let k0 = keys.last();
        let g = |k: KV| occ_count(ks, k, n - 1);
        lemma_occ_sum(ks);
        ks.lemma_push_to_set_commute(k0);
        assert(keys =~= ks.push(k0));
        assert(keys.to_set() == ks.to_set().insert(k0));
        assert forall|k: KV| true implies #[trigger] f(k) == g(k) + (if k == k0 {
            1nat
        } else {
            0nat
        }) by {
            lemma_occ_agree(keys, ks, k, n - 1);
        }
        let s = keys.to_set();
        if ks.to_set().contains(k0) {
            assert(s =~= ks.to_set());
            lemma_set_sum_remove(s, f, k0);
            lemma_set_sum_remove(s, g, k0);
            lemma_set_sum_congruent(s.remove(k0), f, g);
        } else {
            assert(s.remove(k0) =~= ks.to_set());
            lemma_set_sum_remove(s, f, k0);
            lemma_set_sum_congruent(ks.to_set(), f, g);
            lemma_occ_contains(ks, k0);
            assert(f(k0) == 1);
        }
    }
}

impl<KV, VV> KeylistModel<KV, VV> {
    /// The total number of values held by the rows.
    pub open spec fn total_size(self) -> nat {
        set_sum(self.rows.dom(), |k: KV| self.rows[k].len())
    }
}

/// The global invariant: in any well-formed state, the row sizes add up to
/// the length of the key sequence, and no row is empty while its key is
/// indexed.
pub proof fn lemma_size_invariant<KV, VV>(m: KeylistModel<KV, VV>)
    requires
        m.wf(),
    ensures
        m.total_size() == m.keys.len(),
        forall|k: KV| #[trigger] m.rows.dom().contains(k) ==> m.rows[k].len() > 0,
{
    lemma_occ_sum(m.keys);
    lemma_set_sum_congruent(
        m.rows.dom(),
        |k: KV| m.rows[k].len(),
        |k: KV| occ_count(m.keys, k, m.keys.len() as int),
    );
    assert forall|k: KV| #[trigger] m.rows.dom().contains(k) implies m.rows[k].len() > 0 by {
        lemma_occ_contains(m.keys, k);
    }
}

} // verus!
