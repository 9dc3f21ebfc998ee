//! Element types that the keylists can compare and copy.
//!
//! Keys and values are abstracted by their deep view.  `Element` asks for an
//! executable equality test and a way to duplicate a value without changing
//! its abstract value; `TotalOrder` adds a decidable total order, used by the
//! sorting operations.

use vstd::prelude::*;

verus! {

/// An element with an abstract value (its deep view), an executable equality
/// test on that abstract value, and a way to duplicate it.
pub trait Element: DeepView + Sized {
    /// Produce a copy holding the same abstract value.
    fn dup(&self) -> (r: Self)
        ensures
            r.deep_view() == self.deep_view(),
    ;

    /// Decide equality of the abstract values.
    fn eq_elem(&self, other: &Self) -> (r: bool)
        ensures
            r == (self.deep_view() == other.deep_view()),
    ;
}

/// A decidable total order on the abstract values of an element type.
pub trait TotalOrder: Element {
    /// `a` comes no later than `b`.
    spec fn le_spec(a: Self::V, b: Self::V) -> bool;

    proof fn lemma_total(a: Self::V, b: Self::V)
        ensures
            Self::le_spec(a, b) || Self::le_spec(b, a),
    ;

    proof fn lemma_transitive(a: Self::V, b: Self::V, c: Self::V)
        requires
            Self::le_spec(a, b),
            Self::le_spec(b, c),
        ensures
            Self::le_spec(a, c),
    ;

    proof fn lemma_antisymmetric(a: Self::V, b: Self::V)
        requires
            Self::le_spec(a, b),
            Self::le_spec(b, a),
        ensures
            a == b,
    ;

    /// Decide the order on the abstract values.
    fn le_elem(&self, other: &Self) -> (r: bool)
        ensures
            r == Self::le_spec(self.deep_view(), other.deep_view()),
    ;
}

impl Element for i64 {
    fn dup(&self) -> (r: i64) {
        *self
    }

    fn eq_elem(&self, other: &Self) -> (r: bool) {
        *self == *other
    }
}

impl TotalOrder for i64 {
    open spec fn le_spec(a: i64, b: i64) -> bool {
        a <= b
    }

    proof fn lemma_total(a: i64, b: i64) {
    }

    proof fn lemma_transitive(a: i64, b: i64, c: i64) {
    }

    proof fn lemma_antisymmetric(a: i64, b: i64) {
    }

    fn le_elem(&self, other: &Self) -> (r: bool) {
        *self <= *other
    }
}

impl Element for u64 {
    fn dup(&self) -> (r: u64) {
        *self
    }

    fn eq_elem(&self, other: &Self) -> (r: bool) {
        *self == *other
    }
}

impl TotalOrder for u64 {
    open spec fn le_spec(a: u64, b: u64) -> bool {
        a <= b
    }

    proof fn lemma_total(a: u64, b: u64) {
    }

    proof fn lemma_transitive(a: u64, b: u64, c: u64) {
    }

    proof fn lemma_antisymmetric(a: u64, b: u64) {
    }

    fn le_elem(&self, other: &Self) -> (r: bool) {
        *self <= *other
    }
}

/// Lexicographic order on character sequences, comparing Unicode scalar
/// values position by position.
pub open spec fn lex_le(a: Seq<char>, b: Seq<char>) -> bool
    decreases a.len(),
{
    if a.len() == 0 {
        true
    } else if b.len() == 0 {
        false
    } else if a[0] as u32 == b[0] as u32 {
        lex_le(a.drop_first(), b.drop_first())
    } else {
        (a[0] as u32) < (b[0] as u32)
    }
}

pub proof fn lemma_lex_le_total(a: Seq<char>, b: Seq<char>)
    ensures
        lex_le(a, b) || lex_le(b, a),
    decreases a.len(),
{
    if a.len() == 0 {
    } else if b.len() == 0 {
    } else if a[0] as u32 == b[0] as u32 {
        lemma_lex_le_total(a.drop_first(), b.drop_first());
    }
}

pub proof fn lemma_lex_le_transitive(a: Seq<char>, b: Seq<char>, c: Seq<char>)
    requires
        lex_le(a, b),
        lex_le(b, c),
    ensures
        lex_le(a, c),
    decreases a.len(),
{
    if a.len() == 0 {
    } else {
        assert(b.len() > 0);
        assert(c.len() > 0);
        if a[0] as u32 == b[0] as u32 && b[0] as u32 == c[0] as u32 {
            lemma_lex_le_transitive(a.drop_first(), b.drop_first(), c.drop_first());
        }
    }
}

pub proof fn lemma_lex_le_antisymmetric(a: Seq<char>, b: Seq<char>)
    requires
        lex_le(a, b),
        lex_le(b, a),
    ensures
        a == b,
    decreases a.len(),
{
    if a.len() == 0 {
        assert(b.len() == 0);
        assert(a =~= b);
    } else {
        assert(b.len() > 0);
        if a[0] as u32 != b[0] as u32 {
            assert((a[0] as u32) < (b[0] as u32));
            assert((b[0] as u32) < (a[0] as u32));
        }
        assert(a[0] as u32 == b[0] as u32);
        vstd::utf8::char_u32_cast(a[0], a[0] as u32);
        vstd::utf8::char_u32_cast(b[0], b[0] as u32);
        assert(a[0] == b[0]);
        lemma_lex_le_antisymmetric(a.drop_first(), b.drop_first());
        assert forall|i: int| 0 <= i < a.len() implies a[i] == b[i] by {
            if i > 0 {
                assert(a[i] == a.drop_first()[i - 1]);
                assert(b[i] == b.drop_first()[i - 1]);
            }
        }
        assert(a =~= b);
    }
}

impl Element for String {
    fn dup(&self) -> (r: String) {
        self.clone()
    }

    fn eq_elem(&self, other: &Self) -> (r: bool) {
        self.eq(other)
    }
}

impl TotalOrder for String {
    open spec fn le_spec(a: Seq<char>, b: Seq<char>) -> bool {
        lex_le(a, b)
    }

    proof fn lemma_total(a: Seq<char>, b: Seq<char>) {
        lemma_lex_le_total(a, b);
    }

    proof fn lemma_transitive(a: Seq<char>, b: Seq<char>, c: Seq<char>) {
        lemma_lex_le_transitive(a, b, c);
    }

    proof fn lemma_antisymmetric(a: Seq<char>, b: Seq<char>) {
        lemma_lex_le_antisymmetric(a, b);
    }

    fn le_elem(&self, other: &Self) -> (r: bool) {
        let a = self.as_str();
        let b = other.as_str();
        let alen = a.unicode_len();
        let blen = b.unicode_len();
        let mut i: usize = 0;
        proof {
            assert(self@.skip(0) =~= self@);
            assert(other@.skip(0) =~= other@);
        }
        loop
            invariant
                i <= alen,
                i <= blen,
                alen == self@.len(),
                blen == other@.len(),
                a@ == self@,
                b@ == other@,
                lex_le(self@, other@) == lex_le(
                    self@.skip(i as int),
                    other@.skip(i as int),
                ),
            decreases alen - i,
        {
            if i >= alen {
                return true;
            }
            if i >= blen {
                return false;
            }
            let ca = a.get_char(i);
            let cb = b.get_char(i);
            if ca as u32 == cb as u32 {
                proof {
                    assert(self@.skip(i as int).drop_first() =~= self@.skip(i as int + 1));
                    assert(other@.skip(i as int).drop_first() =~= other@.skip(i as int + 1));
                }
                i = i + 1;
            } else {
                return (ca as u32) < (cb as u32);
            }
        }
    }
}

impl<A: Element, B: Element> Element for (A, B) {
    fn dup(&self) -> (r: (A, B)) {
        (self.0.dup(), self.1.dup())
    }

    fn eq_elem(&self, other: &Self) -> (r: bool) {
        self.0.eq_elem(&other.0) && self.1.eq_elem(&other.1)
    }
}

impl<A: TotalOrder, B: TotalOrder> TotalOrder for (A, B) {
    /// Lexicographic order on pairs: by first component, then by second.
    open spec fn le_spec(a: (A::V, B::V), b: (A::V, B::V)) -> bool {
        if a.0 == b.0 {
            B::le_spec(a.1, b.1)
        } else {
            A::le_spec(a.0, b.0)
        }
    }

    proof fn lemma_total(a: (A::V, B::V), b: (A::V, B::V)) {
        if a.0 == b.0 {
            B::lemma_total(a.1, b.1);
        } else {
            A::lemma_total(a.0, b.0);
        }
    }

    proof fn lemma_transitive(a: (A::V, B::V), b: (A::V, B::V), c: (A::V, B::V)) {
        if a.0 == b.0 && b.0 == c.0 {
            B::lemma_transitive(a.1, b.1, c.1);
        } else if a.0 != b.0 && b.0 != c.0 {
            A::lemma_transitive(a.0, b.0, c.0);
            if a.0 == c.0 {
                A::lemma_antisymmetric(b.0, c.0);
            }
        }
    }

    proof fn lemma_antisymmetric(a: (A::V, B::V), b: (A::V, B::V)) {
        if a.0 == b.0 {
            B::lemma_antisymmetric(a.1, b.1);
        } else {
            A::lemma_antisymmetric(a.0, b.0);
        }
    }

    fn le_elem(&self, other: &Self) -> (r: bool) {
        if self.0.eq_elem(&other.0) {
            self.1.le_elem(&other.1)
        } else {
            self.0.le_elem(&other.0)
        }
    }
}

} // verus!
