//! The lexicographic order that an order on elements induces on sequences.
//!
//! Two sequences are compared at the first position where they differ; if
//! there is none within the shorter one, the shorter sequence comes first.

use vstd::prelude::*;
use vstd::relations::*;

verus! {

/// `k` is the position at which `a` and `b` first differ: they agree before
/// `k`, and `k` is either the end of one of them or a position where their
/// elements are different.
pub open spec fn first_difference<T>(a: Seq<T>, b: Seq<T>, k: int) -> bool {
    &&& 0 <= k <= a.len()
    &&& k <= b.len()
    &&& forall|i: int| 0 <= i < k ==> a[i] == b[i]
    &&& (k < a.len() && k < b.len() ==> a[k] != b[k])
}

/// `a` comes before `b`, or equals it, in the lexicographic order induced by
/// `le`: at their first difference either `a` has ended, or the element of
/// `a` there is below that of `b`.
pub open spec fn lex_le<T>(a: Seq<T>, b: Seq<T>, le: spec_fn(T, T) -> bool) -> bool {
    exists|k: int| #[trigger]
        first_difference(a, b, k) && (k == a.len() || (k < b.len() && le(a[k], b[k])))
}

proof fn lemma_first_difference_from<T>(a: Seq<T>, b: Seq<T>, from: int) -> (k: int)
    requires
        0 <= from <= a.len(),
        from <= b.len(),
        forall|i: int| 0 <= i < from ==> a[i] == b[i],
    ensures
        first_difference(a, b, k),
    decreases a.len() - from,
{
    if from < a.len() && from < b.len() && a[from] == b[from] {
        lemma_first_difference_from(a, b, from + 1)
    } else {
        from
    }
}

/// Any two sequences have a first difference.
pub proof fn lemma_first_difference_exists<T>(a: Seq<T>, b: Seq<T>) -> (k: int)
    ensures
        first_difference(a, b, k),
{
    lemma_first_difference_from(a, b, 0)
}

/// The first difference of two sequences is unique, and the same whichever
/// sequence is named first.
pub proof fn lemma_first_difference_unique<T>(a: Seq<T>, b: Seq<T>, k1: int, k2: int)
    requires
        first_difference(a, b, k1),
        first_difference(a, b, k2) || first_difference(b, a, k2),
    ensures
        k1 == k2,
{
    if k1 < k2 {
        assert(a[k1] == b[k1]);
    } else if k2 < k1 {
        assert(a[k2] == b[k2]);
    }
}

/// Sequences whose first difference is at the end of both are equal.
pub proof fn lemma_first_difference_at_end<T>(a: Seq<T>, b: Seq<T>, k: int)
    requires
        first_difference(a, b, k),
        k == a.len(),
        k == b.len(),
    ensures
        a == b,
{
    assert(a =~= b);
}

/// The lexicographic order is reflexive.
pub proof fn lemma_lex_le_reflexive<T>(a: Seq<T>, le: spec_fn(T, T) -> bool)
    ensures
        lex_le(a, a, le),
{
    assert(first_difference(a, a, a.len() as int));
}

/// The lexicographic order of a total order compares any two sequences.
pub proof fn lemma_lex_le_total<T>(a: Seq<T>, b: Seq<T>, le: spec_fn(T, T) -> bool)
    requires
        strongly_connected(le),
    ensures
        lex_le(a, b, le) || lex_le(b, a, le),
{
    let k = lemma_first_difference_exists(a, b);
    assert(first_difference(b, a, k));
    if k < a.len() && k < b.len() {
        assert(le(a[k], b[k]) || le(b[k], a[k]));
    }
}

/// The lexicographic order of an antisymmetric order is antisymmetric.
pub proof fn lemma_lex_le_antisymmetric<T>(a: Seq<T>, b: Seq<T>, le: spec_fn(T, T) -> bool)
    requires
        antisymmetric(le),
        lex_le(a, b, le),
        lex_le(b, a, le),
    ensures
        a == b,
{
    let k1 = choose|k: int| #[trigger]
        first_difference(a, b, k) && (k == a.len() || (k < b.len() && le(a[k], b[k])));
    let k2 = choose|k: int| #[trigger]
        first_difference(b, a, k) && (k == b.len() || (k < a.len() && le(b[k], a[k])));
    lemma_first_difference_unique(a, b, k1, k2);
    if k1 < a.len() && k1 < b.len() {
        assert(le(a[k1], b[k1]) && le(b[k1], a[k1]));
    }
    lemma_first_difference_at_end(a, b, k1);
}

/// The lexicographic order of a total order is transitive.
pub proof fn lemma_lex_le_transitive<T>(
    a: Seq<T>,
    b: Seq<T>,
    c: Seq<T>,
    le: spec_fn(T, T) -> bool,
)
    requires
        antisymmetric(le),
        transitive(le),
        lex_le(a, b, le),
        lex_le(b, c, le),
    ensures
        lex_le(a, c, le),
{
    let k1 = choose|k: int| #[trigger]
        first_difference(a, b, k) && (k == a.len() || (k < b.len() && le(a[k], b[k])));
    let k2 = choose|k: int| #[trigger]
        first_difference(b, c, k) && (k == b.len() || (k < c.len() && le(b[k], c[k])));
    let k = if k1 <= k2 { k1 } else { k2 };
    assert forall|i: int| 0 <= i < k implies a[i] == c[i] by {
        assert(a[i] == b[i]);
        assert(b[i] == c[i]);
    }
    if k < a.len() && k < c.len() {
        if k1 == k2 {
            assert(le(a[k], b[k]) && le(b[k], c[k]));
            assert(le(a[k], c[k]));
            if a[k] == c[k] {
                assert(le(b[k], a[k]));
            }
        } else if k1 < k2 {
            assert(b[k] == c[k]);
        } else {
            assert(a[k] == b[k]);
        }
    }
    assert(first_difference(a, c, k));
}

/// What lies between two sequences that share a prefix shares it too.
pub proof fn lemma_lex_between<T>(
    a: Seq<T>,
    b: Seq<T>,
    c: Seq<T>,
    le: spec_fn(T, T) -> bool,
    m: int,
)
    requires
        antisymmetric(le),
        lex_le(a, b, le),
        lex_le(b, c, le),
        0 <= m <= a.len(),
        m <= c.len(),
        forall|i: int| 0 <= i < m ==> a[i] == c[i],
    ensures
        m <= b.len(),
        forall|i: int| 0 <= i < m ==> a[i] == b[i],
{
    let k1 = choose|k: int| #[trigger]
        first_difference(a, b, k) && (k == a.len() || (k < b.len() && le(a[k], b[k])));
    let k2 = choose|k: int| #[trigger]
        first_difference(b, c, k) && (k == b.len() || (k < c.len() && le(b[k], c[k])));
    if k1 < m {
        assert(a[k1] == c[k1]);
        assert(le(a[k1], b[k1]));
        if k2 < k1 {
            assert(a[k2] == b[k2]);
            assert(a[k2] == c[k2]);
        } else if k2 == k1 {
            assert(le(b[k1], c[k1]));
        } else {
            assert(b[k1] == c[k1]);
        }
    }
}

} // verus!
