//! Sorting without repetitions, for values that have a total order.

use vstd::prelude::*;
use vstd::relations::{asymmetric, sorted_by};

verus! {

/// Values with a total order that can be decided.
pub trait Ordered: Sized {
    /// `self` comes before `other`, or at the same place.
    spec fn comes_before(&self, other: &Self) -> bool;

    /// Of any two values one comes before the other.
    proof fn lemma_comparable(a: &Self, b: &Self)
        ensures
            a.comes_before(b) || b.comes_before(a),
    ;

    /// What comes before a value comes before all that the value comes
    /// before.
    proof fn lemma_transitive(a: &Self, b: &Self, c: &Self)
        requires
            a.comes_before(b),
            b.comes_before(c),
        ensures
            a.comes_before(c),
    ;

    /// Decides the order.
    fn is_at_most(&self, other: &Self) -> (at_most: bool)
        ensures
            at_most == self.comes_before(other),
    ;
}

/// Neither value comes strictly before the other.
pub open spec fn same_place<T: Ordered>(a: &T, b: &T) -> bool {
    a.comes_before(b) && b.comes_before(a)
}

/// `values` holds a value at the place of `item` in the order.
pub open spec fn holds_place_of<T: Ordered>(values: Seq<T>, item: &T) -> bool {
    exists|j: int| 0 <= j < values.len() && #[trigger] same_place(&values[j], item)
}

/// Each value comes strictly before all that follow it.
pub open spec fn strictly_ascending<T: Ordered>(values: Seq<T>) -> bool {
    forall|i: int, j: int|
        0 <= i < j < values.len() ==> #[trigger] values[i].comes_before(&values[j])
            && !values[j].comes_before(&values[i])
}

/// The position in `sorted` of the first value that `item` does not come
/// strictly after: the length of `sorted` if there is none.
pub fn lower_bound<T: Ordered>(sorted: &Vec<T>, item: &T) -> (position: usize)
    requires
        strictly_ascending(sorted@),
    ensures
        position <= sorted@.len(),
        forall|i: int| 0 <= i < position ==> !item.comes_before(#[trigger] &sorted@[i]),
        forall|i: int| position <= i < sorted@.len() ==> item.comes_before(#[trigger] &sorted@[i]),
{
    let mut low: usize = 0;
    let mut high: usize = sorted.len();
    while low < high
        invariant
            low <= high <= sorted@.len(),
            strictly_ascending(sorted@),
            forall|i: int| 0 <= i < low ==> !item.comes_before(#[trigger] &sorted@[i]),
            forall|i: int| high <= i < sorted@.len() ==> item.comes_before(#[trigger] &sorted@[i]),
        decreases high - low,
    {
        let middle: usize = low + (high - low) / 2;
        if item.is_at_most(&sorted[middle]) {
            assert forall|i: int| middle <= i < sorted@.len() implies item.comes_before(
                #[trigger] &sorted@[i],
            ) by {
                if middle < i {
                    assert(sorted@[middle as int].comes_before(&sorted@[i]));
                    T::lemma_transitive(item, &sorted@[middle as int], &sorted@[i]);
                }
            }
            high = middle;
        } else {
            assert forall|i: int| 0 <= i < middle + 1 implies !item.comes_before(
                #[trigger] &sorted@[i],
            ) by {
                if i < middle && item.comes_before(&sorted@[i]) {
                    assert(sorted@[i].comes_before(&sorted@[middle as int]));
                    T::lemma_transitive(item, &sorted@[i], &sorted@[middle as int]);
                }
            }
            low = middle + 1;
        }
    }
    low
}

/// Puts `item` at its place in `sorted`, unless a value at the same place
/// is there already.
pub fn insert_distinct<T: Ordered>(sorted: &mut Vec<T>, item: T)
    requires
        strictly_ascending(old(sorted)@),
    ensures
        strictly_ascending(final(sorted)@),
        forall|x: T| #[trigger] final(sorted)@.contains(x) ==> old(sorted)@.contains(x) || x == item,
        forall|x: T| #[trigger] old(sorted)@.contains(x) ==> final(sorted)@.contains(x),
        holds_place_of(final(sorted)@, &item),
{
    let position = lower_bound(sorted, &item);
    if position < sorted.len() && sorted[position].is_at_most(&item) {
        assert(same_place(&sorted@[position as int], &item));
        return ;
    }
    let ghost before = sorted@;
    let ghost placed = item;
    sorted.insert(position, item);
    proof {
        let after = sorted@;
        let p = position as int;
        assert(after[p] == placed);
        assert forall|i: int| 0 <= i < p implies (#[trigger] before[i]).comes_before(&placed)
            && !placed.comes_before(&before[i]) by {
            T::lemma_comparable(&before[i], &placed);
        }
        assert forall|i: int| p <= i < before.len() implies !(#[trigger] before[i]).comes_before(
            &placed,
        ) by {
            if before[i].comes_before(&placed) {
                if p < i {
                    assert(before[p].comes_before(&before[i]));
                    T::lemma_transitive(&before[p], &before[i], &placed);
                }
            }
        }
        assert forall|i: int, j: int| 0 <= i < j < after.len() implies #[trigger] after[i].comes_before(
            &after[j],
        ) && !after[j].comes_before(&after[i]) by {
            if j < p {
                assert(before[i].comes_before(&before[j]));
            } else if j == p {
                assert(before[i].comes_before(&placed));
            } else if i < p {
                assert(before[i].comes_before(&before[j - 1]));
            } else if i == p {
                assert(placed.comes_before(&before[j - 1]));
                assert(!before[j - 1].comes_before(&placed));
            } else {
                assert(before[i - 1].comes_before(&before[j - 1]));
            }
        }
        assert forall|x: T| #[trigger] after.contains(x) implies before.contains(x) || x
            == placed by {
            let i = choose|i: int| 0 <= i < after.len() && after[i] == x;
            if i < p {
                assert(before[i] == x);
            } else if i > p {
                assert(before[i - 1] == x);
            }
        }
        assert forall|x: T| #[trigger] before.contains(x) implies after.contains(x) by {
            let i = choose|i: int| 0 <= i < before.len() && before[i] == x;
            if i < p {
                assert(after[i] == x);
            } else {
                assert(after[i + 1] == x);
            }
        }
        T::lemma_comparable(&placed, &placed);
        assert(same_place(&after[p], &placed));
    }
}

/// The values of `items` in ascending order, one for each place in the
/// order that a value of `items` has.
pub fn sort_distinct<T: Ordered>(items: Vec<T>) -> (sorted: Vec<T>)
    ensures
        strictly_ascending(sorted@),
        forall|x: T| #[trigger] sorted@.contains(x) ==> items@.contains(x),
        forall|i: int| 0 <= i < items@.len() ==> holds_place_of(sorted@, #[trigger] &items@[i]),
{
    let ghost all = items@;
    let mut rest = items;
    let mut sorted: Vec<T> = Vec::new();
    while rest.len() > 0
        invariant
            rest@.len() <= all.len(),
            rest@ == all.take(rest@.len() as int),
            strictly_ascending(sorted@),
            forall|x: T| #[trigger] sorted@.contains(x) ==> all.contains(x),
            forall|i: int|
                rest@.len() <= i < all.len() ==> holds_place_of(sorted@, #[trigger] &all[i]),
        decreases rest@.len(),
    {
        let ghost before = sorted@;
        let ghost n = rest@.len() as int;
        let item = rest.pop().unwrap();
        assert(item == all[n - 1]);
        assert(rest@ =~= all.take(n - 1));
        insert_distinct(&mut sorted, item);
        proof {
            assert forall|i: int| n - 1 <= i < all.len() implies holds_place_of(
                sorted@,
                #[trigger] &all[i],
            ) by {
                if i >= n {
                    assert(holds_place_of(before, &all[i]));
                    let j = choose|j: int|
                        0 <= j < before.len() && #[trigger] same_place(&before[j], &all[i]);
                    assert(before.contains(before[j]));
                    assert(sorted@.contains(before[j]));
                    let j2 = choose|j2: int| 0 <= j2 < sorted@.len() && sorted@[j2] == before[j];
                    assert(same_place(&sorted@[j2], &all[i]));
                }
            }
        }
    }
    sorted
}

/// Two sequences in strictly ascending order that hold the same values are
/// the same sequence.
pub proof fn lemma_sorted_by_same_members<T>(a: Seq<T>, b: Seq<T>, before: spec_fn(T, T) -> bool)
    requires
        asymmetric(before),
        sorted_by(a, before),
        sorted_by(b, before),
        forall|i: int| 0 <= i < a.len() ==> b.contains(#[trigger] a[i]),
        forall|j: int| 0 <= j < b.len() ==> a.contains(#[trigger] b[j]),
    ensures
        a == b,
    decreases a.len(),
{
    if a.len() == 0 {
        if b.len() > 0 {
            assert(a.contains(b[0]));
        }
        assert(a =~= b);
    } else if b.len() == 0 {
        assert(b.contains(a[0]));
    } else {
        let last_a = a.last();
        let last_b = b.last();
        assert(b.contains(last_a));
        assert(a.contains(last_b));
        let ja = choose|j: int| 0 <= j < b.len() && b[j] == last_a;
        let ib = choose|i: int| 0 <= i < a.len() && a[i] == last_b;
        if ja < b.len() - 1 {
            assert(before(b[ja], b[b.len() - 1]));
        }
        if ib < a.len() - 1 {
            assert(before(a[ib], a[a.len() - 1]));
        }
        assert(last_a == last_b);
        let shorter_a = a.drop_last();
        let shorter_b = b.drop_last();
        assert forall|i: int| 0 <= i < shorter_a.len() implies shorter_b.contains(
            #[trigger] shorter_a[i],
        ) by {
            assert(b.contains(a[i]));
            let j = choose|j: int| 0 <= j < b.len() && b[j] == a[i];
            assert(before(a[i], a[a.len() - 1]));
            assert(shorter_b[j] == a[i]);
        }
        assert forall|j: int| 0 <= j < shorter_b.len() implies shorter_a.contains(
            #[trigger] shorter_b[j],
        ) by {
            assert(a.contains(b[j]));
            let i = choose|i: int| 0 <= i < a.len() && a[i] == b[j];
            assert(before(b[j], b[b.len() - 1]));
            assert(shorter_a[i] == b[j]);
        }
        assert forall|i: int, j: int| 0 <= i < j < shorter_a.len() implies #[trigger] before(
            shorter_a[i],
            shorter_a[j],
        ) by {
            assert(before(a[i], a[j]));
        }
        assert forall|i: int, j: int| 0 <= i < j < shorter_b.len() implies #[trigger] before(
            shorter_b[i],
            shorter_b[j],
        ) by {
            assert(before(b[i], b[j]));
        }
        lemma_sorted_by_same_members(shorter_a, shorter_b, before);
        assert(a =~= shorter_a.push(last_a));
        assert(b =~= shorter_b.push(last_b));
    }
}

} // verus!
