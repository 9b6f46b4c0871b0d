//! Ordering of plain values: a total preorder as a trait, and a merge sort
//! that arranges a vector by it.

use vstd::prelude::*;

verus! {

/// A total preorder with an executable test.
pub trait Ranked: Copy {
    /// Whether `self` may stand before `other`.
    spec fn le(self, other: Self) -> bool;

    proof fn le_total(a: Self, b: Self)
        ensures
            a.le(b) || b.le(a),
    ;

    proof fn le_transitive(a: Self, b: Self, c: Self)
        requires
            a.le(b),
            b.le(c),
        ensures
            a.le(c),
    ;

    fn is_le(self, other: Self) -> (result: bool)
        ensures
            result == self.le(other),
    ;
}

/// Every value may stand before every later one.
pub open spec fn ascending<T: Ranked>(s: Seq<T>) -> bool {
    forall|i: int, j: int| 0 <= i < j < s.len() ==> #[trigger] s[i].le(#[trigger] s[j])
}

/// The same values, with the same multiplicities, in ascending order.
pub open spec fn arranges<T: Ranked>(arranged: Seq<T>, original: Seq<T>) -> bool {
    ascending(arranged) && arranged.to_multiset() == original.to_multiset()
}

/// Sorts `values` in ascending order.
pub fn sort<T: Ranked>(values: &Vec<T>) -> (sorted: Vec<T>)
    ensures
        arranges(sorted@, values@),
        sorted@.len() == values@.len(),
{
    let sorted = sort_range(values, 0, values.len());
    proof {
        assert(values@.subrange(0, values@.len() as int) =~= values@);
        sorted@.to_multiset_ensures();
        values@.to_multiset_ensures();
    }
    sorted
}

fn sort_range<T: Ranked>(values: &Vec<T>, from: usize, to: usize) -> (sorted: Vec<T>)
    requires
        from <= to <= values@.len(),
    ensures
        arranges(sorted@, values@.subrange(from as int, to as int)),
    decreases to - from,
{
    if to - from <= 1 {
        let mut single: Vec<T> = Vec::new();
        if from < to {
            single.push(values[from]);
        }
        assert(single@ =~= values@.subrange(from as int, to as int));
        single
    } else {
        let middle: usize = from + (to - from) / 2;
        let left = sort_range(values, from, middle);
        let right = sort_range(values, middle, to);
        let merged = merge(&left, &right);
        proof {
            let a = values@.subrange(from as int, middle as int);
            let b = values@.subrange(middle as int, to as int);
            vstd::seq_lib::lemma_multiset_commutative(a, b);
            vstd::seq_lib::lemma_multiset_commutative(left@, right@);
            assert(a + b =~= values@.subrange(from as int, to as int));
        }
        merged
    }
}

fn merge<T: Ranked>(left: &Vec<T>, right: &Vec<T>) -> (merged: Vec<T>)
    requires
        ascending(left@),
        ascending(right@),
    ensures
        arranges(merged@, left@ + right@),
{
    let mut merged: Vec<T> = Vec::new();
    let mut i: usize = 0;
    let mut j: usize = 0;
    proof {
        assert(left@.take(0) + right@.take(0) =~= merged@);
    }
    while i < left.len() || j < right.len()
        invariant
            i <= left@.len(),
            j <= right@.len(),
            ascending(left@),
            ascending(right@),
            ascending(merged@),
            merged@.to_multiset() == (left@.take(i as int) + right@.take(j as int)).to_multiset(),
            forall|m: int, k: int|
                0 <= m < merged@.len() && i <= k < left@.len() ==> (#[trigger] merged@[m]).le(
                    #[trigger] left@[k],
                ),
            forall|m: int, k: int|
                0 <= m < merged@.len() && j <= k < right@.len() ==> (#[trigger] merged@[m]).le(
                    #[trigger] right@[k],
                ),
        decreases left@.len() - i + right@.len() - j,
    {
        let ghost before = merged@;
        let take_left: bool = if i >= left.len() {
            false
        } else if j >= right.len() {
            true
        } else {
            left[i].is_le(right[j])
        };
        proof {
            if i < left@.len() && j < right@.len() {
                T::le_total(left@[i as int], right@[j as int]);
            }
            vstd::seq_lib::lemma_multiset_commutative(left@.take(i as int), right@.take(j as int));
        }
        if take_left {
            let value = left[i];
            merged.push(value);
            proof {
                before.to_multiset_ensures();
                left@.take(i as int).to_multiset_ensures();
                assert(left@.take(i + 1) =~= left@.take(i as int).push(value));
                vstd::seq_lib::lemma_multiset_commutative(left@.take(i + 1), right@.take(j as int));
                assert(merged@.to_multiset() =~= (left@.take(i + 1) + right@.take(
                    j as int,
                )).to_multiset());
                assert forall|m: int, k: int|
                    0 <= m < merged@.len() && j <= k < right@.len() implies (
                #[trigger] merged@[m]).le(#[trigger] right@[k]) by {
                    if m == before.len() && k > j {
                        T::le_transitive(value, right@[j as int], right@[k]);
                    }
                }
            }
            i = i + 1;
        } else {
            let value = right[j];
            merged.push(value);
            proof {
                before.to_multiset_ensures();
                right@.take(j as int).to_multiset_ensures();
                assert(right@.take(j + 1) =~= right@.take(j as int).push(value));
                vstd::seq_lib::lemma_multiset_commutative(left@.take(i as int), right@.take(j + 1));
                assert(merged@.to_multiset() =~= (left@.take(i as int) + right@.take(
                    j + 1,
                )).to_multiset());
                assert forall|m: int, k: int|
                    0 <= m < merged@.len() && i <= k < left@.len() implies (
                #[trigger] merged@[m]).le(#[trigger] left@[k]) by {
                    if m == before.len() && k > i {
                        T::le_transitive(value, left@[i as int], left@[k]);
                    }
                }
            }
            j = j + 1;
        }
    }
    proof {
        assert(left@.take(left@.len() as int) =~= left@);
        assert(right@.take(right@.len() as int) =~= right@);
    }
    merged
}

/// A value stands in an arrangement exactly when it stands in the original.
pub proof fn lemma_arranges_contains<T: Ranked>(arranged: Seq<T>, original: Seq<T>, value: T)
    requires
        arranges(arranged, original),
    ensures
        arranged.contains(value) <==> original.contains(value),
        arranged.len() == original.len(),
{
    arranged.to_multiset_ensures();
    original.to_multiset_ensures();
    vstd::seq_lib::to_multiset_contains(arranged, value);
    vstd::seq_lib::to_multiset_contains(original, value);
}

/// A place in a vector with the number it is ordered by.
#[derive(Clone, Copy, Debug, PartialEq, Eq, Structural)]
pub struct Place {
    pub rank: usize,
    pub index: usize,
}

impl Ranked for Place {
    open spec fn le(self, other: Self) -> bool {
        self.rank < other.rank || (self.rank == other.rank && self.index <= other.index)
    }

    proof fn le_total(a: Self, b: Self) {
    }

    proof fn le_transitive(a: Self, b: Self, c: Self) {
    }

    fn is_le(self, other: Self) -> bool {
        self.rank < other.rank || (self.rank == other.rank && self.index <= other.index)
    }
}

/// Every place of `ranks` once, by ascending rank and, within a rank, by
/// ascending place.
pub open spec fn orders(places: Seq<Place>, ranks: Seq<usize>) -> bool {
    &&& places.len() == ranks.len()
    &&& forall|p: int|
        0 <= p < places.len() ==> (#[trigger] places[p]).index < ranks.len() && places[p].rank
            == ranks[places[p].index as int]
    &&& forall|p: int, q: int|
        0 <= p < q < places.len() ==> {
            ||| (#[trigger] places[p]).rank < (#[trigger] places[q]).rank
            ||| places[p].rank == places[q].rank && places[p].index < places[q].index
        }
    &&& forall|i: int| 0 <= i < ranks.len() ==> #[trigger] placed_somewhere(places, i)
    &&& places.to_multiset() == places_of(ranks).to_multiset()
}

pub open spec fn placed_somewhere(places: Seq<Place>, i: int) -> bool {
    exists|p: int| 0 <= p < places.len() && (#[trigger] places[p]).index == i
}

/// The places of `ranks` in their own order.
pub open spec fn places_of(ranks: Seq<usize>) -> Seq<Place> {
    Seq::new(ranks.len(), |i: int| Place { rank: ranks[i], index: i as usize })
}

/// Orders the places of a vector by the numbers in it.
pub fn order_places(ranks: &Vec<usize>) -> (places: Vec<Place>)
    ensures
        orders(places@, ranks@),
{
    let mut unsorted: Vec<Place> = Vec::new();
    let mut i: usize = 0;
    while i < ranks.len()
        invariant
            i <= ranks@.len(),
            unsorted@ =~= places_of(ranks@).take(i as int),
        decreases ranks@.len() - i,
    {
        unsorted.push(Place { rank: ranks[i], index: i });
        i = i + 1;
    }
    assert(unsorted@ =~= places_of(ranks@));
    let places = sort(&unsorted);
    proof {
        let n = ranks@.len() as int;
        assert(unsorted@.no_duplicates()) by {
            assert forall|a: int, b: int| 0 <= a < n && 0 <= b < n && a != b implies unsorted@[a]
                != unsorted@[b] by {
                assert(unsorted@[a].index == a);
                assert(unsorted@[b].index == b);
            }
        }
        unsorted@.lemma_multiset_has_no_duplicates();
        places@.lemma_multiset_has_no_duplicates_conv();
        assert forall|p: int| 0 <= p < places@.len() implies (#[trigger] places@[p]).index < n
            && places@[p].rank == ranks@[places@[p].index as int] by {
            lemma_arranges_contains(places@, unsorted@, places@[p]);
            assert(places@.contains(places@[p]));
            let k = choose|k: int| 0 <= k < n && unsorted@[k] == places@[p];
            assert(unsorted@[k].index == k);
        }
        assert forall|p: int, q: int| 0 <= p < q < places@.len() implies {
            ||| (#[trigger] places@[p]).rank < (#[trigger] places@[q]).rank
            ||| places@[p].rank == places@[q].rank && places@[p].index < places@[q].index
        } by {
            assert(places@[p].le(places@[q]));
            assert(places@[p] != places@[q]);
        }
        assert forall|i: int| 0 <= i < n implies #[trigger] placed_somewhere(places@, i) by {
            lemma_arranges_contains(places@, unsorted@, unsorted@[i]);
            assert(unsorted@.contains(unsorted@[i]));
            let p = choose|p: int| 0 <= p < places@.len() && places@[p] == unsorted@[i];
            assert(places@[p].index == i);
        }
    }
    places
}

} // verus!
