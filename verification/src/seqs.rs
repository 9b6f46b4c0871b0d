//! Facts about sequences: filters, multisets and sums.

use vstd::prelude::*;

verus! {

/// A contiguous run is what a filter keeps when it keeps exactly that run.
pub proof fn lemma_filter_run<T>(s: Seq<T>, keep: spec_fn(T) -> bool, from: int, to: int)
    requires
        0 <= from <= to <= s.len(),
        forall|i: int| 0 <= i < s.len() ==> (keep(#[trigger] s[i]) <==> from <= i < to),
    ensures
        s.filter(keep) == s.subrange(from, to),
    decreases s.len(),
{
    reveal(Seq::filter);
    if s.len() > 0 {
        let last = s.len() - 1;
        let rest = s.drop_last();
        if to == s.len() && from < to {
            lemma_filter_run(rest, keep, from, last);
            assert(s.subrange(from, to) =~= rest.subrange(from, last).push(s.last()));
        } else if to == s.len() {
            assert forall|i: int| 0 <= i < rest.len() implies (keep(#[trigger] rest[i]) <==> last
                <= i < last) by {
                assert(rest[i] == s[i]);
            }
            lemma_filter_run(rest, keep, last, last);
            assert(s.subrange(from, to) =~= rest.subrange(last, last));
        } else {
            lemma_filter_run(rest, keep, from, to);
            assert(s.subrange(from, to) =~= rest.subrange(from, to));
        }
    } else {
        assert(s.filter(keep) =~= s.subrange(from, to));
    }
}

/// Filtering commutes with forgetting the order.
pub proof fn lemma_filter_multiset<T>(s: Seq<T>, keep: spec_fn(T) -> bool)
    ensures
        s.filter(keep).to_multiset() == s.to_multiset().filter(keep),
    decreases s.len(),
{
    reveal(Seq::filter);
    s.to_multiset_ensures();
    if s.len() > 0 {
        let rest = s.drop_last();
        lemma_filter_multiset(rest, keep);
        rest.to_multiset_ensures();
        rest.filter(keep).to_multiset_ensures();
        assert(s =~= rest.push(s.last()));
        assert(s.filter(keep).to_multiset() =~= s.to_multiset().filter(keep));
    } else {
        assert(s.filter(keep) =~= s);
        assert(s.filter(keep).to_multiset() =~= s.to_multiset().filter(keep));
    }
}

/// Rearranging does not change how many elements a filter keeps.
pub proof fn lemma_filter_len_rearranged<T>(a: Seq<T>, b: Seq<T>, keep: spec_fn(T) -> bool)
    requires
        a.to_multiset() == b.to_multiset(),
    ensures
        a.filter(keep).len() == b.filter(keep).len(),
{
    lemma_filter_multiset(a, keep);
    lemma_filter_multiset(b, keep);
    a.filter(keep).to_multiset_ensures();
    b.filter(keep).to_multiset_ensures();
}

/// Filters that agree place by place keep equally many.
pub proof fn lemma_filter_len_parallel<A, B>(
    a: Seq<A>,
    b: Seq<B>,
    keep_a: spec_fn(A) -> bool,
    keep_b: spec_fn(B) -> bool,
)
    requires
        a.len() == b.len(),
        forall|i: int| 0 <= i < a.len() ==> keep_a(#[trigger] a[i]) == keep_b(b[i]),
    ensures
        a.filter(keep_a).len() == b.filter(keep_b).len(),
    decreases a.len(),
{
    reveal(Seq::filter);
    if a.len() > 0 {
        assert forall|i: int| 0 <= i < a.drop_last().len() implies keep_a(
            #[trigger] a.drop_last()[i],
        ) == keep_b(b.drop_last()[i]) by {
            assert(a.drop_last()[i] == a[i]);
        }
        lemma_filter_len_parallel(a.drop_last(), b.drop_last(), keep_a, keep_b);
        assert(a[a.len() - 1] == a.last());
    }
}

/// One more element through a filter.
pub proof fn lemma_filter_step<T>(s: Seq<T>, keep: spec_fn(T) -> bool, i: int)
    requires
        0 <= i < s.len(),
    ensures
        s.take(i + 1).filter(keep) == (if keep(s[i]) {
            s.take(i).filter(keep).push(s[i])
        } else {
            s.take(i).filter(keep)
        }),
        s.take(i + 1).filter(keep).len() <= i + 1,
        s.take(i + 1).filter(keep).len() <= s.filter(keep).len(),
{
    reveal(Seq::filter);
    assert(s.take(i + 1).drop_last() =~= s.take(i));
    s.take(i + 1).lemma_filter_len(keep);
    assert(s =~= s.take(i + 1) + s.skip(i + 1));
    Seq::filter_distributes_over_add(s.take(i + 1), s.skip(i + 1), keep);
}

/// The sum of natural numbers.
pub open spec fn sum(amounts: Seq<nat>) -> nat
    decreases amounts.len(),
{
    if amounts.len() == 0 {
        0
    } else {
        sum(amounts.drop_last()) + amounts.last()
    }
}

pub proof fn lemma_sum_push(amounts: Seq<nat>, amount: nat)
    ensures
        sum(amounts.push(amount)) == sum(amounts) + amount,
{
    assert(amounts.push(amount).drop_last() =~= amounts);
}

/// Summing one element more.
pub proof fn lemma_sum_take(amounts: Seq<nat>, i: int)
    requires
        0 <= i < amounts.len(),
    ensures
        sum(amounts.take(i + 1)) == sum(amounts.take(i)) + amounts[i],
        sum(amounts.take(i + 1)) <= sum(amounts),
    decreases amounts.len() - i,
{
    assert(amounts.take(i + 1).drop_last() =~= amounts.take(i));
    if i + 1 < amounts.len() {
        lemma_sum_take(amounts, i + 1);
    } else {
        assert(amounts.take(i + 1) =~= amounts);
    }
}

/// A sum of numbers that are each small is small.
pub proof fn lemma_sum_bound(amounts: Seq<nat>, bound: nat)
    requires
        forall|i: int| 0 <= i < amounts.len() ==> (#[trigger] amounts[i]) <= bound,
    ensures
        sum(amounts) <= amounts.len() * bound,
    decreases amounts.len(),
{
    if amounts.len() > 0 {
        lemma_sum_bound(amounts.drop_last(), bound);
        let n = amounts.len() as int;
        assert((n - 1) * bound + bound == n * bound) by (nonlinear_arith);
    } else {
        assert(0 * bound == 0) by (nonlinear_arith);
    }
}

/// Sums that agree place by place are equal; smaller terms, smaller sum.
pub proof fn lemma_sum_monotone(a: Seq<nat>, b: Seq<nat>)
    requires
        a.len() == b.len(),
        forall|i: int| 0 <= i < a.len() ==> (#[trigger] a[i]) <= b[i],
    ensures
        sum(a) <= sum(b),
    decreases a.len(),
{
    if a.len() > 0 {
        assert(a[a.len() - 1] <= b[b.len() - 1]);
        assert forall|i: int| 0 <= i < a.drop_last().len() implies (#[trigger] a.drop_last()[i])
            <= b.drop_last()[i] by {
            assert(a[i] <= b[i]);
        }
        lemma_sum_monotone(a.drop_last(), b.drop_last());
    }
}

/// A sum over a sequence does not depend on its order.
pub proof fn lemma_sum_rearranged<T>(a: Seq<T>, b: Seq<T>, weight: spec_fn(T) -> nat)
    requires
        a.to_multiset() == b.to_multiset(),
    ensures
        sum(a.map_values(weight)) == sum(b.map_values(weight)),
{
    let weigh = |item: T, total: nat| total + weight(item);
    assert forall|x: T, y: T, v: nat| #[trigger] weigh(x, weigh(y, v)) == weigh(
        y,
        weigh(x, v),
    ) by {}
    vstd::seq_lib::lemma_fold_right_permutation(a, b, weigh, 0);
    lemma_sum_folds(a, weight, 0);
    lemma_sum_folds(b, weight, 0);
}

proof fn lemma_sum_folds<T>(s: Seq<T>, weight: spec_fn(T) -> nat, start: nat)
    ensures
        s.fold_right(|item: T, total: nat| total + weight(item), start) == start + sum(
            s.map_values(weight),
        ),
    decreases s.len(),
{
    if s.len() > 0 {
        lemma_sum_folds(s.drop_last(), weight, start + weight(s.last()));
        assert(s.map_values(weight).drop_last() =~= s.drop_last().map_values(weight));
    }
}

/// A sum after one term changes.
pub proof fn lemma_sum_update(amounts: Seq<nat>, i: int, amount: nat)
    requires
        0 <= i < amounts.len(),
    ensures
        sum(amounts.update(i, amount)) + amounts[i] == sum(amounts) + amount,
    decreases amounts.len(),
{
    let changed = amounts.update(i, amount);
    if i == amounts.len() - 1 {
        assert(changed.drop_last() =~= amounts.drop_last());
    } else {
        lemma_sum_update(amounts.drop_last(), i, amount);
        assert(changed.drop_last() =~= amounts.drop_last().update(i, amount));
    }
}

/// Amounts that add up one by one add up in all.
pub proof fn lemma_sum_parts(a: Seq<nat>, b: Seq<nat>, whole: Seq<nat>)
    requires
        a.len() == b.len() == whole.len(),
        forall|i: int| 0 <= i < a.len() ==> #[trigger] a[i] + b[i] == whole[i],
    ensures
        sum(a) + sum(b) == sum(whole),
    decreases a.len(),
{
    if a.len() > 0 {
        assert forall|i: int| 0 <= i < a.drop_last().len() implies #[trigger] a.drop_last()[i]
            + b.drop_last()[i] == whole.drop_last()[i] by {
            assert(a[i] + b[i] == whole[i]);
        }
        lemma_sum_parts(a.drop_last(), b.drop_last(), whole.drop_last());
        assert(a[a.len() - 1] + b[a.len() - 1] == whole[a.len() - 1]);
    }
}

/// Nothing adds up to nothing.
pub proof fn lemma_sum_zeros(n: nat)
    ensures
        sum(Seq::new(n, |i: int| 0nat)) == 0,
    decreases n,
{
    if n > 0 {
        lemma_sum_zeros((n - 1) as nat);
        assert(Seq::new(n, |i: int| 0nat).drop_last() =~= Seq::new((n - 1) as nat, |i: int| 0nat));
    }
}

/// Two places exchanged.
pub open spec fn swapped<T>(items: Seq<T>, a: int, b: int) -> Seq<T> {
    items.update(a, items[b]).update(b, items[a])
}

/// Exchanges two places.
pub fn swap_items<T>(values: &mut Vec<T>, a: usize, b: usize)
    requires
        a <= b < old(values)@.len(),
    ensures
        final(values)@ == swapped(old(values)@, b as int, a as int),
{
    if a < b {
        let (left, right) = values.as_mut_slice().split_at_mut(b);
        core::mem::swap(&mut left[a], &mut right[0]);
    }
}

/// An exchange moves values and nothing else.
pub proof fn lemma_swapped<T>(items: Seq<T>, a: int, b: int)
    requires
        0 <= a < items.len(),
        0 <= b < items.len(),
    ensures
        swapped(items, a, b).to_multiset() == items.to_multiset(),
{
    broadcast use vstd::seq_lib::group_to_multiset_ensures;

    assert(swapped(items, a, b).to_multiset() =~= items.to_multiset());
}

} // verus!
