//! The grouping of the reference: events sorted by their return, and searched.

use vstd::prelude::*;
use crate::refund::canonical;
use crate::refund::model;
use crate::refund::model::EventView;
use crate::refund::owned;
use crate::sorting;
use crate::sorting::{order_places, Place};
use crate::text;

verus! {

/// The numbers that stand for the returns of some events.
pub open spec fn keys_of(members: Seq<usize>, owners: Seq<usize>) -> Seq<usize> {
    Seq::new(members.len(), |k: int| owners[members[k] as int])
}

/// Sorts some events by the numbers of their returns.
pub fn sort_by_return(members: &Vec<usize>, ranks: &Vec<usize>, base: usize) -> (runs: Vec<Place>)
    requires
        base <= ranks@.len(),
        forall|k: int| 0 <= k < members@.len() ==> base + (#[trigger] members@[k]) < ranks@.len(),
    ensures
        sorting::orders(runs@, keys_of(members@, ranks@.skip(base as int))),
{
    let ghost owners = ranks@.skip(base as int);
    let total: usize = ranks.len();
    let mut keys: Vec<usize> = Vec::new();
    while keys.len() < members.len()
        invariant
            keys@.len() <= members@.len(),
            base <= ranks@.len() == total,
            owners == ranks@.skip(base as int),
            forall|k: int|
                0 <= k < members@.len() ==> base + (#[trigger] members@[k]) < ranks@.len(),
            forall|k: int|
                0 <= k < keys@.len() ==> (#[trigger] keys@[k]) == owners[members@[k] as int],
        decreases members@.len() - keys@.len(),
    {
        let member: usize = members[keys.len()];
        assert(base + member < total);
        keys.push(ranks[base + member]);
    }
    assert(keys@ =~= keys_of(members@, owners));
    order_places(&keys)
}

/// Where the run of a number begins.
fn find_run(runs: &Vec<Place>, rank: usize, Ghost(keys): Ghost<Seq<usize>>) -> (begin: usize)
    requires
        sorting::orders(runs@, keys),
    ensures
        begin <= runs@.len(),
        forall|p: int| 0 <= p < begin ==> (#[trigger] runs@[p]).rank < rank,
        forall|p: int| begin <= p < runs@.len() ==> rank <= (#[trigger] runs@[p]).rank,
{
    let mut low: usize = 0;
    let mut high: usize = runs.len();
    while low < high
        invariant
            low <= high <= runs@.len(),
            sorting::orders(runs@, keys),
            forall|p: int| 0 <= p < low ==> (#[trigger] runs@[p]).rank < rank,
            forall|p: int| high <= p < runs@.len() ==> rank <= (#[trigger] runs@[p]).rank,
        decreases high - low,
    {
        let middle: usize = low + (high - low) / 2;
        if runs[middle].rank < rank {
            assert forall|p: int| 0 <= p < middle + 1 implies (#[trigger] runs@[p]).rank < rank by {
                if p < middle {
                    let (x, y) = (runs@[p], runs@[middle as int]);
                }
            }
            low = middle + 1;
        } else {
            assert forall|p: int| middle <= p < runs@.len() implies rank <= (
            #[trigger] runs@[p]).rank by {
                if middle < p {
                    let (x, y) = (runs@[middle as int], runs@[p]);
                }
            }
            high = middle;
        }
    }
    low
}

/// The trusted events of a return.
pub fn events_of(
    runs: &Vec<Place>,
    accepted: &Vec<usize>,
    rank: usize,
    Ghost(owners): Ghost<Seq<usize>>,
    Ghost(events): Ghost<Seq<EventView>>,
    Ghost(owner): Ghost<Seq<char>>,
) -> (mine: Vec<usize>)
    requires
        canonical::selects(accepted@, events),
        owners.len() == events.len(),
        sorting::orders(runs@, keys_of(accepted@, owners)),
        forall|j: int|
            0 <= j < events.len() ==> ((#[trigger] owners[j]) == rank <==> events[j].owner()
                == owner),
    ensures
        owned::owns(mine@, events, owner),
{
    let ghost keys = keys_of(accepted@, owners);
    let begin = find_run(runs, rank, Ghost(keys));
    let mut mine: Vec<usize> = Vec::new();
    let mut end: usize = begin;
    while end < runs.len() && runs[end].rank == rank
        invariant
            begin <= end <= runs@.len(),
            sorting::orders(runs@, keys),
            keys.len() == accepted@.len(),
            mine@.len() == end - begin,
            forall|p: int| begin <= p < end ==> (#[trigger] runs@[p]).rank == rank,
            forall|x: int|
                0 <= x < mine@.len() ==> (#[trigger] mine@[x]) == accepted@[runs@[begin
                    + x].index as int],
        decreases runs@.len() - end,
    {
        let place = runs[end];
        mine.push(accepted[place.index]);
        end = end + 1;
    }
    proof {
        assert forall|x: int| 0 <= x < mine@.len() implies (#[trigger] mine@[x]) < events.len()
            && model::trusted(events, events[mine@[x] as int]) && events[mine@[x] as int].owner()
            == owner by {
            let place = runs@[begin + x];
            let k = place.index as int;
            assert(place.rank == keys[k]);
            assert(accepted@[k] < events.len());
            assert(owners[accepted@[k] as int] == rank);
        }
        assert forall|a: int, b: int| 0 <= a < b < mine@.len() implies text::text_lt(
            events[#[trigger] mine@[a] as int].id(),
            events[#[trigger] mine@[b] as int].id(),
        ) by {
            let (x, y) = (runs@[begin + a], runs@[begin + b]);
            assert(x.rank == rank && y.rank == rank);
            assert(x.index < y.index);
            assert(text::text_lt(
                events[accepted@[x.index as int] as int].id(),
                events[accepted@[y.index as int] as int].id(),
            ));
        }
        assert forall|event: EventView| #[trigger]
            model::trusted(events, event) && event.owner() == owner implies owned::owned(
            mine@,
            events,
            event,
        ) by {
            let k = choose|k: int|
                0 <= k < accepted@.len() && events[#[trigger] accepted@[k] as int] == event;
            assert(owners[accepted@[k] as int] == rank);
            assert(sorting::placed_somewhere(runs@, k));
            let p = choose|p: int| 0 <= p < runs@.len() && (#[trigger] runs@[p]).index == k;
            assert(runs@[p].rank == keys[k]);
            if end <= p && end < runs@.len() {
                let (x, y) = (runs@[end as int], runs@[p]);
                assert(x.rank > rank);
            }
            assert(begin <= p < end);
            assert(mine@[p - begin] == accepted@[k]);
        }
    }
    mine
}

/// The events whose identity is contested.
pub fn list_contested(clear: &Vec<bool>) -> (members: Vec<usize>)
    ensures
        forall|k: int|
            0 <= k < members@.len() ==> (#[trigger] members@[k]) < clear@.len()
                && !clear@[members@[k] as int],
        forall|i: int|
            0 <= i < clear@.len() && !#[trigger] clear@[i] ==> members@.contains(i as usize),
{
    let mut members: Vec<usize> = Vec::new();
    let mut i: usize = 0;
    while i < clear.len()
        invariant
            i <= clear@.len(),
            forall|k: int|
                0 <= k < members@.len() ==> (#[trigger] members@[k]) < clear@.len()
                    && !clear@[members@[k] as int],
            forall|j: int| 0 <= j < i && !#[trigger] clear@[j] ==> members@.contains(j as usize),
        decreases clear@.len() - i,
    {
        let ghost before = members@;
        if !clear[i] {
            members.push(i);
            assert(members@[before.len() as int] == i);
        }
        proof {
            assert forall|j: int| 0 <= j < i + 1 && !#[trigger] clear@[j] implies members@.contains(
                j as usize,
            ) by {
                if j < i {
                    assert(before.contains(j as usize));
                    let k = choose|k: int| 0 <= k < before.len() && before[k] == j as usize;
                    assert(members@[k] == j as usize);
                } else {
                    assert(members@[before.len() as int] == j as usize);
                }
            }
        }
        i = i + 1;
    }
    members
}

/// Whether a contested event belongs to a return.
pub fn is_touched(
    runs: &Vec<Place>,
    rank: usize,
    Ghost(contested): Ghost<Seq<usize>>,
    Ghost(owners): Ghost<Seq<usize>>,
    Ghost(events): Ghost<Seq<EventView>>,
    Ghost(owner): Ghost<Seq<char>>,
) -> (touched: bool)
    requires
        owners.len() == events.len() <= usize::MAX,
        sorting::orders(runs@, keys_of(contested, owners)),
        forall|k: int|
            0 <= k < contested.len() ==> (#[trigger] contested[k]) < events.len()
                && model::conflicted(events, events[contested[k] as int].id()),
        forall|i: int|
            0 <= i < events.len() && model::conflicted(events, (#[trigger] events[i]).id())
                ==> contested.contains(i as usize),
        forall|j: int|
            0 <= j < events.len() ==> ((#[trigger] owners[j]) == rank <==> events[j].owner()
                == owner),
    ensures
        touched == model::conflict_touches(events, owner),
{
    let ghost keys = keys_of(contested, owners);
    let begin = find_run(runs, rank, Ghost(keys));
    let touched = begin < runs.len() && runs[begin].rank == rank;
    proof {
        if touched {
            let k = runs@[begin as int].index as int;
            assert(runs@[begin as int].rank == keys[k]);
            let i = contested[k] as int;
            assert(owners[i] == rank);
            assert(events[i].owner() == owner);
        }
        if model::conflict_touches(events, owner) {
            let i = choose|i: int|
                0 <= i < events.len() && (#[trigger] events[i]).owner() == owner
                    && model::conflicted(events, events[i].id());
            assert(contested.contains(i as usize));
            let k = choose|k: int| 0 <= k < contested.len() && contested[k] == i as usize;
            assert(owners[i] == rank);
            assert(sorting::placed_somewhere(runs@, k));
            let p = choose|p: int| 0 <= p < runs@.len() && (#[trigger] runs@[p]).index == k;
            assert(runs@[p].rank == keys[k]);
            assert(begin <= p);
            if begin < p {
                let (x, y) = (runs@[begin as int], runs@[p]);
            }
        }
    }
    touched
}

} // verus!
