//! Authorizations in identity order.

use vstd::prelude::*;
use crate::refund::model;
use crate::refund::model::{Snapshot, SnapshotView};
use crate::sorting;
use crate::sorting::order_places;
use crate::text;

verus! {

/// Every authorization once, in identity order.
pub open spec fn return_order(order: Seq<usize>, snapshot: SnapshotView) -> bool {
    &&& order.len() == snapshot.returns.len()
    &&& forall|k: int| 0 <= k < order.len() ==> (#[trigger] order[k]) < snapshot.returns.len()
    &&& text::in_order(model::return_ids(snapshot.returns)) == Seq::new(
        order.len(),
        |k: int| snapshot.returns[order[k] as int].return_id,
    )
}

/// Orders the authorizations by identity.
pub fn order_returns(snapshot: &Snapshot, ranks: &Vec<usize>, Ghost(ids): Ghost<Seq<&str>>) -> (order:
    Vec<usize>)
    requires
        text::ranks_of(ranks@, ids),
        ids.len() >= snapshot.returns@.len(),
        forall|i: int|
            0 <= i < snapshot.returns@.len() ==> (#[trigger] ids[i])@
                == snapshot@.returns[i].return_id,
        forall|i: int, j: int|
            0 <= i < j < snapshot@.returns.len() ==> (#[trigger] snapshot@.returns[i]).return_id
                != (#[trigger] snapshot@.returns[j]).return_id,
    ensures
        return_order(order@, snapshot@),
{
    let ghost shown = snapshot@;
    let mut own: Vec<usize> = Vec::new();
    let mut i: usize = 0;
    while i < snapshot.returns.len()
        invariant
            i <= snapshot.returns@.len() <= ranks@.len(),
            own@ =~= ranks@.take(i as int),
        decreases snapshot.returns@.len() - i,
    {
        own.push(ranks[i]);
        i = i + 1;
    }
    let places = order_places(&own);
    let mut order: Vec<usize> = Vec::new();
    let mut p: usize = 0;
    while p < places.len()
        invariant
            p <= places@.len(),
            order@.len() == p,
            forall|k: int| 0 <= k < p ==> (#[trigger] order@[k]) == places@[k].index,
        decreases places@.len() - p,
    {
        order.push(places[p].index);
        p = p + 1;
    }
    proof {
        let listed = Seq::new(
            order@.len(),
            |k: int| shown.returns[order@[k] as int].return_id,
        );
        assert forall|k: int| 0 <= k < order@.len() implies (#[trigger] order@[k])
            < shown.returns.len() by {
            let place = places@[k];
        }
        assert forall|a: int, b: int| 0 <= a < b < listed.len() implies text::text_lt(
            #[trigger] listed[a],
            #[trigger] listed[b],
        ) by {
            let (x, y) = (places@[a], places@[b]);
            let (i, j) = (x.index as int, y.index as int);
            assert(order@[a] == i && order@[b] == j);
            assert(ids[i]@ == shown.returns[i].return_id);
            assert(ids[j]@ == shown.returns[j].return_id);
            assert(own@[i] == ranks@[i] && own@[j] == ranks@[j]);
            if i < j {
                assert(shown.returns[i].return_id != shown.returns[j].return_id);
            } else if j < i {
                assert(shown.returns[j].return_id != shown.returns[i].return_id);
            }
            assert(ranks@[i] != ranks@[j]);
        }
        assert forall|t: Seq<char>| #[trigger] listed.contains(t) <==> model::return_ids(
            shown.returns,
        ).contains(t) by {
            if listed.contains(t) {
                let k = choose|k: int| 0 <= k < listed.len() && listed[k] == t;
                assert(order@[k] < shown.returns.len());
                assert(shown.returns[order@[k] as int].return_id == t);
            }
            if model::return_ids(shown.returns).contains(t) {
                let i = choose|i: int|
                    0 <= i < shown.returns.len() && (#[trigger] shown.returns[i]).return_id == t;
                assert(sorting::placed_somewhere(places@, i));
                let q = choose|q: int| 0 <= q < places@.len() && (#[trigger] places@[q]).index == i;
                assert(order@[q] == i);
                assert(listed[q] == t);
            }
        }
        text::lemma_in_order(listed, model::return_ids(shown.returns));
    }
    order
}

} // verus!
