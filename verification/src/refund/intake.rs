//! Which snapshots are taken in, told by what they hold.

use vstd::prelude::*;
use crate::refund::model;
use crate::refund::model::{AuthView, EventView, LineView, SnapshotView};
use crate::refund::validate;
use crate::seqs;

verus! {

/// A line for some units, whose discount is within what was paid for it and whose prior
/// refunds are within the rest.
pub open spec fn refundable(line: LineView) -> bool {
    &&& line.authorized_qty > 0
    &&& line.paid_subtotal_cents + line.tax_cents <= u64::MAX
    &&& line.discount_cents <= line.paid_subtotal_cents + line.tax_cents
    &&& line.prior_successful_refund_cents + line.discount_cents <= line.paid_subtotal_cents
        + line.tax_cents
}

/// The cents that were refunded of the first `n` lines before.
pub open spec fn refunded_before(lines: Seq<LineView>, n: nat) -> nat
    decreases n,
{
    if n == 0 {
        0
    } else {
        refunded_before(lines, (n - 1) as nat) + lines[n - 1].prior_successful_refund_cents as nat
    }
}

/// A return of no more than a dozen refundable lines, whose prior refunds are within the
/// captured payment.
pub open spec fn authorizes(authorization: AuthView) -> bool {
    &&& authorization.lines.len() <= 12
    &&& forall|k: int|
        0 <= k < authorization.lines.len() ==> refundable(#[trigger] authorization.lines[k])
    &&& refunded_before(authorization.lines, authorization.lines.len())
        <= authorization.captured_cents
}

/// The snapshot has a return of an identity.
pub open spec fn has_return(snapshot: SnapshotView, id: Seq<char>) -> bool {
    exists|i: int|
        0 <= i < snapshot.returns.len() && (#[trigger] snapshot.returns[i]).return_id == id
}

/// Line `k` of return `i` has an identity.
pub open spec fn is_line(snapshot: SnapshotView, i: int, k: int, line: Seq<char>) -> bool {
    &&& 0 <= i < snapshot.returns.len()
    &&& 0 <= k < snapshot.returns[i].lines.len()
    &&& snapshot.returns[i].lines[k].line_id == line
}

/// A line of a return has an identity.
pub open spec fn return_has_line(snapshot: SnapshotView, id: Seq<char>, line: Seq<char>) -> bool {
    exists|i: int, k: int| #[trigger]
        is_line(snapshot, i, k, line) && snapshot.returns[i].return_id == id
}

/// An event is of a return of the snapshot, and a payment of a line of that return.
pub open spec fn belongs(snapshot: SnapshotView, event: EventView) -> bool {
    match event {
        EventView::WarehouseScan { return_id, .. } => has_return(snapshot, return_id),
        EventView::Correction { return_id, .. } => has_return(snapshot, return_id),
        EventView::Carrier { return_id, .. } => has_return(snapshot, return_id),
        EventView::PaymentResult { return_id, line_id, .. } => return_has_line(
            snapshot,
            return_id,
            line_id,
        ),
    }
}

/// An event of a return is about a parcel.
pub open spec fn tells_of(event: EventView, id: Seq<char>, parcel: Seq<char>) -> bool {
    match event {
        EventView::WarehouseScan { return_id, parcel_id, .. } => return_id == id && parcel_id
            == parcel,
        EventView::Carrier { return_id, parcel_id, .. } => return_id == id && parcel_id == parcel,
        _ => false,
    }
}

/// Some event of a return is about a parcel.
pub open spec fn is_told_of(events: Seq<EventView>, id: Seq<char>, parcel: Seq<char>) -> bool {
    exists|j: int| 0 <= j < events.len() && tells_of(#[trigger] events[j], id, parcel)
}

/// The events of a return are about each of some parcels.
pub open spec fn tell_of_all(
    events: Seq<EventView>,
    id: Seq<char>,
    parcels: Seq<Seq<char>>,
) -> bool {
    forall|p: int| 0 <= p < parcels.len() ==> is_told_of(events, id, #[trigger] parcels[p])
}

/// A snapshot with an identity, whose returns and lines have one each, whose returns
/// authorize, whose events belong to them, and that tells of no more than four parcels of
/// a return.
pub open spec fn can_be_taken_in(snapshot: SnapshotView) -> bool {
    &&& snapshot.snapshot_id.len() > 0
    &&& forall|i: int| 0 <= i < snapshot.returns.len() ==> authorizes(#[trigger] snapshot.returns[i])
    &&& forall|i: int, j: int|
        0 <= i < j < snapshot.returns.len() ==> (#[trigger] snapshot.returns[i]).return_id != (
        #[trigger] snapshot.returns[j]).return_id
    &&& forall|i: int, k: int, j: int, l: int, line: Seq<char>| #[trigger]
        is_line(snapshot, i, k, line) && #[trigger] is_line(snapshot, j, l, line) ==> i == j && k
            == l
    &&& forall|j: int|
        0 <= j < snapshot.events.len() ==> belongs(snapshot, #[trigger] snapshot.events[j])
    &&& forall|id: Seq<char>, parcels: Seq<Seq<char>>| #[trigger]
        tell_of_all(snapshot.events, id, parcels) && parcels.no_duplicates() ==> parcels.len() != 5
}

proof fn lemma_refunded(lines: Seq<LineView>, n: nat)
    requires
        n <= lines.len(),
    ensures
        refunded_before(lines, n) == model::prior_total(lines.take(n as int)),
    decreases n,
{
    let cents = |line: LineView| line.prior_successful_refund_cents as nat;
    if n == 0 {
        assert(lines.take(0).map_values(cents) =~= Seq::empty());
    } else {
        lemma_refunded(lines, (n - 1) as nat);
        assert(lines.take(n as int).map_values(cents) =~= lines.take(n - 1).map_values(cents).push(
            cents(lines[n - 1]),
        ));
        seqs::lemma_sum_push(lines.take(n - 1).map_values(cents), cents(lines[n - 1]));
    }
}

proof fn lemma_authorizes(snapshot: SnapshotView, i: int)
    requires
        0 <= i < snapshot.returns.len(),
    ensures
        validate::faultless_return(snapshot.returns[i]) ==> authorizes(snapshot.returns[i]),
        authorizes(snapshot.returns[i]) && (forall|k: int, l: int, line: Seq<char>| #[trigger]
            is_line(snapshot, i, k, line) && #[trigger] is_line(snapshot, i, l, line) ==> k == l)
            ==> validate::faultless_return(snapshot.returns[i]),
{
    let lines = snapshot.returns[i].lines;
    lemma_refunded(lines, lines.len());
    assert(lines.take(lines.len() as int) =~= lines);
    if authorizes(snapshot.returns[i]) && forall|k: int, l: int, line: Seq<char>| #[trigger]
        is_line(snapshot, i, k, line) && #[trigger] is_line(snapshot, i, l, line) ==> k == l {
        assert forall|k: int, l: int| 0 <= k < l < lines.len() implies (
        #[trigger] lines[k]).line_id != (#[trigger] lines[l]).line_id by {
            if lines[k].line_id == lines[l].line_id {
                assert(is_line(snapshot, i, k, lines[k].line_id));
                assert(is_line(snapshot, i, l, lines[k].line_id));
            }
        }
    }
}

proof fn lemma_belongs(snapshot: SnapshotView, event: EventView)
    requires
        forall|i: int, k: int, j: int, l: int, line: Seq<char>| #[trigger]
            is_line(snapshot, i, k, line) && #[trigger] is_line(snapshot, j, l, line) ==> i == j && k
                == l,
    ensures
        validate::event_fault(snapshot, event) is None <==> belongs(snapshot, event),
{
    assert(has_return(snapshot, event.owner()) == validate::known_return(snapshot, event.owner()));
    match event {
        EventView::PaymentResult { return_id, line_id, .. } => {
            if validate::event_fault(snapshot, event) is None {
                let a = choose|a: int|
                    0 <= a < snapshot.returns.len() && #[trigger] validate::has_line(
                        snapshot,
                        a,
                        line_id,
                    );
                let b = choose|b: int|
                    0 <= b < snapshot.returns[a].lines.len() && (
                    #[trigger] snapshot.returns[a].lines[b]).line_id == line_id;
                assert(is_line(snapshot, a, b, line_id));
            }
            if belongs(snapshot, event) {
                let (i, k) = choose|i: int, k: int| #[trigger]
                    is_line(snapshot, i, k, line_id) && snapshot.returns[i].return_id == return_id;
                assert(snapshot.returns[i].lines[k].line_id == line_id);
                assert(validate::has_line(snapshot, i, line_id));
                let a = choose|a: int|
                    0 <= a < snapshot.returns.len() && #[trigger] validate::has_line(
                        snapshot,
                        a,
                        line_id,
                    );
                let b = choose|b: int|
                    0 <= b < snapshot.returns[a].lines.len() && (
                    #[trigger] snapshot.returns[a].lines[b]).line_id == line_id;
                assert(is_line(snapshot, a, b, line_id));
                assert(a == i);
                assert(snapshot.returns[i].return_id == return_id);
            }
        },
        _ => {},
    }
}

proof fn lemma_parcels(events: Seq<EventView>, id: Seq<char>, parcels: Seq<Seq<char>>)
    ensures
        validate::five_parcels(events, id, parcels) <==> (tell_of_all(events, id, parcels)
            && parcels.no_duplicates() && parcels.len() == 5),
{
    if validate::five_parcels(events, id, parcels) {
        assert forall|p: int| 0 <= p < parcels.len() implies is_told_of(
            events,
            id,
            #[trigger] parcels[p],
        ) by {
            assert(validate::names_parcel(events, id, parcels[p]));
            let j = choose|j: int|
                0 <= j < events.len() && (#[trigger] events[j]).owner() == id
                    && validate::parcel_of(events[j]) == Some(parcels[p]);
            assert(tells_of(events[j], id, parcels[p]));
        }
    }
    if tell_of_all(events, id, parcels) {
        assert forall|p: int| 0 <= p < parcels.len() implies validate::names_parcel(
            events,
            id,
            #[trigger] parcels[p],
        ) by {
            assert(is_told_of(events, id, parcels[p]));
            let j = choose|j: int|
                0 <= j < events.len() && tells_of(#[trigger] events[j], id, parcels[p]);
            assert(events[j].owner() == id && validate::parcel_of(events[j]) == Some(parcels[p]));
        }
    }
}

proof fn lemma_one_line(snapshot: SnapshotView)
    requires
        forall|i: int|
            0 <= i < snapshot.returns.len() ==> validate::faultless_return(
                #[trigger] snapshot.returns[i],
            ),
        forall|i: int, j: int, line: Seq<char>|
            0 <= i < j < snapshot.returns.len() && #[trigger] validate::has_line(snapshot, i, line)
                ==> !#[trigger] validate::has_line(snapshot, j, line),
    ensures
        forall|i: int, k: int, j: int, l: int, line: Seq<char>| #[trigger]
            is_line(snapshot, i, k, line) && #[trigger] is_line(snapshot, j, l, line) ==> i == j && k
                == l,
{
    assert forall|i: int, k: int, j: int, l: int, line: Seq<char>| #[trigger]
        is_line(snapshot, i, k, line) && #[trigger] is_line(snapshot, j, l, line) implies i == j && k
        == l by {
        assert(snapshot.returns[i].lines[k].line_id == line);
        assert(snapshot.returns[j].lines[l].line_id == line);
        assert(validate::has_line(snapshot, i, line) && validate::has_line(snapshot, j, line));
        assert(i == j);
        assert(validate::faultless_return(snapshot.returns[i]));
    }
}

/// A snapshot is taken in when it can be, and refused otherwise.
pub proof fn only_proper_snapshots_are_taken_in(snapshot: SnapshotView)
    ensures
        validate::snapshot_error(snapshot) is None <==> can_be_taken_in(snapshot),
{
    validate::lemma_faultless(snapshot);
    if validate::faultless(snapshot) {
        lemma_one_line(snapshot);
        assert forall|i: int| 0 <= i < snapshot.returns.len() implies authorizes(
            #[trigger] snapshot.returns[i],
        ) by {
            lemma_authorizes(snapshot, i);
        }
        assert forall|j: int| 0 <= j < snapshot.events.len() implies belongs(
            snapshot,
            #[trigger] snapshot.events[j],
        ) by {
            lemma_belongs(snapshot, snapshot.events[j]);
        }
        assert forall|id: Seq<char>, parcels: Seq<Seq<char>>| #[trigger]
            tell_of_all(snapshot.events, id, parcels)
                && parcels.no_duplicates() implies parcels.len() != 5 by {
            lemma_parcels(snapshot.events, id, parcels);
            assert(!validate::crowded(snapshot.events, id));
        }
    }
    if can_be_taken_in(snapshot) {
        lemma_taken_in(snapshot);
    }
}

proof fn lemma_taken_in(snapshot: SnapshotView)
    requires
        can_be_taken_in(snapshot),
    ensures
        validate::faultless(snapshot),
{
    assert forall|i: int| 0 <= i < snapshot.returns.len() implies validate::faultless_return(
        #[trigger] snapshot.returns[i],
    ) by {
        lemma_authorizes(snapshot, i);
    }
    assert forall|i: int, j: int, line: Seq<char>|
        0 <= i < j < snapshot.returns.len() && #[trigger] validate::has_line(
            snapshot,
            i,
            line,
        ) implies !#[trigger] validate::has_line(snapshot, j, line) by {
        if validate::has_line(snapshot, j, line) {
            let k = choose|k: int|
                0 <= k < snapshot.returns[i].lines.len() && (
                #[trigger] snapshot.returns[i].lines[k]).line_id == line;
            let l = choose|l: int|
                0 <= l < snapshot.returns[j].lines.len() && (
                #[trigger] snapshot.returns[j].lines[l]).line_id == line;
            assert(is_line(snapshot, i, k, line) && is_line(snapshot, j, l, line));
        }
    }
    assert forall|j: int| 0 <= j < snapshot.events.len() implies validate::event_fault(
        snapshot,
        #[trigger] snapshot.events[j],
    ) is None by {
        lemma_belongs(snapshot, snapshot.events[j]);
    }
    assert forall|id: Seq<char>| !#[trigger] validate::crowded(snapshot.events, id) by {
        if validate::crowded(snapshot.events, id) {
            let parcels = choose|parcels: Seq<Seq<char>>| #[trigger]
                validate::five_parcels(snapshot.events, id, parcels);
            lemma_parcels(snapshot.events, id, parcels);
        }
    }
}

} // verus!
