//! The trusted events of one return, and what follows from them.

use vstd::prelude::*;
use crate::refund::model;
use crate::refund::model::{Event, EventView, PaymentBlock, ScanView};
use crate::text;
use crate::text::{is_text_le, same_text};

verus! {

/// The places of all trusted events of a return, in identity order.
pub open spec fn owns(mine: Seq<usize>, events: Seq<EventView>, owner: Seq<char>) -> bool {
    &&& forall|k: int|
        0 <= k < mine.len() ==> (#[trigger] mine[k]) < events.len() && model::trusted(
            events,
            events[mine[k] as int],
        ) && events[mine[k] as int].owner() == owner
    &&& forall|a: int, b: int|
        0 <= a < b < mine.len() ==> text::text_lt(
            events[#[trigger] mine[a] as int].id(),
            events[#[trigger] mine[b] as int].id(),
        )
    &&& forall|event: EventView| #[trigger]
        model::trusted(events, event) && event.owner() == owner ==> owned(mine, events, event)
}

pub open spec fn owned(mine: Seq<usize>, events: Seq<EventView>, event: EventView) -> bool {
    exists|k: int| 0 <= k < mine.len() && events[#[trigger] mine[k] as int] == event
}

/// An identity belongs to one trusted event.
pub proof fn lemma_trusted_unique(events: Seq<EventView>, a: EventView, b: EventView)
    requires
        model::trusted(events, a),
        model::trusted(events, b),
        a.id() == b.id(),
    ensures
        a == b,
{
    let i = choose|i: int| 0 <= i < events.len() && events[i] == a;
    let j = choose|j: int| 0 <= j < events.len() && events[j] == b;
    if a != b {
        assert(events[i].id() == a.id() && events[j].id() == a.id());
        assert(model::conflicted(events, a.id()));
    }
}

pub proof fn lemma_event_with(events: Seq<EventView>, event: EventView)
    requires
        model::trusted(events, event),
    ensures
        model::event_with(events, event.id()) == event,
{
    let found = model::event_with(events, event.id());
    assert(model::trusted(events, found) && found.id() == event.id());
    lemma_trusted_unique(events, found, event);
}

/// Order in time is transitive, and irreflexive on identities.
pub proof fn lemma_happens_before(a: EventView, b: EventView, c: EventView)
    ensures
        model::happens_before(a, b) && model::happens_before(b, c) ==> model::happens_before(a, c),
        !(model::happens_before(a, b) && model::happens_before(b, a)),
        a.id() != b.id() ==> model::happens_before(a, b) || model::happens_before(b, a),
{
    text::lemma_text_total(a.id(), b.id());
    if text::text_lt(a.id(), b.id()) && text::text_lt(b.id(), c.id()) {
        text::lemma_text_transitive(a.id(), b.id(), c.id());
    }
}

/// The latest correction is unique.
pub proof fn lemma_latest_unique(
    events: Seq<EventView>,
    a: EventView,
    b: EventView,
    scan: EventView,
)
    requires
        model::is_latest(events, a, scan),
        model::is_latest(events, b, scan),
    ensures
        a == b,
{
    if a != b {
        assert(model::corrects(events, a, scan) && model::happens_before(scan, a));
        assert(model::corrects(events, b, scan) && model::happens_before(scan, b));
        lemma_happens_before(a, b, a);
    }
}

/// A scan whose latest correction is known.
pub proof fn lemma_scan_corrected(events: Seq<EventView>, scan: EventView, correction: EventView)
    requires
        model::is_latest(events, correction, scan),
    ensures
        model::scan_of(events, scan) == (ScanView {
            event_id: scan.id(),
            sku: correction->replacement_sku,
            quantity: correction->replacement_quantity as nat,
            provenance: set![scan.id(), correction.id()],
        }),
{
    let chosen = choose|correction: EventView| #[trigger] model::is_latest(events, correction, scan);
    lemma_latest_unique(events, chosen, correction, scan);
}

/// Scans listed in identity order are the scans of the return.
pub proof fn lemma_scans_listed(
    events: Seq<EventView>,
    owner: Seq<char>,
    places: Seq<usize>,
    scans: Seq<ScanView>,
)
    requires
        scans.len() == places.len(),
        forall|s: int|
            0 <= s < places.len() ==> (#[trigger] places[s]) < events.len() && model::trusted(
                events,
                events[places[s] as int],
            ) && events[places[s] as int] is WarehouseScan && events[places[s] as int].owner()
                == owner && scans[s] == model::scan_of(events, events[places[s] as int]),
        forall|a: int, b: int|
            0 <= a < b < places.len() ==> text::text_lt(
                events[#[trigger] places[a] as int].id(),
                events[#[trigger] places[b] as int].id(),
            ),
        forall|event: EventView| #[trigger]
            model::trusted(events, event) && event is WarehouseScan && event.owner() == owner ==> owned(
                places,
                events,
                event,
            ),
    ensures
        scans == model::scans_of(events, owner),
{
    let listed = Seq::new(places.len(), |s: int| events[places[s] as int].id());
    assert forall|a: int, b: int| 0 <= a < b < listed.len() implies text::text_lt(
        #[trigger] listed[a],
        #[trigger] listed[b],
    ) by {
        assert(text::text_lt(events[places[a] as int].id(), events[places[b] as int].id()));
    }
    assert forall|t: Seq<char>| #[trigger] listed.contains(t) <==> model::scan_ids(events, owner).contains(
        t,
    ) by {
        if listed.contains(t) {
            let s = choose|s: int| 0 <= s < listed.len() && listed[s] == t;
            assert(model::trusted(events, events[places[s] as int]));
        }
        if model::scan_ids(events, owner).contains(t) {
            let event = choose|event: EventView| #[trigger]
                model::trusted(events, event) && event is WarehouseScan && event.owner() == owner
                    && event.id() == t;
            assert(owned(places, events, event));
            let s = choose|s: int|
                0 <= s < places.len() && events[#[trigger] places[s] as int] == event;
            assert(listed[s] == t);
        }
    }
    text::lemma_in_order(listed, model::scan_ids(events, owner));
    assert forall|s: int| 0 <= s < scans.len() implies scans[s] == model::scans_of(events, owner)[s] by {
        lemma_event_with(events, events[places[s] as int]);
    }
    assert(scans =~= model::scans_of(events, owner));
}

/// The last deciding attempt is unique.
pub proof fn lemma_decides_last_unique(
    events: Seq<EventView>,
    owner: Seq<char>,
    line: Seq<char>,
    a: Seq<char>,
    b: Seq<char>,
)
    requires
        model::decides_last(events, owner, line, a),
        model::decides_last(events, owner, line, b),
    ensures
        a == b,
{
    assert(model::decides(events, owner, line, a) && model::decides(events, owner, line, b));
    text::lemma_text_total(a, b);
}

/// What blocks a line, when the last deciding attempt is known.
pub proof fn lemma_block_decided(
    events: Seq<EventView>,
    owner: Seq<char>,
    line: Seq<char>,
    refund: Seq<char>,
)
    requires
        model::decides_last(events, owner, line, refund),
    ensures
        model::block_of(events, owner, line) == Some(
            if model::amounts_differ(events, owner, line, refund) {
                PaymentBlock::Pending
            } else {
                PaymentBlock::Successful
            },
        ),
{
    assert(model::decides(events, owner, line, refund));
    let chosen = choose|refund: Seq<char>| #[trigger] model::decides_last(events, owner, line, refund);
    lemma_decides_last_unique(events, owner, line, chosen, refund);
}

/// Whether `a` happens before `b`.
pub fn precedes(a: &Event, b: &Event) -> (result: bool)
    ensures
        result == model::happens_before(a@, b@),
{
    let (a_time, a_ingestion) = times(a);
    let (b_time, b_ingestion) = times(b);
    proof {
        text::lemma_text_total(a@.id(), b@.id());
    }
    a_time < b_time || (a_time == b_time && (a_ingestion < b_ingestion || (a_ingestion
        == b_ingestion && !is_text_le(b.event_id(), a.event_id()))))
}

fn times(event: &Event) -> (times: (u64, u64))
    ensures
        times.0 == event@.timestamp(),
        times.1 == event@.ingestion(),
{
    match event {
        Event::WarehouseScan { source_timestamp, ingestion_id, .. }
        | Event::Correction { source_timestamp, ingestion_id, .. }
        | Event::Carrier { source_timestamp, ingestion_id, .. }
        | Event::PaymentResult { source_timestamp, ingestion_id, .. } => (
            *source_timestamp,
            *ingestion_id,
        ),
    }
}

/// Finds the place whose event has the identity, among places in identity order.
pub fn find_id(events: &Vec<Event>, places: &Vec<usize>, id: &str) -> (found: Option<usize>)
    requires
        forall|k: int| 0 <= k < places@.len() ==> (#[trigger] places@[k]) < events@.len(),
        forall|a: int, b: int|
            0 <= a < b < places@.len() ==> text::text_lt(
                events@[#[trigger] places@[a] as int]@.id(),
                events@[#[trigger] places@[b] as int]@.id(),
            ),
    ensures
        match found {
            Some(k) => k < places@.len() && events@[places@[k as int] as int]@.id() == id@,
            None => forall|k: int|
                0 <= k < places@.len() ==> events@[#[trigger] places@[k] as int]@.id() != id@,
        },
{
    let mut low: usize = 0;
    let mut high: usize = places.len();
    while low < high
        invariant
            low <= high <= places@.len(),
            forall|k: int| 0 <= k < places@.len() ==> (#[trigger] places@[k]) < events@.len(),
            forall|a: int, b: int|
                0 <= a < b < places@.len() ==> text::text_lt(
                    events@[#[trigger] places@[a] as int]@.id(),
                    events@[#[trigger] places@[b] as int]@.id(),
                ),
            forall|k: int|
                0 <= k < low ==> text::text_lt(events@[#[trigger] places@[k] as int]@.id(), id@),
            forall|k: int|
                high <= k < places@.len() ==> text::text_le(
                    id@,
                    events@[#[trigger] places@[k] as int]@.id(),
                ),
        decreases high - low,
    {
        let middle: usize = low + (high - low) / 2;
        let ghost pivot = events@[places@[middle as int] as int]@.id();
        if is_text_le(id, events[places[middle]].event_id()) {
            proof {
                assert forall|k: int| middle <= k < places@.len() implies text::text_le(
                    id@,
                    events@[#[trigger] places@[k] as int]@.id(),
                ) by {
                    if k > middle {
                        assert(text::text_lt(pivot, events@[places@[k] as int]@.id()));
                        text::lemma_text_transitive(id@, pivot, events@[places@[k] as int]@.id());
                    }
                }
            }
            high = middle;
        } else {
            proof {
                text::lemma_text_total(id@, pivot);
                assert forall|k: int| 0 <= k < middle + 1 implies text::text_lt(
                    events@[#[trigger] places@[k] as int]@.id(),
                    id@,
                ) by {
                    if k < middle {
                        assert(text::text_lt(events@[places@[k] as int]@.id(), pivot));
                        text::lemma_text_transitive(events@[places@[k] as int]@.id(), pivot, id@);
                    }
                }
            }
            low = middle + 1;
        }
    }
    if low < places.len() && same_text(events[places[low]].event_id(), id) {
        Some(low)
    } else {
        proof {
            assert forall|k: int| 0 <= k < places@.len() implies events@[
            #[trigger] places@[k] as int]@.id() != id@ by {
                let here = events@[places@[k] as int]@.id();
                if k > low {
                    let pivot = events@[places@[low as int] as int]@.id();
                    assert(text::text_lt(pivot, here));
                    assert(text::text_le(id@, pivot));
                    text::lemma_text_transitive(id@, pivot, here);
                    text::lemma_text_total(id@, here);
                }
            }
        }
        None
    }
}

} // verus!
