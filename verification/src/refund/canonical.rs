//! Identities of events: exact retries collapse, contested identities are
//! quarantined.

use vstd::prelude::*;
use crate::refund::model;
use crate::refund::model::{AccountingView, Event, EventAccounting, EventView};
use crate::seqs;
use crate::sorting;
use crate::sorting::{order_places, Place};
use crate::text;
use crate::text::{rank_texts, same_text};

verus! {

/// The events as plain values.
pub open spec fn views(events: Seq<Event>) -> Seq<EventView> {
    events.map_values(|event: Event| event@)
}

/// Retries beyond the first of an uncontested identity.
pub open spec fn retries(row: AccountingView) -> nat {
    if row.disposition == "quarantined_conflict"@ {
        0
    } else {
        (row.input_occurrences - 1) as nat
    }
}

pub struct Canonical {
    /// One place for each uncontested identity, in identity order.
    pub accepted: Vec<usize>,
    /// Whether the identity of the event is uncontested.
    pub clear: Vec<bool>,
    pub event_accounting: Vec<EventAccounting>,
    pub exact_duplicates: usize,
    pub conflicts: usize,
}

/// One place for each uncontested identity, in identity order.
pub open spec fn selects(accepted: Seq<usize>, events: Seq<EventView>) -> bool {
    &&& forall|k: int|
        0 <= k < accepted.len() ==> (#[trigger] accepted[k]) < events.len() && model::trusted(
            events,
            events[accepted[k] as int],
        )
    &&& forall|a: int, b: int|
        0 <= a < b < accepted.len() ==> text::text_lt(
            events[#[trigger] accepted[a] as int].id(),
            events[#[trigger] accepted[b] as int].id(),
        )
    &&& forall|event: EventView| #[trigger]
        model::trusted(events, event) ==> exists|k: int|
            0 <= k < accepted.len() && events[#[trigger] accepted[k] as int] == event
}

impl Canonical {
    pub open spec fn describes(self, events: Seq<EventView>) -> bool {
        let rows = self.event_accounting@.map_values(|row: EventAccounting| row@);
        &&& self.clear@.len() == events.len()
        &&& forall|i: int|
            0 <= i < events.len() ==> (#[trigger] self.clear@[i]) == !model::conflicted(
                events,
                events[i].id(),
            )
        &&& selects(self.accepted@, events)
        &&& rows == model::accounting_of(events)
        &&& self.conflicts == model::rows_with(rows, "quarantined_conflict"@)
        &&& self.accepted@.len() == rows.len() - self.conflicts
        &&& self.exact_duplicates == seqs::sum(rows.map_values(|row: AccountingView| retries(row)))
    }
}

/// Whether two events carry the same payload.
pub fn same_event(a: &Event, b: &Event) -> (same: bool)
    ensures
        same == (a@ == b@),
{
    match (a, b) {
        (
            Event::WarehouseScan {
                event_id: a1,
                source_system_id: a2,
                source_timestamp: a3,
                ingestion_id: a4,
                return_id: a5,
                parcel_id: a6,
                sku: a7,
                quantity: a8,
            },
            Event::WarehouseScan {
                event_id: b1,
                source_system_id: b2,
                source_timestamp: b3,
                ingestion_id: b4,
                return_id: b5,
                parcel_id: b6,
                sku: b7,
                quantity: b8,
            },
        ) => same_text(a1.as_str(), b1.as_str()) && same_text(a2.as_str(), b2.as_str()) && *a3
            == *b3 && *a4 == *b4 && same_text(a5.as_str(), b5.as_str()) && same_text(
            a6.as_str(),
            b6.as_str(),
        ) && same_text(a7.as_str(), b7.as_str()) && *a8 == *b8,
        (
            Event::Correction {
                event_id: a1,
                source_system_id: a2,
                source_timestamp: a3,
                ingestion_id: a4,
                return_id: a5,
                target_event_id: a6,
                replacement_sku: a7,
                replacement_quantity: a8,
            },
            Event::Correction {
                event_id: b1,
                source_system_id: b2,
                source_timestamp: b3,
                ingestion_id: b4,
                return_id: b5,
                target_event_id: b6,
                replacement_sku: b7,
                replacement_quantity: b8,
            },
        ) => same_text(a1.as_str(), b1.as_str()) && same_text(a2.as_str(), b2.as_str()) && *a3
            == *b3 && *a4 == *b4 && same_text(a5.as_str(), b5.as_str()) && same_text(
            a6.as_str(),
            b6.as_str(),
        ) && same_text(a7.as_str(), b7.as_str()) && *a8 == *b8,
        (
            Event::Carrier {
                event_id: a1,
                source_system_id: a2,
                source_timestamp: a3,
                ingestion_id: a4,
                return_id: a5,
                parcel_id: a6,
                status: a7,
            },
            Event::Carrier {
                event_id: b1,
                source_system_id: b2,
                source_timestamp: b3,
                ingestion_id: b4,
                return_id: b5,
                parcel_id: b6,
                status: b7,
            },
        ) => same_text(a1.as_str(), b1.as_str()) && same_text(a2.as_str(), b2.as_str()) && *a3
            == *b3 && *a4 == *b4 && same_text(a5.as_str(), b5.as_str()) && same_text(
            a6.as_str(),
            b6.as_str(),
        ) && same_text(a7.as_str(), b7.as_str()),
        (
            Event::PaymentResult {
                event_id: a1,
                source_system_id: a2,
                source_timestamp: a3,
                ingestion_id: a4,
                return_id: a5,
                line_id: a6,
                refund_id: a7,
                amount_cents: a8,
                status: a9,
            },
            Event::PaymentResult {
                event_id: b1,
                source_system_id: b2,
                source_timestamp: b3,
                ingestion_id: b4,
                return_id: b5,
                line_id: b6,
                refund_id: b7,
                amount_cents: b8,
                status: b9,
            },
        ) => same_text(a1.as_str(), b1.as_str()) && same_text(a2.as_str(), b2.as_str()) && *a3
            == *b3 && *a4 == *b4 && same_text(a5.as_str(), b5.as_str()) && same_text(
            a6.as_str(),
            b6.as_str(),
        ) && same_text(a7.as_str(), b7.as_str()) && *a8 == *b8 && *a9 == *b9,
        _ => false,
    }
}

/// How often a rank occurs is how long its run is.
proof fn lemma_run_counts(
    events: Seq<EventView>,
    ranks: Seq<usize>,
    places: Seq<Place>,
    id: Seq<char>,
    start: int,
    end: int,
)
    requires
        sorting::orders(places, ranks),
        ranks.len() == events.len(),
        0 <= start < end <= places.len(),
        events[places[start].index as int].id() == id,
        forall|i: int, j: int|
            0 <= i < ranks.len() && 0 <= j < ranks.len() ==> (#[trigger] ranks[i]
                == #[trigger] ranks[j] <==> events[i].id() == events[j].id()),
        forall|p: int|
            0 <= p < places.len() ==> ((#[trigger] places[p]).rank == places[start].rank <==> start
                <= p < end),
    ensures
        model::occurrences(events, id).len() == end - start,
{
    let rank = places[start].rank;
    let of_rank = |place: Place| place.rank == rank;
    let of_id = |event: EventView| event.id() == id;
    let original = sorting::places_of(ranks);
    assert forall|i: int| 0 <= i < events.len() implies of_id(#[trigger] events[i]) == of_rank(
        original[i],
    ) by {
        let first = places[start].index as int;
        assert((ranks[first] == ranks[i]) == (events[first].id() == events[i].id()));
    }
    seqs::lemma_filter_len_parallel(events, original, of_id, of_rank);
    seqs::lemma_filter_len_rearranged(places, original, of_rank);
    seqs::lemma_filter_run(places, of_rank, start, end);
}

pub fn canonicalize_events(events: &Vec<Event>) -> (canonical: Canonical)
    ensures
        canonical.describes(views(events@)),
{
    let ghost all = views(events@);
    let mut ids: Vec<&str> = Vec::new();
    let mut clear: Vec<bool> = Vec::new();
    let mut i: usize = 0;
    while i < events.len()
        invariant
            i <= events@.len(),
            all == views(events@),
            ids@.len() == i,
            clear@.len() == i,
            forall|j: int| 0 <= j < i ==> (#[trigger] ids@[j])@ == all[j].id(),
            forall|j: int| 0 <= j < i ==> #[trigger] clear@[j],
        decreases events@.len() - i,
    {
        ids.push(events[i].event_id());
        clear.push(true);
        i = i + 1;
    }
    let ranks = rank_texts(&ids);
    let places = order_places(&ranks);
    let ghost n = all.len() as int;
    let mut accepted: Vec<usize> = Vec::new();
    let mut rows: Vec<EventAccounting> = Vec::new();
    let mut exact_duplicates: usize = 0;
    let mut conflicts: usize = 0;
    let ghost row_view = |row: EventAccounting| row@;
    let ghost contested = |row: AccountingView| row.disposition == "quarantined_conflict"@;
    let ghost of_row = |row: AccountingView| retries(row);
    let ghost mut listed: Seq<Seq<char>> = Seq::empty();
    let mut start: usize = 0;
    proof {
        reveal(Seq::filter);
        assert(rows@.map_values(row_view) =~= Seq::<AccountingView>::empty());
        assert(rows@.map_values(row_view).map_values(of_row) =~= Seq::<nat>::empty());
        reveal_strlit("quarantined_conflict");
        reveal_strlit("accepted");
        reveal_strlit("accepted_with_exact_retries");
        assert("quarantined_conflict"@.len() == 20);
        assert("accepted"@.len() == 8);
        assert("accepted_with_exact_retries"@.len() == 27);
    }
    while start < places.len()
        invariant
            start <= places@.len() == n,
            n == all.len() == events@.len() == clear@.len() == ids@.len(),
            all == views(events@),
            forall|j: int| 0 <= j < n ==> (#[trigger] ids@[j])@ == all[j].id(),
            text::ranks_of(ranks@, ids@),
            sorting::orders(places@, ranks@),
            row_view == (|row: EventAccounting| row@),
            contested == (|row: AccountingView| row.disposition == "quarantined_conflict"@),
            of_row == (|row: AccountingView| retries(row)),
            "quarantined_conflict"@ != "accepted"@,
            "quarantined_conflict"@ != "accepted_with_exact_retries"@,
            start > 0 && start < n ==> places@[start - 1].rank < places@[start as int].rank,
            listed.len() == rows@.len(),
            text::ascending_texts(listed),
            start > 0 ==> listed.len() > 0 && listed[listed.len() - 1]
                == all[places@[start - 1].index as int].id(),
            start == 0 ==> listed.len() == 0,
            forall|k: int| 0 <= k < listed.len() ==> model::event_ids(all).contains(#[trigger] listed[k]),
            forall|q: int|
                0 <= q < start ==> listed.contains(all[(#[trigger] places@[q]).index as int].id()),
            forall|k: int|
                0 <= k < rows@.len() ==> (#[trigger] rows@[k])@ == model::accounting_for(all, listed[k]),
            forall|q: int|
                0 <= q < start ==> clear@[(#[trigger] places@[q]).index as int] == !model::conflicted(
                    all,
                    all[places@[q].index as int].id(),
                ),
            forall|q: int| start <= q < n ==> clear@[(#[trigger] places@[q]).index as int],
            forall|k: int|
                0 <= k < accepted@.len() ==> (#[trigger] accepted@[k]) < n && model::trusted(
                    all,
                    all[accepted@[k] as int],
                ),
            accepted@.len() > 0 ==> start > 0 && (all[accepted@[accepted@.len() - 1] as int].id()
                == listed[listed.len() - 1] || text::text_lt(
                all[accepted@[accepted@.len() - 1] as int].id(),
                listed[listed.len() - 1],
            )),
            forall|a: int, b: int|
                0 <= a < b < accepted@.len() ==> text::text_lt(
                    all[#[trigger] accepted@[a] as int].id(),
                    all[#[trigger] accepted@[b] as int].id(),
                ),
            forall|q: int|
                0 <= q < start && !model::conflicted(all, all[(#[trigger] places@[q]).index as int].id())
                    ==> exists|k: int|
                    0 <= k < accepted@.len() && all[#[trigger] accepted@[k] as int]
                        == all[places@[q].index as int],
            conflicts == rows@.map_values(row_view).filter(contested).len(),
            accepted@.len() + conflicts == rows@.len(),
            rows@.len() <= start,
            exact_duplicates == seqs::sum(rows@.map_values(row_view).map_values(of_row)),
            exact_duplicates <= start,
        decreases n - start,
    {
        let ghost begin = start as int;
        let first = places[start].index;
        let mut end: usize = start + 1;
        let mut conflicting = false;
        while end < places.len() && places[end].rank == places[start].rank
            invariant
                start < end <= places@.len() == n,
                n == all.len() == events@.len(),
                all == views(events@),
                first == places@[start as int].index,
                sorting::orders(places@, ranks@),
                ranks@.len() == n,
                forall|q: int| start <= q < end ==> (#[trigger] places@[q]).rank
                    == places@[start as int].rank,
                conflicting == exists|q: int|
                    start <= q < end && all[(#[trigger] places@[q]).index as int]
                        != all[first as int],
            decreases n - end,
        {
            if !same_event(&events[first], &events[places[end].index]) {
                conflicting = true;
                assert(all[places@[end as int].index as int] != all[first as int]);
            }
            proof {
                if exists|q: int|
                    start <= q < end + 1 && all[(#[trigger] places@[q]).index as int]
                        != all[first as int] {
                    let q = choose|q: int|
                        start <= q < end + 1 && all[(#[trigger] places@[q]).index as int]
                            != all[first as int];
                    if q < end {
                        assert(all[places@[q].index as int] != all[first as int]);
                    }
                }
            }
            end = end + 1;
        }
        let ghost id = all[first as int].id();
        proof {
            assert forall|p: int| 0 <= p < n implies ((#[trigger] places@[p]).rank
                == places@[begin].rank <==> begin <= p < end) by {
                if p < begin {
                    assert(places@[p].rank <= places@[begin - 1].rank) by {
                        if p < begin - 1 {
                            let (x, y) = (places@[p], places@[begin - 1]);
                        }
                    }
                } else if p >= end {
                    let (x, y) = (places@[end as int], places@[p]);
                    let z = places@[begin];
                }
            }
            assert forall|i: int, j: int| 0 <= i < n && 0 <= j < n implies (#[trigger] ranks@[i]
                == #[trigger] ranks@[j] <==> all[i].id() == all[j].id()) by {
                assert(ids@[i]@ == all[i].id());
                assert(ids@[j]@ == all[j].id());
            }
            lemma_run_counts(all, ranks@, places@, id, begin, end as int);
            lemma_group_conflict(all, ranks@, places@, begin, end as int);
        }
        let occurrences_here: usize = end - start;
        let ghost rows_before = rows@.map_values(row_view);
        let ghost listed_before = listed;
        let ghost accepted_before = accepted@;
        let disposition = if conflicting {
            conflicts = conflicts + 1;
            let mut q: usize = start;
            while q < end
                invariant
                    start <= q <= end <= n,
                    n == clear@.len() == places@.len() == ranks@.len(),
                    sorting::orders(places@, ranks@),
                    forall|x: int|
                        start <= x < q ==> !clear@[(#[trigger] places@[x]).index as int],
                    forall|x: int|
                        0 <= x < start ==> clear@[(#[trigger] places@[x]).index as int]
                            == !model::conflicted(all, all[places@[x].index as int].id()),
                    forall|x: int|
                        q <= x < n ==> clear@[(#[trigger] places@[x]).index as int],
                decreases end - q,
            {
                let ghost previous = clear@;
                clear.set(places[q].index, false);
                proof {
                    assert forall|x: int| 0 <= x < n && x != q implies clear@[(
                    #[trigger] places@[x]).index as int] == previous[places@[x].index as int] by {
                        let (a, b) = (places@[x], places@[q as int]);
                        assert(a.index != b.index);
                    }
                }
                q = q + 1;
            }
            "quarantined_conflict".to_owned()
        } else {
            exact_duplicates = exact_duplicates + (occurrences_here - 1);
            accepted.push(first);
            if occurrences_here == 1 {
                "accepted".to_owned()
            } else {
                "accepted_with_exact_retries".to_owned()
            }
        };
        rows.push(
            EventAccounting {
                event_id: events[first].event_id().to_owned(),
                input_occurrences: occurrences_here,
                disposition,
            },
        );
        proof {
            listed = listed.push(id);
            let shown = rows@.map_values(row_view);
            let row = model::accounting_for(all, id);
            assert(rows@[rows@.len() - 1]@ == row);
            assert(shown =~= rows_before.push(row));
            reveal(Seq::filter);
            assert(shown.drop_last() =~= rows_before);
            assert(shown.map_values(of_row) =~= rows_before.map_values(of_row).push(retries(row)));
            seqs::lemma_sum_push(rows_before.map_values(of_row), retries(row));
            if begin > 0 {
                let before = places@[begin - 1].index as int;
                assert(ranks@[before] < ranks@[first as int]);
                assert(ids@[before]@ == all[before].id());
                assert(ids@[first as int]@ == id);
                assert(text::text_lt(all[before].id(), id));
            }
            assert forall|a: int, b: int| 0 <= a < b < listed.len() implies text::text_lt(
                #[trigger] listed[a],
                #[trigger] listed[b],
            ) by {
                if b == listed_before.len() && a < b - 1 {
                    assert(text::text_lt(listed_before[a], listed_before[b - 1]));
                    text::lemma_text_transitive(listed_before[a], listed_before[b - 1], id);
                }
            }
            assert forall|q: int| 0 <= q < end implies listed.contains(
                all[(#[trigger] places@[q]).index as int].id(),
            ) by {
                let t = all[places@[q].index as int].id();
                if q < begin {
                    assert(listed_before.contains(t));
                    let k = choose|k: int| 0 <= k < listed_before.len() && listed_before[k] == t;
                    assert(listed[k] == t);
                } else {
                    assert(listed[listed_before.len() as int] == id);
                }
            }
            assert(model::event_ids(all).contains(id)) by {
                assert(all[first as int].id() == id);
            }
            assert(all.contains(all[first as int]));
            if !conflicting {
                let kept = accepted@.len() - 1;
                assert(all[accepted@[kept] as int] == all[first as int]);
                assert forall|a: int, b: int| 0 <= a < b < accepted@.len() implies text::text_lt(
                    all[#[trigger] accepted@[a] as int].id(),
                    all[#[trigger] accepted@[b] as int].id(),
                ) by {
                    if b == kept {
                        let last = all[accepted@[kept - 1] as int].id();
                        if a < kept - 1 {
                            assert(text::text_lt(all[accepted@[a] as int].id(), last));
                        }
                        let top = listed_before[listed_before.len() - 1];
                        text::lemma_text_total(last, last);
                        text::lemma_text_transitive(last, top, id);
                        if a < kept - 1 {
                            text::lemma_text_transitive(all[accepted@[a] as int].id(), last, id);
                        }
                    }
                }
            }
            assert forall|q: int|
                0 <= q < end && !model::conflicted(
                    all,
                    all[(#[trigger] places@[q]).index as int].id(),
                ) implies exists|k: int|
                0 <= k < accepted@.len() && all[#[trigger] accepted@[k] as int]
                    == all[places@[q].index as int] by {
                if q >= begin {
                    assert(!conflicting);
                    assert(all[accepted@[accepted@.len() - 1] as int]
                        == all[places@[q].index as int]);
                } else {
                    let k = choose|k: int|
                        0 <= k < accepted_before.len() && all[#[trigger] accepted_before[k] as int]
                            == all[places@[q].index as int];
                    assert(accepted@[k] == accepted_before[k]);
                }
            }
            if accepted@.len() > 0 && conflicting {
                let last = all[accepted@[accepted@.len() - 1] as int].id();
                let top = listed_before[listed_before.len() - 1];
                text::lemma_text_total(last, last);
                text::lemma_text_transitive(last, top, id);
            }
        }
        start = end;
    }
    proof {
        let shown = rows@.map_values(row_view);
        assert forall|t: Seq<char>| #[trigger] listed.contains(t) <==> model::event_ids(all).contains(
            t,
        ) by {
            if model::event_ids(all).contains(t) {
                let i = choose|i: int| 0 <= i < all.len() && (#[trigger] all[i]).id() == t;
                assert(sorting::placed_somewhere(places@, i));
                let q = choose|q: int| 0 <= q < places@.len() && (#[trigger] places@[q]).index == i;
                assert(listed.contains(all[places@[q].index as int].id()));
            }
        }
        text::lemma_in_order(listed, model::event_ids(all));
        assert(shown =~= model::accounting_of(all));
        assert forall|i: int| 0 <= i < n implies (#[trigger] clear@[i]) == !model::conflicted(
            all,
            all[i].id(),
        ) by {
            assert(sorting::placed_somewhere(places@, i));
            let q = choose|q: int| 0 <= q < places@.len() && (#[trigger] places@[q]).index == i;
            assert(clear@[places@[q].index as int] == !model::conflicted(
                all,
                all[places@[q].index as int].id(),
            ));
        }
        assert forall|event: EventView| #[trigger] model::trusted(all, event) implies exists|k: int|
            0 <= k < accepted@.len() && all[#[trigger] accepted@[k] as int] == event by {
            let i = choose|i: int| 0 <= i < all.len() && all[i] == event;
            assert(sorting::placed_somewhere(places@, i));
            let q = choose|q: int| 0 <= q < places@.len() && (#[trigger] places@[q]).index == i;
            assert(all[places@[q].index as int] == event);
        }
    }
    Canonical { accepted, clear, event_accounting: rows, exact_duplicates, conflicts }
}

/// An identity is contested exactly when its run holds an event that differs
/// from the first.
proof fn lemma_group_conflict(
    events: Seq<EventView>,
    ranks: Seq<usize>,
    places: Seq<Place>,
    start: int,
    end: int,
)
    requires
        sorting::orders(places, ranks),
        ranks.len() == events.len(),
        0 <= start < end <= places.len(),
        forall|i: int, j: int|
            0 <= i < ranks.len() && 0 <= j < ranks.len() ==> (#[trigger] ranks[i]
                == #[trigger] ranks[j] <==> events[i].id() == events[j].id()),
        forall|p: int|
            0 <= p < places.len() ==> ((#[trigger] places[p]).rank == places[start].rank <==> start
                <= p < end),
    ensures
        model::conflicted(events, events[places[start].index as int].id()) == exists|q: int|
            start <= q < end && events[(#[trigger] places[q]).index as int]
                != events[places[start].index as int],
        forall|q: int|
            start <= q < end ==> events[(#[trigger] places[q]).index as int].id()
                == events[places[start].index as int].id(),
{
    let first = places[start].index as int;
    let id = events[first].id();
    assert forall|q: int| start <= q < end implies events[(
    #[trigger] places[q]).index as int].id() == id by {
        assert((ranks[first] == ranks[places[q].index as int]) == (events[first].id()
            == events[places[q].index as int].id()));
    }
    if model::conflicted(events, id) {
        let (i, j) = choose|i: int, j: int|
            0 <= i < events.len() && 0 <= j < events.len() && (#[trigger] events[i]).id() == id && (
            #[trigger] events[j]).id() == id && events[i] != events[j];
        let k = if events[i] != events[first] {
            i
        } else {
            j
        };
        assert(sorting::placed_somewhere(places, k));
        let q = choose|q: int| 0 <= q < places.len() && (#[trigger] places[q]).index == k;
        assert((ranks[first] == ranks[k]) == (events[first].id() == events[k].id()));
        assert(events[places[q].index as int] != events[first]);
    }
    if exists|q: int|
        start <= q < end && events[(#[trigger] places[q]).index as int] != events[first] {
        let q = choose|q: int|
            start <= q < end && events[(#[trigger] places[q]).index as int] != events[first];
        assert(events[first].id() == id && events[places[q].index as int].id() == id);
    }
}

} // verus!
