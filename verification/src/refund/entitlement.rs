//! What a return entitles to, told by its lines, scans, corrections and payments.

use vstd::prelude::*;
use crate::refund::laws;
use crate::refund::model;
use crate::refund::model::{
    AuthView, EventView, LinePlanView, LineView, PaymentBlock, PaymentStatus, ScanView, Stock,
    Terms,
};
use crate::refund::owned;
use crate::refund::settle;
use crate::seqs;
use crate::text;

verus! {

/// The units of a line share its price to the cent: all of them cost what was paid, none
/// costs more than a cent more than another, and the earlier ones never cost less.
pub proof fn units_share_the_price(net: int, authorized: int, a: int, b: int)
    requires
        net >= 0,
        authorized > 0,
        0 <= a <= b < authorized,
    ensures
        model::cost(net, authorized, 0) == 0,
        model::cost(net, authorized, authorized) == net,
        ({
            let first = model::cost(net, authorized, a + 1) - model::cost(net, authorized, a);
            let second = model::cost(net, authorized, b + 1) - model::cost(net, authorized, b);
            0 <= second <= first <= second + 1
        }),
{
    let base = net / authorized;
    vstd::arithmetic::div_mod::lemma_fundamental_div_mod(net, authorized);
    vstd::arithmetic::div_mod::lemma_div_pos_is_pos(net, authorized);
    assert(base * (a + 1) == base * a + base) by (nonlinear_arith);
    assert(base * (b + 1) == base * b + base) by (nonlinear_arith);
    assert(base * authorized == authorized * base) by (nonlinear_arith);
    assert(base * 0 == 0) by (nonlinear_arith);
}

/// As many units are proposed as can be paid for, and not one fewer.
pub proof fn no_affordable_unit_is_left_out(net: int, authorized: int, capacity: int, units: nat)
    requires
        net >= 0,
        authorized > 0,
        capacity >= 0,
        units <= authorized,
    ensures
        ({
            let proposed = model::affordable(net, authorized, capacity, units);
            &&& proposed <= units
            &&& model::cost(net, authorized, proposed as int) <= capacity
            &&& proposed < units ==> model::cost(net, authorized, proposed as int + 1) > capacity
        }),
{
    settle::lemma_affordable(net, authorized, capacity, units);
    let proposed = model::affordable(net, authorized, capacity, units);
    if proposed < units {
        assert(proposed < proposed + 1 <= units);
        assert(model::cost(net, authorized, proposed as int + 1) > capacity);
    }
}

/// An event was given, and no other event that was given bears its identity.
pub open spec fn undisputed(events: Seq<EventView>, event: EventView) -> bool {
    &&& events.contains(event)
    &&& forall|i: int|
        0 <= i < events.len() && (#[trigger] events[i]).id() == event.id() ==> events[i] == event
}

pub proof fn lemma_undisputed(events: Seq<EventView>, event: EventView)
    ensures
        model::trusted(events, event) <==> undisputed(events, event),
{
    if model::trusted(events, event) {
        let k = choose|k: int| 0 <= k < events.len() && events[k] == event;
        assert forall|i: int|
            0 <= i < events.len() && (#[trigger] events[i]).id() == event.id() implies events[i]
            == event by {
            if events[i] != event {
                assert(events[k].id() == event.id());
                assert(model::conflicted(events, event.id()));
            }
        }
    }
    if undisputed(events, event) && model::conflicted(events, event.id()) {
        let id = event.id();
        let (i, j) = choose|i: int, j: int|
            0 <= i < events.len() && 0 <= j < events.len() && (#[trigger] events[i]).id() == id && (
            #[trigger] events[j]).id() == id && events[i] != events[j];
        assert(events[i] == event && events[j] == event);
    }
}

/// One event comes after another: by the time at its source, then by its ingestion, then
/// by its identity.
pub open spec fn comes_after(later: EventView, earlier: EventView) -> bool {
    ||| earlier.timestamp() < later.timestamp()
    ||| earlier.timestamp() == later.timestamp() && earlier.ingestion() < later.ingestion()
    ||| earlier.timestamp() == later.timestamp() && earlier.ingestion() == later.ingestion()
        && text::text_lt(earlier.id(), later.id())
}

/// A correction that counts for a scan: undisputed, of the same return, naming the scan,
/// and later than it.
pub open spec fn amends(events: Seq<EventView>, correction: EventView, scan: EventView) -> bool {
    &&& undisputed(events, correction)
    &&& correction matches EventView::Correction { target_event_id, return_id, .. }
        && target_event_id == scan.id() && return_id == scan.owner()
    &&& comes_after(correction, scan)
}

proof fn lemma_amends(events: Seq<EventView>, correction: EventView, scan: EventView)
    ensures
        amends(events, correction, scan) <==> model::corrects(events, correction, scan)
            && model::happens_before(scan, correction),
{
    lemma_undisputed(events, correction);
}

/// A scan that is corrected counts as its latest correction has it.
pub proof fn the_latest_correction_counts(
    events: Seq<EventView>,
    scan: EventView,
    correction: EventView,
)
    requires
        amends(events, correction, scan),
        forall|other: EventView| #[trigger]
            amends(events, other, scan) && other != correction ==> comes_after(correction, other),
    ensures
        model::scan_of(events, scan).event_id == scan.id(),
        model::scan_of(events, scan).sku == correction->replacement_sku,
        model::scan_of(events, scan).quantity == correction->replacement_quantity,
        model::scan_of(events, scan).provenance == set![scan.id(), correction.id()],
{
    lemma_amends(events, correction, scan);
    assert forall|other: EventView| #[trigger]
        model::corrects(events, other, scan) && model::happens_before(scan, other) implies other
        == correction || model::happens_before(other, correction) by {
        lemma_amends(events, other, scan);
    }
    assert(model::is_latest(events, correction, scan));
    let chosen = choose|chosen: EventView| #[trigger] model::is_latest(events, chosen, scan);
    if chosen != correction {
        assert(model::corrects(events, chosen, scan) && model::happens_before(scan, chosen));
        assert(model::happens_before(chosen, correction));
        assert(model::happens_before(correction, chosen));
        text::lemma_text_total(chosen.id(), correction.id());
    }
}

/// A scan that no correction counts for counts as it was made.
pub proof fn uncorrected_scans_count_as_made(events: Seq<EventView>, scan: EventView)
    requires
        forall|other: EventView| !#[trigger] amends(events, other, scan),
    ensures
        model::scan_of(events, scan).event_id == scan.id(),
        model::scan_of(events, scan).sku == scan->sku,
        model::scan_of(events, scan).quantity == scan->quantity,
        model::scan_of(events, scan).provenance == set![scan.id()],
{
    if exists|correction: EventView| #[trigger] model::is_latest(events, correction, scan) {
        let correction = choose|correction: EventView| #[trigger]
            model::is_latest(events, correction, scan);
        lemma_amends(events, correction, scan);
        assert(amends(events, correction, scan));
    }
}

/// The scans that a return is settled by: the undisputed scans of it, each once, by
/// identity.
pub proof fn undisputed_scans_are_settled(
    events: Seq<EventView>,
    owner: Seq<char>,
    scan: EventView,
)
    requires
        undisputed(events, scan),
        scan is WarehouseScan,
    ensures
        scan.owner() == owner <==> model::scans_of(events, owner).contains(
            model::scan_of(events, scan),
        ) && exists|i: int|
            0 <= i < model::scans_of(events, owner).len() && (#[trigger] model::scans_of(
                events,
                owner,
            )[i]).event_id == scan.id(),
        forall|a: int, b: int|
            0 <= a < b < model::scans_of(events, owner).len() ==> text::text_lt(
                (#[trigger] model::scans_of(events, owner)[a]).event_id,
                (#[trigger] model::scans_of(events, owner)[b]).event_id,
            ),
{
    let set = model::scan_ids(events, owner);
    let ids = text::in_order(set);
    let scans = model::scans_of(events, owner);
    lemma_scan_ids_listed(events, owner);
    lemma_undisputed(events, scan);
    assert forall|k: int| 0 <= k < ids.len() implies (#[trigger] scans[k]).event_id == ids[k]
        && exists|event: EventView| #[trigger]
        model::trusted(events, event) && event is WarehouseScan && event.owner() == owner
            && event.id() == ids[k] by {
        assert(ids.contains(ids[k]));
        assert(set.contains(ids[k]));
        let event = choose|event: EventView| #[trigger]
            model::trusted(events, event) && event is WarehouseScan && event.owner() == owner
                && event.id() == ids[k];
        owned::lemma_event_with(events, event);
    }
    if scan.owner() == owner {
        assert(set.contains(scan.id()));
        assert(ids.contains(scan.id()));
        let k = choose|k: int| 0 <= k < ids.len() && ids[k] == scan.id();
        owned::lemma_event_with(events, scan);
        assert(scans[k] == model::scan_of(events, scan));
        assert(scans[k].event_id == scan.id());
    }
    if exists|i: int| 0 <= i < scans.len() && (#[trigger] scans[i]).event_id == scan.id() {
        let i = choose|i: int| 0 <= i < scans.len() && (#[trigger] scans[i]).event_id == scan.id();
        assert(ids[i] == scan.id());
        let event = choose|event: EventView| #[trigger]
            model::trusted(events, event) && event is WarehouseScan && event.owner() == owner
                && event.id() == ids[i];
        lemma_undisputed(events, event);
        let k = choose|k: int| 0 <= k < events.len() && events[k] == event;
        assert(events[k].id() == scan.id());
        assert(event == scan);
    }
    assert forall|a: int, b: int| 0 <= a < b < scans.len() implies text::text_lt(
        (#[trigger] scans[a]).event_id,
        (#[trigger] scans[b]).event_id,
    ) by {
        assert(scans[a].event_id == ids[a] && scans[b].event_id == ids[b]);
    }
}

proof fn lemma_scan_ids_listed(events: Seq<EventView>, owner: Seq<char>)
    ensures
        text::lists(
            text::in_order(model::scan_ids(events, owner)),
            model::scan_ids(events, owner),
        ),
{
    let set = model::scan_ids(events, owner);
    let names = events.map_values(|event: EventView| event.id());
    assert forall|id: Seq<char>| set.contains(id) implies names.to_set().contains(id) by {
        let event = choose|event: EventView| #[trigger]
            model::trusted(events, event) && event is WarehouseScan && event.owner() == owner
                && event.id() == id;
        let i = choose|i: int| 0 <= i < events.len() && events[i] == event;
        assert(names[i] == id);
    }
    vstd::seq_lib::seq_to_set_is_finite(names);
    vstd::set_lib::lemma_set_subset_finite(names.to_set(), set);
    text::lemma_listed(set);
}

/// An undisputed result of a payment for a line.
pub open spec fn pays(
    events: Seq<EventView>,
    event: EventView,
    owner: Seq<char>,
    line: Seq<char>,
) -> bool {
    undisputed(events, event) && (event matches EventView::PaymentResult { return_id, line_id, .. }
        && return_id == owner && line_id == line)
}

/// Nothing stands in the way of a refund exactly if every result of a payment for the line
/// is a failure, and the results of one refund name one amount. A line stays blocked by a
/// success, by a payment that is still pending, and by amounts that differ.
pub proof fn only_failed_payments_leave_a_line_open(
    events: Seq<EventView>,
    owner: Seq<char>,
    line: Seq<char>,
)
    ensures
        model::block_of(events, owner, line) is None <==> {
            &&& forall|event: EventView| #[trigger]
                pays(events, event, owner, line) ==> event->PaymentResult_status
                    == PaymentStatus::Failed
            &&& forall|a: EventView, b: EventView| #[trigger]
                pays(events, a, owner, line) && #[trigger] pays(events, b, owner, line)
                    && a->refund_id == b->refund_id ==> a->amount_cents == b->amount_cents
        },
        (forall|a: EventView, b: EventView| #[trigger]
            pays(events, a, owner, line) && #[trigger] pays(events, b, owner, line) && a->refund_id
                == b->refund_id ==> a->amount_cents == b->amount_cents) ==> (model::block_of(
            events,
            owner,
            line,
        ) == Some(PaymentBlock::Successful) <==> exists|event: EventView| #[trigger]
            pays(events, event, owner, line) && event->PaymentResult_status
                == PaymentStatus::Successful),
{
    assert forall|event: EventView, refund: Seq<char>| #[trigger]
        model::attempt(events, event, owner, line, refund) <==> pays(events, event, owner, line)
            && event->refund_id == refund by {
        lemma_undisputed(events, event);
    }
    assert forall|event: EventView| #[trigger] pays(events, event, owner, line) implies model::attempt(
        events,
        event,
        owner,
        line,
        event->refund_id,
    ) by {}
    let open = model::block_of(events, owner, line) is None;
    if exists|refund: Seq<char>| #[trigger] model::decides(events, owner, line, refund) {
        let refund = choose|refund: Seq<char>| #[trigger]
            model::decides(events, owner, line, refund);
        let last = laws::lemma_some_last(events, owner, line, refund);
        owned::lemma_block_decided(events, owner, line, last);
        if !model::amounts_differ(events, owner, line, last) {
            let event = choose|event: EventView| #[trigger]
                model::attempt(events, event, owner, line, last) && event->PaymentResult_status
                    == PaymentStatus::Successful;
            assert(pays(events, event, owner, line));
        } else {
            let (a, b) = choose|a: EventView, b: EventView| #[trigger]
                model::attempt(events, a, owner, line, last) && #[trigger] model::attempt(
                    events,
                    b,
                    owner,
                    line,
                    last,
                ) && a->amount_cents != b->amount_cents;
            assert(pays(events, a, owner, line) && pays(events, b, owner, line));
        }
    } else {
        assert forall|event: EventView| #[trigger]
            pays(events, event, owner, line) implies event->PaymentResult_status
            != PaymentStatus::Successful by {
            let refund = event->refund_id;
            assert(model::attempt(events, event, owner, line, refund));
            if event->PaymentResult_status == PaymentStatus::Successful {
                assert(model::attempt_has(events, owner, line, refund, PaymentStatus::Successful));
                assert(model::decides(events, owner, line, refund));
            }
        }
        assert forall|a: EventView, b: EventView| #[trigger]
            pays(events, a, owner, line) && #[trigger] pays(events, b, owner, line) && a->refund_id
                == b->refund_id implies a->amount_cents == b->amount_cents by {
            let refund = a->refund_id;
            assert(model::attempt(events, a, owner, line, refund) && model::attempt(
                events,
                b,
                owner,
                line,
                refund,
            ));
            if a->amount_cents != b->amount_cents {
                assert(model::amounts_differ(events, owner, line, refund));
                assert(model::decides(events, owner, line, refund));
            }
        }
        if exists|refund: Seq<char>| #[trigger]
            model::attempt_has(events, owner, line, refund, PaymentStatus::Pending) {
            let refund = choose|refund: Seq<char>| #[trigger]
                model::attempt_has(events, owner, line, refund, PaymentStatus::Pending);
            let event = choose|event: EventView| #[trigger]
                model::attempt(events, event, owner, line, refund) && event->PaymentResult_status
                    == PaymentStatus::Pending;
            assert(pays(events, event, owner, line));
        } else {
            assert forall|event: EventView| #[trigger]
                pays(events, event, owner, line) implies event->PaymentResult_status
                == PaymentStatus::Failed by {
                let refund = event->refund_id;
                assert(model::attempt(events, event, owner, line, refund));
                if event->PaymentResult_status == PaymentStatus::Pending {
                    assert(model::attempt_has(events, owner, line, refund, PaymentStatus::Pending));
                }
            }
        }
    }
}

/// The units of an article that the first `n` scans still hold.
pub open spec fn units_left(
    scans: Seq<ScanView>,
    remaining: Seq<nat>,
    sku: Seq<char>,
    n: nat,
) -> nat
    decreases n,
{
    if n == 0 {
        0
    } else {
        units_left(scans, remaining, sku, (n - 1) as nat) + if scans[n - 1].sku == sku {
            remaining[n - 1]
        } else {
            0
        }
    }
}

/// The units of an article that were scanned.
pub open spec fn units_scanned(scans: Seq<ScanView>, sku: Seq<char>) -> nat {
    units_left(scans, scans.map_values(|scan: ScanView| scan.quantity), sku, scans.len())
}

/// The units of an article that the first `n` lines accept.
pub open spec fn units_accepted(
    lines: Seq<LineView>,
    told: Seq<LinePlanView>,
    sku: Seq<char>,
    n: nat,
) -> nat
    decreases n,
{
    if n == 0 {
        0
    } else {
        units_accepted(lines, told, sku, (n - 1) as nat) + if lines[n - 1].sku == sku {
            told[n - 1].accepted_scan_quantity
        } else {
            0
        }
    }
}

/// The cents that are proposed for the first `n` lines.
pub open spec fn cents_proposed(told: Seq<LinePlanView>, n: nat) -> nat
    decreases n,
{
    if n == 0 {
        0
    } else {
        cents_proposed(told, (n - 1) as nat) + told[n - 1].proposed_cents
    }
}

pub open spec fn lesser(a: int, b: int) -> int {
    if a < b {
        a
    } else {
        b
    }
}

proof fn lemma_given(
    scans: Seq<ScanView>,
    remaining: Seq<nat>,
    sku: Seq<char>,
    want: nat,
    n: nat,
)
    requires
        n <= scans.len() == remaining.len(),
    ensures
        seqs::sum(model::allotted(scans, remaining, sku, want, n)) == lesser(
            want as int,
            units_left(scans, remaining, sku, n) as int,
        ),
    decreases n,
{
    if n > 0 {
        let before = model::allotted(scans, remaining, sku, want, (n - 1) as nat);
        lemma_given(scans, remaining, sku, want, (n - 1) as nat);
        let given = model::allotted(scans, remaining, sku, want, n);
        seqs::lemma_sum_push(before, given.last());
        assert(given =~= before.push(given.last()));
    }
}

proof fn lemma_left_after(
    scans: Seq<ScanView>,
    remaining: Seq<nat>,
    given: Seq<nat>,
    after: Seq<nat>,
    sku: Seq<char>,
    other: Seq<char>,
    n: nat,
)
    requires
        n <= scans.len() == remaining.len() == given.len() == after.len(),
        forall|i: int| 0 <= i < scans.len() ==> (#[trigger] given[i]) <= remaining[i],
        forall|i: int| 0 <= i < scans.len() && scans[i].sku != sku ==> (#[trigger] given[i]) == 0,
        forall|i: int|
            0 <= i < scans.len() ==> (#[trigger] after[i]) == remaining[i] - given[i],
    ensures
        units_left(scans, after, other, n) + (if other == sku {
            seqs::sum(given.take(n as int))
        } else {
            0
        }) == units_left(scans, remaining, other, n),
    decreases n,
{
    if n > 0 {
        lemma_left_after(scans, remaining, given, after, sku, other, (n - 1) as nat);
        seqs::lemma_sum_take(given, n - 1);
        assert(after[n - 1] == remaining[n - 1] - given[n - 1]);
    } else {
        assert(given.take(0) =~= Seq::<nat>::empty());
    }
}

/// What the scans hold and what may still be paid, once some lines are served.
proof fn lemma_stock(
    terms: Terms,
    start: Stock,
    lines: Seq<LineView>,
    told: Seq<LinePlanView>,
    sku: Seq<char>,
    n: nat,
)
    requires
        start.remaining.len() == terms.scans.len(),
        told.len() == lines.len(),
        forall|k: int|
            0 <= k < lines.len() ==> (#[trigger] told[k]).accepted_scan_quantity
                == model::proposal_at(terms, start, lines, k).accepted_scan_quantity
                && told[k].proposed_cents == model::proposal_at(
                terms,
                start,
                lines,
                k,
            ).proposed_cents,
        forall|k: int|
            0 <= k < lines.len() ==> (#[trigger] lines[k]).authorized_qty > 0
                && lines[k].sound_money() && lines[k].prior_successful_refund_cents
                <= lines[k].net(),
        n <= lines.len(),
    ensures
        ({
            let stock = model::stock_at(terms, start, lines, n);
            &&& stock.remaining.len() == terms.scans.len()
            &&& units_left(terms.scans, stock.remaining, sku, terms.scans.len())
                + units_accepted(lines, told, sku, n) == units_left(
                terms.scans,
                start.remaining,
                sku,
                terms.scans.len(),
            )
            &&& stock.cap + cents_proposed(told, n) == start.cap
        }),
    decreases n,
{
    if n > 0 {
        let scans = terms.scans;
        let before = model::stock_at(terms, start, lines, (n - 1) as nat);
        lemma_stock(terms, start, lines, told, sku, (n - 1) as nat);
        let line = lines[n - 1];
        let given = model::given_to(terms, before, line);
        settle::lemma_allotted(
            scans,
            before.remaining,
            line.sku,
            line.authorized_qty as nat,
            scans.len(),
        );
        let after = model::stock_after(terms, before, line);
        assert(given.take(scans.len() as int) =~= given);
        lemma_left_after(
            scans,
            before.remaining,
            given,
            after.remaining,
            line.sku,
            sku,
            scans.len(),
        );
        assert(told[n - 1].accepted_scan_quantity == seqs::sum(given));
        lemma_within_capacity(terms, before, line);
        assert(told[n - 1].proposed_cents <= before.cap);
    }
}

/// A proposal is what can be paid for.
proof fn lemma_within_capacity(terms: Terms, stock: Stock, line: LineView)
    requires
        stock.remaining.len() == terms.scans.len(),
        line.authorized_qty > 0,
        line.sound_money(),
        line.prior_successful_refund_cents <= line.net(),
    ensures
        ({
            let told = model::proposal(terms, stock, line);
            let capacity = lesser(
                line.net() - line.prior_successful_refund_cents,
                stock.cap as int,
            );
            let authorized = line.authorized_qty as int;
            &&& told.proposed_quantity <= told.accepted_scan_quantity <= line.authorized_qty
            &&& told.proposed_cents == model::cost(
                line.net(),
                authorized,
                told.proposed_quantity as int,
            )
            &&& told.proposed_cents <= capacity
            &&& model::block_of(terms.events, terms.owner, line.line_id) is Some
                ==> told.proposed_quantity == 0
            &&& model::block_of(terms.events, terms.owner, line.line_id) is None
                && told.proposed_quantity < told.accepted_scan_quantity ==> model::cost(
                line.net(),
                authorized,
                told.proposed_quantity as int + 1,
            ) > capacity
        }),
{
    let told = model::proposal(terms, stock, line);
    let given = model::given_to(terms, stock, line);
    let authorized = line.authorized_qty as int;
    settle::lemma_allotted(
        terms.scans,
        stock.remaining,
        line.sku,
        line.authorized_qty as nat,
        terms.scans.len(),
    );
    let capacity = lesser(line.net() - line.prior_successful_refund_cents, stock.cap as int);
    let eligible = if model::block_of(terms.events, terms.owner, line.line_id) is None {
        seqs::sum(given)
    } else {
        0
    };
    no_affordable_unit_is_left_out(line.net(), authorized, capacity, eligible);
    settle::lemma_cost(line.net(), authorized, told.proposed_quantity as int);
}

/// What a line is told to get is what it is entitled to: it accepts the scanned units of
/// its article that no line before it accepted, up to its quantity, and of those as many
/// are proposed as its own price and the captured payment still cover, prior and proposed
/// refunds deducted; none are while a payment stands in the way.
#[verifier::opaque]
pub open spec fn is_entitlement(
    authorization: AuthView,
    scans: Seq<ScanView>,
    lines: Seq<LineView>,
    told: Seq<LinePlanView>,
    block: Option<PaymentBlock>,
    k: int,
) -> bool {
    let line = lines[k];
    let price = line.paid_subtotal_cents + line.tax_cents - line.discount_cents;
    let capacity = lesser(
        price - line.prior_successful_refund_cents,
        authorization.captured_cents - model::prior_total(authorization.lines) - cents_proposed(
            told,
            k as nat,
        ),
    );
    let authorized = line.authorized_qty as int;
    let proposed = told[k].proposed_quantity as int;
    &&& told[k].line_id == line.line_id
    &&& told[k].accepted_scan_quantity == lesser(
        authorized,
        units_scanned(scans, line.sku) - units_accepted(lines, told, line.sku, k as nat),
    )
    &&& told[k].proposed_cents == model::cost(price, authorized, proposed)
    &&& proposed <= told[k].accepted_scan_quantity
    &&& told[k].proposed_cents <= capacity
    &&& block is Some ==> proposed == 0
    &&& block is None && proposed < told[k].accepted_scan_quantity ==> model::cost(
        price,
        authorized,
        proposed + 1,
    ) > capacity
}

/// Lines with a quantity and a price that their prior refunds do not exceed.
#[verifier::opaque]
spec fn all_priced(lines: Seq<LineView>) -> bool {
    forall|j: int|
        0 <= j < lines.len() ==> (#[trigger] lines[j]).authorized_qty > 0 && lines[j].sound_money()
            && lines[j].prior_successful_refund_cents <= lines[j].net()
}

/// Lines that are told what is proposed for them.
#[verifier::opaque]
spec fn as_proposed(
    terms: Terms,
    start: Stock,
    lines: Seq<LineView>,
    told: Seq<LinePlanView>,
) -> bool {
    &&& told.len() == lines.len()
    &&& forall|j: int|
        0 <= j < lines.len() ==> {
            let proposal = model::proposal_at(terms, start, lines, j);
            &&& (#[trigger] told[j]).accepted_scan_quantity == proposal.accepted_scan_quantity
            &&& told[j].proposed_cents == proposal.proposed_cents
            &&& told[j].proposed_quantity == proposal.proposed_quantity
            &&& told[j].line_id == lines[j].line_id
        }
}

proof fn lemma_entitled(
    authorization: AuthView,
    terms: Terms,
    lines: Seq<LineView>,
    told: Seq<LinePlanView>,
    k: int,
)
    requires
        model::prior_total(authorization.lines) <= authorization.captured_cents,
        all_priced(lines),
        as_proposed(terms, model::opening_stock(terms, authorization), lines, told),
        0 <= k < lines.len(),
    ensures
        is_entitlement(
            authorization,
            terms.scans,
            lines,
            told,
            model::block_of(terms.events, terms.owner, lines[k].line_id),
            k,
        ),
{
    reveal(is_entitlement);
    reveal(all_priced);
    reveal(as_proposed);
    let start = model::opening_stock(terms, authorization);
    let line = lines[k];
    lemma_stock(terms, start, lines, told, line.sku, k as nat);
    let stock = model::stock_at(terms, start, lines, k as nat);
    lemma_within_capacity(terms, stock, line);
    lemma_given(
        terms.scans,
        stock.remaining,
        line.sku,
        line.authorized_qty as nat,
        terms.scans.len(),
    );
    assert(told[k].accepted_scan_quantity == model::proposal(
        terms,
        stock,
        line,
    ).accepted_scan_quantity);
}

pub proof fn lemma_plan_lines(events: Seq<EventView>, authorization: AuthView)
    ensures
        ({
            let told = model::plan_of(events, authorization).lines;
            let lines = model::ordered_lines(authorization.lines);
            let terms = model::terms_of(events, authorization.return_id);
            let start = model::opening_stock(terms, authorization);
            &&& told.len() == lines.len()
            &&& forall|k: int|
                0 <= k < lines.len() ==> #[trigger] told[k] == model::line_plan_at(
                    terms,
                    start,
                    lines,
                    k,
                )
        }),
{
}

proof fn lemma_as_proposed(events: Seq<EventView>, authorization: AuthView)
    ensures
        as_proposed(
            model::terms_of(events, authorization.return_id),
            model::opening_stock(
                model::terms_of(events, authorization.return_id),
                authorization,
            ),
            model::ordered_lines(authorization.lines),
            model::plan_of(events, authorization).lines,
        ),
{
    reveal(as_proposed);
    lemma_plan_lines(events, authorization);
}

proof fn lemma_all_priced(authorization: AuthView)
    requires
        settle::sound(authorization),
    ensures
        all_priced(model::ordered_lines(authorization.lines)),
{
    reveal(all_priced);
    let lines = model::ordered_lines(authorization.lines);
    laws::lemma_ordered_lines(authorization.lines);
    assert forall|j: int| 0 <= j < lines.len() implies (#[trigger] lines[j]).authorized_qty > 0
        && lines[j].sound_money() && lines[j].prior_successful_refund_cents <= lines[j].net() by {
        assert(authorization.lines.contains(lines[j]));
    }
}

/// Every line of a plan gets what it is entitled to.
pub proof fn lines_get_what_they_are_entitled_to(
    events: Seq<EventView>,
    authorization: AuthView,
    k: int,
)
    requires
        settle::sound(authorization),
        0 <= k < model::plan_of(events, authorization).lines.len(),
    ensures
        is_entitlement(
            authorization,
            model::scans_of(events, authorization.return_id),
            model::ordered_lines(authorization.lines),
            model::plan_of(events, authorization).lines,
            model::block_of(
                events,
                authorization.return_id,
                model::ordered_lines(authorization.lines)[k].line_id,
            ),
            k,
        ),
{
    let told = model::plan_of(events, authorization).lines;
    let terms = model::terms_of(events, authorization.return_id);
    let lines = model::ordered_lines(authorization.lines);
    lemma_plan_lines(events, authorization);
    lemma_as_proposed(events, authorization);
    lemma_all_priced(authorization);
    lemma_entitled(authorization, terms, lines, told, k);
}

/// A plan names a line, its quantity and what was refunded of it before.
pub open spec fn names_line(told: Seq<LinePlanView>, line: LineView) -> bool {
    exists|k: int|
        {
            &&& 0 <= k < told.len()
            &&& (#[trigger] told[k]).line_id == line.line_id
            &&& told[k].authorized_quantity == line.authorized_qty
            &&& told[k].prior_successful_refund_cents == line.prior_successful_refund_cents
        }
}

pub open spec fn is_line_of(lines: Seq<LineView>, id: Seq<char>) -> bool {
    exists|i: int| 0 <= i < lines.len() && (#[trigger] lines[i]).line_id == id
}

/// The lines of a plan are those of its authorization, each once, by identity.
pub proof fn plans_name_their_lines(events: Seq<EventView>, authorization: AuthView)
    requires
        settle::sound(authorization),
    ensures
        forall|i: int|
            0 <= i < authorization.lines.len() ==> names_line(
                model::plan_of(events, authorization).lines,
                #[trigger] authorization.lines[i],
            ),
        forall|k: int|
            0 <= k < model::plan_of(events, authorization).lines.len() ==> is_line_of(
                authorization.lines,
                (#[trigger] model::plan_of(events, authorization).lines[k]).line_id,
            ),
        forall|a: int, b: int|
            0 <= a < b < model::plan_of(events, authorization).lines.len() ==> text::text_lt(
                (#[trigger] model::plan_of(events, authorization).lines[a]).line_id,
                (#[trigger] model::plan_of(events, authorization).lines[b]).line_id,
            ),
{
    let told = model::plan_of(events, authorization).lines;
    let lines = model::ordered_lines(authorization.lines);
    laws::lemma_ordered_lines(authorization.lines);
    lemma_plan_lines(events, authorization);
    let ids = text::in_order(model::line_ids(authorization.lines));
    assert forall|i: int| 0 <= i < authorization.lines.len() implies names_line(
        told,
        #[trigger] authorization.lines[i],
    ) by {
        assert(lines.contains(authorization.lines[i]));
        let k = choose|k: int| 0 <= k < lines.len() && lines[k] == authorization.lines[i];
        assert(told[k].line_id == authorization.lines[i].line_id);
    }
    assert forall|k: int| 0 <= k < told.len() implies is_line_of(
        authorization.lines,
        (#[trigger] told[k]).line_id,
    ) by {
        assert(authorization.lines.contains(lines[k]));
        let i = choose|i: int|
            0 <= i < authorization.lines.len() && authorization.lines[i] == lines[k];
        assert(authorization.lines[i].line_id == told[k].line_id);
    }
    assert forall|a: int, b: int| 0 <= a < b < told.len() implies text::text_lt(
        (#[trigger] told[a]).line_id,
        (#[trigger] told[b]).line_id,
    ) by {
        assert(lines[a].line_id == ids[a] && lines[b].line_id == ids[b]);
    }
}

/// The times that an identity was given among the first `n` events.
pub open spec fn times_given(events: Seq<EventView>, id: Seq<char>, n: nat) -> nat
    decreases n,
{
    if n == 0 {
        0
    } else {
        times_given(events, id, (n - 1) as nat) + if events[n - 1].id() == id {
            1nat
        } else {
            0nat
        }
    }
}

/// An identity is accounted for by how often it was given and by whether it always stood
/// for the same event.
pub proof fn identities_are_accounted_for(events: Seq<EventView>, event: EventView)
    requires
        events.contains(event),
    ensures
        ({
            let row = model::accounting_for(events, event.id());
            &&& row.event_id == event.id()
            &&& row.input_occurrences == times_given(events, event.id(), events.len())
            &&& row.disposition == if !undisputed(events, event) {
                "quarantined_conflict"@
            } else if times_given(events, event.id(), events.len()) == 1 {
                "accepted"@
            } else {
                "accepted_with_exact_retries"@
            }
        }),
{
    lemma_undisputed(events, event);
    lemma_times(events, event.id(), events.len());
    assert(events.take(events.len() as int) =~= events);
}

proof fn lemma_times(events: Seq<EventView>, id: Seq<char>, n: nat)
    requires
        n <= events.len(),
    ensures
        model::occurrences(events.take(n as int), id).len() == times_given(events, id, n),
    decreases n,
{
    let keep = |event: EventView| event.id() == id;
    if n == 0 {
        reveal(Seq::filter);
        assert(events.take(0) =~= Seq::empty());
    } else {
        lemma_times(events, id, (n - 1) as nat);
        seqs::lemma_filter_step(events, keep, n - 1);
        assert(model::occurrences(events.take(n as int), id) == events.take(n as int).filter(keep));
        assert(model::occurrences(events.take(n - 1), id) == events.take(n - 1).filter(keep));
    }
}

} // verus!
