//! Snapshots and reports, and what a report says of a snapshot.

use vstd::prelude::*;
use crate::seqs;
use crate::text;

verus! {

pub const SCHEMA_VERSION: u32 = 1;

#[derive(Debug, Clone)]
pub struct Snapshot {
    pub snapshot_id: String,
    pub returns: Vec<ReturnAuthorization>,
    pub events: Vec<Event>,
}

#[derive(Debug, Clone)]
pub struct ReturnAuthorization {
    pub return_id: String,
    pub captured_cents: u64,
    pub lines: Vec<AuthorizedLine>,
}

#[derive(Debug, Clone)]
pub struct AuthorizedLine {
    pub line_id: String,
    pub sku: String,
    pub authorized_qty: u32,
    pub paid_subtotal_cents: u64,
    pub tax_cents: u64,
    pub discount_cents: u64,
    pub prior_successful_refund_cents: u64,
}

#[derive(Debug, Clone, Copy, PartialEq, Eq, Structural)]
pub enum PaymentStatus {
    Successful,
    Failed,
    Pending,
}

#[derive(Debug, Clone)]
pub enum Event {
    WarehouseScan {
        event_id: String,
        source_system_id: String,
        source_timestamp: u64,
        ingestion_id: u64,
        return_id: String,
        parcel_id: String,
        sku: String,
        quantity: u32,
    },
    Correction {
        event_id: String,
        source_system_id: String,
        source_timestamp: u64,
        ingestion_id: u64,
        return_id: String,
        target_event_id: String,
        replacement_sku: String,
        replacement_quantity: u32,
    },
    Carrier {
        event_id: String,
        source_system_id: String,
        source_timestamp: u64,
        ingestion_id: u64,
        return_id: String,
        parcel_id: String,
        status: String,
    },
    PaymentResult {
        event_id: String,
        source_system_id: String,
        source_timestamp: u64,
        ingestion_id: u64,
        return_id: String,
        line_id: String,
        refund_id: String,
        amount_cents: u64,
        status: PaymentStatus,
    },
}

#[derive(Debug, Clone, Copy, PartialEq, Eq, Structural)]
pub struct Summary {
    pub return_count: usize,
    pub input_event_count: usize,
    pub accepted_unique_events: usize,
    pub exact_duplicate_events: usize,
    pub conflicting_event_ids: usize,
    pub review_returns: usize,
    pub proposed_quantity: u64,
    pub proposed_cents: u64,
}

#[derive(Debug, Clone, PartialEq, Eq)]
pub struct Report {
    pub schema_version: u32,
    pub snapshot_id: String,
    pub advisory_only: bool,
    pub summary: Summary,
    pub event_accounting: Vec<EventAccounting>,
    pub returns: Vec<ReturnPlan>,
}

#[derive(Debug, Clone, PartialEq, Eq)]
pub struct EventAccounting {
    pub event_id: String,
    pub input_occurrences: usize,
    pub disposition: String,
}

#[derive(Debug, Clone, PartialEq, Eq)]
pub struct ReturnPlan {
    pub return_id: String,
    pub disposition: String,
    pub review_codes: Vec<String>,
    pub unmatched_scan_quantity: u64,
    pub lines: Vec<LinePlan>,
}

#[derive(Debug, Clone, PartialEq, Eq)]
pub struct LinePlan {
    pub line_id: String,
    pub authorized_quantity: u32,
    pub accepted_scan_quantity: u32,
    pub review_scan_quantity: u64,
    pub prior_successful_refund_cents: u64,
    pub maximum_refundable_cents: u64,
    pub proposed_quantity: u32,
    pub proposed_cents: u64,
    pub provenance_event_ids: Vec<String>,
}

/// Where a publication may be made to fail.
#[derive(Debug, Clone, Copy, PartialEq, Eq, Structural)]
pub enum FailPoint {
    Never,
    BeforeOutputCreation,
    AfterTemporaryComplete,
    BeforePublish,
    ExitBeforeOutputCreation,
    ExitAfterTemporaryComplete,
    ExitBeforePublish,
}

/// An event as plain values.
pub enum EventView {
    WarehouseScan {
        event_id: Seq<char>,
        source_system_id: Seq<char>,
        source_timestamp: u64,
        ingestion_id: u64,
        return_id: Seq<char>,
        parcel_id: Seq<char>,
        sku: Seq<char>,
        quantity: u32,
    },
    Correction {
        event_id: Seq<char>,
        source_system_id: Seq<char>,
        source_timestamp: u64,
        ingestion_id: u64,
        return_id: Seq<char>,
        target_event_id: Seq<char>,
        replacement_sku: Seq<char>,
        replacement_quantity: u32,
    },
    Carrier {
        event_id: Seq<char>,
        source_system_id: Seq<char>,
        source_timestamp: u64,
        ingestion_id: u64,
        return_id: Seq<char>,
        parcel_id: Seq<char>,
        status: Seq<char>,
    },
    PaymentResult {
        event_id: Seq<char>,
        source_system_id: Seq<char>,
        source_timestamp: u64,
        ingestion_id: u64,
        return_id: Seq<char>,
        line_id: Seq<char>,
        refund_id: Seq<char>,
        amount_cents: u64,
        status: PaymentStatus,
    },
}

impl View for Event {
    type V = EventView;

    open spec fn view(&self) -> EventView {
        match *self {
            Event::WarehouseScan {
                event_id,
                source_system_id,
                source_timestamp,
                ingestion_id,
                return_id,
                parcel_id,
                sku,
                quantity,
            } => EventView::WarehouseScan {
                event_id: event_id@,
                source_system_id: source_system_id@,
                source_timestamp,
                ingestion_id,
                return_id: return_id@,
                parcel_id: parcel_id@,
                sku: sku@,
                quantity,
            },
            Event::Correction {
                event_id,
                source_system_id,
                source_timestamp,
                ingestion_id,
                return_id,
                target_event_id,
                replacement_sku,
                replacement_quantity,
            } => EventView::Correction {
                event_id: event_id@,
                source_system_id: source_system_id@,
                source_timestamp,
                ingestion_id,
                return_id: return_id@,
                target_event_id: target_event_id@,
                replacement_sku: replacement_sku@,
                replacement_quantity,
            },
            Event::Carrier {
                event_id,
                source_system_id,
                source_timestamp,
                ingestion_id,
                return_id,
                parcel_id,
                status,
            } => EventView::Carrier {
                event_id: event_id@,
                source_system_id: source_system_id@,
                source_timestamp,
                ingestion_id,
                return_id: return_id@,
                parcel_id: parcel_id@,
                status: status@,
            },
            Event::PaymentResult {
                event_id,
                source_system_id,
                source_timestamp,
                ingestion_id,
                return_id,
                line_id,
                refund_id,
                amount_cents,
                status,
            } => EventView::PaymentResult {
                event_id: event_id@,
                source_system_id: source_system_id@,
                source_timestamp,
                ingestion_id,
                return_id: return_id@,
                line_id: line_id@,
                refund_id: refund_id@,
                amount_cents,
                status,
            },
        }
    }
}

impl EventView {
    pub open spec fn id(self) -> Seq<char> {
        match self {
            EventView::WarehouseScan { event_id, .. } => event_id,
            EventView::Correction { event_id, .. } => event_id,
            EventView::Carrier { event_id, .. } => event_id,
            EventView::PaymentResult { event_id, .. } => event_id,
        }
    }

    pub open spec fn owner(self) -> Seq<char> {
        match self {
            EventView::WarehouseScan { return_id, .. } => return_id,
            EventView::Correction { return_id, .. } => return_id,
            EventView::Carrier { return_id, .. } => return_id,
            EventView::PaymentResult { return_id, .. } => return_id,
        }
    }

    pub open spec fn timestamp(self) -> u64 {
        match self {
            EventView::WarehouseScan { source_timestamp, .. } => source_timestamp,
            EventView::Correction { source_timestamp, .. } => source_timestamp,
            EventView::Carrier { source_timestamp, .. } => source_timestamp,
            EventView::PaymentResult { source_timestamp, .. } => source_timestamp,
        }
    }

    pub open spec fn ingestion(self) -> u64 {
        match self {
            EventView::WarehouseScan { ingestion_id, .. } => ingestion_id,
            EventView::Correction { ingestion_id, .. } => ingestion_id,
            EventView::Carrier { ingestion_id, .. } => ingestion_id,
            EventView::PaymentResult { ingestion_id, .. } => ingestion_id,
        }
    }
}

impl Event {
    #[must_use]
    pub fn event_id(&self) -> (id: &str)
        ensures
            id@ == self@.id(),
    {
        match self {
            Event::WarehouseScan { event_id, .. }
            | Event::Correction { event_id, .. }
            | Event::Carrier { event_id, .. }
            | Event::PaymentResult { event_id, .. } => event_id.as_str(),
        }
    }

    #[must_use]
    pub fn return_id(&self) -> (id: &str)
        ensures
            id@ == self@.owner(),
    {
        match self {
            Event::WarehouseScan { return_id, .. }
            | Event::Correction { return_id, .. }
            | Event::Carrier { return_id, .. }
            | Event::PaymentResult { return_id, .. } => return_id.as_str(),
        }
    }
}

/// An authorized line as plain values.
pub struct LineView {
    pub line_id: Seq<char>,
    pub sku: Seq<char>,
    pub authorized_qty: u32,
    pub paid_subtotal_cents: u64,
    pub tax_cents: u64,
    pub discount_cents: u64,
    pub prior_successful_refund_cents: u64,
}

impl View for AuthorizedLine {
    type V = LineView;

    open spec fn view(&self) -> LineView {
        LineView {
            line_id: self.line_id@,
            sku: self.sku@,
            authorized_qty: self.authorized_qty,
            paid_subtotal_cents: self.paid_subtotal_cents,
            tax_cents: self.tax_cents,
            discount_cents: self.discount_cents,
            prior_successful_refund_cents: self.prior_successful_refund_cents,
        }
    }
}

impl LineView {
    /// What the customer paid for the line.
    pub open spec fn net(self) -> int {
        self.paid_subtotal_cents + self.tax_cents - self.discount_cents
    }

    pub open spec fn sound_money(self) -> bool {
        self.paid_subtotal_cents + self.tax_cents <= u64::MAX && self.net() >= 0
    }
}

/// An authorization as plain values.
#[verifier::ext_equal]
pub struct AuthView {
    pub return_id: Seq<char>,
    pub captured_cents: u64,
    pub lines: Seq<LineView>,
}

impl View for ReturnAuthorization {
    type V = AuthView;

    open spec fn view(&self) -> AuthView {
        AuthView {
            return_id: self.return_id@,
            captured_cents: self.captured_cents,
            lines: self.lines@.map_values(|line: AuthorizedLine| line@),
        }
    }
}

/// A snapshot as plain values.
#[verifier::ext_equal]
pub struct SnapshotView {
    pub snapshot_id: Seq<char>,
    pub returns: Seq<AuthView>,
    pub events: Seq<EventView>,
}

impl View for Snapshot {
    type V = SnapshotView;

    open spec fn view(&self) -> SnapshotView {
        SnapshotView {
            snapshot_id: self.snapshot_id@,
            returns: self.returns@.map_values(|authorization: ReturnAuthorization| authorization@),
            events: self.events@.map_values(|event: Event| event@),
        }
    }
}

/// An accounting row as plain values.
pub struct AccountingView {
    pub event_id: Seq<char>,
    pub input_occurrences: nat,
    pub disposition: Seq<char>,
}

impl View for EventAccounting {
    type V = AccountingView;

    open spec fn view(&self) -> AccountingView {
        AccountingView {
            event_id: self.event_id@,
            input_occurrences: self.input_occurrences as nat,
            disposition: self.disposition@,
        }
    }
}

/// The texts of strings.
pub open spec fn texts(strings: Seq<String>) -> Seq<Seq<char>> {
    strings.map_values(|string: String| string@)
}

/// A line plan as plain values.
#[verifier::ext_equal]
pub struct LinePlanView {
    pub line_id: Seq<char>,
    pub authorized_quantity: nat,
    pub accepted_scan_quantity: nat,
    pub review_scan_quantity: nat,
    pub prior_successful_refund_cents: nat,
    pub maximum_refundable_cents: nat,
    pub proposed_quantity: nat,
    pub proposed_cents: nat,
    pub provenance_event_ids: Seq<Seq<char>>,
}

impl View for LinePlan {
    type V = LinePlanView;

    open spec fn view(&self) -> LinePlanView {
        LinePlanView {
            line_id: self.line_id@,
            authorized_quantity: self.authorized_quantity as nat,
            accepted_scan_quantity: self.accepted_scan_quantity as nat,
            review_scan_quantity: self.review_scan_quantity as nat,
            prior_successful_refund_cents: self.prior_successful_refund_cents as nat,
            maximum_refundable_cents: self.maximum_refundable_cents as nat,
            proposed_quantity: self.proposed_quantity as nat,
            proposed_cents: self.proposed_cents as nat,
            provenance_event_ids: texts(self.provenance_event_ids@),
        }
    }
}

/// A return plan as plain values.
#[verifier::ext_equal]
pub struct PlanView {
    pub return_id: Seq<char>,
    pub disposition: Seq<char>,
    pub review_codes: Seq<Seq<char>>,
    pub unmatched_scan_quantity: nat,
    pub lines: Seq<LinePlanView>,
}

impl View for ReturnPlan {
    type V = PlanView;

    open spec fn view(&self) -> PlanView {
        PlanView {
            return_id: self.return_id@,
            disposition: self.disposition@,
            review_codes: texts(self.review_codes@),
            unmatched_scan_quantity: self.unmatched_scan_quantity as nat,
            lines: self.lines@.map_values(|line: LinePlan| line@),
        }
    }
}

/// A report as plain values.
#[verifier::ext_equal]
pub struct ReportView {
    pub schema_version: u32,
    pub snapshot_id: Seq<char>,
    pub advisory_only: bool,
    pub summary: Summary,
    pub event_accounting: Seq<AccountingView>,
    pub returns: Seq<PlanView>,
}

impl View for Report {
    type V = ReportView;

    open spec fn view(&self) -> ReportView {
        ReportView {
            schema_version: self.schema_version,
            snapshot_id: self.snapshot_id@,
            advisory_only: self.advisory_only,
            summary: self.summary,
            event_accounting: self.event_accounting@.map_values(|row: EventAccounting| row@),
            returns: self.returns@.map_values(|plan: ReturnPlan| plan@),
        }
    }
}

/// The events with one identity.
pub open spec fn occurrences(events: Seq<EventView>, id: Seq<char>) -> Seq<EventView> {
    events.filter(|event: EventView| event.id() == id)
}

pub open spec fn event_ids(events: Seq<EventView>) -> Set<Seq<char>> {
    Set::new(|id: Seq<char>| exists|i: int| 0 <= i < events.len() && (#[trigger] events[i]).id() == id)
}

/// Two different events claim the same identity.
pub open spec fn conflicted(events: Seq<EventView>, id: Seq<char>) -> bool {
    exists|i: int, j: int|
        0 <= i < events.len() && 0 <= j < events.len() && (#[trigger] events[i]).id() == id && (
        #[trigger] events[j]).id() == id && events[i] != events[j]
}

/// An event of the input whose identity nothing contests.
pub open spec fn trusted(events: Seq<EventView>, event: EventView) -> bool {
    events.contains(event) && !conflicted(events, event.id())
}

pub open spec fn accounting_for(events: Seq<EventView>, id: Seq<char>) -> AccountingView {
    AccountingView {
        event_id: id,
        input_occurrences: occurrences(events, id).len(),
        disposition: if conflicted(events, id) {
            "quarantined_conflict"@
        } else if occurrences(events, id).len() == 1 {
            "accepted"@
        } else {
            "accepted_with_exact_retries"@
        },
    }
}

/// One row for each identity, in ascending order.
pub open spec fn accounting_of(events: Seq<EventView>) -> Seq<AccountingView> {
    text::in_order(event_ids(events)).map_values(|id: Seq<char>| accounting_for(events, id))
}

/// How many rows are of one disposition.
pub open spec fn rows_with(rows: Seq<AccountingView>, disposition: Seq<char>) -> nat {
    rows.filter(|row: AccountingView| row.disposition == disposition).len()
}

/// An event of the return takes part in a conflict.
pub open spec fn conflict_touches(events: Seq<EventView>, owner: Seq<char>) -> bool {
    exists|i: int|
        0 <= i < events.len() && (#[trigger] events[i]).owner() == owner && conflicted(
            events,
            events[i].id(),
        )
}

/// Order of events in time: source timestamp, then ingestion, then identity.
pub open spec fn happens_before(a: EventView, b: EventView) -> bool {
    a.timestamp() < b.timestamp() || (a.timestamp() == b.timestamp() && (a.ingestion()
        < b.ingestion() || (a.ingestion() == b.ingestion() && text::text_lt(a.id(), b.id()))))
}

/// A trusted correction in the same return that names the scan.
pub open spec fn corrects(events: Seq<EventView>, correction: EventView, scan: EventView) -> bool {
    &&& trusted(events, correction)
    &&& correction matches EventView::Correction { target_event_id, .. } && target_event_id
        == scan.id()
    &&& correction.owner() == scan.owner()
}

/// Of the corrections later than the scan, the latest.
pub open spec fn is_latest(events: Seq<EventView>, correction: EventView, scan: EventView) -> bool {
    &&& corrects(events, correction, scan)
    &&& happens_before(scan, correction)
    &&& forall|other: EventView| #[trigger]
        corrects(events, other, scan) && happens_before(scan, other) ==> other == correction
            || happens_before(other, correction)
}

/// A scan with its correction applied.
#[verifier::ext_equal]
pub struct ScanView {
    pub event_id: Seq<char>,
    pub sku: Seq<char>,
    pub quantity: nat,
    pub provenance: Set<Seq<char>>,
}

pub open spec fn scan_of(events: Seq<EventView>, scan: EventView) -> ScanView {
    if exists|correction: EventView| #[trigger] is_latest(events, correction, scan) {
        let correction = choose|correction: EventView| #[trigger]
            is_latest(events, correction, scan);
        ScanView {
            event_id: scan.id(),
            sku: correction->replacement_sku,
            quantity: correction->replacement_quantity as nat,
            provenance: set![scan.id(), correction.id()],
        }
    } else {
        ScanView {
            event_id: scan.id(),
            sku: scan->sku,
            quantity: scan->quantity as nat,
            provenance: set![scan.id()],
        }
    }
}

/// The identities of the trusted scans of a return.
pub open spec fn scan_ids(events: Seq<EventView>, owner: Seq<char>) -> Set<Seq<char>> {
    Set::new(
        |id: Seq<char>|
            exists|event: EventView| #[trigger]
                trusted(events, event) && event is WarehouseScan && event.owner() == owner
                    && event.id() == id,
    )
}

/// The trusted event with this identity.
pub open spec fn event_with(events: Seq<EventView>, id: Seq<char>) -> EventView {
    choose|event: EventView| #[trigger] trusted(events, event) && event.id() == id
}

/// The corrected scans of a return, in identity order.
pub open spec fn scans_of(events: Seq<EventView>, owner: Seq<char>) -> Seq<ScanView> {
    text::in_order(scan_ids(events, owner)).map_values(
        |id: Seq<char>| scan_of(events, event_with(events, id)),
    )
}

#[derive(Clone, Copy, PartialEq, Eq, Structural)]
pub enum PaymentBlock {
    Successful,
    Pending,
}

/// A trusted result of one refund attempt.
pub open spec fn attempt(
    events: Seq<EventView>,
    event: EventView,
    owner: Seq<char>,
    line: Seq<char>,
    refund: Seq<char>,
) -> bool {
    &&& trusted(events, event)
    &&& event matches EventView::PaymentResult { line_id, refund_id, .. } && line_id == line
        && refund_id == refund
    &&& event.owner() == owner
}

/// The results of one attempt name different amounts.
pub open spec fn amounts_differ(
    events: Seq<EventView>,
    owner: Seq<char>,
    line: Seq<char>,
    refund: Seq<char>,
) -> bool {
    exists|a: EventView, b: EventView| #[trigger]
        attempt(events, a, owner, line, refund) && #[trigger] attempt(
            events,
            b,
            owner,
            line,
            refund,
        ) && a->amount_cents != b->amount_cents
}

pub open spec fn attempt_has(
    events: Seq<EventView>,
    owner: Seq<char>,
    line: Seq<char>,
    refund: Seq<char>,
    wanted: PaymentStatus,
) -> bool {
    exists|a: EventView| #[trigger]
        attempt(events, a, owner, line, refund) && a->PaymentResult_status == wanted
}

/// An attempt that decides the line by itself: it succeeded, or its amounts
/// contradict each other.
pub open spec fn decides(
    events: Seq<EventView>,
    owner: Seq<char>,
    line: Seq<char>,
    refund: Seq<char>,
) -> bool {
    amounts_differ(events, owner, line, refund) || attempt_has(
        events,
        owner,
        line,
        refund,
        PaymentStatus::Successful,
    )
}

/// The last deciding attempt in the order of refund identities.
pub open spec fn decides_last(
    events: Seq<EventView>,
    owner: Seq<char>,
    line: Seq<char>,
    refund: Seq<char>,
) -> bool {
    &&& decides(events, owner, line, refund)
    &&& forall|other: Seq<char>| #[trigger]
        decides(events, owner, line, other) ==> text::text_le(other, refund)
}

/// What keeps a line from being refunded again, if anything.
pub open spec fn block_of(events: Seq<EventView>, owner: Seq<char>, line: Seq<char>) -> Option<
    PaymentBlock,
> {
    if exists|refund: Seq<char>| #[trigger] decides(events, owner, line, refund) {
        let refund = choose|refund: Seq<char>| #[trigger]
            decides_last(events, owner, line, refund);
        if amounts_differ(events, owner, line, refund) {
            Some(PaymentBlock::Pending)
        } else {
            Some(PaymentBlock::Successful)
        }
    } else if exists|refund: Seq<char>| #[trigger]
        attempt_has(events, owner, line, refund, PaymentStatus::Pending) {
        Some(PaymentBlock::Pending)
    } else {
        None
    }
}

/// The cost of the first `quantity` units: an even share each, with the
/// remainder cents on the first units.
pub open spec fn cost(net: int, authorized: int, quantity: int) -> int {
    if authorized == 0 {
        0
    } else {
        net / authorized * quantity + (if net % authorized < quantity {
            net % authorized
        } else {
            quantity
        })
    }
}

/// The most units, up to `quantity`, whose cost the capacity covers.
pub open spec fn affordable(net: int, authorized: int, capacity: int, quantity: nat) -> nat
    decreases quantity,
{
    if quantity == 0 || cost(net, authorized, quantity as int) <= capacity {
        quantity
    } else {
        affordable(net, authorized, capacity, (quantity - 1) as nat)
    }
}

pub open spec fn least(a: int, b: int) -> int {
    if a <= b {
        a
    } else {
        b
    }
}

/// What the first `n` scans give to a line that wants `want` units of `sku`.
pub open spec fn allotted(
    scans: Seq<ScanView>,
    remaining: Seq<nat>,
    sku: Seq<char>,
    want: nat,
    n: nat,
) -> Seq<nat>
    decreases n,
{
    if n == 0 {
        Seq::empty()
    } else {
        let before = allotted(scans, remaining, sku, want, (n - 1) as nat);
        before.push(
            if scans[n - 1].sku == sku {
                least(remaining[n - 1] as int, want - seqs::sum(before)) as nat
            } else {
                0
            },
        )
    }
}

/// What scans and captured payment still hold.
#[verifier::ext_equal]
pub struct Stock {
    pub remaining: Seq<nat>,
    pub cap: nat,
}

/// The terms of one return that its lines share.
#[verifier::ext_equal]
pub struct Terms {
    pub events: Seq<EventView>,
    pub owner: Seq<char>,
    pub scans: Seq<ScanView>,
}

pub open spec fn given_to(terms: Terms, stock: Stock, line: LineView) -> Seq<nat> {
    allotted(
        terms.scans,
        stock.remaining,
        line.sku,
        line.authorized_qty as nat,
        terms.scans.len(),
    )
}

/// Where the units of a line came from.
pub open spec fn sources(scans: Seq<ScanView>, given: Seq<nat>) -> Set<Seq<char>> {
    Set::new(
        |id: Seq<char>|
            exists|i: int|
                0 <= i < scans.len() && (#[trigger] given[i]) > 0 && scans[i].provenance.contains(
                    id,
                ),
    )
}

/// The proposal for one line, before excess units are charged to it.
pub open spec fn proposal(terms: Terms, stock: Stock, line: LineView) -> LinePlanView {
    let given = given_to(terms, stock, line);
    let maximum = line.net() - line.prior_successful_refund_cents;
    let eligible = if block_of(terms.events, terms.owner, line.line_id) is None {
        seqs::sum(given)
    } else {
        0
    };
    let proposed = affordable(
        line.net(),
        line.authorized_qty as int,
        least(maximum, stock.cap as int),
        eligible,
    );
    LinePlanView {
        line_id: line.line_id,
        authorized_quantity: line.authorized_qty as nat,
        accepted_scan_quantity: seqs::sum(given),
        review_scan_quantity: 0,
        prior_successful_refund_cents: line.prior_successful_refund_cents as nat,
        maximum_refundable_cents: maximum as nat,
        proposed_quantity: proposed,
        proposed_cents: cost(line.net(), line.authorized_qty as int, proposed as int) as nat,
        provenance_event_ids: text::in_order(sources(terms.scans, given)),
    }
}

pub open spec fn stock_after(terms: Terms, stock: Stock, line: LineView) -> Stock {
    let given = given_to(terms, stock, line);
    Stock {
        remaining: Seq::new(
            terms.scans.len(),
            |i: int| (stock.remaining[i] - given[i]) as nat,
        ),
        cap: (stock.cap - proposal(terms, stock, line).proposed_cents) as nat,
    }
}

/// The stock once the first `n` lines are served.
pub open spec fn stock_at(terms: Terms, start: Stock, lines: Seq<LineView>, n: nat) -> Stock
    decreases n,
{
    if n == 0 {
        start
    } else {
        stock_after(terms, stock_at(terms, start, lines, (n - 1) as nat), lines[n - 1])
    }
}

/// The units of a SKU that no line took.
pub open spec fn left_over(scans: Seq<ScanView>, remaining: Seq<nat>, sku: Seq<char>) -> nat {
    seqs::sum(
        Seq::new(
            scans.len(),
            |i: int|
                if scans[i].sku == sku {
                    remaining[i]
                } else {
                    0
                },
        ),
    )
}

pub open spec fn has_sku(lines: Seq<LineView>, sku: Seq<char>) -> bool {
    exists|i: int| 0 <= i < lines.len() && (#[trigger] lines[i]).sku == sku
}

/// The units of SKUs that no line names.
pub open spec fn unmatched(scans: Seq<ScanView>, lines: Seq<LineView>) -> nat {
    seqs::sum(
        Seq::new(
            scans.len(),
            |i: int|
                if has_sku(lines, scans[i].sku) {
                    0
                } else {
                    scans[i].quantity
                },
        ),
    )
}

/// The lines of an authorization in identity order.
pub open spec fn line_ids(lines: Seq<LineView>) -> Set<Seq<char>> {
    Set::new(
        |id: Seq<char>| exists|i: int| 0 <= i < lines.len() && (#[trigger] lines[i]).line_id == id,
    )
}

pub open spec fn line_with(lines: Seq<LineView>, id: Seq<char>) -> LineView {
    choose|line: LineView| #[trigger] lines.contains(line) && line.line_id == id
}

pub open spec fn ordered_lines(lines: Seq<LineView>) -> Seq<LineView> {
    text::in_order(line_ids(lines)).map_values(|id: Seq<char>| line_with(lines, id))
}

pub open spec fn prior_total(lines: Seq<LineView>) -> nat {
    seqs::sum(lines.map_values(|line: LineView| line.prior_successful_refund_cents as nat))
}

/// The reasons for which a return goes to review, in the order in which they
/// are reported.
pub struct Flags {
    pub conflicting_event_id: bool,
    pub correction_return_mismatch: bool,
    pub excess_quantity: bool,
    pub insufficient_whole_unit_capacity: bool,
    pub non_later_correction: bool,
    pub orphan_correction: bool,
    pub payment_already_successful: bool,
    pub payment_amount_conflict: bool,
    pub payment_inconclusive: bool,
    pub unauthorized_sku: bool,
}

pub open spec fn push_if(codes: Seq<Seq<char>>, raised: bool, code: Seq<char>) -> Seq<Seq<char>> {
    if raised {
        codes.push(code)
    } else {
        codes
    }
}

/// The codes of the raised flags, in ascending order.
pub open spec fn codes_of(flags: Flags) -> Seq<Seq<char>> {
    let c = Seq::<Seq<char>>::empty();
    let c = push_if(c, flags.conflicting_event_id, "conflicting_event_id"@);
    let c = push_if(c, flags.correction_return_mismatch, "correction_return_mismatch"@);
    let c = push_if(c, flags.excess_quantity, "excess_quantity"@);
    let c = push_if(
        c,
        flags.insufficient_whole_unit_capacity,
        "insufficient_whole_unit_capacity"@,
    );
    let c = push_if(c, flags.non_later_correction, "non_later_correction"@);
    let c = push_if(c, flags.orphan_correction, "orphan_correction"@);
    let c = push_if(c, flags.payment_already_successful, "payment_already_successful"@);
    let c = push_if(c, flags.payment_amount_conflict, "payment_amount_conflict"@);
    let c = push_if(c, flags.payment_inconclusive, "payment_inconclusive"@);
    push_if(c, flags.unauthorized_sku, "unauthorized_sku"@)
}

/// The correction names no trusted scan.
pub open spec fn orphaned(events: Seq<EventView>, correction: EventView) -> bool {
    !exists|scan: EventView| #[trigger]
        trusted(events, scan) && scan is WarehouseScan && scan.id() == correction->target_event_id
}

/// The correction names a trusted scan of another return.
pub open spec fn misdirected(events: Seq<EventView>, correction: EventView) -> bool {
    exists|scan: EventView| #[trigger]
        trusted(events, scan) && scan is WarehouseScan && scan.id() == correction->target_event_id
            && scan.owner() != correction.owner()
}

/// The correction names a trusted scan of its return that it does not follow.
pub open spec fn not_later(events: Seq<EventView>, correction: EventView) -> bool {
    exists|scan: EventView| #[trigger]
        trusted(events, scan) && scan is WarehouseScan && scan.id()
            == correction->target_event_id && scan.owner() == correction.owner() && !happens_before(
            scan,
            correction,
        )
}

/// A trusted correction of the return.
pub open spec fn correction_of(
    events: Seq<EventView>,
    correction: EventView,
    owner: Seq<char>,
) -> bool {
    trusted(events, correction) && correction is Correction && correction.owner() == owner
}

pub open spec fn terms_of(events: Seq<EventView>, owner: Seq<char>) -> Terms {
    Terms { events, owner, scans: scans_of(events, owner) }
}

pub open spec fn opening_stock(terms: Terms, authorization: AuthView) -> Stock {
    Stock {
        remaining: terms.scans.map_values(|scan: ScanView| scan.quantity),
        cap: (authorization.captured_cents - prior_total(authorization.lines)) as nat,
    }
}

/// The proposal for line `k` of the return, its lines in identity order.
pub open spec fn proposal_at(
    terms: Terms,
    start: Stock,
    lines: Seq<LineView>,
    k: int,
) -> LinePlanView {
    proposal(terms, stock_at(terms, start, lines, k as nat), lines[k])
}

/// Line `k` is the last one that names its SKU.
pub open spec fn last_of_sku(lines: Seq<LineView>, k: int) -> bool {
    forall|j: int| k < j < lines.len() ==> (#[trigger] lines[j]).sku != lines[k].sku
}

/// The final plan of line `k`: units that no line took are charged to the last
/// line of their SKU.
pub open spec fn line_plan_at(
    terms: Terms,
    start: Stock,
    lines: Seq<LineView>,
    k: int,
) -> LinePlanView {
    let settled = stock_at(terms, start, lines, lines.len());
    LinePlanView {
        review_scan_quantity: if last_of_sku(lines, k) {
            left_over(terms.scans, settled.remaining, lines[k].sku)
        } else {
            0
        },
        ..proposal_at(terms, start, lines, k)
    }
}

pub open spec fn flags_of(
    events: Seq<EventView>,
    authorization: AuthView,
) -> Flags {
    let owner = authorization.return_id;
    let terms = terms_of(events, owner);
    let start = opening_stock(terms, authorization);
    let lines = ordered_lines(authorization.lines);
    let settled = stock_at(terms, start, lines, lines.len());
    Flags {
        conflicting_event_id: conflict_touches(events, owner),
        correction_return_mismatch: exists|c: EventView| #[trigger]
            correction_of(events, c, owner) && misdirected(events, c),
        excess_quantity: exists|k: int|
            0 <= k < lines.len() && left_over(
                terms.scans,
                settled.remaining,
                (#[trigger] lines[k]).sku,
            ) > 0,
        insufficient_whole_unit_capacity: exists|k: int|
            0 <= k < lines.len() && block_of(events, owner, (#[trigger] lines[k]).line_id) is None
                && proposal_at(terms, start, lines, k).proposed_quantity < proposal_at(
                terms,
                start,
                lines,
                k,
            ).accepted_scan_quantity,
        non_later_correction: exists|c: EventView| #[trigger]
            correction_of(events, c, owner) && not_later(events, c),
        orphan_correction: exists|c: EventView| #[trigger]
            correction_of(events, c, owner) && orphaned(events, c),
        payment_already_successful: exists|k: int|
            0 <= k < lines.len() && block_of(events, owner, (#[trigger] lines[k]).line_id) == Some(
                PaymentBlock::Successful,
            ),
        payment_amount_conflict: exists|line: Seq<char>, refund: Seq<char>| #[trigger]
            amounts_differ(events, owner, line, refund),
        payment_inconclusive: exists|k: int|
            0 <= k < lines.len() && block_of(events, owner, (#[trigger] lines[k]).line_id) == Some(
                PaymentBlock::Pending,
            ),
        unauthorized_sku: unmatched(terms.scans, lines) > 0,
    }
}

/// The plan of one return.
pub open spec fn plan_of(
    events: Seq<EventView>,
    authorization: AuthView,
) -> PlanView {
    let terms = terms_of(events, authorization.return_id);
    let start = opening_stock(terms, authorization);
    let lines = ordered_lines(authorization.lines);
    let codes = codes_of(flags_of(events, authorization));
    let plans = Seq::new(lines.len(), |k: int| line_plan_at(terms, start, lines, k));
    PlanView {
        return_id: authorization.return_id,
        disposition: if codes.len() > 0 {
            "review"@
        } else if exists|k: int| 0 <= k < plans.len() && (#[trigger] plans[k]).proposed_cents > 0 {
            "proposed"@
        } else {
            "no_refund"@
        },
        review_codes: codes,
        unmatched_scan_quantity: unmatched(terms.scans, lines),
        lines: plans,
    }
}

/// The return identities of a snapshot.
pub open spec fn return_ids(authorizations: Seq<AuthView>) -> Set<Seq<char>> {
    Set::new(
        |id: Seq<char>|
            exists|i: int| 0 <= i < authorizations.len() && (#[trigger] authorizations[i]).return_id == id,
    )
}

pub open spec fn return_with(authorizations: Seq<AuthView>, id: Seq<char>) -> AuthView {
    choose|authorization: AuthView| #[trigger]
        authorizations.contains(authorization) && authorization.return_id == id
}

/// One plan for each return, in identity order.
pub open spec fn plans_of(snapshot: SnapshotView) -> Seq<PlanView> {
    text::in_order(return_ids(snapshot.returns)).map_values(
        |id: Seq<char>| plan_of(snapshot.events, return_with(snapshot.returns, id)),
    )
}

pub open spec fn line_cents(plan: PlanView) -> nat {
    seqs::sum(plan.lines.map_values(|line: LinePlanView| line.proposed_cents))
}

pub open spec fn line_units(plan: PlanView) -> nat {
    seqs::sum(plan.lines.map_values(|line: LinePlanView| line.proposed_quantity))
}

pub open spec fn total_cents(plans: Seq<PlanView>) -> nat {
    seqs::sum(plans.map_values(|plan: PlanView| line_cents(plan)))
}

pub open spec fn total_units(plans: Seq<PlanView>) -> nat {
    seqs::sum(plans.map_values(|plan: PlanView| line_units(plan)))
}

/// The report on a snapshot.
pub open spec fn report_of(snapshot: SnapshotView) -> ReportView {
    let rows = accounting_of(snapshot.events);
    let plans = plans_of(snapshot);
    let conflicts = rows_with(rows, "quarantined_conflict"@);
    ReportView {
        schema_version: SCHEMA_VERSION,
        snapshot_id: snapshot.snapshot_id,
        advisory_only: true,
        summary: Summary {
            return_count: plans.len() as usize,
            input_event_count: snapshot.events.len() as usize,
            accepted_unique_events: (rows.len() - conflicts) as usize,
            exact_duplicate_events: seqs::sum(
                rows.map_values(
                    |row: AccountingView|
                        if row.disposition == "quarantined_conflict"@ {
                            0nat
                        } else {
                            (row.input_occurrences - 1) as nat
                        },
                ),
            ) as usize,
            conflicting_event_ids: conflicts as usize,
            review_returns: plans.filter(
                |plan: PlanView| plan.disposition == "review"@,
            ).len() as usize,
            proposed_quantity: total_units(plans) as u64,
            proposed_cents: total_cents(plans) as u64,
        },
        event_accounting: rows,
        returns: plans,
    }
}

} // verus!
