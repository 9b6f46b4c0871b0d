//! What holds of every report, whatever the snapshot.

use vstd::prelude::*;
use crate::refund::model;
use crate::refund::model::{
    AuthView, EventView, Flags, LinePlanView, LineView, PaymentStatus, PlanView, ReportView,
    ScanView, SnapshotView, Stock, Terms,
};
use crate::refund::owned;
use crate::refund::reconcile;
use crate::refund::reference;
use crate::refund::settle;
use crate::refund::validate;
use crate::refund::verify;
use crate::seqs;
use crate::text;

verus! {

/// The same events are trusted.
pub open spec fn agree(a: Seq<EventView>, b: Seq<EventView>) -> bool {
    forall|event: EventView| #[trigger] model::trusted(a, event) == model::trusted(b, event)
}

proof fn lemma_same_scan(a: Seq<EventView>, b: Seq<EventView>, scan: EventView)
    requires
        agree(a, b),
    ensures
        model::scan_of(a, scan) == model::scan_of(b, scan),
{
    assert forall|c: EventView| #[trigger] model::corrects(a, c, scan) == model::corrects(b, c, scan) by {
        assert(model::trusted(a, c) == model::trusted(b, c));
    }
    assert forall|c: EventView| #[trigger] model::is_latest(a, c, scan) implies model::is_latest(b, c, scan) by {
        assert(model::corrects(a, c, scan));
        assert forall|other: EventView| #[trigger] model::corrects(b, other, scan)
            && model::happens_before(scan, other) implies other == c || model::happens_before(other, c) by {
            assert(model::corrects(a, other, scan));
        }
    }
    assert forall|c: EventView| #[trigger] model::is_latest(b, c, scan) implies model::is_latest(a, c, scan) by {
        assert(model::corrects(a, c, scan) == model::corrects(b, c, scan));
        assert forall|other: EventView| #[trigger] model::corrects(a, other, scan)
            && model::happens_before(scan, other) implies other == c || model::happens_before(other, c) by {
            assert(model::corrects(b, other, scan));
        }
    }
    if exists|c: EventView| #[trigger] model::is_latest(a, c, scan) {
        let c = choose|c: EventView| #[trigger] model::is_latest(a, c, scan);
        assert(model::is_latest(b, c, scan));
        owned::lemma_scan_corrected(a, scan, c);
        owned::lemma_scan_corrected(b, scan, c);
    } else if exists|c: EventView| #[trigger] model::is_latest(b, c, scan) {
        let c = choose|c: EventView| #[trigger] model::is_latest(b, c, scan);
        assert(model::is_latest(a, c, scan));
    }
}

proof fn lemma_scan_ids_finite(events: Seq<EventView>, owner: Seq<char>)
    ensures
        model::scan_ids(events, owner).finite(),
{
    let ids = events.map_values(|event: EventView| event.id());
    assert forall|id: Seq<char>| model::scan_ids(events, owner).contains(id) implies ids.to_set().contains(id) by {
        let event = choose|event: EventView| #[trigger]
            model::trusted(events, event) && event is WarehouseScan && event.owner() == owner
                && event.id() == id;
        let i = choose|i: int| 0 <= i < events.len() && events[i] == event;
        assert(ids[i] == id);
    }
    vstd::seq_lib::seq_to_set_is_finite(ids);
    vstd::set_lib::lemma_set_subset_finite(ids.to_set(), model::scan_ids(events, owner));
}

/// Where the same events are trusted, the corrected scans are the same.
proof fn lemma_same_scans(a: Seq<EventView>, b: Seq<EventView>, owner: Seq<char>)
    requires
        agree(a, b),
    ensures
        model::scans_of(a, owner) == model::scans_of(b, owner),
{
    let (sa, sb) = (model::scan_ids(a, owner), model::scan_ids(b, owner));
    assert forall|id: Seq<char>| #[trigger] sa.contains(id) == sb.contains(id) by {
        if sa.contains(id) {
            let event = choose|event: EventView| #[trigger]
                model::trusted(a, event) && event is WarehouseScan && event.owner() == owner
                    && event.id() == id;
            assert(model::trusted(b, event));
        }
        if sb.contains(id) {
            let event = choose|event: EventView| #[trigger]
                model::trusted(b, event) && event is WarehouseScan && event.owner() == owner
                    && event.id() == id;
            assert(model::trusted(a, event));
        }
    }
    assert(sa =~= sb);
    lemma_scan_ids_finite(a, owner);
    text::lemma_listed(sa);
    let ids = text::in_order(sa);
    assert forall|k: int| 0 <= k < ids.len() implies model::scans_of(a, owner)[k] == model::scans_of(
        b,
        owner,
    )[k] by {
        assert(ids.contains(ids[k]));
        assert(sa.contains(ids[k]));
        let event = choose|event: EventView| #[trigger]
            model::trusted(a, event) && event is WarehouseScan && event.owner() == owner
                && event.id() == ids[k];
        assert(model::trusted(b, event));
        owned::lemma_event_with(a, event);
        owned::lemma_event_with(b, event);
        lemma_same_scan(a, b, event);
    }
    assert(model::scans_of(a, owner) =~= model::scans_of(b, owner));
}

proof fn lemma_same_attempts(
    a: Seq<EventView>,
    b: Seq<EventView>,
    owner: Seq<char>,
    line: Seq<char>,
    refund: Seq<char>,
)
    requires
        agree(a, b),
    ensures
        model::amounts_differ(a, owner, line, refund) == model::amounts_differ(b, owner, line, refund),
        forall|status: PaymentStatus| #[trigger]
            model::attempt_has(a, owner, line, refund, status) == model::attempt_has(
                b,
                owner,
                line,
                refund,
                status,
            ),
        model::decides(a, owner, line, refund) == model::decides(b, owner, line, refund),
{
    assert forall|e: EventView| #[trigger] model::attempt(a, e, owner, line, refund) == model::attempt(
        b,
        e,
        owner,
        line,
        refund,
    ) by {
        assert(model::trusted(a, e) == model::trusted(b, e));
    }
    if model::amounts_differ(a, owner, line, refund) {
        let (x, y) = choose|x: EventView, y: EventView| #[trigger]
            model::attempt(a, x, owner, line, refund) && #[trigger] model::attempt(
                a,
                y,
                owner,
                line,
                refund,
            ) && x->amount_cents != y->amount_cents;
        assert(model::attempt(b, x, owner, line, refund) && model::attempt(b, y, owner, line, refund));
    }
    if model::amounts_differ(b, owner, line, refund) {
        let (x, y) = choose|x: EventView, y: EventView| #[trigger]
            model::attempt(b, x, owner, line, refund) && #[trigger] model::attempt(
                b,
                y,
                owner,
                line,
                refund,
            ) && x->amount_cents != y->amount_cents;
        assert(model::attempt(a, x, owner, line, refund) && model::attempt(a, y, owner, line, refund));
    }
    assert forall|status: PaymentStatus| #[trigger]
        model::attempt_has(a, owner, line, refund, status) == model::attempt_has(
            b,
            owner,
            line,
            refund,
            status,
        ) by {
        if model::attempt_has(a, owner, line, refund, status) {
            let x = choose|x: EventView| #[trigger]
                model::attempt(a, x, owner, line, refund) && x->PaymentResult_status == status;
            assert(model::attempt(b, x, owner, line, refund));
        }
        if model::attempt_has(b, owner, line, refund, status) {
            let x = choose|x: EventView| #[trigger]
                model::attempt(b, x, owner, line, refund) && x->PaymentResult_status == status;
            assert(model::attempt(a, x, owner, line, refund));
        }
    }
}

/// Refund identities that decide a line, as far as the first `n` events name them.
spec fn deciding(
    events: Seq<EventView>,
    owner: Seq<char>,
    line: Seq<char>,
    refund: Seq<char>,
    n: int,
) -> bool {
    model::decides(events, owner, line, refund) && exists|i: int|
        0 <= i < n && model::attempt(events, #[trigger] events[i], owner, line, refund)
}

/// Among finitely many deciding attempts there is a last one.
proof fn lemma_decides_last_exists(
    events: Seq<EventView>,
    owner: Seq<char>,
    line: Seq<char>,
    n: nat,
) -> (last: Option<Seq<char>>)
    requires
        n <= events.len(),
    ensures
        match last {
            Some(last) => deciding(events, owner, line, last, n as int) && forall|other: Seq<char>|
                #[trigger] deciding(events, owner, line, other, n as int) ==> text::text_le(other, last),
            None => forall|other: Seq<char>| !#[trigger] deciding(events, owner, line, other, n as int),
        },
    decreases n,
{
    if n == 0 {
        None
    } else {
        let before = lemma_decides_last_exists(events, owner, line, (n - 1) as nat);
        let event = events[n - 1];
        let refund = event->refund_id;
        let here = model::attempt(events, event, owner, line, refund) && model::decides(
            events,
            owner,
            line,
            refund,
        );
        let last = if here {
            match before {
                Some(x) => if text::text_le(refund, x) {
                    Some(x)
                } else {
                    Some(refund)
                },
                None => Some(refund),
            }
        } else {
            before
        };
        if let Some(x) = before {
            text::lemma_text_total(refund, x);
            let i = choose|i: int|
                0 <= i < n - 1 && model::attempt(events, #[trigger] events[i], owner, line, x);
            assert(0 <= i < n && model::attempt(events, events[i], owner, line, x));
            assert(deciding(events, owner, line, x, n as int));
        }
        if here {
            assert(model::attempt(events, events[n - 1], owner, line, refund));
            assert(deciding(events, owner, line, refund, n as int));
        }
        assert forall|other: Seq<char>| #[trigger] deciding(events, owner, line, other, n as int) implies (last
            matches Some(x) && text::text_le(other, x)) by {
            let i = choose|i: int|
                0 <= i < n && model::attempt(events, #[trigger] events[i], owner, line, other);
            text::lemma_text_total(other, other);
            if i < n - 1 {
                assert(deciding(events, owner, line, other, n - 1));
                if let Some(x) = before {
                    if !text::text_le(refund, x) {
                        text::lemma_text_transitive(other, x, refund);
                    }
                }
            } else {
                assert(other == refund);
                if let Some(x) = before {
                    text::lemma_text_total(refund, x);
                }
            }
        }
        last
    }
}

/// Where an attempt decides a line, one of them is the last to do so.
pub proof fn lemma_some_last(events: Seq<EventView>, owner: Seq<char>, line: Seq<char>, refund: Seq<char>) -> (last:
    Seq<char>)
    requires
        model::decides(events, owner, line, refund),
    ensures
        model::decides_last(events, owner, line, last),
{
    let n = events.len();
    assert forall|other: Seq<char>| #[trigger] model::decides(events, owner, line, other) implies deciding(
        events,
        owner,
        line,
        other,
        n as int,
    ) by {
        let event = if model::amounts_differ(events, owner, line, other) {
            let (x, y) = choose|x: EventView, y: EventView| #[trigger]
                model::attempt(events, x, owner, line, other) && #[trigger] model::attempt(
                    events,
                    y,
                    owner,
                    line,
                    other,
                ) && x->amount_cents != y->amount_cents;
            x
        } else {
            choose|x: EventView| #[trigger]
                model::attempt(events, x, owner, line, other) && x->PaymentResult_status
                    == PaymentStatus::Successful
        };
        assert(model::attempt(events, event, owner, line, other));
        let i = choose|i: int| 0 <= i < events.len() && events[i] == event;
        assert(model::attempt(events, events[i], owner, line, other));
    }
    let last = lemma_decides_last_exists(events, owner, line, n);
    assert(deciding(events, owner, line, refund, n as int));
    last.unwrap()
}

/// Where the same events are trusted, the same lines are blocked.
proof fn lemma_same_block(a: Seq<EventView>, b: Seq<EventView>, owner: Seq<char>, line: Seq<char>)
    requires
        agree(a, b),
    ensures
        model::block_of(a, owner, line) == model::block_of(b, owner, line),
{
    assert forall|refund: Seq<char>| #[trigger] model::decides(a, owner, line, refund) == model::decides(
        b,
        owner,
        line,
        refund,
    ) by {
        lemma_same_attempts(a, b, owner, line, refund);
    }
    assert forall|refund: Seq<char>| #[trigger]
        model::attempt_has(a, owner, line, refund, PaymentStatus::Pending) == model::attempt_has(
            b,
            owner,
            line,
            refund,
            PaymentStatus::Pending,
        ) by {
        lemma_same_attempts(a, b, owner, line, refund);
    }
    if exists|refund: Seq<char>| #[trigger] model::decides(a, owner, line, refund) {
        let some = choose|refund: Seq<char>| #[trigger] model::decides(a, owner, line, refund);
        let last = lemma_some_last(a, owner, line, some);
        assert forall|other: Seq<char>| #[trigger] model::decides(b, owner, line, other) implies text::text_le(
            other,
            last,
        ) by {
            assert(model::decides(a, owner, line, other));
        }
        assert(model::decides(a, owner, line, last));
        assert(model::decides_last(b, owner, line, last));
        owned::lemma_block_decided(a, owner, line, last);
        owned::lemma_block_decided(b, owner, line, last);
        lemma_same_attempts(a, b, owner, line, last);
    } else {
        if exists|refund: Seq<char>| #[trigger] model::decides(b, owner, line, refund) {
            let some = choose|refund: Seq<char>| #[trigger] model::decides(b, owner, line, refund);
            assert(model::decides(a, owner, line, some));
        }
        if exists|refund: Seq<char>| #[trigger]
            model::attempt_has(a, owner, line, refund, PaymentStatus::Pending) {
            let refund = choose|refund: Seq<char>| #[trigger]
                model::attempt_has(a, owner, line, refund, PaymentStatus::Pending);
            assert(model::attempt_has(b, owner, line, refund, PaymentStatus::Pending));
        }
        if exists|refund: Seq<char>| #[trigger]
            model::attempt_has(b, owner, line, refund, PaymentStatus::Pending) {
            let refund = choose|refund: Seq<char>| #[trigger]
                model::attempt_has(b, owner, line, refund, PaymentStatus::Pending);
            assert(model::attempt_has(a, owner, line, refund, PaymentStatus::Pending));
        }
    }
}

/// Terms that hold the same scans and blocks serve lines alike.
proof fn lemma_same_stock(ta: Terms, tb: Terms, start: Stock, lines: Seq<LineView>, n: nat)
    requires
        ta.scans == tb.scans,
        forall|line: Seq<char>| #[trigger]
            model::block_of(ta.events, ta.owner, line) == model::block_of(tb.events, tb.owner, line),
    ensures
        model::stock_at(ta, start, lines, n) == model::stock_at(tb, start, lines, n),
        forall|stock: Stock, line: LineView| #[trigger]
            model::proposal(ta, stock, line) == model::proposal(tb, stock, line),
    decreases n,
{
    assert forall|stock: Stock, line: LineView| #[trigger]
        model::proposal(ta, stock, line) == model::proposal(tb, stock, line) by {
        assert(model::block_of(ta.events, ta.owner, line.line_id) == model::block_of(
            tb.events,
            tb.owner,
            line.line_id,
        ));
    }
    if n > 0 {
        lemma_same_stock(ta, tb, start, lines, (n - 1) as nat);
        let stock = model::stock_at(ta, start, lines, (n - 1) as nat);
        let line = lines[n - 1];
        assert(model::proposal(ta, stock, line) == model::proposal(tb, stock, line));
        assert(model::stock_after(ta, stock, line) =~= model::stock_after(tb, stock, line));
    }
}

/// The flags but for that of a contested identity.
pub open spec fn uncontested(flags: Flags) -> Flags {
    Flags { conflicting_event_id: false, ..flags }
}

/// A plan reads nothing but the trusted events, but for the flag that an
/// identity is contested.
pub proof fn plan_reads_trusted_events(
    a: Seq<EventView>,
    b: Seq<EventView>,
    authorization: AuthView,
)
    requires
        agree(a, b),
    ensures
        model::plan_of(a, authorization).lines == model::plan_of(b, authorization).lines,
        model::plan_of(a, authorization).unmatched_scan_quantity == model::plan_of(
            b,
            authorization,
        ).unmatched_scan_quantity,
        uncontested(model::flags_of(a, authorization)) == uncontested(
            model::flags_of(b, authorization),
        ),
{
    let owner = authorization.return_id;
    let (ta, tb) = (model::terms_of(a, owner), model::terms_of(b, owner));
    lemma_same_scans(a, b, owner);
    assert forall|line: Seq<char>| #[trigger] model::block_of(a, owner, line) == model::block_of(
        b,
        owner,
        line,
    ) by {
        lemma_same_block(a, b, owner, line);
    }
    let start = model::opening_stock(ta, authorization);
    let lines = model::ordered_lines(authorization.lines);
    assert forall|k: int| 0 <= k <= lines.len() implies #[trigger] model::stock_at(
        ta,
        start,
        lines,
        k as nat,
    ) == model::stock_at(tb, start, lines, k as nat) by {
        lemma_same_stock(ta, tb, start, lines, k as nat);
    }
    lemma_same_stock(ta, tb, start, lines, 0);
    assert forall|k: int| 0 <= k < lines.len() implies #[trigger] model::proposal_at(
        ta,
        start,
        lines,
        k,
    ) == model::proposal_at(tb, start, lines, k) by {
        let stock = model::stock_at(ta, start, lines, k as nat);
        assert(model::proposal(ta, stock, lines[k]) == model::proposal(tb, stock, lines[k]));
    }
    let last = lines.len() as int;
    assert(model::stock_at(ta, start, lines, last as nat) == model::stock_at(tb, start, lines, last as nat));
    let (pa, pb) = (model::plan_of(a, authorization), model::plan_of(b, authorization));
    assert forall|k: int| 0 <= k < lines.len() implies pa.lines[k] == pb.lines[k] by {
        assert(model::proposal_at(ta, start, lines, k) == model::proposal_at(tb, start, lines, k));
    }
    assert(pa.lines =~= pb.lines);
    lemma_same_flags(a, b, authorization);
}

proof fn lemma_same_flags(
    a: Seq<EventView>,
    b: Seq<EventView>,
    authorization: AuthView,
)
    requires
        agree(a, b),
        model::scans_of(a, authorization.return_id) == model::scans_of(b, authorization.return_id),
        forall|line: Seq<char>| #[trigger]
            model::block_of(a, authorization.return_id, line) == model::block_of(
                b,
                authorization.return_id,
                line,
            ),
        ({
            let (ta, tb) = (
                model::terms_of(a, authorization.return_id),
                model::terms_of(b, authorization.return_id),
            );
            let start = model::opening_stock(ta, authorization);
            let lines = model::ordered_lines(authorization.lines);
            &&& model::stock_at(ta, start, lines, lines.len()) == model::stock_at(
                tb,
                start,
                lines,
                lines.len(),
            )
            &&& forall|k: int|
                0 <= k < lines.len() ==> #[trigger] model::proposal_at(ta, start, lines, k)
                    == model::proposal_at(tb, start, lines, k)
        }),
    ensures
        uncontested(model::flags_of(a, authorization)) == uncontested(
            model::flags_of(b, authorization),
        ),
{
    let owner = authorization.return_id;
    let (ta, tb) = (model::terms_of(a, owner), model::terms_of(b, owner));
    let start = model::opening_stock(ta, authorization);
    let lines = model::ordered_lines(authorization.lines);
    let (fa, fb) = (model::flags_of(a, authorization), model::flags_of(b, authorization));
    lemma_corrections_agree(a, b, owner);
    lemma_corrections_agree(b, a, owner);
    assert forall|line: Seq<char>, refund: Seq<char>| #[trigger]
        model::amounts_differ(a, owner, line, refund) == model::amounts_differ(b, owner, line, refund) by {
        lemma_same_attempts(a, b, owner, line, refund);
    }
    assert(fa.payment_amount_conflict == fb.payment_amount_conflict) by {
        if fa.payment_amount_conflict {
            let (line, refund) = choose|line: Seq<char>, refund: Seq<char>| #[trigger]
                model::amounts_differ(a, owner, line, refund);
            assert(model::amounts_differ(b, owner, line, refund));
        }
        if fb.payment_amount_conflict {
            let (line, refund) = choose|line: Seq<char>, refund: Seq<char>| #[trigger]
                model::amounts_differ(b, owner, line, refund);
            assert(model::amounts_differ(a, owner, line, refund));
        }
    }
    assert forall|k: int| 0 <= k < lines.len() implies model::block_of(
        a,
        owner,
        (#[trigger] lines[k]).line_id,
    ) == model::block_of(b, owner, lines[k].line_id) && model::proposal_at(ta, start, lines, k)
        == model::proposal_at(tb, start, lines, k) by {
        assert(model::proposal_at(ta, start, lines, k) == model::proposal_at(tb, start, lines, k));
    }
    assert(fa.excess_quantity == fb.excess_quantity);
    assert(fa.insufficient_whole_unit_capacity == fb.insufficient_whole_unit_capacity);
    assert(fa.payment_already_successful == fb.payment_already_successful);
    assert(fa.payment_inconclusive == fb.payment_inconclusive);
    assert(fa.unauthorized_sku == fb.unauthorized_sku);
}

/// What the corrections of one input raise, those of the other raise.
proof fn lemma_corrections_agree(a: Seq<EventView>, b: Seq<EventView>, owner: Seq<char>)
    requires
        agree(a, b),
    ensures
        forall|c: EventView| #[trigger]
            model::correction_of(a, c, owner) == model::correction_of(b, c, owner),
        forall|c: EventView| #[trigger]
            model::misdirected(a, c) == model::misdirected(b, c),
        forall|c: EventView| #[trigger] model::not_later(a, c) == model::not_later(b, c),
        forall|c: EventView| #[trigger] model::orphaned(a, c) == model::orphaned(b, c),
        (exists|c: EventView| #[trigger]
            model::correction_of(a, c, owner) && model::misdirected(a, c)) ==> (exists|
            c: EventView,
        | #[trigger] model::correction_of(b, c, owner) && model::misdirected(b, c)),
        (exists|c: EventView| #[trigger] model::correction_of(a, c, owner) && model::not_later(a, c))
            ==> (exists|c: EventView| #[trigger]
            model::correction_of(b, c, owner) && model::not_later(b, c)),
        (exists|c: EventView| #[trigger]
            model::correction_of(a, c, owner) && model::orphaned(a, c)) ==> (exists|
            c: EventView,
        | #[trigger] model::correction_of(b, c, owner) && model::orphaned(b, c)),
{
    assert forall|c: EventView| #[trigger] model::correction_of(a, c, owner) == model::correction_of(
        b,
        c,
        owner,
    ) by {
        assert(model::trusted(a, c) == model::trusted(b, c));
    }
    assert forall|c: EventView| #[trigger] model::misdirected(a, c) == model::misdirected(
        b,
        c,
    ) by {
        if model::misdirected(a, c) {
            let scan = choose|scan: EventView| #[trigger]
                model::trusted(a, scan) && scan is WarehouseScan && scan.id() == c->target_event_id && scan.owner() != c.owner();
            assert(model::trusted(b, scan));
        }
        if model::misdirected(b, c) {
            let scan = choose|scan: EventView| #[trigger]
                model::trusted(b, scan) && scan is WarehouseScan && scan.id() == c->target_event_id && scan.owner() != c.owner();
            assert(model::trusted(a, scan));
        }
    }
    assert forall|c: EventView| #[trigger] model::not_later(a, c) == model::not_later(b, c) by {
        if model::not_later(a, c) {
            let scan = choose|scan: EventView| #[trigger]
                model::trusted(a, scan) && scan is WarehouseScan && scan.id() == c->target_event_id
                    && scan.owner() == c.owner() && !model::happens_before(scan, c);
            assert(model::trusted(b, scan));
        }
        if model::not_later(b, c) {
            let scan = choose|scan: EventView| #[trigger]
                model::trusted(b, scan) && scan is WarehouseScan && scan.id() == c->target_event_id
                    && scan.owner() == c.owner() && !model::happens_before(scan, c);
            assert(model::trusted(a, scan));
        }
    }
    assert forall|c: EventView| #[trigger] model::orphaned(a, c) == model::orphaned(b, c) by {
        if !model::orphaned(a, c) {
            let scan = choose|scan: EventView| #[trigger]
                model::trusted(a, scan) && scan is WarehouseScan && scan.id() == c->target_event_id;
            assert(model::trusted(b, scan));
        }
        if !model::orphaned(b, c) {
            let scan = choose|scan: EventView| #[trigger]
                model::trusted(b, scan) && scan is WarehouseScan && scan.id() == c->target_event_id;
            assert(model::trusted(a, scan));
        }
    }
    if exists|c: EventView| #[trigger]
        model::correction_of(a, c, owner) && model::misdirected(a, c) {
        let c = choose|c: EventView| #[trigger]
            model::correction_of(a, c, owner) && model::misdirected(a, c);
        assert(model::correction_of(b, c, owner) && model::misdirected(b, c));
    }
    if exists|c: EventView| #[trigger] model::correction_of(a, c, owner) && model::not_later(a, c) {
        let c = choose|c: EventView| #[trigger]
            model::correction_of(a, c, owner) && model::not_later(a, c);
        assert(model::correction_of(b, c, owner) && model::not_later(b, c));
    }
    if exists|c: EventView| #[trigger]
        model::correction_of(a, c, owner) && model::orphaned(a, c) {
        let c = choose|c: EventView| #[trigger]
            model::correction_of(a, c, owner) && model::orphaned(a, c);
        assert(model::correction_of(b, c, owner) && model::orphaned(b, c));
    }
}

/// The same events occur, however often and in whatever order.
pub open spec fn same_members(a: Seq<EventView>, b: Seq<EventView>) -> bool {
    forall|event: EventView| #[trigger] a.contains(event) == b.contains(event)
}

proof fn lemma_conflicts_carry(a: Seq<EventView>, b: Seq<EventView>)
    requires
        same_members(a, b),
    ensures
        forall|id: Seq<char>| #[trigger] model::conflicted(a, id) ==> model::conflicted(b, id),
{
    assert forall|id: Seq<char>| #[trigger] model::conflicted(a, id) implies model::conflicted(b, id) by {
        let (i, j) = choose|i: int, j: int|
            0 <= i < a.len() && 0 <= j < a.len() && (#[trigger] a[i]).id() == id && (
            #[trigger] a[j]).id() == id && a[i] != a[j];
        assert(a.contains(a[i]) && a.contains(a[j]));
        assert(b.contains(a[i]) && b.contains(a[j]));
        let x = choose|x: int| 0 <= x < b.len() && b[x] == a[i];
        let y = choose|y: int| 0 <= y < b.len() && b[y] == a[j];
        assert(b[x].id() == id && b[y].id() == id && b[x] != b[y]);
    }
}

proof fn lemma_touches_carry(a: Seq<EventView>, b: Seq<EventView>, owner: Seq<char>)
    requires
        same_members(a, b),
        model::conflict_touches(a, owner),
    ensures
        model::conflict_touches(b, owner),
{
    lemma_conflicts_carry(a, b);
    let i = choose|i: int|
        0 <= i < a.len() && (#[trigger] a[i]).owner() == owner && model::conflicted(a, a[i].id());
    assert(a.contains(a[i]));
    assert(b.contains(a[i]));
    let j = choose|j: int| 0 <= j < b.len() && b[j] == a[i];
    assert(b[j].owner() == owner && model::conflicted(b, b[j].id()));
}

proof fn lemma_members_agree(a: Seq<EventView>, b: Seq<EventView>)
    requires
        same_members(a, b),
    ensures
        agree(a, b),
{
    lemma_conflicts_carry(a, b);
    lemma_conflicts_carry(b, a);
    assert forall|event: EventView| #[trigger] model::trusted(a, event) == model::trusted(b, event) by {
        assert(a.contains(event) == b.contains(event));
        assert(model::conflicted(a, event.id()) ==> model::conflicted(b, event.id()));
        assert(model::conflicted(b, event.id()) ==> model::conflicted(a, event.id()));
    }
}

/// A plan depends on which events occur, not on how often or in what order.
pub proof fn plan_reads_members(
    a: Seq<EventView>,
    b: Seq<EventView>,
    authorization: AuthView,
)
    requires
        same_members(a, b),
    ensures
        model::plan_of(a, authorization) == model::plan_of(b, authorization),
{
    assert(agree(a, b)) by {
        lemma_members_agree(a, b);
    }
    plan_reads_trusted_events(a, b, authorization);
    let owner = authorization.return_id;
    assert(model::conflict_touches(a, owner) == model::conflict_touches(b, owner)) by {
        if model::conflict_touches(a, owner) {
            lemma_touches_carry(a, b, owner);
        }
        if model::conflict_touches(b, owner) {
            lemma_touches_carry(b, a, owner);
        }
    }
    lemma_plan_assembled(a, b, authorization);
}

/// Plans with the same lines and the same reasons for review are the same.
proof fn lemma_plan_assembled(
    a: Seq<EventView>,
    b: Seq<EventView>,
    authorization: AuthView,
)
    requires
        model::plan_of(a, authorization).lines == model::plan_of(b, authorization).lines,
        model::plan_of(a, authorization).unmatched_scan_quantity == model::plan_of(
            b,
            authorization,
        ).unmatched_scan_quantity,
        uncontested(model::flags_of(a, authorization)) == uncontested(
            model::flags_of(b, authorization),
        ),
        model::conflict_touches(a, authorization.return_id) == model::conflict_touches(
            b,
            authorization.return_id,
        ),
    ensures
        model::plan_of(a, authorization) == model::plan_of(b, authorization),
{
    let (fa, fb) = (model::flags_of(a, authorization), model::flags_of(b, authorization));
    assert(fa.conflicting_event_id == fb.conflicting_event_id);
    assert(fa.correction_return_mismatch == uncontested(fa).correction_return_mismatch);
    assert(fa == fb);
    let (pa, pb) = (model::plan_of(a, authorization), model::plan_of(b, authorization));
    assert(pa.review_codes == pb.review_codes);
    assert(pa.disposition == pb.disposition);
}

/// An exact retry of an event changes no plan.
pub proof fn exact_retry_is_idempotent(
    events: Seq<EventView>,
    retry: EventView,
    authorization: AuthView,
)
    requires
        events.contains(retry),
    ensures
        model::plan_of(events.push(retry), authorization) == model::plan_of(
            events,
            authorization,
        ),
{
    let more = events.push(retry);
    assert forall|event: EventView| #[trigger] more.contains(event) == events.contains(event) by {
        if events.contains(event) {
            let i = choose|i: int| 0 <= i < events.len() && events[i] == event;
            assert(more[i] == event);
        }
        if more.contains(event) {
            let i = choose|i: int| 0 <= i < more.len() && more[i] == event;
            if i < events.len() {
                assert(events[i] == event);
            }
        }
    }
    plan_reads_members(more, events, authorization);
}

/// Events whose identity is contested contribute nothing to a plan's lines: they
/// are those of the plan made without them.
pub proof fn contested_events_contribute_nothing(
    events: Seq<EventView>,
    authorization: AuthView,
)
    ensures
        model::plan_of(events, authorization).lines == model::plan_of(
            events.filter(|event: EventView| !model::conflicted(events, event.id())),
            authorization,
        ).lines,
        model::conflict_touches(events, authorization.return_id) ==> model::plan_of(
            events,
            authorization,
        ).disposition == "review"@,
{
    let keep = |event: EventView| !model::conflicted(events, event.id());
    let kept = events.filter(keep);
    assert forall|event: EventView| #[trigger] kept.contains(event) == (events.contains(event) && keep(
        event,
    )) by {
        if kept.contains(event) {
            let i = choose|i: int| 0 <= i < kept.len() && kept[i] == event;
            events.lemma_filter_contains_rev(keep, event);
            events.lemma_filter_pred(keep, i);
        }
        if events.contains(event) && keep(event) {
            let i = choose|i: int| 0 <= i < events.len() && events[i] == event;
            events.lemma_filter_contains(keep, i);
        }
    }
    assert forall|event: EventView| #[trigger] model::trusted(events, event) == model::trusted(kept, event) by {
        assert(kept.contains(event) == (events.contains(event) && keep(event)));
        if kept.contains(event) && model::conflicted(kept, event.id()) {
            let id = event.id();
            let (i, j) = choose|i: int, j: int|
                0 <= i < kept.len() && 0 <= j < kept.len() && (#[trigger] kept[i]).id() == id && (
                #[trigger] kept[j]).id() == id && kept[i] != kept[j];
            assert(kept.contains(kept[i]) && kept.contains(kept[j]));
            assert(events.contains(kept[i]) && events.contains(kept[j]));
            let x = choose|x: int| 0 <= x < events.len() && events[x] == kept[i];
            let y = choose|y: int| 0 <= y < events.len() && events[y] == kept[j];
            assert(events[x].id() == id && events[y].id() == id);
            assert(model::conflicted(events, id));
        }
    }
    plan_reads_trusted_events(events, kept, authorization);
    if model::conflict_touches(events, authorization.return_id) {
        let flags = model::flags_of(events, authorization);
        assert(flags.conflicting_event_id);
        assert(model::codes_of(flags).len() > 0);
    }
}

/// The reference reports what the candidate reports, of every snapshot that the
/// candidate accepts.
pub proof fn candidate_report_matches_reference(snapshot: SnapshotView)
    requires
        reconcile::outcome(snapshot) is Ok,
    ensures
        reference::reference_outcome(snapshot) == reconcile::outcome(snapshot),
{
}

/// Lines that validation lets through.
pub open spec fn fair_lines(lines: Seq<LineView>) -> bool {
    forall|k: int|
        0 <= k < lines.len() ==> (#[trigger] lines[k]).authorized_qty > 0 && lines[k].sound_money()
            && lines[k].prior_successful_refund_cents <= lines[k].net()
}

/// A line plan within the bounds of its line.
pub open spec fn within_caps(line: LineView, plan: LinePlanView) -> bool {
    &&& plan.line_id == line.line_id
    &&& plan.authorized_quantity == line.authorized_qty
    &&& plan.maximum_refundable_cents == line.net() - line.prior_successful_refund_cents
    &&& plan.accepted_scan_quantity <= plan.authorized_quantity
    &&& plan.proposed_quantity <= plan.accepted_scan_quantity
    &&& plan.proposed_cents <= plan.maximum_refundable_cents
    &&& plan.proposed_cents == model::cost(
        line.net(),
        line.authorized_qty as int,
        plan.proposed_quantity as int,
    )
}

proof fn lemma_proposal(terms: Terms, stock: Stock, line: LineView)
    requires
        stock.remaining.len() == terms.scans.len(),
        line.authorized_qty > 0,
        line.sound_money(),
        line.prior_successful_refund_cents <= line.net(),
    ensures
        within_caps(line, model::proposal(terms, stock, line)),
        model::proposal(terms, stock, line).proposed_cents <= stock.cap,
{
    let given = model::given_to(terms, stock, line);
    settle::lemma_allotted(
        terms.scans,
        stock.remaining,
        line.sku,
        line.authorized_qty as nat,
        terms.scans.len(),
    );
    let maximum = line.net() - line.prior_successful_refund_cents;
    let eligible = if model::block_of(terms.events, terms.owner, line.line_id) is None {
        seqs::sum(given)
    } else {
        0
    };
    settle::lemma_affordable(
        line.net(),
        line.authorized_qty as int,
        model::least(maximum, stock.cap as int),
        eligible,
    );
    let proposed = model::affordable(
        line.net(),
        line.authorized_qty as int,
        model::least(maximum, stock.cap as int),
        eligible,
    );
    settle::lemma_cost(line.net(), line.authorized_qty as int, proposed as int);
}

/// The cents that the first `n` lines propose.
spec fn cents_up_to(terms: Terms, start: Stock, lines: Seq<LineView>, n: nat) -> Seq<nat> {
    Seq::new(n, |k: int| model::proposal_at(terms, start, lines, k).proposed_cents)
}

proof fn lemma_cap_spent(terms: Terms, start: Stock, lines: Seq<LineView>, n: nat)
    requires
        start.remaining.len() == terms.scans.len(),
        fair_lines(lines),
        n <= lines.len(),
    ensures
        model::stock_at(terms, start, lines, n).remaining.len() == terms.scans.len(),
        model::stock_at(terms, start, lines, n).cap + seqs::sum(cents_up_to(terms, start, lines, n))
            == start.cap,
    decreases n,
{
    if n > 0 {
        let before = (n - 1) as nat;
        lemma_cap_spent(terms, start, lines, before);
        let stock = model::stock_at(terms, start, lines, before);
        let line = lines[n - 1];
        lemma_proposal(terms, stock, line);
        assert(cents_up_to(terms, start, lines, n) =~= cents_up_to(terms, start, lines, before).push(
            model::proposal(terms, stock, line).proposed_cents,
        ));
        seqs::lemma_sum_push(
            cents_up_to(terms, start, lines, before),
            model::proposal(terms, stock, line).proposed_cents,
        );
    } else {
        assert(cents_up_to(terms, start, lines, 0) =~= Seq::<nat>::empty());
    }
}

pub proof fn lemma_ordered_lines(lines: Seq<LineView>)
    requires
        forall|i: int, j: int|
            0 <= i < j < lines.len() ==> (#[trigger] lines[i]).line_id != (
            #[trigger] lines[j]).line_id,
    ensures
        forall|k: int|
            0 <= k < model::ordered_lines(lines).len() ==> lines.contains(
                #[trigger] model::ordered_lines(lines)[k],
            ),
        forall|i: int|
            0 <= i < lines.len() ==> model::ordered_lines(lines).contains(#[trigger] lines[i]),
        forall|k: int|
            0 <= k < model::ordered_lines(lines).len() ==> model::ordered_lines(lines)[k].line_id
                == #[trigger] text::in_order(model::line_ids(lines))[k],
        text::lists(text::in_order(model::line_ids(lines)), model::line_ids(lines)),
{
    let set = model::line_ids(lines);
    let names = lines.map_values(|line: LineView| line.line_id);
    assert forall|id: Seq<char>| set.contains(id) implies names.to_set().contains(id) by {
        let i = choose|i: int| 0 <= i < lines.len() && (#[trigger] lines[i]).line_id == id;
        assert(names[i] == id);
    }
    vstd::seq_lib::seq_to_set_is_finite(names);
    vstd::set_lib::lemma_set_subset_finite(names.to_set(), set);
    text::lemma_listed(set);
    let ids = text::in_order(set);
    let ordered = model::ordered_lines(lines);
    assert forall|k: int| 0 <= k < ordered.len() implies lines.contains(#[trigger] ordered[k])
        && ordered[k].line_id == ids[k] by {
        assert(ids.contains(ids[k]));
        let i = choose|i: int| 0 <= i < lines.len() && (#[trigger] lines[i]).line_id == ids[k];
        settle::lemma_line_with(lines, i);
        assert(ordered[k] == lines[i]);
    }
    assert forall|k: int| 0 <= k < ordered.len() implies ordered[k].line_id == #[trigger] ids[k] by {
        let line = ordered[k];
    }
    assert forall|i: int| 0 <= i < lines.len() implies ordered.contains(#[trigger] lines[i]) by {
        assert(set.contains(lines[i].line_id));
        assert(ids.contains(lines[i].line_id));
        let k = choose|k: int| 0 <= k < ids.len() && ids[k] == lines[i].line_id;
        settle::lemma_line_with(lines, i);
        assert(ordered[k] == lines[i]);
    }
}

/// No plan exceeds the quantity, the net amount or the captured payment that its
/// return allows, and its cents are the price of its units.
pub proof fn caps_hold(events: Seq<EventView>, authorization: AuthView)
    requires
        settle::sound(authorization),
    ensures
        forall|k: int|
            0 <= k < model::plan_of(events, authorization).lines.len() ==> within_caps(
                model::ordered_lines(authorization.lines)[k],
                #[trigger] model::plan_of(events, authorization).lines[k],
            ),
        model::line_cents(model::plan_of(events, authorization)) + model::prior_total(
            authorization.lines,
        ) <= authorization.captured_cents,
{
    let terms = model::terms_of(events, authorization.return_id);
    let start = model::opening_stock(terms, authorization);
    let lines = model::ordered_lines(authorization.lines);
    let plan = model::plan_of(events, authorization);
    lemma_ordered_lines(authorization.lines);
    assert forall|k: int| 0 <= k < lines.len() implies (#[trigger] lines[k]).authorized_qty > 0
        && lines[k].sound_money() && lines[k].prior_successful_refund_cents <= lines[k].net() by {
        assert(authorization.lines.contains(lines[k]));
    }
    assert forall|k: int| 0 <= k < plan.lines.len() implies within_caps(
        lines[k],
        #[trigger] plan.lines[k],
    ) by {
        lemma_cap_spent(terms, start, lines, k as nat);
        lemma_proposal(terms, model::stock_at(terms, start, lines, k as nat), lines[k]);
    }
    lemma_cap_spent(terms, start, lines, lines.len());
    assert(cents_up_to(terms, start, lines, lines.len()) =~= plan.lines.map_values(
        |line: LinePlanView| line.proposed_cents,
    ));
}

/// The plans of a snapshot stand in identity order, one for each return.
proof fn lemma_plans(snapshot: SnapshotView)
    requires
        validate::interpretable(snapshot),
    ensures
        verify::canonical_order(model::plans_of(snapshot)),
        model::plans_of(snapshot).len() == snapshot.returns.len(),
        forall|k: int|
            0 <= k < model::plans_of(snapshot).len() ==> exists|i: int|
                0 <= i < snapshot.returns.len() && (#[trigger] model::plans_of(snapshot)[k])
                    == model::plan_of(snapshot.events, #[trigger] snapshot.returns[i]),
{
    let set = model::return_ids(snapshot.returns);
    let names = snapshot.returns.map_values(|a: AuthView| a.return_id);
    assert(set =~= names.to_set()) by {
        assert forall|id: Seq<char>| set.contains(id) == names.to_set().contains(id) by {
            if set.contains(id) {
                let i = choose|i: int|
                    0 <= i < snapshot.returns.len() && (#[trigger] snapshot.returns[i]).return_id == id;
                assert(names[i] == id);
            }
            if names.to_set().contains(id) {
                let i = choose|i: int| 0 <= i < names.len() && names[i] == id;
                assert(snapshot.returns[i].return_id == id);
            }
        }
    }
    vstd::seq_lib::seq_to_set_is_finite(names);
    text::lemma_listed(set);
    let ids = text::in_order(set);
    assert(names.no_duplicates()) by {
        assert forall|i: int, j: int| 0 <= i < names.len() && 0 <= j < names.len() && i != j implies names[i]
            != names[j] by {
            if i < j {
                assert(snapshot.returns[i].return_id != snapshot.returns[j].return_id);
            } else {
                assert(snapshot.returns[j].return_id != snapshot.returns[i].return_id);
            }
        }
    }
    names.unique_seq_to_set();
    assert(ids.no_duplicates()) by {
        assert forall|i: int, j: int| 0 <= i < ids.len() && 0 <= j < ids.len() && i != j implies ids[i]
            != ids[j] by {
            text::lemma_text_total(ids[i], ids[j]);
            if i < j {
                assert(text::text_lt(ids[i], ids[j]));
            } else {
                assert(text::text_lt(ids[j], ids[i]));
            }
        }
    }
    ids.unique_seq_to_set();
    assert(ids.to_set() =~= set);
    let plans = model::plans_of(snapshot);
    assert forall|k: int| 0 <= k < plans.len() implies exists|i: int|
        0 <= i < snapshot.returns.len() && (#[trigger] plans[k]) == model::plan_of(
            snapshot.events,
            #[trigger] snapshot.returns[i],
        ) && plans[k].return_id == ids[k] by {
        assert(ids.contains(ids[k]));
        let i = choose|i: int|
            0 <= i < snapshot.returns.len() && (#[trigger] snapshot.returns[i]).return_id == ids[k];
        reconcile::lemma_return_with(snapshot, i);
        assert(plans[k] == model::plan_of(snapshot.events, snapshot.returns[i]));
    }
    assert forall|k: int| 0 < k < plans.len() implies text::text_lt(
        plans[k - 1].return_id,
        (#[trigger] plans[k]).return_id,
    ) by {
        let before = plans[k - 1];
        assert(before.return_id == ids[k - 1]);
        assert(text::text_lt(ids[k - 1], ids[k]));
    }
}

proof fn lemma_first_named(lines: Seq<LineView>, i: int, n: nat)
    requires
        0 <= i < n <= lines.len(),
        forall|a: int, b: int|
            0 <= a < b < lines.len() ==> (#[trigger] lines[a]).line_id != (
            #[trigger] lines[b]).line_id,
    ensures
        verify::first_named(lines, lines[i].line_id, n) == Some(lines[i]),
    decreases n,
{
    if i < n - 1 {
        lemma_first_named(lines, i, (n - 1) as nat);
    } else {
        lemma_none_named(lines, lines[i].line_id, (n - 1) as nat);
    }
}

proof fn lemma_none_named(lines: Seq<LineView>, id: Seq<char>, n: nat)
    requires
        n <= lines.len(),
        forall|a: int| 0 <= a < n ==> (#[trigger] lines[a]).line_id != id,
    ensures
        verify::first_named(lines, id, n) is None,
    decreases n,
{
    if n > 0 {
        lemma_none_named(lines, id, (n - 1) as nat);
    }
}

proof fn lemma_only_named(snapshot: SnapshotView, i: int, n: nat)
    requires
        validate::interpretable(snapshot),
        0 <= i < n <= snapshot.returns.len(),
    ensures
        verify::last_named(snapshot.returns, snapshot.returns[i].return_id, n) == Some(
            snapshot.returns[i],
        ),
    decreases n,
{
    if i < n - 1 {
        assert(snapshot.returns[i].return_id != snapshot.returns[n - 1].return_id);
        lemma_only_named(snapshot, i, (n - 1) as nat);
    }
}

/// A plan of the reference has no fault, as long as 64 bits hold the cents.
proof fn lemma_plan_faultless(snapshot: SnapshotView, i: int, before: nat)
    requires
        validate::interpretable(snapshot),
        0 <= i < snapshot.returns.len(),
        before + model::line_cents(model::plan_of(snapshot.events, snapshot.returns[i]))
            <= u64::MAX,
    ensures
        verify::plan_fault(
            snapshot,
            model::plan_of(snapshot.events, snapshot.returns[i]),
            before,
        ) is None,
{
    let authorization = snapshot.returns[i];
    let plan = model::plan_of(snapshot.events, authorization);
    assert(settle::sound(authorization));
    lemma_only_named(snapshot, i, snapshot.returns.len());
    caps_hold(snapshot.events, authorization);
    lemma_lines_faultless(authorization, plan, before, plan.lines.len());
}

proof fn lemma_lines_faultless(authorization: AuthView, plan: PlanView, before: nat, n: nat)
    requires
        settle::sound(authorization),
        n <= plan.lines.len(),
        plan.lines.len() == model::ordered_lines(authorization.lines).len(),
        forall|k: int|
            0 <= k < plan.lines.len() ==> within_caps(
                model::ordered_lines(authorization.lines)[k],
                #[trigger] plan.lines[k],
            ),
        before + model::line_cents(plan) <= u64::MAX,
    ensures
        verify::first_line_plan_fault(authorization, plan, before, n) is None,
    decreases n,
{
    if n > 0 {
        lemma_lines_faultless(authorization, plan, before, (n - 1) as nat);
        let ordered = model::ordered_lines(authorization.lines);
        lemma_ordered_lines(authorization.lines);
        let line = ordered[n - 1];
        assert(authorization.lines.contains(line));
        let j = choose|j: int| 0 <= j < authorization.lines.len() && authorization.lines[j] == line;
        lemma_first_named(authorization.lines, j, authorization.lines.len());
        assert(within_caps(line, plan.lines[n - 1]));
        seqs::lemma_sum_take(
            plan.lines.map_values(|line: LinePlanView| line.proposed_cents),
            n - 1,
        );
    }
}

proof fn lemma_plans_faultless(snapshot: SnapshotView, n: nat)
    requires
        validate::interpretable(snapshot),
        n <= model::plans_of(snapshot).len(),
        model::total_cents(model::plans_of(snapshot)) <= u64::MAX,
    ensures
        verify::first_plan_fault(snapshot, model::plans_of(snapshot), n) is None,
    decreases n,
{
    if n > 0 {
        let plans = model::plans_of(snapshot);
        lemma_plans_faultless(snapshot, (n - 1) as nat);
        lemma_plans(snapshot);
        let cents = plans.map_values(|plan: PlanView| model::line_cents(plan));
        seqs::lemma_sum_take(cents, n - 1);
        assert(cents.take(n - 1) =~= plans.take(n - 1).map_values(
            |plan: PlanView| model::line_cents(plan),
        ));
        let plan = plans[n - 1];
        let i = choose|i: int|
            0 <= i < snapshot.returns.len() && plan == model::plan_of(
                snapshot.events,
                #[trigger] snapshot.returns[i],
            );
        lemma_plan_faultless(snapshot, i, model::total_cents(plans.take(n - 1)));
    }
}

/// The checks accept what the reference reports.
pub proof fn reference_report_is_accepted(snapshot: SnapshotView)
    requires
        reconcile::countable(snapshot),
        reference::reference_error(snapshot) is None,
        snapshot.events.len() <= usize::MAX,
        snapshot.returns.len() <= usize::MAX,
    ensures
        verify::report_fault(snapshot, model::report_of(snapshot)) is None,
{
    validate::lemma_interpretable(snapshot);
    lemma_plans(snapshot);
    let plans = model::plans_of(snapshot);
    lemma_plans_faultless(snapshot, plans.len());
    lemma_units_fit(snapshot);
}

/// A return proposes few enough units that 64 bits count those of all returns.
proof fn lemma_units_fit(snapshot: SnapshotView)
    requires
        validate::interpretable(snapshot),
        reconcile::countable(snapshot),
    ensures
        model::total_units(model::plans_of(snapshot)) <= u64::MAX,
{
    lemma_plans(snapshot);
    let plans = model::plans_of(snapshot);
    let units = plans.map_values(|plan: PlanView| model::line_units(plan));
    assert forall|k: int| 0 <= k < units.len() implies (#[trigger] units[k]) <= 12 * 0xffff_ffff by {
        let plan = plans[k];
        let i = choose|i: int|
            0 <= i < snapshot.returns.len() && plan == model::plan_of(
                snapshot.events,
                #[trigger] snapshot.returns[i],
            );
        let authorization = snapshot.returns[i];
        assert(settle::sound(authorization));
        caps_hold(snapshot.events, authorization);
        lemma_few_lines(authorization.lines);
        let counts = plan.lines.map_values(|line: LinePlanView| line.proposed_quantity);
        assert forall|j: int| 0 <= j < counts.len() implies (#[trigger] counts[j]) <= 0xffff_ffff by {
            assert(within_caps(model::ordered_lines(authorization.lines)[j], plan.lines[j]));
        }
        seqs::lemma_sum_bound(counts, 0xffff_ffff);
        assert(counts.len() * 0xffff_ffff <= 12 * 0xffff_ffff);
    }
    seqs::lemma_sum_bound(units, 12 * 0xffff_ffff);
    assert(units.len() * (12 * 0xffff_ffff) <= snapshot.returns.len() * 12 * u32::MAX);
}

proof fn lemma_few_lines(lines: Seq<LineView>)
    requires
        lines.len() <= 12,
        forall|i: int, j: int|
            0 <= i < j < lines.len() ==> (#[trigger] lines[i]).line_id != (
            #[trigger] lines[j]).line_id,
    ensures
        model::ordered_lines(lines).len() <= 12,
{
    lemma_ordered_lines(lines);
    let set = model::line_ids(lines);
    let names = lines.map_values(|line: LineView| line.line_id);
    assert forall|id: Seq<char>| set.contains(id) implies names.to_set().contains(id) by {
        let i = choose|i: int| 0 <= i < lines.len() && (#[trigger] lines[i]).line_id == id;
        assert(names[i] == id);
    }
    vstd::seq_lib::seq_to_set_is_finite(names);
    names.lemma_cardinality_of_set();
    vstd::set_lib::lemma_len_subset(set, names.to_set());
    let ids = text::in_order(set);
    assert(ids.no_duplicates()) by {
        assert forall|i: int, j: int| 0 <= i < ids.len() && 0 <= j < ids.len() && i != j implies ids[i]
            != ids[j] by {
            text::lemma_text_total(ids[i], ids[j]);
            if i < j {
                assert(text::text_lt(ids[i], ids[j]));
            } else {
                assert(text::text_lt(ids[j], ids[i]));
            }
        }
    }
    ids.unique_seq_to_set();
    assert(ids.to_set() =~= set);
}

/// The checks accept the report of a snapshot that can be reported on, and no other.
pub proof fn only_the_report_of_a_snapshot_is_accepted(snapshot: SnapshotView, report: ReportView)
    requires
        reconcile::countable(snapshot),
        snapshot.events.len() <= usize::MAX,
        snapshot.returns.len() <= usize::MAX,
    ensures
        verify::report_fault(snapshot, report) is None <==> (reference::reference_error(snapshot)
            is None && report == model::report_of(snapshot)),
{
    if reference::reference_error(snapshot) is None {
        reference_report_is_accepted(snapshot);
    }
}

/// The checks accept what the candidate reports.
pub proof fn candidate_report_is_accepted(snapshot: SnapshotView)
    requires
        reconcile::countable(snapshot),
        reconcile::reconcile_error(snapshot) is None,
        snapshot.events.len() <= usize::MAX,
        snapshot.returns.len() <= usize::MAX,
    ensures
        verify::report_fault(snapshot, model::report_of(snapshot)) is None,
{
    candidate_report_matches_reference(snapshot);
    reference_report_is_accepted(snapshot);
}

/// The same authorization, its lines perhaps in another order.
pub open spec fn same_terms(a: AuthView, b: AuthView) -> bool {
    &&& a.return_id == b.return_id
    &&& a.captured_cents == b.captured_cents
    &&& a.lines.to_multiset() == b.lines.to_multiset()
}

pub open spec fn has_counterpart(authorizations: Seq<AuthView>, wanted: AuthView) -> bool {
    exists|k: int| 0 <= k < authorizations.len() && same_terms(#[trigger] authorizations[k], wanted)
}

/// The same authorizations in another order, their lines perhaps too.
pub open spec fn reordered(
    before: Seq<AuthView>,
    moved: Seq<AuthView>,
    after: Seq<AuthView>,
) -> bool {
    &&& moved.to_multiset() == before.to_multiset()
    &&& moved.len() == after.len()
    &&& forall|j: int| 0 <= j < after.len() ==> same_terms(moved[j], #[trigger] after[j])
}

/// The same snapshot, its events, returns and lines perhaps in another order.
pub open spec fn rearranged(a: SnapshotView, b: SnapshotView) -> bool {
    &&& a.snapshot_id == b.snapshot_id
    &&& a.events.to_multiset() == b.events.to_multiset()
    &&& exists|moved: Seq<AuthView>| #[trigger] reordered(a.returns, moved, b.returns)
}

/// Each return of one snapshot has its counterpart in the other.
proof fn lemma_counterparts(a: SnapshotView, b: SnapshotView)
    requires
        rearranged(a, b),
    ensures
        forall|i: int|
            0 <= i < a.returns.len() ==> #[trigger] has_counterpart(b.returns, a.returns[i]),
        forall|j: int|
            0 <= j < b.returns.len() ==> #[trigger] has_counterpart(a.returns, b.returns[j]),
{
    let moved = choose|moved: Seq<AuthView>| #[trigger] reordered(a.returns, moved, b.returns);
    assert forall|i: int| 0 <= i < a.returns.len() implies #[trigger] has_counterpart(
        b.returns,
        a.returns[i],
    ) by {
        lemma_members_of(a.returns, moved, a.returns[i]);
        assert(a.returns.contains(a.returns[i]));
        let k = choose|k: int| 0 <= k < moved.len() && moved[k] == a.returns[i];
        assert(same_terms(moved[k], b.returns[k]));
        assert(same_terms(b.returns[k], a.returns[i]));
    }
    assert forall|j: int| 0 <= j < b.returns.len() implies #[trigger] has_counterpart(
        a.returns,
        b.returns[j],
    ) by {
        assert(same_terms(moved[j], b.returns[j]));
        lemma_members_of(a.returns, moved, moved[j]);
        assert(moved.contains(moved[j]));
        let k = choose|k: int| 0 <= k < a.returns.len() && a.returns[k] == moved[j];
        assert(same_terms(a.returns[k], b.returns[j]));
    }
}

/// Items that a key tells apart are told apart by it in any order.
proof fn lemma_told_apart<T>(a: Seq<T>, b: Seq<T>, key: spec_fn(T) -> Seq<char>)
    requires
        a.to_multiset() == b.to_multiset(),
        forall|i: int, j: int| 0 <= i < j < a.len() ==> key(#[trigger] a[i]) != key(#[trigger] a[j]),
    ensures
        b.no_duplicates(),
        forall|i: int, j: int| 0 <= i < j < b.len() ==> key(#[trigger] b[i]) != key(#[trigger] b[j]),
{
    assert(a.no_duplicates()) by {
        assert forall|i: int, j: int| 0 <= i < a.len() && 0 <= j < a.len() && i != j implies a[i]
            != a[j] by {
            if i < j {
                assert(key(a[i]) != key(a[j]));
            } else {
                assert(key(a[j]) != key(a[i]));
            }
        }
    }
    a.lemma_multiset_has_no_duplicates();
    b.lemma_multiset_has_no_duplicates_conv();
    assert forall|i: int, j: int| 0 <= i < j < b.len() implies key(#[trigger] b[i]) != key(
        #[trigger] b[j],
    ) by {
        lemma_members_of(a, b, b[i]);
        lemma_members_of(a, b, b[j]);
        assert(b.contains(b[i]) && b.contains(b[j]));
        let x = choose|x: int| 0 <= x < a.len() && a[x] == b[i];
        let y = choose|y: int| 0 <= y < a.len() && a[y] == b[j];
        assert(b[i] != b[j]);
        if x < y {
            assert(key(a[x]) != key(a[y]));
        } else {
            assert(key(a[y]) != key(a[x]));
        }
    }
}

/// An authorization stays faultless when its lines change places.
proof fn lemma_faultless_terms(a: AuthView, b: AuthView)
    requires
        same_terms(a, b),
        validate::faultless_return(a),
    ensures
        validate::faultless_return(b),
{
    a.lines.to_multiset_ensures();
    b.lines.to_multiset_ensures();
    lemma_told_apart(a.lines, b.lines, |line: LineView| line.line_id);
    assert forall|k: int| 0 <= k < b.lines.len() implies (#[trigger] b.lines[k]).authorized_qty > 0
        && b.lines[k].sound_money() && b.lines[k].prior_successful_refund_cents
        <= b.lines[k].net() by {
        lemma_members_of(a.lines, b.lines, b.lines[k]);
        assert(b.lines.contains(b.lines[k]));
        let x = choose|x: int| 0 <= x < a.lines.len() && a.lines[x] == b.lines[k];
        assert(a.lines[x].authorized_qty > 0);
    }
    let key = |line: LineView| line.line_id;
    assert forall|k: int, l: int| 0 <= k < l < b.lines.len() implies (
    #[trigger] b.lines[k]).line_id != (#[trigger] b.lines[l]).line_id by {
        assert(key(b.lines[k]) != key(b.lines[l]));
    }
    seqs::lemma_sum_rearranged(
        a.lines,
        b.lines,
        |line: LineView| line.prior_successful_refund_cents as nat,
    );
}

/// The same lines stand in an authorization, whatever their order.
proof fn lemma_line_carries(a: SnapshotView, i: int, b: SnapshotView, j: int, line: Seq<char>)
    requires
        0 <= i < a.returns.len(),
        0 <= j < b.returns.len(),
        a.returns[i].lines.to_multiset() == b.returns[j].lines.to_multiset(),
        validate::has_line(a, i, line),
    ensures
        validate::has_line(b, j, line),
{
    let (from, to) = (a.returns[i].lines, b.returns[j].lines);
    let k = choose|k: int|
        0 <= k < a.returns[i].lines.len() && (#[trigger] a.returns[i].lines[k]).line_id == line;
    lemma_members_of(from, to, from[k]);
    assert(from.contains(from[k]));
    let l = choose|l: int| 0 <= l < to.len() && to[l] == from[k];
    assert(b.returns[j].lines[l].line_id == line);
}

/// What is wrong with no event of one snapshot is wrong with none of the other.
proof fn lemma_event_stays_faultless(a: SnapshotView, b: SnapshotView, event: EventView)
    requires
        rearranged(a, b),
        validate::faultless(a),
        validate::event_fault(a, event) is None,
    ensures
        validate::event_fault(b, event) is None,
{
    lemma_counterparts(a, b);
    let x = choose|x: int|
        0 <= x < a.returns.len() && (#[trigger] a.returns[x]).return_id == event.owner();
    assert(has_counterpart(b.returns, a.returns[x]));
    let y = choose|y: int|
        0 <= y < b.returns.len() && same_terms(#[trigger] b.returns[y], a.returns[x]);
    assert(b.returns[y].return_id == event.owner());
    if let EventView::PaymentResult { return_id, line_id, .. } = event {
        let i = choose|i: int| 0 <= i < a.returns.len() && #[trigger] validate::has_line(a, i, line_id);
        assert(a.returns[i].return_id == return_id);
        assert(has_counterpart(b.returns, a.returns[i]));
        let j = choose|j: int|
            0 <= j < b.returns.len() && same_terms(#[trigger] b.returns[j], a.returns[i]);
        lemma_line_carries(a, i, b, j, line_id);
        assert(validate::has_line(b, j, line_id));
        let k = choose|k: int| 0 <= k < b.returns.len() && #[trigger] validate::has_line(b, k, line_id);
        assert(has_counterpart(a.returns, b.returns[k]));
        let l = choose|l: int|
            0 <= l < a.returns.len() && same_terms(#[trigger] a.returns[l], b.returns[k]);
        lemma_line_carries(b, k, a, l, line_id);
        assert(validate::has_line(a, i, line_id) && validate::has_line(a, l, line_id));
        assert(i == l);
    }
}

/// Events in another order speak of the same parcels.
proof fn lemma_crowd_carries(a: Seq<EventView>, b: Seq<EventView>, id: Seq<char>)
    requires
        a.to_multiset() == b.to_multiset(),
        validate::crowded(b, id),
    ensures
        validate::crowded(a, id),
{
    let parcels = choose|parcels: Seq<Seq<char>>| #[trigger] validate::five_parcels(b, id, parcels);
    assert forall|p: int| 0 <= p < parcels.len() implies validate::names_parcel(
        a,
        id,
        #[trigger] parcels[p],
    ) by {
        assert(validate::names_parcel(b, id, parcels[p]));
        let j = choose|j: int|
            0 <= j < b.len() && (#[trigger] b[j]).owner() == id && validate::parcel_of(b[j]) == Some(
                parcels[p],
            );
        lemma_members_of(a, b, b[j]);
        assert(b.contains(b[j]));
        let i = choose|i: int| 0 <= i < a.len() && a[i] == b[j];
        assert(a[i].owner() == id);
    }
    assert(validate::five_parcels(a, id, parcels));
}

/// A snapshot that is not refused is not refused in any other order either.
#[verifier::spinoff_prover]
#[verifier::rlimit(40)]
pub proof fn rearranged_snapshot_is_valid(a: SnapshotView, b: SnapshotView)
    requires
        rearranged(a, b),
        validate::snapshot_error(a) is None,
    ensures
        validate::snapshot_error(b) is None,
{
    validate::lemma_faultless(a);
    validate::lemma_faultless(b);
    let moved = choose|moved: Seq<AuthView>| #[trigger] reordered(a.returns, moved, b.returns);
    let key = |authorization: AuthView| authorization.return_id;
    assert forall|i: int, j: int| 0 <= i < j < a.returns.len() implies key(
        #[trigger] a.returns[i],
    ) != key(#[trigger] a.returns[j]) by {}
    lemma_told_apart(a.returns, moved, key);
    assert forall|j: int| 0 <= j < b.returns.len() implies validate::faultless_return(
        #[trigger] b.returns[j],
    ) by {
        let x = lemma_place_moved(a.returns, moved, j);
        assert(same_terms(moved[j], b.returns[j]));
        assert(validate::faultless_return(a.returns[x]));
        lemma_faultless_terms(moved[j], b.returns[j]);
    }
    assert forall|i: int, j: int| 0 <= i < j < b.returns.len() implies (
    #[trigger] b.returns[i]).return_id != (#[trigger] b.returns[j]).return_id by {
        assert(same_terms(moved[i], b.returns[i]) && same_terms(moved[j], b.returns[j]));
        assert(key(moved[i]) != key(moved[j]));
    }
    assert forall|i: int, j: int, line: Seq<char>|
        0 <= i < j < b.returns.len() && #[trigger] validate::has_line(
            b,
            i,
            line,
        ) implies !#[trigger] validate::has_line(b, j, line) by {
        if validate::has_line(b, j, line) {
            let x = lemma_place_moved(a.returns, moved, i);
            let y = lemma_place_moved(a.returns, moved, j);
            assert(same_terms(moved[i], b.returns[i]) && same_terms(moved[j], b.returns[j]));
            lemma_line_carries(b, i, a, x, line);
            lemma_line_carries(b, j, a, y, line);
            assert(validate::has_line(a, x, line) && validate::has_line(a, y, line));
            assert(moved[i] != moved[j]);
            assert(x != y);
        }
    }
    assert forall|j: int| 0 <= j < b.events.len() implies validate::event_fault(
        b,
        #[trigger] b.events[j],
    ) is None by {
        lemma_members_of(a.events, b.events, b.events[j]);
        assert(b.events.contains(b.events[j]));
        let i = choose|i: int| 0 <= i < a.events.len() && a.events[i] == b.events[j];
        assert(validate::event_fault(a, a.events[i]) is None);
        lemma_event_stays_faultless(a, b, b.events[j]);
    }
    assert forall|id: Seq<char>| !#[trigger] validate::crowded(b.events, id) by {
        if validate::crowded(b.events, id) {
            lemma_crowd_carries(a.events, b.events, id);
        }
    }
}

proof fn lemma_place_moved(before: Seq<AuthView>, moved: Seq<AuthView>, j: int) -> (x: int)
    requires
        before.to_multiset() == moved.to_multiset(),
        0 <= j < moved.len(),
    ensures
        0 <= x < before.len(),
        before[x] == moved[j],
{
    lemma_members_of(before, moved, moved[j]);
    assert(moved.contains(moved[j]));
    choose|x: int| 0 <= x < before.len() && before[x] == moved[j]
}

pub proof fn lemma_members_of<T>(a: Seq<T>, b: Seq<T>, item: T)
    requires
        a.to_multiset() == b.to_multiset(),
    ensures
        a.contains(item) == b.contains(item),
{
    a.to_multiset_ensures();
    b.to_multiset_ensures();
    assert(a.contains(item) <==> a.to_multiset().count(item) > 0);
    assert(b.contains(item) <==> b.to_multiset().count(item) > 0);
}

/// Lines in another order are the same lines in identity order.
proof fn lemma_same_ordered_lines(a: Seq<LineView>, b: Seq<LineView>)
    requires
        a.to_multiset() == b.to_multiset(),
        forall|i: int, j: int|
            0 <= i < j < a.len() ==> (#[trigger] a[i]).line_id != (#[trigger] a[j]).line_id,
        forall|i: int, j: int|
            0 <= i < j < b.len() ==> (#[trigger] b[i]).line_id != (#[trigger] b[j]).line_id,
    ensures
        model::ordered_lines(a) == model::ordered_lines(b),
        model::prior_total(a) == model::prior_total(b),
{
    assert forall|line: LineView| #[trigger] a.contains(line) == b.contains(line) by {
        lemma_members_of(a, b, line);
    }
    let (sa, sb) = (model::line_ids(a), model::line_ids(b));
    assert forall|id: Seq<char>| #[trigger] sa.contains(id) == sb.contains(id) by {
        if sa.contains(id) {
            let i = choose|i: int| 0 <= i < a.len() && (#[trigger] a[i]).line_id == id;
            assert(a.contains(a[i]));
            assert(b.contains(a[i]));
            let j = choose|j: int| 0 <= j < b.len() && b[j] == a[i];
            assert(b[j].line_id == id);
        }
        if sb.contains(id) {
            let j = choose|j: int| 0 <= j < b.len() && (#[trigger] b[j]).line_id == id;
            assert(b.contains(b[j]));
            assert(a.contains(b[j]));
            let i = choose|i: int| 0 <= i < a.len() && a[i] == b[j];
            assert(a[i].line_id == id);
        }
    }
    assert(sa =~= sb);
    lemma_ordered_lines(a);
    let ids = text::in_order(sa);
    let (oa, ob) = (model::ordered_lines(a), model::ordered_lines(b));
    assert forall|k: int| 0 <= k < ids.len() implies oa[k] == ob[k] by {
        assert(a.contains(oa[k]) && oa[k].line_id == ids[k]);
        assert(b.contains(oa[k]));
        let j = choose|j: int| 0 <= j < b.len() && b[j] == oa[k];
        settle::lemma_line_with(b, j);
    }
    assert(oa =~= ob);
    seqs::lemma_sum_rearranged(a, b, |line: LineView| line.prior_successful_refund_cents as nat);
}

proof fn lemma_same_plan(events: Seq<EventView>, a: AuthView, b: AuthView)
    requires
        same_terms(a, b),
        settle::sound(a),
        settle::sound(b),
    ensures
        model::plan_of(events, a) == model::plan_of(events, b),
{
    lemma_same_ordered_lines(a.lines, b.lines);
    let terms = model::terms_of(events, a.return_id);
    assert(model::opening_stock(terms, a) == model::opening_stock(terms, b));
}

proof fn lemma_same_accounting(a: Seq<EventView>, b: Seq<EventView>)
    requires
        a.to_multiset() == b.to_multiset(),
    ensures
        model::accounting_of(a) == model::accounting_of(b),
        a.len() == b.len(),
        same_members(a, b),
{
    a.to_multiset_ensures();
    b.to_multiset_ensures();
    assert forall|event: EventView| #[trigger] a.contains(event) == b.contains(event) by {
        lemma_members_of(a, b, event);
    }
    lemma_conflicts_carry(a, b);
    lemma_conflicts_carry(b, a);
    let (sa, sb) = (model::event_ids(a), model::event_ids(b));
    assert forall|id: Seq<char>| #[trigger] sa.contains(id) == sb.contains(id) by {
        if sa.contains(id) {
            let i = choose|i: int| 0 <= i < a.len() && (#[trigger] a[i]).id() == id;
            assert(a.contains(a[i]));
            assert(b.contains(a[i]));
            let j = choose|j: int| 0 <= j < b.len() && b[j] == a[i];
            assert(b[j].id() == id);
        }
        if sb.contains(id) {
            let j = choose|j: int| 0 <= j < b.len() && (#[trigger] b[j]).id() == id;
            assert(b.contains(b[j]));
            assert(a.contains(b[j]));
            let i = choose|i: int| 0 <= i < a.len() && a[i] == b[j];
            assert(a[i].id() == id);
        }
    }
    assert(sa =~= sb);
    let ids = text::in_order(sa);
    assert forall|k: int| 0 <= k < ids.len() implies model::accounting_of(a)[k]
        == model::accounting_of(b)[k] by {
        seqs::lemma_filter_len_rearranged(a, b, |event: EventView| event.id() == ids[k]);
        assert(model::conflicted(a, ids[k]) == model::conflicted(b, ids[k]));
    }
    assert(model::accounting_of(a) =~= model::accounting_of(b));
}

proof fn lemma_same_return_ids(a: SnapshotView, b: SnapshotView)
    requires
        rearranged(a, b),
    ensures
        model::return_ids(a.returns) == model::return_ids(b.returns),
        text::lists(
            text::in_order(model::return_ids(a.returns)),
            model::return_ids(a.returns),
        ),
{
    let (sa, sb) = (model::return_ids(a.returns), model::return_ids(b.returns));
    lemma_counterparts(a, b);
    assert forall|id: Seq<char>| #[trigger] sa.contains(id) == sb.contains(id) by {
        if sa.contains(id) {
            let i = choose|i: int| 0 <= i < a.returns.len() && (#[trigger] a.returns[i]).return_id == id;
            assert(has_counterpart(b.returns, a.returns[i]));
            let j = choose|j: int|
                0 <= j < b.returns.len() && same_terms(#[trigger] b.returns[j], a.returns[i]);
            assert(b.returns[j].return_id == id);
        }
        if sb.contains(id) {
            let j = choose|j: int| 0 <= j < b.returns.len() && (#[trigger] b.returns[j]).return_id == id;
            assert(has_counterpart(a.returns, b.returns[j]));
            let i = choose|i: int|
                0 <= i < a.returns.len() && same_terms(#[trigger] a.returns[i], b.returns[j]);
            assert(a.returns[i].return_id == id);
        }
    }
    assert(sa =~= sb);
    let names = a.returns.map_values(|authorization: AuthView| authorization.return_id);
    assert forall|id: Seq<char>| sa.contains(id) implies names.to_set().contains(id) by {
        let i = choose|i: int| 0 <= i < a.returns.len() && (#[trigger] a.returns[i]).return_id == id;
        assert(names[i] == id);
    }
    vstd::seq_lib::seq_to_set_is_finite(names);
    vstd::set_lib::lemma_set_subset_finite(names.to_set(), sa);
    text::lemma_listed(sa);
}

proof fn lemma_same_plan_for(a: SnapshotView, b: SnapshotView, id: Seq<char>)
    requires
        rearranged(a, b),
        validate::interpretable(a),
        validate::interpretable(b),
        same_members(a.events, b.events),
        model::return_ids(a.returns).contains(id),
    ensures
        model::plan_of(a.events, model::return_with(a.returns, id)) == model::plan_of(
            b.events,
            model::return_with(b.returns, id),
        ),
{
    let i = choose|i: int| 0 <= i < a.returns.len() && (#[trigger] a.returns[i]).return_id == id;
    lemma_counterparts(a, b);
    assert(has_counterpart(b.returns, a.returns[i]));
    let j = choose|j: int|
        0 <= j < b.returns.len() && same_terms(#[trigger] b.returns[j], a.returns[i]);
    reconcile::lemma_return_with(a, i);
    reconcile::lemma_return_with(b, j);
    assert(settle::sound(a.returns[i]) && settle::sound(b.returns[j]));
    plan_reads_members(a.events, b.events, a.returns[i]);
    lemma_same_plan(b.events, a.returns[i], b.returns[j]);
}

/// A snapshot that is not refused is not refused in any other order of its
/// events, returns and lines either, and gives the same report.
pub proof fn input_order_is_irrelevant(a: SnapshotView, b: SnapshotView)
    requires
        rearranged(a, b),
        validate::snapshot_error(a) is None,
    ensures
        validate::snapshot_error(b) is None,
        model::report_of(a) == model::report_of(b),
        reconcile::outcome(a) == reconcile::outcome(b),
{
    rearranged_snapshot_is_valid(a, b);
    assert(validate::interpretable(a) && validate::interpretable(b)) by {
        validate::lemma_interpretable(a);
        validate::lemma_interpretable(b);
    }
    lemma_same_accounting(a.events, b.events);
    lemma_same_plans(a, b);
    lemma_report_assembled(a, b);
    lemma_unnamed_carries(a.events, b.events);
    lemma_unnamed_carries(b.events, a.events);
}

/// Events in another order are named where they were.
proof fn lemma_unnamed_carries(a: Seq<EventView>, b: Seq<EventView>)
    requires
        same_members(a, b),
    ensures
        (exists|i: int| 0 <= i < a.len() && (#[trigger] a[i]).id().len() == 0) ==> exists|j: int|
            0 <= j < b.len() && (#[trigger] b[j]).id().len() == 0,
{
    if exists|i: int| 0 <= i < a.len() && (#[trigger] a[i]).id().len() == 0 {
        let i = choose|i: int| 0 <= i < a.len() && (#[trigger] a[i]).id().len() == 0;
        assert(a.contains(a[i]));
        assert(b.contains(a[i]));
        let j = choose|j: int| 0 <= j < b.len() && b[j] == a[i];
        assert(b[j].id().len() == 0);
    }
}

proof fn lemma_same_plans(a: SnapshotView, b: SnapshotView)
    requires
        rearranged(a, b),
        validate::interpretable(a),
        validate::interpretable(b),
        same_members(a.events, b.events),
    ensures
        model::plans_of(a) == model::plans_of(b),
{
    lemma_same_return_ids(a, b);
    let ids = text::in_order(model::return_ids(a.returns));
    let (pa, pb) = (model::plans_of(a), model::plans_of(b));
    assert forall|k: int| 0 <= k < ids.len() implies pa[k] == pb[k] by {
        assert(ids.contains(ids[k]));
        lemma_same_plan_for(a, b, ids[k]);
    }
    assert(pa =~= pb);
}

proof fn lemma_report_assembled(a: SnapshotView, b: SnapshotView)
    requires
        a.snapshot_id == b.snapshot_id,
        a.events.len() == b.events.len(),
        model::accounting_of(a.events) == model::accounting_of(b.events),
        model::plans_of(a) == model::plans_of(b),
    ensures
        model::report_of(a) == model::report_of(b),
{
}

/// What scans give to lines, and what is left of them, after some lines.
proof fn lemma_stock_shrinks(terms: Terms, start: Stock, lines: Seq<LineView>, n: nat)
    requires
        n <= lines.len(),
        start.remaining.len() == terms.scans.len(),
    ensures
        model::stock_at(terms, start, lines, n).remaining.len() == terms.scans.len(),
        seqs::sum(model::stock_at(terms, start, lines, n).remaining) + seqs::sum(
            Seq::new(n, |k: int| model::proposal_at(terms, start, lines, k).accepted_scan_quantity),
        ) == seqs::sum(start.remaining),
        forall|i: int|
            0 <= i < terms.scans.len() && !model::has_sku(lines, (#[trigger] terms.scans[i]).sku)
                ==> model::stock_at(terms, start, lines, n).remaining[i] == start.remaining[i],
    decreases n,
{
    let taken = Seq::new(n, |k: int| model::proposal_at(terms, start, lines, k).accepted_scan_quantity);
    if n == 0 {
        assert(taken =~= Seq::empty());
    } else {
        lemma_stock_shrinks(terms, start, lines, (n - 1) as nat);
        let before = model::stock_at(terms, start, lines, (n - 1) as nat);
        let after = model::stock_at(terms, start, lines, n);
        let line = lines[n - 1];
        let given = model::given_to(terms, before, line);
        lemma_allotted_within(
            terms.scans,
            before.remaining,
            line.sku,
            line.authorized_qty as nat,
            terms.scans.len(),
        );
        seqs::lemma_sum_parts(after.remaining, given, before.remaining);
        let earlier = Seq::new(
            (n - 1) as nat,
            |k: int| model::proposal_at(terms, start, lines, k).accepted_scan_quantity,
        );
        assert(taken =~= earlier.push(seqs::sum(given)));
        seqs::lemma_sum_push(earlier, seqs::sum(given));
        assert forall|i: int|
            0 <= i < terms.scans.len() && !model::has_sku(
                lines,
                (#[trigger] terms.scans[i]).sku,
            ) implies after.remaining[i] == start.remaining[i] by {
            assert(lines[n - 1].sku != terms.scans[i].sku);
            assert(given[i] == 0);
        }
    }
}

/// A scan gives a line no more than it has, and only of the line's own units.
proof fn lemma_allotted_within(
    scans: Seq<ScanView>,
    remaining: Seq<nat>,
    sku: Seq<char>,
    want: nat,
    n: nat,
)
    requires
        n <= scans.len() == remaining.len(),
    ensures
        model::allotted(scans, remaining, sku, want, n).len() == n,
        seqs::sum(model::allotted(scans, remaining, sku, want, n)) <= want,
        forall|i: int|
            0 <= i < n ==> (#[trigger] model::allotted(scans, remaining, sku, want, n)[i])
                <= remaining[i],
        forall|i: int|
            0 <= i < n && scans[i].sku != sku ==> (#[trigger] model::allotted(
                scans,
                remaining,
                sku,
                want,
                n,
            )[i]) == 0,
    decreases n,
{
    if n > 0 {
        lemma_allotted_within(scans, remaining, sku, want, (n - 1) as nat);
        let before = model::allotted(scans, remaining, sku, want, (n - 1) as nat);
        let all = model::allotted(scans, remaining, sku, want, n);
        seqs::lemma_sum_push(before, all[n - 1]);
        assert forall|i: int| 0 <= i < n implies (#[trigger] all[i]) <= remaining[i] && (scans[i].sku
            != sku ==> all[i] == 0) by {
            if i < n - 1 {
                assert(all[i] == before[i]);
            }
        }
    }
}

/// One of the first `n` lines is the last of a SKU.
pub open spec fn is_settled(lines: Seq<LineView>, sku: Seq<char>, n: int) -> bool {
    exists|k: int| 0 <= k < n && (#[trigger] lines[k]).sku == sku && model::last_of_sku(lines, k)
}

/// What is left of the scans whose SKU has been settled.
pub open spec fn settled_share(
    scans: Seq<ScanView>,
    remaining: Seq<nat>,
    lines: Seq<LineView>,
    n: int,
) -> Seq<nat> {
    Seq::new(
        scans.len(),
        |i: int|
            if is_settled(lines, scans[i].sku, n) {
                remaining[i]
            } else {
                0
            },
    )
}

/// What is charged to one of the lines.
pub open spec fn charge(
    scans: Seq<ScanView>,
    remaining: Seq<nat>,
    lines: Seq<LineView>,
    k: int,
) -> nat {
    if model::last_of_sku(lines, k) {
        model::left_over(scans, remaining, lines[k].sku)
    } else {
        0
    }
}

proof fn lemma_charged(
    scans: Seq<ScanView>,
    remaining: Seq<nat>,
    lines: Seq<LineView>,
    n: nat,
)
    requires
        n <= lines.len(),
        scans.len() == remaining.len(),
    ensures
        seqs::sum(Seq::new(n, |k: int| charge(scans, remaining, lines, k))) == seqs::sum(
            settled_share(scans, remaining, lines, n as int),
        ),
    decreases n,
{
    let charges = Seq::new(n, |k: int| charge(scans, remaining, lines, k));
    let share = settled_share(scans, remaining, lines, n as int);
    if n == 0 {
        assert(charges =~= Seq::empty());
        assert(share =~= Seq::new(scans.len(), |i: int| 0nat));
        seqs::lemma_sum_zeros(scans.len());
    } else {
        lemma_charged(scans, remaining, lines, (n - 1) as nat);
        let earlier = Seq::new((n - 1) as nat, |k: int| charge(scans, remaining, lines, k));
        let before = settled_share(scans, remaining, lines, n - 1);
        assert(charges =~= earlier.push(charge(scans, remaining, lines, n - 1)));
        seqs::lemma_sum_push(earlier, charge(scans, remaining, lines, n - 1));
        let sku = lines[n - 1].sku;
        let last = model::last_of_sku(lines, n - 1);
        let added = Seq::new(
            scans.len(),
            |i: int|
                if last && scans[i].sku == sku {
                    remaining[i]
                } else {
                    0nat
                },
        );
        assert forall|i: int| 0 <= i < scans.len() implies #[trigger] before[i] + added[i]
            == share[i] by {
            let own = scans[i].sku;
            if is_settled(lines, own, n - 1) {
                let k = choose|k: int|
                    0 <= k < n - 1 && (#[trigger] lines[k]).sku == own && model::last_of_sku(lines, k);
                assert(is_settled(lines, own, n as int));
                assert(lines[n - 1].sku != lines[k].sku);
            } else if last && own == sku {
                assert(lines[n - 1].sku == own);
                assert(is_settled(lines, own, n as int));
            } else if is_settled(lines, own, n as int) {
                let k = choose|k: int|
                    0 <= k < n && (#[trigger] lines[k]).sku == own && model::last_of_sku(lines, k);
                assert(k < n - 1);
            }
        }
        seqs::lemma_sum_parts(before, added, share);
        if last {
            assert(added =~= Seq::new(
                scans.len(),
                |i: int|
                    if scans[i].sku == sku {
                        remaining[i]
                    } else {
                        0
                    },
            ));
        } else {
            assert(added =~= Seq::new(scans.len(), |i: int| 0nat));
            seqs::lemma_sum_zeros(scans.len());
        }
    }
}

/// A SKU that lines name has a last line.
proof fn lemma_last_line(lines: Seq<LineView>, sku: Seq<char>, k: int)
    requires
        0 <= k < lines.len(),
        lines[k].sku == sku,
    ensures
        is_settled(lines, sku, lines.len() as int),
    decreases lines.len() - k,
{
    if model::last_of_sku(lines, k) {
        assert(lines[k].sku == sku);
    } else {
        let j = choose|j: int| k < j < lines.len() && (#[trigger] lines[j]).sku == lines[k].sku;
        lemma_last_line(lines, sku, j);
    }
}

/// Every scanned unit of a return is accounted for once: a line accepts it, it is
/// charged to a line for review, or no line names it.
pub proof fn units_are_conserved(events: Seq<EventView>, authorization: AuthView)
    ensures
        ({
            let plan = model::plan_of(events, authorization);
            seqs::sum(plan.lines.map_values(|line: LinePlanView| line.accepted_scan_quantity))
                + seqs::sum(plan.lines.map_values(|line: LinePlanView| line.review_scan_quantity))
                + plan.unmatched_scan_quantity == seqs::sum(
                model::scans_of(events, authorization.return_id).map_values(
                    |scan: ScanView| scan.quantity,
                ),
            )
        }),
{
    let plan = model::plan_of(events, authorization);
    let terms = model::terms_of(events, authorization.return_id);
    let start = model::opening_stock(terms, authorization);
    let lines = model::ordered_lines(authorization.lines);
    let scans = terms.scans;
    let settled = model::stock_at(terms, start, lines, lines.len()).remaining;
    lemma_stock_shrinks(terms, start, lines, lines.len());
    lemma_charged(scans, settled, lines, lines.len());
    let accepted = plan.lines.map_values(|line: LinePlanView| line.accepted_scan_quantity);
    let reviewed = plan.lines.map_values(|line: LinePlanView| line.review_scan_quantity);
    assert(accepted =~= Seq::new(
        lines.len(),
        |k: int| model::proposal_at(terms, start, lines, k).accepted_scan_quantity,
    ));
    assert(reviewed =~= Seq::new(lines.len(), |k: int| charge(scans, settled, lines, k)));
    let share = settled_share(scans, settled, lines, lines.len() as int);
    let unnamed = Seq::new(
        scans.len(),
        |i: int|
            if model::has_sku(lines, scans[i].sku) {
                0
            } else {
                scans[i].quantity
            },
    );
    assert forall|i: int| 0 <= i < scans.len() implies #[trigger] share[i] + unnamed[i]
        == settled[i] by {
        let sku = scans[i].sku;
        if model::has_sku(lines, sku) {
            let k = choose|k: int| 0 <= k < lines.len() && (#[trigger] lines[k]).sku == sku;
            lemma_last_line(lines, sku, k);
        } else {
            assert(settled[i] == start.remaining[i]);
            if is_settled(lines, sku, lines.len() as int) {
                let k = choose|k: int|
                    0 <= k < lines.len() && (#[trigger] lines[k]).sku == sku && model::last_of_sku(
                        lines,
                        k,
                    );
                assert(model::has_sku(lines, sku));
            }
        }
    }
    seqs::lemma_sum_parts(share, unnamed, settled);
    assert(start.remaining == scans.map_values(|scan: ScanView| scan.quantity));
}

/// The units that one line accepts, where it names the SKU.
spec fn accepted_of(
    terms: Terms,
    start: Stock,
    lines: Seq<LineView>,
    sku: Seq<char>,
    k: int,
) -> nat {
    if lines[k].sku == sku {
        model::proposal_at(terms, start, lines, k).accepted_scan_quantity
    } else {
        0
    }
}

/// The units that are charged to one line, where it names the SKU.
spec fn charged_of(
    scans: Seq<ScanView>,
    remaining: Seq<nat>,
    lines: Seq<LineView>,
    sku: Seq<char>,
    k: int,
) -> nat {
    if lines[k].sku == sku {
        charge(scans, remaining, lines, k)
    } else {
        0
    }
}

/// What is left of one SKU, scan by scan.
spec fn share_of(scans: Seq<ScanView>, remaining: Seq<nat>, sku: Seq<char>) -> Seq<nat> {
    Seq::new(
        scans.len(),
        |i: int|
            if scans[i].sku == sku {
                remaining[i]
            } else {
                0
            },
    )
}

/// What lines take of a SKU is what its scans lose.
proof fn lemma_sku_shrinks(terms: Terms, start: Stock, lines: Seq<LineView>, sku: Seq<char>, n: nat)
    requires
        n <= lines.len(),
        start.remaining.len() == terms.scans.len(),
    ensures
        model::left_over(
            terms.scans,
            model::stock_at(terms, start, lines, n).remaining,
            sku,
        ) + seqs::sum(Seq::new(n, |k: int| accepted_of(terms, start, lines, sku, k)))
            == model::left_over(terms.scans, start.remaining, sku),
    decreases n,
{
    let taken = Seq::new(n, |k: int| accepted_of(terms, start, lines, sku, k));
    if n == 0 {
        assert(taken =~= Seq::empty());
    } else {
        lemma_sku_shrinks(terms, start, lines, sku, (n - 1) as nat);
        lemma_stock_shrinks(terms, start, lines, (n - 1) as nat);
        let before = model::stock_at(terms, start, lines, (n - 1) as nat);
        let after = model::stock_at(terms, start, lines, n);
        let line = lines[n - 1];
        let given = model::given_to(terms, before, line);
        lemma_allotted_within(
            terms.scans,
            before.remaining,
            line.sku,
            line.authorized_qty as nat,
            terms.scans.len(),
        );
        let earlier = Seq::new(
            (n - 1) as nat,
            |k: int| accepted_of(terms, start, lines, sku, k),
        );
        assert(taken =~= earlier.push(accepted_of(terms, start, lines, sku, n - 1)));
        seqs::lemma_sum_push(earlier, accepted_of(terms, start, lines, sku, n - 1));
        let (was, is) = (
            share_of(terms.scans, before.remaining, sku),
            share_of(terms.scans, after.remaining, sku),
        );
        if line.sku == sku {
            assert forall|i: int| 0 <= i < terms.scans.len() implies #[trigger] is[i] + given[i]
                == was[i] by {
                assert(after.remaining[i] + given[i] == before.remaining[i]);
            }
            seqs::lemma_sum_parts(is, given, was);
        } else {
            assert forall|i: int| 0 <= i < terms.scans.len() implies is[i] == was[i] by {
                if terms.scans[i].sku == sku {
                    assert(given[i] == 0);
                }
            }
            assert(is =~= was);
        }
    }
}

/// What is left of a SKU is charged once, to the last line that names it.
proof fn lemma_sku_charged(
    scans: Seq<ScanView>,
    remaining: Seq<nat>,
    lines: Seq<LineView>,
    sku: Seq<char>,
    n: nat,
)
    requires
        n <= lines.len(),
    ensures
        seqs::sum(Seq::new(n, |k: int| charged_of(scans, remaining, lines, sku, k))) == (
        if is_settled(lines, sku, n as int) {
            model::left_over(scans, remaining, sku)
        } else {
            0
        }),
    decreases n,
{
    let charges = Seq::new(n, |k: int| charged_of(scans, remaining, lines, sku, k));
    if n == 0 {
        assert(charges =~= Seq::empty());
    } else {
        lemma_sku_charged(scans, remaining, lines, sku, (n - 1) as nat);
        let earlier = Seq::new((n - 1) as nat, |k: int| charged_of(scans, remaining, lines, sku, k));
        assert(charges =~= earlier.push(charged_of(scans, remaining, lines, sku, n - 1)));
        seqs::lemma_sum_push(earlier, charged_of(scans, remaining, lines, sku, n - 1));
        if is_settled(lines, sku, n - 1) {
            let k = choose|k: int|
                0 <= k < n - 1 && (#[trigger] lines[k]).sku == sku && model::last_of_sku(lines, k);
            assert(lines[n - 1].sku != lines[k].sku);
            assert(is_settled(lines, sku, n as int));
        } else if lines[n - 1].sku == sku && model::last_of_sku(lines, n - 1) {
            assert(is_settled(lines, sku, n as int));
        } else if is_settled(lines, sku, n as int) {
            let k = choose|k: int|
                0 <= k < n && (#[trigger] lines[k]).sku == sku && model::last_of_sku(lines, k);
            assert(k < n - 1);
        }
    }
}

/// Every scanned unit of a SKU that a line names is accounted for once, and by
/// lines of that SKU alone: one accepts it, or it is charged to one for review.
pub proof fn units_are_conserved_by_sku(
    events: Seq<EventView>,
    authorization: AuthView,
    sku: Seq<char>,
)
    requires
        model::has_sku(model::ordered_lines(authorization.lines), sku),
    ensures
        ({
            let plan = model::plan_of(events, authorization);
            let lines = model::ordered_lines(authorization.lines);
            let scans = model::scans_of(events, authorization.return_id);
            &&& plan.lines.len() == lines.len()
            &&& seqs::sum(
                Seq::new(
                    lines.len(),
                    |k: int|
                        if lines[k].sku == sku {
                            plan.lines[k].accepted_scan_quantity
                                + plan.lines[k].review_scan_quantity
                        } else {
                            0
                        },
                ),
            ) == seqs::sum(
                Seq::new(
                    scans.len(),
                    |i: int|
                        if scans[i].sku == sku {
                            scans[i].quantity
                        } else {
                            0
                        },
                ),
            )
        }),
{
    let plan = model::plan_of(events, authorization);
    let terms = model::terms_of(events, authorization.return_id);
    let start = model::opening_stock(terms, authorization);
    let lines = model::ordered_lines(authorization.lines);
    let scans = terms.scans;
    let settled = model::stock_at(terms, start, lines, lines.len()).remaining;
    lemma_sku_shrinks(terms, start, lines, sku, lines.len());
    lemma_sku_charged(scans, settled, lines, sku, lines.len());
    let first = choose|k: int| 0 <= k < lines.len() && (#[trigger] lines[k]).sku == sku;
    lemma_last_line(lines, sku, first);
    let accepted = Seq::new(lines.len(), |k: int| accepted_of(terms, start, lines, sku, k));
    let charged = Seq::new(lines.len(), |k: int| charged_of(scans, settled, lines, sku, k));
    let both = Seq::new(
        lines.len(),
        |k: int|
            if lines[k].sku == sku {
                plan.lines[k].accepted_scan_quantity + plan.lines[k].review_scan_quantity
            } else {
                0
            },
    );
    assert forall|k: int| 0 <= k < lines.len() implies #[trigger] accepted[k] + charged[k]
        == both[k] by {}
    seqs::lemma_sum_parts(accepted, charged, both);
    assert(share_of(scans, start.remaining, sku) =~= Seq::new(
        scans.len(),
        |i: int|
            if scans[i].sku == sku {
                scans[i].quantity
            } else {
                0
            },
    ));
}

} // verus!
