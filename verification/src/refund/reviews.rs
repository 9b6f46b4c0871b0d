//! Why a return goes to review, and what a report adds up.

use vstd::prelude::*;
use crate::refund::entitlement;
use crate::refund::laws;
use crate::refund::model;
use crate::refund::model::{
    AuthView, EventView, Flags, LinePlanView, LineView, PaymentBlock, PlanView, SnapshotView,
};
use crate::refund::settle;
use crate::seqs;

verus! {

/// The codes are told apart by their lengths and first letters.
proof fn lemma_codes()
    ensures
        "conflicting_event_id"@.len() == 20 && "conflicting_event_id"@[0] == 'c',
        "correction_return_mismatch"@.len() == 26 && "correction_return_mismatch"@[0] == 'c',
        "excess_quantity"@.len() == 15,
        "insufficient_whole_unit_capacity"@.len() == 32,
        "non_later_correction"@.len() == 20 && "non_later_correction"@[0] == 'n',
        "orphan_correction"@.len() == 17,
        "payment_already_successful"@.len() == 26 && "payment_already_successful"@[0] == 'p',
        "payment_amount_conflict"@.len() == 23,
        "payment_inconclusive"@.len() == 20 && "payment_inconclusive"@[0] == 'p',
        "unauthorized_sku"@.len() == 16,
{
    reveal_strlit("conflicting_event_id");
    reveal_strlit("correction_return_mismatch");
    reveal_strlit("excess_quantity");
    reveal_strlit("insufficient_whole_unit_capacity");
    reveal_strlit("non_later_correction");
    reveal_strlit("orphan_correction");
    reveal_strlit("payment_already_successful");
    reveal_strlit("payment_amount_conflict");
    reveal_strlit("payment_inconclusive");
    reveal_strlit("unauthorized_sku");
}

proof fn lemma_push_if(codes: Seq<Seq<char>>, raised: bool, code: Seq<char>, wanted: Seq<char>)
    ensures
        model::push_if(codes, raised, code).contains(wanted) <==> codes.contains(wanted) || (raised
            && code == wanted),
{
    let more = codes.push(code);
    if codes.contains(wanted) {
        let i = choose|i: int| 0 <= i < codes.len() && codes[i] == wanted;
        assert(more[i] == wanted);
    }
    if more.contains(wanted) {
        let i = choose|i: int| 0 <= i < more.len() && more[i] == wanted;
        if i < codes.len() {
            assert(codes[i] == wanted);
        }
    }
    assert(more[codes.len() as int] == code);
}

/// A code is reported exactly if it is raised.
proof fn lemma_raised(flags: Flags, wanted: Seq<char>)
    ensures
        model::codes_of(flags).contains(wanted) <==> {
            ||| flags.conflicting_event_id && wanted == "conflicting_event_id"@
            ||| flags.correction_return_mismatch && wanted == "correction_return_mismatch"@
            ||| flags.excess_quantity && wanted == "excess_quantity"@
            ||| flags.insufficient_whole_unit_capacity && wanted
                == "insufficient_whole_unit_capacity"@
            ||| flags.non_later_correction && wanted == "non_later_correction"@
            ||| flags.orphan_correction && wanted == "orphan_correction"@
            ||| flags.payment_already_successful && wanted == "payment_already_successful"@
            ||| flags.payment_amount_conflict && wanted == "payment_amount_conflict"@
            ||| flags.payment_inconclusive && wanted == "payment_inconclusive"@
            ||| flags.unauthorized_sku && wanted == "unauthorized_sku"@
        },
{
    let c0 = Seq::<Seq<char>>::empty();
    let c1 = model::push_if(c0, flags.conflicting_event_id, "conflicting_event_id"@);
    let c2 = model::push_if(c1, flags.correction_return_mismatch, "correction_return_mismatch"@);
    let c3 = model::push_if(c2, flags.excess_quantity, "excess_quantity"@);
    let c4 = model::push_if(
        c3,
        flags.insufficient_whole_unit_capacity,
        "insufficient_whole_unit_capacity"@,
    );
    let c5 = model::push_if(c4, flags.non_later_correction, "non_later_correction"@);
    let c6 = model::push_if(c5, flags.orphan_correction, "orphan_correction"@);
    let c7 = model::push_if(c6, flags.payment_already_successful, "payment_already_successful"@);
    let c8 = model::push_if(c7, flags.payment_amount_conflict, "payment_amount_conflict"@);
    let c9 = model::push_if(c8, flags.payment_inconclusive, "payment_inconclusive"@);
    lemma_push_if(c0, flags.conflicting_event_id, "conflicting_event_id"@, wanted);
    lemma_push_if(c1, flags.correction_return_mismatch, "correction_return_mismatch"@, wanted);
    lemma_push_if(c2, flags.excess_quantity, "excess_quantity"@, wanted);
    lemma_push_if(
        c3,
        flags.insufficient_whole_unit_capacity,
        "insufficient_whole_unit_capacity"@,
        wanted,
    );
    lemma_push_if(c4, flags.non_later_correction, "non_later_correction"@, wanted);
    lemma_push_if(c5, flags.orphan_correction, "orphan_correction"@, wanted);
    lemma_push_if(c6, flags.payment_already_successful, "payment_already_successful"@, wanted);
    lemma_push_if(c7, flags.payment_amount_conflict, "payment_amount_conflict"@, wanted);
    lemma_push_if(c8, flags.payment_inconclusive, "payment_inconclusive"@, wanted);
    lemma_push_if(c9, flags.unauthorized_sku, "unauthorized_sku"@, wanted);
}

proof fn lemma_plan_codes(events: Seq<EventView>, authorization: AuthView)
    ensures
        model::plan_of(events, authorization).review_codes == model::codes_of(
            model::flags_of(events, authorization),
        ),
{
}

/// A return goes to review exactly if something is to be reviewed; otherwise a refund is
/// proposed exactly if some line gets cents.
pub proof fn reviewed_returns_have_reasons(events: Seq<EventView>, authorization: AuthView)
    ensures
        ({
            let plan = model::plan_of(events, authorization);
            plan.disposition == if plan.review_codes.len() > 0 {
                "review"@
            } else if exists|k: int|
                0 <= k < plan.lines.len() && (#[trigger] plan.lines[k]).proposed_cents > 0 {
                "proposed"@
            } else {
                "no_refund"@
            }
        }),
{
    let plan = model::plan_of(events, authorization);
    let terms = model::terms_of(events, authorization.return_id);
    let start = model::opening_stock(terms, authorization);
    let lines = model::ordered_lines(authorization.lines);
    let plans = Seq::new(lines.len(), |k: int| model::line_plan_at(terms, start, lines, k));
    assert(plan.lines == plans);
    if exists|k: int| 0 <= k < plans.len() && (#[trigger] plans[k]).proposed_cents > 0 {
        let k = choose|k: int| 0 <= k < plans.len() && (#[trigger] plans[k]).proposed_cents > 0;
        assert(plan.lines[k].proposed_cents > 0);
    }
}

/// One identity of a return was given to two different events.
pub open spec fn has_dispute(events: Seq<EventView>, owner: Seq<char>) -> bool {
    exists|i: int|
        0 <= i < events.len() && (#[trigger] events[i]).owner() == owner
            && !entitlement::undisputed(events, events[i])
}

/// An undisputed correction of a return.
pub open spec fn is_correction(events: Seq<EventView>, event: EventView, owner: Seq<char>) -> bool {
    entitlement::undisputed(events, event) && (event matches EventView::Correction {
        return_id,
        ..
    } && return_id == owner)
}

/// The undisputed scan that a correction names.
pub open spec fn is_target(events: Seq<EventView>, scan: EventView, correction: EventView) -> bool {
    entitlement::undisputed(events, scan) && scan is WarehouseScan && scan.id()
        == correction->target_event_id
}

proof fn lemma_all_trusted(events: Seq<EventView>)
    ensures
        forall|event: EventView| #[trigger]
            model::trusted(events, event) <==> entitlement::undisputed(events, event),
{
    assert forall|event: EventView| #[trigger]
        model::trusted(events, event) <==> entitlement::undisputed(events, event) by {
        entitlement::lemma_undisputed(events, event);
    }
}

/// Disputed identities are a reason for review.
pub proof fn disputes_are_reviewed(events: Seq<EventView>, authorization: AuthView)
    ensures
        model::plan_of(events, authorization).review_codes.contains("conflicting_event_id"@)
            <==> has_dispute(events, authorization.return_id),
{
    let owner = authorization.return_id;
    let flags = model::flags_of(events, authorization);
    lemma_codes();
    lemma_plan_codes(events, authorization);
    lemma_raised(flags, "conflicting_event_id"@);
    lemma_dispute(events, owner);
}

proof fn lemma_disputed(events: Seq<EventView>, i: int)
    requires
        0 <= i < events.len(),
    ensures
        model::conflicted(events, events[i].id()) <==> !entitlement::undisputed(events, events[i]),
{
    entitlement::lemma_undisputed(events, events[i]);
    assert(events.contains(events[i]));
}

proof fn lemma_dispute(events: Seq<EventView>, owner: Seq<char>)
    ensures
        model::conflict_touches(events, owner) <==> has_dispute(events, owner),
{
    if model::conflict_touches(events, owner) {
        let i = choose|i: int|
            0 <= i < events.len() && (#[trigger] events[i]).owner() == owner && model::conflicted(
                events,
                events[i].id(),
            );
        lemma_disputed(events, i);
    }
    if has_dispute(events, owner) {
        let i = choose|i: int|
            0 <= i < events.len() && (#[trigger] events[i]).owner() == owner
                && !entitlement::undisputed(events, events[i]);
        lemma_disputed(events, i);
    }
}

/// A correction is a reason for review if it names no scan, a scan of another return, or
/// a scan that it does not come after.
pub proof fn misplaced_corrections_are_reviewed(events: Seq<EventView>, authorization: AuthView)
    ensures
        ({
            let owner = authorization.return_id;
            let codes = model::plan_of(events, authorization).review_codes;
            &&& codes.contains("orphan_correction"@) <==> exists|c: EventView| #[trigger]
                is_correction(events, c, owner) && forall|scan: EventView|
                    !#[trigger] is_target(events, scan, c)
            &&& codes.contains("correction_return_mismatch"@) <==> exists|
                c: EventView,
                scan: EventView,
            | #[trigger]
                is_correction(events, c, owner) && #[trigger] is_target(events, scan, c)
                    && scan.owner() != owner
            &&& codes.contains("non_later_correction"@) <==> exists|c: EventView, scan: EventView|
                #[trigger]
                is_correction(events, c, owner) && #[trigger] is_target(events, scan, c)
                    && scan.owner() == owner && !entitlement::comes_after(c, scan)
        }),
{
    let owner = authorization.return_id;
    let flags = model::flags_of(events, authorization);
    lemma_codes();
    lemma_plan_codes(events, authorization);
    lemma_raised(flags, "orphan_correction"@);
    lemma_raised(flags, "correction_return_mismatch"@);
    lemma_raised(flags, "non_later_correction"@);
    lemma_all_trusted(events);
    assert forall|c: EventView| #[trigger] model::correction_of(events, c, owner) <==> is_correction(
        events,
        c,
        owner,
    ) by {}
    assert forall|c: EventView| is_correction(events, c, owner) implies (#[trigger] model::orphaned(
        events,
        c,
    ) <==> forall|scan: EventView| !#[trigger] is_target(events, scan, c)) by {
        if model::orphaned(events, c) {
            assert forall|scan: EventView| !#[trigger] is_target(events, scan, c) by {
                assert(model::trusted(events, scan) == entitlement::undisputed(events, scan));
            }
        } else {
            let scan = choose|scan: EventView| #[trigger]
                model::trusted(events, scan) && scan is WarehouseScan && scan.id()
                    == c->target_event_id;
            assert(is_target(events, scan, c));
        }
    }
    if flags.orphan_correction {
        let c = choose|c: EventView| #[trigger]
            model::correction_of(events, c, owner) && model::orphaned(events, c);
        assert(is_correction(events, c, owner));
    }
    if exists|c: EventView| #[trigger]
        is_correction(events, c, owner) && forall|scan: EventView|
            !#[trigger] is_target(events, scan, c) {
        let c = choose|c: EventView| #[trigger]
            is_correction(events, c, owner) && forall|scan: EventView|
                !#[trigger] is_target(events, scan, c);
        assert(model::correction_of(events, c, owner));
        assert(model::orphaned(events, c));
    }
    if flags.correction_return_mismatch {
        let c = choose|c: EventView| #[trigger]
            model::correction_of(events, c, owner) && model::misdirected(events, c);
        let scan = choose|scan: EventView| #[trigger]
            model::trusted(events, scan) && scan is WarehouseScan && scan.id()
                == c->target_event_id && scan.owner() != c.owner();
        assert(is_correction(events, c, owner) && is_target(events, scan, c));
    }
    if exists|c: EventView, scan: EventView| #[trigger]
        is_correction(events, c, owner) && #[trigger] is_target(events, scan, c) && scan.owner()
            != owner {
        let (c, scan) = choose|c: EventView, scan: EventView| #[trigger]
            is_correction(events, c, owner) && #[trigger] is_target(events, scan, c)
                && scan.owner() != owner;
        assert(model::trusted(events, scan));
        assert(model::correction_of(events, c, owner) && model::misdirected(events, c));
    }
    if flags.non_later_correction {
        let c = choose|c: EventView| #[trigger]
            model::correction_of(events, c, owner) && model::not_later(events, c);
        let scan = choose|scan: EventView| #[trigger]
            model::trusted(events, scan) && scan is WarehouseScan && scan.id()
                == c->target_event_id && scan.owner() == c.owner() && !model::happens_before(
                scan,
                c,
            );
        assert(is_correction(events, c, owner) && is_target(events, scan, c));
    }
    if exists|c: EventView, scan: EventView| #[trigger]
        is_correction(events, c, owner) && #[trigger] is_target(events, scan, c) && scan.owner()
            == owner && !entitlement::comes_after(c, scan) {
        let (c, scan) = choose|c: EventView, scan: EventView| #[trigger]
            is_correction(events, c, owner) && #[trigger] is_target(events, scan, c)
                && scan.owner() == owner && !entitlement::comes_after(c, scan);
        assert(model::trusted(events, scan));
        assert(model::correction_of(events, c, owner) && model::not_later(events, c));
    }
}

proof fn lemma_sum_positive(amounts: Seq<nat>)
    ensures
        seqs::sum(amounts) > 0 <==> exists|i: int|
            0 <= i < amounts.len() && (#[trigger] amounts[i]) > 0,
    decreases amounts.len(),
{
    if amounts.len() > 0 {
        let front = amounts.drop_last();
        lemma_sum_positive(front);
        if seqs::sum(front) > 0 {
            let i = choose|i: int| 0 <= i < front.len() && (#[trigger] front[i]) > 0;
            assert(amounts[i] > 0);
        }
        assert(amounts[amounts.len() - 1] == amounts.last());
        if exists|i: int| 0 <= i < amounts.len() && (#[trigger] amounts[i]) > 0 {
            let i = choose|i: int| 0 <= i < amounts.len() && (#[trigger] amounts[i]) > 0;
            if i < front.len() {
                assert(front[i] > 0);
            }
        }
    }
}

/// Units of an article that no line of the authorization names are a reason for review.
pub proof fn unauthorized_articles_are_reviewed(events: Seq<EventView>, authorization: AuthView)
    requires
        settle::sound(authorization),
    ensures
        ({
            let scans = model::scans_of(events, authorization.return_id);
            model::plan_of(events, authorization).review_codes.contains("unauthorized_sku"@)
                <==> exists|i: int|
                0 <= i < scans.len() && (#[trigger] scans[i]).quantity > 0 && forall|k: int|
                    0 <= k < authorization.lines.len() ==> (#[trigger] authorization.lines[k]).sku
                        != scans[i].sku
        }),
{
    let flags = model::flags_of(events, authorization);
    let scans = model::scans_of(events, authorization.return_id);
    let lines = model::ordered_lines(authorization.lines);
    lemma_codes();
    lemma_plan_codes(events, authorization);
    lemma_raised(flags, "unauthorized_sku"@);
    laws::lemma_ordered_lines(authorization.lines);
    let amounts = Seq::new(
        scans.len(),
        |i: int|
            if model::has_sku(lines, scans[i].sku) {
                0nat
            } else {
                scans[i].quantity
            },
    );
    assert(flags.unauthorized_sku == (seqs::sum(amounts) > 0));
    lemma_sum_positive(amounts);
    assert forall|i: int| 0 <= i < scans.len() implies (model::has_sku(
        lines,
        (#[trigger] scans[i]).sku,
    ) <==> !forall|k: int|
        0 <= k < authorization.lines.len() ==> (#[trigger] authorization.lines[k]).sku
            != scans[i].sku) by {
        let sku = scans[i].sku;
        if model::has_sku(lines, sku) {
            let j = choose|j: int| 0 <= j < lines.len() && (#[trigger] lines[j]).sku == sku;
            assert(authorization.lines.contains(lines[j]));
            let k = choose|k: int|
                0 <= k < authorization.lines.len() && authorization.lines[k] == lines[j];
            assert(authorization.lines[k].sku == sku);
        }
        if exists|k: int|
            0 <= k < authorization.lines.len() && (#[trigger] authorization.lines[k]).sku == sku {
            let k = choose|k: int|
                0 <= k < authorization.lines.len() && (#[trigger] authorization.lines[k]).sku
                    == sku;
            assert(lines.contains(authorization.lines[k]));
            let j = choose|j: int| 0 <= j < lines.len() && lines[j] == authorization.lines[k];
            assert(lines[j].sku == sku);
        }
    }
    if flags.unauthorized_sku {
        let i = choose|i: int| 0 <= i < amounts.len() && (#[trigger] amounts[i]) > 0;
        assert(scans[i].quantity > 0);
    }
    if exists|i: int|
        0 <= i < scans.len() && (#[trigger] scans[i]).quantity > 0 && forall|k: int|
            0 <= k < authorization.lines.len() ==> (#[trigger] authorization.lines[k]).sku
                != scans[i].sku {
        let i = choose|i: int|
            0 <= i < scans.len() && (#[trigger] scans[i]).quantity > 0 && forall|k: int|
                0 <= k < authorization.lines.len() ==> (#[trigger] authorization.lines[k]).sku
                    != scans[i].sku;
        assert(amounts[i] > 0);
    }
}

/// A line that gets fewer units than it accepted, though no payment stands in the way, is a
/// reason for review.
pub proof fn shortfalls_are_reviewed(events: Seq<EventView>, authorization: AuthView)
    ensures
        ({
            let plan = model::plan_of(events, authorization);
            plan.review_codes.contains("insufficient_whole_unit_capacity"@) <==> exists|k: int|
                0 <= k < plan.lines.len() && (#[trigger] plan.lines[k]).proposed_quantity
                    < plan.lines[k].accepted_scan_quantity && model::block_of(
                    events,
                    authorization.return_id,
                    plan.lines[k].line_id,
                ) is None
        }),
{
    let flags = model::flags_of(events, authorization);
    let told = model::plan_of(events, authorization).lines;
    let lines = model::ordered_lines(authorization.lines);
    lemma_codes();
    lemma_plan_codes(events, authorization);
    lemma_raised(flags, "insufficient_whole_unit_capacity"@);
    entitlement::lemma_plan_lines(events, authorization);
    lemma_shortfall(events, authorization, lines, told);
}

/// The last line that names the SKU of line `k`, among the first `n`.
proof fn lemma_last_of_sku(lines: Seq<LineView>, k: int, n: nat) -> (j: int)
    requires
        0 <= k < n <= lines.len(),
        forall|i: int| n <= i < lines.len() ==> (#[trigger] lines[i]).sku != lines[k].sku,
    ensures
        0 <= j < n,
        lines[j].sku == lines[k].sku,
        model::last_of_sku(lines, j),
    decreases n,
{
    if lines[n - 1].sku == lines[k].sku {
        n - 1
    } else {
        lemma_last_of_sku(lines, k, (n - 1) as nat)
    }
}

proof fn lemma_shortfall(
    events: Seq<EventView>,
    authorization: AuthView,
    lines: Seq<LineView>,
    told: Seq<LinePlanView>,
)
    requires
        lines == model::ordered_lines(authorization.lines),
        told.len() == lines.len(),
        forall|k: int|
            0 <= k < lines.len() ==> #[trigger] told[k] == model::line_plan_at(
                model::terms_of(events, authorization.return_id),
                model::opening_stock(
                    model::terms_of(events, authorization.return_id),
                    authorization,
                ),
                lines,
                k,
            ),
    ensures
        model::flags_of(events, authorization).insufficient_whole_unit_capacity <==> exists|k: int|
            0 <= k < told.len() && (#[trigger] told[k]).proposed_quantity
                < told[k].accepted_scan_quantity && model::block_of(
                events,
                authorization.return_id,
                told[k].line_id,
            ) is None,
        model::flags_of(events, authorization).excess_quantity <==> exists|k: int|
            0 <= k < told.len() && (#[trigger] told[k]).review_scan_quantity > 0,
{
    let owner = authorization.return_id;
    let terms = model::terms_of(events, owner);
    let start = model::opening_stock(terms, authorization);
    let settled = model::stock_at(terms, start, lines, lines.len());
    let flags = model::flags_of(events, authorization);
    if flags.insufficient_whole_unit_capacity {
        let k = choose|k: int|
            0 <= k < lines.len() && model::block_of(events, owner, (#[trigger] lines[k]).line_id)
                is None && model::proposal_at(terms, start, lines, k).proposed_quantity
                < model::proposal_at(terms, start, lines, k).accepted_scan_quantity;
        assert(told[k].proposed_quantity < told[k].accepted_scan_quantity);
    }
    if exists|k: int|
        0 <= k < told.len() && (#[trigger] told[k]).proposed_quantity
            < told[k].accepted_scan_quantity && model::block_of(events, owner, told[k].line_id)
            is None {
        let k = choose|k: int|
            0 <= k < told.len() && (#[trigger] told[k]).proposed_quantity
                < told[k].accepted_scan_quantity && model::block_of(events, owner, told[k].line_id)
                is None;
        assert(model::block_of(events, owner, lines[k].line_id) is None);
    }
    if flags.excess_quantity {
        let k = choose|k: int|
            0 <= k < lines.len() && model::left_over(
                terms.scans,
                settled.remaining,
                (#[trigger] lines[k]).sku,
            ) > 0;
        let j = lemma_last_of_sku(lines, k, lines.len());
        assert(told[j].review_scan_quantity > 0);
    }
    if exists|k: int| 0 <= k < told.len() && (#[trigger] told[k]).review_scan_quantity > 0 {
        let k = choose|k: int| 0 <= k < told.len() && (#[trigger] told[k]).review_scan_quantity > 0;
        assert(model::left_over(terms.scans, settled.remaining, lines[k].sku) > 0);
    }
}

/// Units that no line accepts, charged to one for review, are a reason for review.
pub proof fn surplus_units_are_reviewed(events: Seq<EventView>, authorization: AuthView)
    ensures
        ({
            let plan = model::plan_of(events, authorization);
            plan.review_codes.contains("excess_quantity"@) <==> exists|k: int|
                0 <= k < plan.lines.len() && (#[trigger] plan.lines[k]).review_scan_quantity > 0
        }),
{
    let flags = model::flags_of(events, authorization);
    let told = model::plan_of(events, authorization).lines;
    let lines = model::ordered_lines(authorization.lines);
    lemma_codes();
    lemma_plan_codes(events, authorization);
    lemma_raised(flags, "excess_quantity"@);
    entitlement::lemma_plan_lines(events, authorization);
    lemma_shortfall(events, authorization, lines, told);
}

/// Payments are a reason for review where one for a line has succeeded, where one stands in
/// the way otherwise, and where the results of one refund name different amounts.
pub proof fn payments_are_reviewed(events: Seq<EventView>, authorization: AuthView)
    requires
        settle::sound(authorization),
    ensures
        ({
            let owner = authorization.return_id;
            let codes = model::plan_of(events, authorization).review_codes;
            &&& codes.contains("payment_already_successful"@) <==> exists|k: int|
                0 <= k < authorization.lines.len() && model::block_of(
                    events,
                    owner,
                    (#[trigger] authorization.lines[k]).line_id,
                ) == Some(PaymentBlock::Successful)
            &&& codes.contains("payment_inconclusive"@) <==> exists|k: int|
                0 <= k < authorization.lines.len() && model::block_of(
                    events,
                    owner,
                    (#[trigger] authorization.lines[k]).line_id,
                ) == Some(PaymentBlock::Pending)
            &&& codes.contains("payment_amount_conflict"@) <==> exists|
                line: Seq<char>,
                a: EventView,
                b: EventView,
            | #[trigger]
                entitlement::pays(events, a, owner, line) && #[trigger] entitlement::pays(
                    events,
                    b,
                    owner,
                    line,
                ) && a->refund_id == b->refund_id && a->amount_cents != b->amount_cents
        }),
{
    let owner = authorization.return_id;
    let flags = model::flags_of(events, authorization);
    let lines = model::ordered_lines(authorization.lines);
    lemma_codes();
    lemma_plan_codes(events, authorization);
    lemma_raised(flags, "payment_already_successful"@);
    lemma_raised(flags, "payment_inconclusive"@);
    lemma_raised(flags, "payment_amount_conflict"@);
    laws::lemma_ordered_lines(authorization.lines);
    lemma_some_blocked(events, owner, authorization.lines, lines, PaymentBlock::Successful);
    lemma_some_blocked(events, owner, authorization.lines, lines, PaymentBlock::Pending);
    lemma_all_trusted(events);
    assert forall|event: EventView, line: Seq<char>, refund: Seq<char>| #[trigger]
        model::attempt(events, event, owner, line, refund) <==> entitlement::pays(
            events,
            event,
            owner,
            line,
        ) && event->refund_id == refund by {}
    if flags.payment_amount_conflict {
        let (line, refund) = choose|line: Seq<char>, refund: Seq<char>| #[trigger]
            model::amounts_differ(events, owner, line, refund);
        let (a, b) = choose|a: EventView, b: EventView| #[trigger]
            model::attempt(events, a, owner, line, refund) && #[trigger] model::attempt(
                events,
                b,
                owner,
                line,
                refund,
            ) && a->amount_cents != b->amount_cents;
        assert(entitlement::pays(events, a, owner, line) && entitlement::pays(
            events,
            b,
            owner,
            line,
        ));
    }
    if exists|line: Seq<char>, a: EventView, b: EventView| #[trigger]
        entitlement::pays(events, a, owner, line) && #[trigger] entitlement::pays(
            events,
            b,
            owner,
            line,
        ) && a->refund_id == b->refund_id && a->amount_cents != b->amount_cents {
        let (line, a, b) = choose|line: Seq<char>, a: EventView, b: EventView| #[trigger]
            entitlement::pays(events, a, owner, line) && #[trigger] entitlement::pays(
                events,
                b,
                owner,
                line,
            ) && a->refund_id == b->refund_id && a->amount_cents != b->amount_cents;
        let refund = a->refund_id;
        assert(model::attempt(events, a, owner, line, refund) && model::attempt(
            events,
            b,
            owner,
            line,
            refund,
        ));
        assert(model::amounts_differ(events, owner, line, refund));
    }
}

proof fn lemma_some_blocked(
    events: Seq<EventView>,
    owner: Seq<char>,
    given: Seq<LineView>,
    lines: Seq<LineView>,
    wanted: PaymentBlock,
)
    requires
        forall|k: int| 0 <= k < lines.len() ==> given.contains(#[trigger] lines[k]),
        forall|i: int| 0 <= i < given.len() ==> lines.contains(#[trigger] given[i]),
    ensures
        (exists|k: int|
            0 <= k < lines.len() && model::block_of(events, owner, (#[trigger] lines[k]).line_id)
                == Some(wanted)) <==> exists|k: int|
            0 <= k < given.len() && model::block_of(events, owner, (#[trigger] given[k]).line_id)
                == Some(wanted),
{
    if exists|k: int|
        0 <= k < lines.len() && model::block_of(events, owner, (#[trigger] lines[k]).line_id)
            == Some(wanted) {
        let k = choose|k: int|
            0 <= k < lines.len() && model::block_of(events, owner, (#[trigger] lines[k]).line_id)
                == Some(wanted);
        assert(given.contains(lines[k]));
        let i = choose|i: int| 0 <= i < given.len() && given[i] == lines[k];
        assert(model::block_of(events, owner, given[i].line_id) == Some(wanted));
    }
    if exists|k: int|
        0 <= k < given.len() && model::block_of(events, owner, (#[trigger] given[k]).line_id)
            == Some(wanted) {
        let k = choose|k: int|
            0 <= k < given.len() && model::block_of(events, owner, (#[trigger] given[k]).line_id)
                == Some(wanted);
        assert(lines.contains(given[k]));
        let i = choose|i: int| 0 <= i < lines.len() && lines[i] == given[k];
        assert(model::block_of(events, owner, lines[i].line_id) == Some(wanted));
    }
}

/// The cents that are proposed for the first `n` returns.
pub open spec fn cents_of(plans: Seq<PlanView>, n: nat) -> nat
    decreases n,
{
    if n == 0 {
        0
    } else {
        cents_of(plans, (n - 1) as nat) + entitlement::cents_proposed(
            plans[n - 1].lines,
            plans[n - 1].lines.len(),
        )
    }
}

proof fn lemma_line_cents(lines: Seq<LinePlanView>, n: nat)
    requires
        n <= lines.len(),
    ensures
        seqs::sum(
            lines.map_values(|line: LinePlanView| line.proposed_cents).take(n as int),
        ) == entitlement::cents_proposed(lines, n),
    decreases n,
{
    let amounts = lines.map_values(|line: LinePlanView| line.proposed_cents);
    if n > 0 {
        lemma_line_cents(lines, (n - 1) as nat);
        seqs::lemma_sum_take(amounts, n - 1);
    } else {
        assert(amounts.take(0) =~= Seq::<nat>::empty());
    }
}

proof fn lemma_plan_cents(plans: Seq<PlanView>, n: nat)
    requires
        n <= plans.len(),
    ensures
        seqs::sum(
            plans.map_values(|plan: PlanView| model::line_cents(plan)).take(n as int),
        ) == cents_of(plans, n),
    decreases n,
{
    let amounts = plans.map_values(|plan: PlanView| model::line_cents(plan));
    if n > 0 {
        lemma_plan_cents(plans, (n - 1) as nat);
        seqs::lemma_sum_take(amounts, n - 1);
        let lines = plans[n - 1].lines;
        let cents = lines.map_values(|line: LinePlanView| line.proposed_cents);
        lemma_line_cents(lines, lines.len());
        assert(cents.take(lines.len() as int) =~= cents);
    } else {
        assert(amounts.take(0) =~= Seq::<nat>::empty());
    }
}

/// The cents of a report are those of its returns, line by line.
pub proof fn reports_add_up_their_lines(snapshot: SnapshotView)
    requires
        cents_of(model::plans_of(snapshot), model::plans_of(snapshot).len()) <= u64::MAX,
    ensures
        model::report_of(snapshot).summary.proposed_cents == cents_of(
            model::report_of(snapshot).returns,
            model::report_of(snapshot).returns.len(),
        ),
        model::report_of(snapshot).advisory_only,
{
    let plans = model::plans_of(snapshot);
    let amounts = plans.map_values(|plan: PlanView| model::line_cents(plan));
    lemma_plan_cents(plans, plans.len());
    assert(amounts.take(plans.len() as int) =~= amounts);
}

} // verus!
