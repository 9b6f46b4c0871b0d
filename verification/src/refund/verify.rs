//! Independent checks of a report against its snapshot.

use vstd::prelude::*;
use crate::refund::model;
use crate::refund::model::{
    AuthView, AuthorizedLine, EventAccounting, LinePlan, LinePlanView, LineView, PlanView, Report,
    ReportView, ReturnAuthorization, ReturnPlan, Snapshot, SnapshotView, SCHEMA_VERSION,
};
use crate::refund::reconcile;
use crate::refund::reconcile::add_line_cents;
use crate::refund::reference;
use crate::refund::reference::reference_reconcile;
use crate::refund::settle;
use crate::seqs;
use crate::text;
use crate::text::{is_text_le, joined, rank_texts, same_text};

verus! {

/// The first of the first `n` lines with an identity.
pub open spec fn first_named(lines: Seq<LineView>, id: Seq<char>, n: nat) -> Option<LineView>
    decreases n,
{
    if n == 0 {
        None
    } else {
        match first_named(lines, id, (n - 1) as nat) {
            Some(line) => Some(line),
            None => if lines[n - 1].line_id == id {
                Some(lines[n - 1])
            } else {
                None
            },
        }
    }
}

/// The last of the first `n` authorizations with an identity.
pub open spec fn last_named(authorizations: Seq<AuthView>, id: Seq<char>, n: nat) -> Option<AuthView>
    decreases n,
{
    if n == 0 {
        None
    } else if authorizations[n - 1].return_id == id {
        Some(authorizations[n - 1])
    } else {
        last_named(authorizations, id, (n - 1) as nat)
    }
}

/// What is wrong with one line plan.
pub open spec fn line_plan_fault(authorization: AuthView, line: LinePlanView) -> Option<Seq<char>> {
    match first_named(authorization.lines, line.line_id, authorization.lines.len()) {
        None => Some("unknown line plan "@ + line.line_id),
        Some(authorized) => if !authorized.sound_money() {
            Some("invalid monetary values for line "@ + line.line_id)
        } else if line.accepted_scan_quantity > line.authorized_quantity || line.proposed_quantity
            > line.accepted_scan_quantity || line.proposed_cents > line.maximum_refundable_cents {
            Some("line cap exceeded for "@ + line.line_id)
        } else if line.proposed_cents != model::cost(
            authorized.net(),
            authorized.authorized_qty as int,
            line.proposed_quantity as int,
        ) {
            Some("quantity and cents are incoherent for "@ + line.line_id)
        } else {
            None
        },
    }
}

/// The cents of the first `n` lines of a plan.
pub open spec fn cents_before(plan: PlanView, n: int) -> nat {
    seqs::sum(plan.lines.map_values(|line: LinePlanView| line.proposed_cents).take(n))
}

/// The first thing wrong with the first `n` lines of a plan, where the plans
/// before it propose `before` cents.
pub open spec fn first_line_plan_fault(
    authorization: AuthView,
    plan: PlanView,
    before: nat,
    n: nat,
) -> Option<Seq<char>>
    decreases n,
{
    if n == 0 {
        None
    } else {
        match first_line_plan_fault(authorization, plan, before, (n - 1) as nat) {
            Some(fault) => Some(fault),
            None => match line_plan_fault(authorization, plan.lines[n - 1]) {
                Some(fault) => Some(fault),
                None => if before + cents_before(plan, n as int) > u64::MAX {
                    Some("report proposed cents overflow"@)
                } else {
                    None
                },
            },
        }
    }
}

/// What captured payment is left for proposals.
pub open spec fn return_cap(authorization: AuthView) -> int {
    if authorization.captured_cents >= model::prior_total(authorization.lines) {
        authorization.captured_cents - model::prior_total(authorization.lines)
    } else {
        0
    }
}

/// What is wrong with one return plan.
pub open spec fn plan_fault(snapshot: SnapshotView, plan: PlanView, before: nat) -> Option<
    Seq<char>,
> {
    match last_named(snapshot.returns, plan.return_id, snapshot.returns.len()) {
        None => Some("unknown return plan "@ + plan.return_id),
        Some(authorization) => if model::line_cents(plan) > u64::MAX {
            Some("return proposed cents overflow for "@ + plan.return_id)
        } else if model::line_cents(plan) > return_cap(authorization) {
            Some("return cap exceeded for "@ + plan.return_id)
        } else {
            first_line_plan_fault(authorization, plan, before, plan.lines.len())
        },
    }
}

/// The first thing wrong with the first `n` plans.
pub open spec fn first_plan_fault(snapshot: SnapshotView, plans: Seq<PlanView>, n: nat) -> Option<
    Seq<char>,
>
    decreases n,
{
    if n == 0 {
        None
    } else {
        match first_plan_fault(snapshot, plans, (n - 1) as nat) {
            Some(fault) => Some(fault),
            None => plan_fault(snapshot, plans[n - 1], model::total_cents(plans.take(n - 1))),
        }
    }
}

/// Each plan comes before the next.
pub open spec fn canonical_order(plans: Seq<PlanView>) -> bool {
    forall|k: int|
        0 < k < plans.len() ==> text::text_lt(
            plans[k - 1].return_id,
            (#[trigger] plans[k]).return_id,
        )
}

/// The totals of the summary are those of the report's body.
pub open spec fn summary_matches(snapshot: SnapshotView, report: ReportView) -> bool {
    &&& report.summary.proposed_quantity == model::total_units(report.returns)
    &&& report.summary.proposed_cents == model::total_cents(report.returns)
    &&& report.summary.input_event_count == snapshot.events.len()
    &&& report.summary.return_count == snapshot.returns.len()
}

/// Why a report is refused, if it is.
pub open spec fn report_fault(snapshot: SnapshotView, report: ReportView) -> Option<Seq<char>> {
    if report.schema_version != SCHEMA_VERSION || report.snapshot_id != snapshot.snapshot_id
        || !report.advisory_only {
        Some("report identity or advisory marker is invalid"@)
    } else if !canonical_order(report.returns) {
        Some("return plans are not in canonical order"@)
    } else {
        match first_plan_fault(snapshot, report.returns, report.returns.len()) {
            Some(fault) => Some(fault),
            None => if !summary_matches(snapshot, report) {
                Some("summary totals do not match report body"@)
            } else {
                match reference::reference_error(snapshot) {
                    Some(error) => Some(error),
                    None => if report != model::report_of(snapshot) {
                        Some("report differs from independent reference calculation"@)
                    } else {
                        None
                    },
                }
            },
        }
    }
}

fn same_texts(a: &Vec<String>, b: &Vec<String>) -> (same: bool)
    ensures
        same == (model::texts(a@) == model::texts(b@)),
{
    if a.len() != b.len() {
        assert(model::texts(a@).len() != model::texts(b@).len());
        return false;
    }
    let mut k: usize = 0;
    while k < a.len()
        invariant
            k <= a@.len() == b@.len(),
            forall|j: int| 0 <= j < k ==> (#[trigger] a@[j])@ == b@[j]@,
        decreases a@.len() - k,
    {
        if !same_text(a[k].as_str(), b[k].as_str()) {
            assert(model::texts(a@)[k as int] != model::texts(b@)[k as int]);
            return false;
        }
        k = k + 1;
    }
    assert(model::texts(a@) =~= model::texts(b@));
    true
}

fn same_line_plan(a: &LinePlan, b: &LinePlan) -> (same: bool)
    ensures
        same == (a@ == b@),
{
    let same = same_text(a.line_id.as_str(), b.line_id.as_str()) && a.authorized_quantity
        == b.authorized_quantity && a.accepted_scan_quantity == b.accepted_scan_quantity
        && a.review_scan_quantity == b.review_scan_quantity && a.prior_successful_refund_cents
        == b.prior_successful_refund_cents && a.maximum_refundable_cents
        == b.maximum_refundable_cents && a.proposed_quantity == b.proposed_quantity
        && a.proposed_cents == b.proposed_cents && same_texts(
        &a.provenance_event_ids,
        &b.provenance_event_ids,
    );
    same
}

fn same_lines(a: &Vec<LinePlan>, b: &Vec<LinePlan>) -> (same: bool)
    ensures
        same == (a@.map_values(|line: LinePlan| line@) == b@.map_values(|line: LinePlan| line@)),
{
    let ghost va = a@.map_values(|line: LinePlan| line@);
    let ghost vb = b@.map_values(|line: LinePlan| line@);
    if a.len() != b.len() {
        assert(va.len() != vb.len());
        return false;
    }
    let mut k: usize = 0;
    while k < a.len()
        invariant
            k <= a@.len() == b@.len(),
            va == a@.map_values(|line: LinePlan| line@),
            vb == b@.map_values(|line: LinePlan| line@),
            forall|j: int| 0 <= j < k ==> (#[trigger] va[j]) == vb[j],
        decreases a@.len() - k,
    {
        if !same_line_plan(&a[k], &b[k]) {
            assert(va[k as int] != vb[k as int]);
            return false;
        }
        k = k + 1;
    }
    assert(va =~= vb);
    true
}

fn same_plan(a: &ReturnPlan, b: &ReturnPlan) -> (same: bool)
    ensures
        same == (a@ == b@),
{
    let same = same_text(a.return_id.as_str(), b.return_id.as_str()) && same_text(
        a.disposition.as_str(),
        b.disposition.as_str(),
    ) && same_texts(&a.review_codes, &b.review_codes) && a.unmatched_scan_quantity
        == b.unmatched_scan_quantity && same_lines(&a.lines, &b.lines);
    same
}

fn same_plans(a: &Vec<ReturnPlan>, b: &Vec<ReturnPlan>) -> (same: bool)
    ensures
        same == (reconcile::plan_views(a@) == reconcile::plan_views(b@)),
{
    let ghost va = reconcile::plan_views(a@);
    let ghost vb = reconcile::plan_views(b@);
    if a.len() != b.len() {
        assert(va.len() != vb.len());
        return false;
    }
    let mut k: usize = 0;
    while k < a.len()
        invariant
            k <= a@.len() == b@.len(),
            va == reconcile::plan_views(a@),
            vb == reconcile::plan_views(b@),
            forall|j: int| 0 <= j < k ==> (#[trigger] va[j]) == vb[j],
        decreases a@.len() - k,
    {
        if !same_plan(&a[k], &b[k]) {
            assert(va[k as int] != vb[k as int]);
            return false;
        }
        k = k + 1;
    }
    assert(va =~= vb);
    true
}

fn same_accounting(a: &Vec<EventAccounting>, b: &Vec<EventAccounting>) -> (same: bool)
    ensures
        same == (a@.map_values(|row: EventAccounting| row@) == b@.map_values(
            |row: EventAccounting| row@,
        )),
{
    let ghost va = a@.map_values(|row: EventAccounting| row@);
    let ghost vb = b@.map_values(|row: EventAccounting| row@);
    if a.len() != b.len() {
        assert(va.len() != vb.len());
        return false;
    }
    let mut k: usize = 0;
    while k < a.len()
        invariant
            k <= a@.len() == b@.len(),
            va == a@.map_values(|row: EventAccounting| row@),
            vb == b@.map_values(|row: EventAccounting| row@),
            forall|j: int| 0 <= j < k ==> (#[trigger] va[j]) == vb[j],
        decreases a@.len() - k,
    {
        let same = same_text(a[k].event_id.as_str(), b[k].event_id.as_str())
            && a[k].input_occurrences == b[k].input_occurrences && same_text(
            a[k].disposition.as_str(),
            b[k].disposition.as_str(),
        );
        assert(va[k as int] == a@[k as int]@ && vb[k as int] == b@[k as int]@);
        if !same {
            assert(va[k as int] != vb[k as int]);
            return false;
        }
        k = k + 1;
    }
    assert(va =~= vb);
    true
}

/// Whether two reports say the same.
pub fn same_report(a: &Report, b: &Report) -> (same: bool)
    ensures
        same == (a@ == b@),
{
    let same = a.schema_version == b.schema_version && same_text(
        a.snapshot_id.as_str(),
        b.snapshot_id.as_str(),
    ) && a.advisory_only == b.advisory_only && a.summary == b.summary && same_accounting(
        &a.event_accounting,
        &b.event_accounting,
    ) && same_plans(&a.returns, &b.returns);
    assert(a@.returns == reconcile::plan_views(a.returns@));
    assert(b@.returns == reconcile::plan_views(b.returns@));
    same
}

proof fn lemma_last_named(authorizations: Seq<AuthView>, id: Seq<char>, n: nat, found: Option<int>)
    requires
        n <= authorizations.len(),
        match found {
            Some(p) => 0 <= p < n && authorizations[p].return_id == id && forall|q: int|
                p < q < n ==> (#[trigger] authorizations[q]).return_id != id,
            None => forall|q: int| 0 <= q < n ==> (#[trigger] authorizations[q]).return_id != id,
        },
    ensures
        match found {
            Some(p) => last_named(authorizations, id, n) == Some(authorizations[p]),
            None => last_named(authorizations, id, n) is None,
        },
    decreases n,
{
    if n > 0 && authorizations[n - 1].return_id != id {
        lemma_last_named(authorizations, id, (n - 1) as nat, found);
    }
}

/// For every number, the last place that has it among those after the first
/// `skip`, counted from there.
fn last_places(ranks: &Vec<usize>, skip: usize) -> (places: Vec<Option<usize>>)
    requires
        skip <= ranks@.len(),
        forall|i: int| 0 <= i < ranks@.len() ==> (#[trigger] ranks@[i]) < ranks@.len(),
    ensures
        places@.len() == ranks@.len(),
        forall|r: int|
            0 <= r < places@.len() ==> match #[trigger] places@[r] {
                Some(x) => skip + x < ranks@.len() && ranks@[skip + x] == r && forall|q: int|
                    skip + x < q < ranks@.len() ==> (#[trigger] ranks@[q]) != r,
                None => forall|q: int| skip <= q < ranks@.len() ==> (#[trigger] ranks@[q]) != r,
            },
{
    let mut places: Vec<Option<usize>> = Vec::new();
    let mut i: usize = 0;
    while i < ranks.len()
        invariant
            i <= ranks@.len(),
            places@.len() == i,
            forall|r: int| 0 <= r < i ==> (#[trigger] places@[r]) is None,
        decreases ranks@.len() - i,
    {
        places.push(None);
        i = i + 1;
    }
    let mut p: usize = skip;
    while p < ranks.len()
        invariant
            skip <= p <= ranks@.len() == places@.len(),
            forall|i: int| 0 <= i < ranks@.len() ==> (#[trigger] ranks@[i]) < ranks@.len(),
            forall|r: int|
                0 <= r < places@.len() ==> match #[trigger] places@[r] {
                    Some(x) => skip + x < p && ranks@[skip + x] == r && forall|q: int|
                        skip + x < q < p ==> (#[trigger] ranks@[q]) != r,
                    None => forall|q: int| skip <= q < p ==> (#[trigger] ranks@[q]) != r,
                },
        decreases ranks@.len() - p,
    {
        let rank = ranks[p];
        places.set(rank, Some(p - skip));
        p = p + 1;
    }
    places
}

/// Where the authorization of each plan stands.
fn find_authorizations(snapshot: &Snapshot, plans: &Vec<ReturnPlan>) -> (found: Vec<Option<usize>>)
    ensures
        found@.len() == plans@.len(),
        forall|k: int|
            0 <= k < found@.len() ==> match #[trigger] found@[k] {
                Some(p) => p < snapshot.returns@.len() && last_named(
                    snapshot@.returns,
                    plans@[k]@.return_id,
                    snapshot@.returns.len(),
                ) == Some(snapshot.returns@[p as int]@),
                None => last_named(
                    snapshot@.returns,
                    plans@[k]@.return_id,
                    snapshot@.returns.len(),
                ) is None,
            },
{
    let mut ids: Vec<&str> = Vec::new();
    let mut k: usize = 0;
    while k < plans.len()
        invariant
            k <= plans@.len(),
            ids@.len() == k,
            forall|j: int| 0 <= j < k ==> (#[trigger] ids@[j])@ == plans@[j].return_id@,
        decreases plans@.len() - k,
    {
        ids.push(plans[k].return_id.as_str());
        k = k + 1;
    }
    let mut i: usize = 0;
    while i < snapshot.returns.len()
        invariant
            i <= snapshot.returns@.len(),
            ids@.len() == plans@.len() + i,
            forall|j: int|
                0 <= j < plans@.len() ==> (#[trigger] ids@[j])@ == plans@[j].return_id@,
            forall|j: int|
                plans@.len() <= j < ids@.len() ==> (#[trigger] ids@[j])@
                    == snapshot.returns@[j - plans@.len()].return_id@,
        decreases snapshot.returns@.len() - i,
    {
        ids.push(snapshot.returns[i].return_id.as_str());
        i = i + 1;
    }
    let ranks = rank_texts(&ids);
    let skip: usize = plans.len();
    let places = last_places(&ranks, skip);
    let mut found: Vec<Option<usize>> = Vec::new();
    let mut k: usize = 0;
    while k < plans.len()
        invariant
            k <= plans@.len() == skip,
            ids@.len() == plans@.len() + snapshot.returns@.len(),
            text::ranks_of(ranks@, ids@),
            forall|j: int|
                0 <= j < plans@.len() ==> (#[trigger] ids@[j])@ == plans@[j].return_id@,
            forall|j: int|
                plans@.len() <= j < ids@.len() ==> (#[trigger] ids@[j])@
                    == snapshot.returns@[j - plans@.len()].return_id@,
            places@.len() == ranks@.len(),
            forall|r: int|
                0 <= r < places@.len() ==> match #[trigger] places@[r] {
                    Some(x) => skip + x < ranks@.len() && ranks@[skip + x] == r && forall|q: int|
                        skip + x < q < ranks@.len() ==> (#[trigger] ranks@[q]) != r,
                    None => forall|q: int|
                        skip <= q < ranks@.len() ==> (#[trigger] ranks@[q]) != r,
                },
            found@.len() == k,
            forall|k: int|
                0 <= k < found@.len() ==> match #[trigger] found@[k] {
                    Some(p) => p < snapshot.returns@.len() && last_named(
                        snapshot@.returns,
                        plans@[k]@.return_id,
                        snapshot@.returns.len(),
                    ) == Some(snapshot.returns@[p as int]@),
                    None => last_named(
                        snapshot@.returns,
                        plans@[k]@.return_id,
                        snapshot@.returns.len(),
                    ) is None,
                },
        decreases plans@.len() - k,
    {
        let place = places[ranks[k]];
        proof {
            let id = plans@[k as int]@.return_id;
            let all = snapshot@.returns;
            assert(ids@[k as int]@ == id);
            let witness = match place {
                Some(p) => Some(p as int),
                None => None,
            };
            assert forall|q: int|
                0 <= q < all.len() && ranks@[skip + q] != ranks@[k as int] implies (
            #[trigger] all[q]).return_id != id by {
                assert(ids@[skip + q]@ == all[q].return_id);
            }
            if let Some(p) = place {
                assert(ids@[skip + p]@ == all[p as int].return_id);
                assert(all[p as int] == snapshot.returns@[p as int]@);
            }
            lemma_last_named(all, id, all.len(), witness);
        }
        found.push(place);
        k = k + 1;
    }
    found
}

/// The first line with an identity.
fn find_line<'a>(lines: &'a Vec<AuthorizedLine>, id: &str) -> (found: Option<&'a AuthorizedLine>)
    ensures
        match found {
            Some(line) => first_named(settle::line_views(lines@), id@, lines@.len()) == Some(line@),
            None => first_named(settle::line_views(lines@), id@, lines@.len()) is None,
        },
{
    let ghost shown = settle::line_views(lines@);
    let mut found: Option<&AuthorizedLine> = None;
    let mut k: usize = 0;
    while k < lines.len()
        invariant
            k <= lines@.len(),
            shown == settle::line_views(lines@),
            match found {
                Some(line) => first_named(shown, id@, k as nat) == Some(line@),
                None => first_named(shown, id@, k as nat) is None,
            },
        decreases lines@.len() - k,
    {
        assert(shown[k as int] == lines@[k as int]@);
        if found.is_none() && same_text(lines[k].line_id.as_str(), id) {
            found = Some(&lines[k]);
        }
        k = k + 1;
    }
    found
}

/// The cost of any number of units, without a bound on the result.
fn quoted_cents(net: u64, authorized: u32, quantity: u32) -> (cents: u128)
    ensures
        cents == model::cost(net as int, authorized as int, quantity as int),
{
    if authorized == 0 {
        return 0;
    }
    let base: u64 = net / (authorized as u64);
    let rest: u64 = net % (authorized as u64);
    let extra: u64 = if rest < quantity as u64 {
        rest
    } else {
        quantity as u64
    };
    assert(0 <= base * quantity <= 0xffff_ffff_ffff_ffff * 0xffff_ffff) by (nonlinear_arith)
        requires
            0 <= base <= 0xffff_ffff_ffff_ffff,
            0 <= quantity <= 0xffff_ffff,
    ;
    (base as u128) * (quantity as u128) + (extra as u128)
}

fn check_line_plan(authorization: &ReturnAuthorization, line: &LinePlan) -> (fault: Option<String>)
    ensures
        match fault {
            Some(fault) => line_plan_fault(authorization@, line@) == Some(fault@),
            None => line_plan_fault(authorization@, line@) is None,
        },
{
    assert(settle::line_views(authorization.lines@) == authorization@.lines);
    let authorized = match find_line(&authorization.lines, line.line_id.as_str()) {
        Some(authorized) => authorized,
        None => {
            return Some(joined("unknown line plan ", line.line_id.as_str()));
        },
    };
    let gross = authorized.paid_subtotal_cents.checked_add(authorized.tax_cents);
    let net = match gross {
        Some(gross) => gross.checked_sub(authorized.discount_cents),
        None => None,
    };
    let net: u64 = match net {
        Some(net) => net,
        None => {
            return Some(joined("invalid monetary values for line ", line.line_id.as_str()));
        },
    };
    if line.accepted_scan_quantity > line.authorized_quantity || line.proposed_quantity
        > line.accepted_scan_quantity || line.proposed_cents > line.maximum_refundable_cents {
        return Some(joined("line cap exceeded for ", line.line_id.as_str()));
    }
    let quoted: u128 = quoted_cents(net, authorized.authorized_qty, line.proposed_quantity);
    if line.proposed_cents as u128 != quoted {
        return Some(joined("quantity and cents are incoherent for ", line.line_id.as_str()));
    }
    None
}

/// What captured payment is left for proposals.
fn cap_of(authorization: &ReturnAuthorization) -> (cap: u64)
    ensures
        cap == return_cap(authorization@),
{
    let ghost terms = authorization@.lines.map_values(
        |line: LineView| line.prior_successful_refund_cents as nat,
    );
    let mut left: u64 = authorization.captured_cents;
    let mut k: usize = 0;
    assert(terms.take(0) =~= Seq::<nat>::empty());
    while k < authorization.lines.len()
        invariant
            k <= authorization.lines@.len(),
            terms == authorization@.lines.map_values(
                |line: LineView| line.prior_successful_refund_cents as nat,
            ),
            left as int == if authorization.captured_cents >= seqs::sum(terms.take(k as int)) {
                authorization.captured_cents - seqs::sum(terms.take(k as int))
            } else {
                0
            },
        decreases authorization.lines@.len() - k,
    {
        proof {
            seqs::lemma_sum_take(terms, k as int);
            assert(authorization@.lines[k as int] == authorization.lines@[k as int]@);
        }
        let prior: u64 = authorization.lines[k].prior_successful_refund_cents;
        left = if left >= prior {
            left - prior
        } else {
            0
        };
        k = k + 1;
    }
    assert(terms.take(authorization.lines@.len() as int) =~= terms);
    left
}

/// Checks the lines of a plan in turn, and the cents up to each.
fn check_line_plans(authorization: &ReturnAuthorization, plan: &ReturnPlan, before: u64) -> (result:
    Result<u64, String>)
    ensures
        match result {
            Ok(total) => first_line_plan_fault(
                authorization@,
                plan@,
                before as nat,
                plan@.lines.len(),
            ) is None && total == before + model::line_cents(plan@),
            Err(fault) => first_line_plan_fault(
                authorization@,
                plan@,
                before as nat,
                plan@.lines.len(),
            ) == Some(fault@),
        },
{
    let ghost terms = plan@.lines.map_values(|line: LinePlanView| line.proposed_cents);
    let mut total: u64 = before;
    let mut k: usize = 0;
    assert(terms.take(0) =~= Seq::<nat>::empty());
    while k < plan.lines.len()
        invariant
            k <= plan.lines@.len(),
            terms == plan@.lines.map_values(|line: LinePlanView| line.proposed_cents),
            total == before + seqs::sum(terms.take(k as int)),
            first_line_plan_fault(authorization@, plan@, before as nat, k as nat) is None,
        decreases plan.lines@.len() - k,
    {
        let ghost next = (k + 1) as nat;
        proof {
            seqs::lemma_sum_take(terms, k as int);
            assert(plan@.lines[k as int] == plan.lines@[k as int]@);
            assert(cents_before(plan@, next as int) == seqs::sum(terms.take(next as int)));
        }
        if let Some(fault) = check_line_plan(authorization, &plan.lines[k]) {
            proof {
                lemma_line_plan_fault_stays(authorization@, plan@, before as nat, next, plan@.lines.len());
            }
            return Err(fault);
        }
        match total.checked_add(plan.lines[k].proposed_cents) {
            Some(sum) => {
                total = sum;
            },
            None => {
                proof {
                    lemma_line_plan_fault_stays(
                        authorization@,
                        plan@,
                        before as nat,
                        next,
                        plan@.lines.len(),
                    );
                }
                return Err("report proposed cents overflow".to_owned());
            },
        }
        k = k + 1;
    }
    assert(terms.take(plan.lines@.len() as int) =~= terms);
    Ok(total)
}

proof fn lemma_line_plan_fault_stays(
    authorization: AuthView,
    plan: PlanView,
    before: nat,
    n: nat,
    m: nat,
)
    requires
        n <= m,
        first_line_plan_fault(authorization, plan, before, n) is Some,
    ensures
        first_line_plan_fault(authorization, plan, before, m) == first_line_plan_fault(
            authorization,
            plan,
            before,
            n,
        ),
    decreases m,
{
    if n < m {
        lemma_line_plan_fault_stays(authorization, plan, before, n, (m - 1) as nat);
    }
}

proof fn lemma_plan_fault_stays(snapshot: SnapshotView, plans: Seq<PlanView>, n: nat, m: nat)
    requires
        n <= m,
        first_plan_fault(snapshot, plans, n) is Some,
    ensures
        first_plan_fault(snapshot, plans, m) == first_plan_fault(snapshot, plans, n),
    decreases m,
{
    if n < m {
        lemma_plan_fault_stays(snapshot, plans, n, (m - 1) as nat);
    }
}

/// Checks one plan against its authorization.
fn check_plan(
    snapshot: &Snapshot,
    plan: &ReturnPlan,
    place: Option<usize>,
    before: u64,
) -> (result: Result<u64, String>)
    requires
        match place {
            Some(p) => p < snapshot.returns@.len() && last_named(
                snapshot@.returns,
                plan@.return_id,
                snapshot@.returns.len(),
            ) == Some(snapshot.returns@[p as int]@),
            None => last_named(snapshot@.returns, plan@.return_id, snapshot@.returns.len()) is None,
        },
    ensures
        match result {
            Ok(total) => plan_fault(snapshot@, plan@, before as nat) is None && total == before
                + model::line_cents(plan@),
            Err(fault) => plan_fault(snapshot@, plan@, before as nat) == Some(fault@),
        },
{
    let authorization = match place {
        Some(p) => &snapshot.returns[p],
        None => {
            return Err(joined("unknown return plan ", plan.return_id.as_str()));
        },
    };
    let proposed: u64 = match add_line_cents(plan, 0) {
        Some(proposed) => proposed,
        None => {
            return Err(joined("return proposed cents overflow for ", plan.return_id.as_str()));
        },
    };
    if proposed > cap_of(authorization) {
        return Err(joined("return cap exceeded for ", plan.return_id.as_str()));
    }
    check_line_plans(authorization, plan, before)
}

/// Adds the units of a plan, as long as 64 bits hold them.
fn add_units(plan: &ReturnPlan, before: Option<u64>, Ghost(known): Ghost<nat>) -> (units: Option<u64>)
    requires
        match before {
            Some(units) => units == known,
            None => known > u64::MAX,
        },
    ensures
        match units {
            Some(units) => units == known + model::line_units(plan@),
            None => known + model::line_units(plan@) > u64::MAX,
        },
{
    let ghost terms = plan@.lines.map_values(|line: LinePlanView| line.proposed_quantity);
    let mut units: Option<u64> = before;
    let mut k: usize = 0;
    assert(terms.take(0) =~= Seq::<nat>::empty());
    while k < plan.lines.len()
        invariant
            k <= plan.lines@.len(),
            terms == plan@.lines.map_values(|line: LinePlanView| line.proposed_quantity),
            match units {
                Some(units) => units == known + seqs::sum(terms.take(k as int)),
                None => known + seqs::sum(terms.take(k as int)) > u64::MAX,
            },
        decreases plan.lines@.len() - k,
    {
        proof {
            seqs::lemma_sum_take(terms, k as int);
            assert(plan@.lines[k as int] == plan.lines@[k as int]@);
        }
        units = match units {
            Some(units) => units.checked_add(plan.lines[k].proposed_quantity as u64),
            None => None,
        };
        k = k + 1;
    }
    assert(terms.take(plan.lines@.len() as int) =~= terms);
    units
}

/// Whether each plan comes before the next.
fn in_canonical_order(plans: &Vec<ReturnPlan>) -> (ordered: bool)
    ensures
        ordered == canonical_order(reconcile::plan_views(plans@)),
{
    let ghost shown = reconcile::plan_views(plans@);
    let mut k: usize = 1;
    while k < plans.len()
        invariant
            1 <= k,
            shown == reconcile::plan_views(plans@),
            forall|j: int|
                0 < j < k && j < plans@.len() ==> text::text_lt(
                    shown[j - 1].return_id,
                    (#[trigger] shown[j]).return_id,
                ),
        decreases plans@.len() - k,
    {
        assert(shown[k as int] == plans@[k as int]@);
        assert(shown[k - 1] == plans@[k - 1]@);
        proof {
            text::lemma_text_total(shown[k - 1].return_id, shown[k as int].return_id);
        }
        if is_text_le(plans[k].return_id.as_str(), plans[k - 1].return_id.as_str()) {
            assert(!text::text_lt(shown[k - 1].return_id, shown[k as int].return_id));
            return false;
        }
        k = k + 1;
    }
    true
}

/// Independently checks report identity, advisory marking, ordering, totals, and caps.
pub fn verify_report(snapshot: &Snapshot, report: &Report) -> (result: Result<(), String>)
    requires
        reconcile::countable(snapshot@),
    ensures
        match result {
            Ok(_) => report_fault(snapshot@, report@) is None,
            Err(fault) => report_fault(snapshot@, report@) == Some(fault@),
        },
{
    if report.schema_version != SCHEMA_VERSION || !same_text(
        report.snapshot_id.as_str(),
        snapshot.snapshot_id.as_str(),
    ) || !report.advisory_only {
        return Err("report identity or advisory marker is invalid".to_owned());
    }
    let ghost shown = reconcile::plan_views(report.returns@);
    assert(report@.returns == shown);
    if !in_canonical_order(&report.returns) {
        return Err("return plans are not in canonical order".to_owned());
    }
    let places = find_authorizations(snapshot, &report.returns);
    let ghost cents = shown.map_values(|plan: PlanView| model::line_cents(plan));
    let ghost counts = shown.map_values(|plan: PlanView| model::line_units(plan));
    let mut total_units: Option<u64> = Some(0);
    let mut total_cents: u64 = 0;
    let mut k: usize = 0;
    assert(cents.take(0) =~= Seq::<nat>::empty());
    assert(counts.take(0) =~= Seq::<nat>::empty());
    while k < report.returns.len()
        invariant
            k <= report.returns@.len() == places@.len(),
            shown == reconcile::plan_views(report.returns@),
            cents == shown.map_values(|plan: PlanView| model::line_cents(plan)),
            counts == shown.map_values(|plan: PlanView| model::line_units(plan)),
            forall|k: int|
                0 <= k < places@.len() ==> match #[trigger] places@[k] {
                    Some(p) => p < snapshot.returns@.len() && last_named(
                        snapshot@.returns,
                        report.returns@[k]@.return_id,
                        snapshot@.returns.len(),
                    ) == Some(snapshot.returns@[p as int]@),
                    None => last_named(
                        snapshot@.returns,
                        report.returns@[k]@.return_id,
                        snapshot@.returns.len(),
                    ) is None,
                },
            total_cents == seqs::sum(cents.take(k as int)),
            match total_units {
                Some(units) => units == seqs::sum(counts.take(k as int)),
                None => seqs::sum(counts.take(k as int)) > u64::MAX,
            },
            first_plan_fault(snapshot@, shown, k as nat) is None,
            report@.returns == shown,
            report.schema_version == SCHEMA_VERSION,
            report@.snapshot_id == snapshot@.snapshot_id,
            report.advisory_only,
            canonical_order(shown),
        decreases report.returns@.len() - k,
    {
        let plan = &report.returns[k];
        let ghost next = (k + 1) as nat;
        proof {
            assert(shown[k as int] == plan@);
            seqs::lemma_sum_take(cents, k as int);
            seqs::lemma_sum_take(counts, k as int);
            assert(cents.take(k as int) =~= shown.take(k as int).map_values(
                |plan: PlanView| model::line_cents(plan),
            ));
        }
        let ghost known = seqs::sum(counts.take(k as int));
        match check_plan(snapshot, plan, places[k], total_cents) {
            Ok(total) => {
                total_cents = total;
            },
            Err(fault) => {
                proof {
                    assert(first_plan_fault(snapshot@, shown, next) == Some(fault@));
                    lemma_plan_fault_stays(snapshot@, shown, next, shown.len());
                }
                return Err(fault);
            },
        }
        total_units = add_units(plan, total_units, Ghost(known));
        k = k + 1;
    }
    assert(cents.take(shown.len() as int) =~= cents);
    assert(counts.take(shown.len() as int) =~= counts);
    let units_agree = match total_units {
        Some(units) => units == report.summary.proposed_quantity,
        None => false,
    };
    if !units_agree || total_cents != report.summary.proposed_cents
        || report.summary.input_event_count != snapshot.events.len()
        || report.summary.return_count != snapshot.returns.len() {
        return Err("summary totals do not match report body".to_owned());
    }
    match reference_reconcile(snapshot) {
        Ok(expected) => {
            if !same_report(report, &expected) {
                return Err("report differs from independent reference calculation".to_owned());
            }
            Ok(())
        },
        Err(error) => Err(error),
    }
}

} // verus!
