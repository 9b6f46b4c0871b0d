//! The summing up of the reference: one pass over the plans for each total.

use vstd::prelude::*;
use crate::refund::canonical;
use crate::refund::canonical::Canonical;
use crate::refund::model;
use crate::refund::model::{
    AccountingView, LinePlanView, PlanView, Report, ReturnPlan, Snapshot, Summary, SCHEMA_VERSION,
};
use crate::refund::reconcile;
use crate::seqs;
use crate::text::same_text;

verus! {

/// Plans of at most twelve lines each, so few that their units can be summed.
spec fn few(plans: Seq<ReturnPlan>) -> bool {
    &&& plans.len() * 12 * u32::MAX <= u64::MAX
    &&& forall|k: int| 0 <= k < plans.len() ==> (#[trigger] plans[k]).lines@.len() <= 12
}

/// The cents that all plans propose.
fn cents_of_all(plans: &Vec<ReturnPlan>) -> (cents: u128)
    requires
        few(plans@),
    ensures
        cents == model::total_cents(reconcile::plan_views(plans@)),
{
    let ghost shown = reconcile::plan_views(plans@);
    let ghost sums = shown.map_values(|plan: PlanView| model::line_cents(plan));
    let mut cents: u128 = 0;
    let mut k: usize = 0;
    assert(sums.take(0) =~= Seq::<nat>::empty());
    while k < plans.len()
        invariant
            k <= plans@.len() == sums.len(),
            few(plans@),
            shown == reconcile::plan_views(plans@),
            forall|j: int|
                0 <= j < sums.len() ==> #[trigger] sums[j] == model::line_cents(shown[j]),
            cents == seqs::sum(sums.take(k as int)),
            cents <= k * 12 * 0xffff_ffff_ffff_ffff,
        decreases plans@.len() - k,
    {
        let plan = &plans[k];
        let ghost before = cents;
        let ghost terms = plan@.lines.map_values(|line: LinePlanView| line.proposed_cents);
        assert(plan.lines@.len() <= 12);
        let mut l: usize = 0;
        assert(terms.take(0) =~= Seq::<nat>::empty());
        while l < plan.lines.len()
            invariant
                l <= plan.lines@.len() <= 12,
                k < 0xffff_ffff,
                before <= k * 12 * 0xffff_ffff_ffff_ffff,
                terms == plan@.lines.map_values(|line: LinePlanView| line.proposed_cents),
                cents == before + seqs::sum(terms.take(l as int)),
                cents <= before + l * 0xffff_ffff_ffff_ffff,
            decreases plan.lines@.len() - l,
        {
            proof {
                seqs::lemma_sum_take(terms, l as int);
                assert(plan@.lines[l as int] == plan.lines@[l as int]@);
            }
            cents = cents + plan.lines[l].proposed_cents as u128;
            l = l + 1;
        }
        proof {
            assert(terms.take(plan.lines@.len() as int) =~= terms);
            assert(shown[k as int] == plan@);
            seqs::lemma_sum_take(sums, k as int);
        }
        k = k + 1;
    }
    assert(sums.take(plans@.len() as int) =~= sums);
    cents
}

/// The units that all plans propose.
fn units_of_all(plans: &Vec<ReturnPlan>) -> (units: u64)
    requires
        few(plans@),
    ensures
        units == model::total_units(reconcile::plan_views(plans@)),
{
    let ghost shown = reconcile::plan_views(plans@);
    let ghost sums = shown.map_values(|plan: PlanView| model::line_units(plan));
    let mut units: u64 = 0;
    let mut k: usize = 0;
    assert(sums.take(0) =~= Seq::<nat>::empty());
    while k < plans.len()
        invariant
            k <= plans@.len() == sums.len(),
            few(plans@),
            shown == reconcile::plan_views(plans@),
            forall|j: int|
                0 <= j < sums.len() ==> #[trigger] sums[j] == model::line_units(shown[j]),
            units == seqs::sum(sums.take(k as int)),
            units <= k * 12 * 0xffff_ffff,
        decreases plans@.len() - k,
    {
        let plan = &plans[k];
        let ghost before = units;
        let ghost terms = plan@.lines.map_values(|line: LinePlanView| line.proposed_quantity);
        assert(plan.lines@.len() <= 12);
        let mut l: usize = 0;
        assert(terms.take(0) =~= Seq::<nat>::empty());
        while l < plan.lines.len()
            invariant
                l <= plan.lines@.len() <= 12,
                (k + 1) * 12 * 0xffff_ffff <= u64::MAX,
                before <= k * 12 * 0xffff_ffff,
                terms == plan@.lines.map_values(|line: LinePlanView| line.proposed_quantity),
                units == before + seqs::sum(terms.take(l as int)),
                units <= before + l * 0xffff_ffff,
            decreases plan.lines@.len() - l,
        {
            proof {
                seqs::lemma_sum_take(terms, l as int);
                assert(plan@.lines[l as int] == plan.lines@[l as int]@);
            }
            units = units + plan.lines[l].proposed_quantity as u64;
            l = l + 1;
        }
        proof {
            assert(terms.take(plan.lines@.len() as int) =~= terms);
            assert(shown[k as int] == plan@);
            seqs::lemma_sum_take(sums, k as int);
        }
        k = k + 1;
    }
    assert(sums.take(plans@.len() as int) =~= sums);
    units
}

/// How many returns go to review.
fn count_reviews(plans: &Vec<ReturnPlan>) -> (count: usize)
    ensures
        count == reconcile::plan_views(plans@).filter(
            |plan: PlanView| plan.disposition == "review"@,
        ).len(),
{
    let ghost shown = reconcile::plan_views(plans@);
    let ghost is_reviewed = |plan: PlanView| plan.disposition == "review"@;
    let mut count: usize = 0;
    let mut k: usize = 0;
    proof {
        reveal(Seq::filter);
        assert(shown.take(0) =~= Seq::<PlanView>::empty());
    }
    while k < plans.len()
        invariant
            k <= plans@.len(),
            shown == reconcile::plan_views(plans@),
            is_reviewed == (|plan: PlanView| plan.disposition == "review"@),
            count == shown.take(k as int).filter(is_reviewed).len(),
            count <= k,
        decreases plans@.len() - k,
    {
        proof {
            assert(shown[k as int] == plans@[k as int]@);
            seqs::lemma_filter_step(shown, is_reviewed, k as int);
        }
        if same_text(plans[k].disposition.as_str(), "review") {
            count = count + 1;
        }
        k = k + 1;
    }
    assert(shown.take(plans@.len() as int) =~= shown);
    count
}

/// Sums up the plans of a snapshot into its report.
pub fn sum_up(snapshot: &Snapshot, canonical: Canonical, plans: Vec<ReturnPlan>) -> (result: Result<
    Report,
    String,
>)
    requires
        reconcile::countable(snapshot@),
        canonical.describes(snapshot@.events),
        reconcile::plan_views(plans@) == model::plans_of(snapshot@),
        plans@.len() <= snapshot@.returns.len(),
        forall|k: int| 0 <= k < plans@.len() ==> (#[trigger] plans@[k]).lines@.len() <= 12,
    ensures
        match result {
            Ok(report) => model::total_cents(model::plans_of(snapshot@)) <= u64::MAX && report@
                == model::report_of(snapshot@),
            Err(error) => model::total_cents(model::plans_of(snapshot@)) > u64::MAX && error@
                == "report proposed cents overflow"@,
        },
{
    assert(plans@.len() * 12 * u32::MAX <= snapshot@.returns.len() * 12 * u32::MAX);
    let cents: u128 = cents_of_all(&plans);
    if cents > u64::MAX as u128 {
        return Err("report proposed cents overflow".to_owned());
    }
    let summary = Summary {
        return_count: plans.len(),
        input_event_count: snapshot.events.len(),
        accepted_unique_events: canonical.accepted.len(),
        exact_duplicate_events: canonical.exact_duplicates,
        conflicting_event_ids: canonical.conflicts,
        review_returns: count_reviews(&plans),
        proposed_quantity: units_of_all(&plans),
        proposed_cents: cents as u64,
    };
    let report = Report {
        schema_version: SCHEMA_VERSION,
        snapshot_id: snapshot.snapshot_id.clone(),
        advisory_only: true,
        summary,
        event_accounting: canonical.event_accounting,
        returns: plans,
    };
    proof {
        let expected = model::report_of(snapshot@);
        let rows = model::accounting_of(snapshot@.events);
        assert(rows.map_values(|row: AccountingView| canonical::retries(row)) =~= rows.map_values(
            |row: AccountingView|
                if row.disposition == "quarantined_conflict"@ {
                    0nat
                } else {
                    (row.input_occurrences - 1) as nat
                },
        ));
        assert(report@.event_accounting == expected.event_accounting);
        assert(report@.returns == expected.returns);
        assert(report@.summary == expected.summary);
    }
    Ok(report)
}

} // verus!
