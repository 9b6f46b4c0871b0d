//! Deliberately straightforward reference calculation.
//!
//! It does not call the candidate reconciler. It tallies identities, sorts the
//! events by return, repeatedly scans those of a return, counts its units anew for
//! every line and sums up pass by pass, favoring auditability over speed. Only the
//! lists of a return's corrected scans, lines and review codes are made as there.

use vstd::prelude::*;
use crate::refund::canonical;
use crate::refund::gather::scan_for_scans;
use crate::refund::model;
use crate::refund::model::{
    Flags, Report, ReportView, ReturnAuthorization, ReturnPlan, Snapshot, SnapshotView,
};
use crate::refund::order;
use crate::refund::order::order_returns;
use crate::refund::owned;
use crate::refund::payments;
use crate::refund::payments::scan_lines;
use crate::refund::reconcile;
use crate::refund::recount::recount;
use crate::refund::runs;
use crate::refund::runs::{events_of, is_touched, list_contested, sort_by_return};
use crate::refund::settle;
use crate::refund::tally::tally_identities;
use crate::refund::totals::sum_up;
use crate::refund::validate;
use crate::refund::validate::{return_texts, validate_snapshot};
use crate::sorting;
use crate::text;
use crate::text::rank_texts;

verus! {

/// Plans one return by repeated scans.
pub fn reference_return(
    snapshot: &Snapshot,
    authorization: &ReturnAuthorization,
    accepted: &Vec<usize>,
    mine: &Vec<usize>,
    conflict: bool,
) -> (plan: ReturnPlan)
    requires
        canonical::selects(accepted@, snapshot@.events),
        settle::sound(authorization@),
        owned::owns(mine@, snapshot@.events, authorization@.return_id),
        mine@.len() <= u32::MAX,
        payments::payments_name_lines(
            snapshot@.events,
            authorization@.return_id,
            authorization@.lines,
        ),
        conflict == model::conflict_touches(snapshot@.events, authorization@.return_id),
    ensures
        plan@ == model::plan_of(snapshot@.events, authorization@),
        plan.lines@.len() == authorization.lines@.len(),
{
    let ghost all = snapshot@.events;
    let ghost owner = authorization@.return_id;
    assert(canonical::views(snapshot.events@) == all);
    assert(settle::line_views(authorization.lines@) == authorization@.lines);
    let gathered = scan_for_scans(&snapshot.events, accepted, mine, Ghost(owner));
    let (blocks, contradictory) = scan_lines(
        &snapshot.events,
        mine,
        &authorization.lines,
        Ghost(owner),
    );
    let flags = Flags {
        conflicting_event_id: conflict,
        correction_return_mismatch: gathered.misdirected,
        excess_quantity: false,
        insufficient_whole_unit_capacity: false,
        non_later_correction: gathered.non_later,
        orphan_correction: gathered.orphaned,
        payment_already_successful: false,
        payment_amount_conflict: contradictory,
        payment_inconclusive: false,
        unauthorized_sku: false,
    };
    recount(authorization, &gathered.scans, &blocks, flags, Ghost(all))
}

/// Why the reference refuses a snapshot, if it does.
pub open spec fn reference_error(snapshot: SnapshotView) -> Option<Seq<char>> {
    match validate::snapshot_error(snapshot) {
        Some(error) => Some(error),
        None => if model::total_cents(model::plans_of(snapshot)) > u64::MAX {
            Some("report proposed cents overflow"@)
        } else {
            None
        },
    }
}

/// What the reference answers: a report, or why there is none.
pub open spec fn reference_outcome(snapshot: SnapshotView) -> Result<ReportView, Seq<char>> {
    match reference_error(snapshot) {
        Some(error) => Err(error),
        None => Ok(model::report_of(snapshot)),
    }
}

/// Calculates the same report with an intentionally separate, scan-oriented algorithm.
pub fn reference_reconcile(snapshot: &Snapshot) -> (result: Result<Report, String>)
    requires
        reconcile::countable(snapshot@),
    ensures
        match result {
            Ok(report) => reference_outcome(snapshot@) == Ok::<ReportView, Seq<char>>(report@),
            Err(error) => reference_outcome(snapshot@) == Err::<ReportView, Seq<char>>(error@),
        },
{
    let ghost shown = snapshot@;
    if let Some(error) = validate_snapshot(snapshot) {
        return Err(error);
    }
    assert(canonical::views(snapshot.events@) == shown.events);
    proof {
        validate::lemma_interpretable(shown);
    }
    let canonical = tally_identities(&snapshot.events);
    let ids = return_texts(snapshot);
    let ranks = rank_texts(&ids);
    let base: usize = snapshot.returns.len();
    let order = order_returns(snapshot, &ranks, Ghost(ids@));
    let ghost owners = ranks@.skip(base as int);
    let contested = list_contested(&canonical.clear);
    proof {
        assert forall|k: int| 0 <= k < canonical.accepted@.len() implies base + (
        #[trigger] canonical.accepted@[k]) < ranks@.len() by {
            assert(canonical.accepted@[k] < shown.events.len());
        }
        assert forall|k: int| 0 <= k < contested@.len() implies (#[trigger] contested@[k])
            < shown.events.len() && model::conflicted(
            shown.events,
            shown.events[contested@[k] as int].id(),
        ) by {
            assert(!canonical.clear@[contested@[k] as int]);
        }
        assert forall|i: int|
            0 <= i < shown.events.len() && model::conflicted(
                shown.events,
                (#[trigger] shown.events[i]).id(),
            ) implies contested@.contains(i as usize) by {
            assert(!canonical.clear@[i]);
        }
    }
    let runs = sort_by_return(&canonical.accepted, &ranks, base);
    let conflicts = sort_by_return(&contested, &ranks, base);
    let mut plans: Vec<ReturnPlan> = Vec::new();
    while plans.len() < order.len()
        invariant
            plans@.len() <= order@.len(),
            shown == snapshot@,
            reconcile::countable(shown),
            validate::interpretable(shown),
            order::return_order(order@, shown),
            base == shown.returns.len() == snapshot.returns@.len(),
            shown.events.len() == snapshot.events@.len(),
            ids@.len() == base + shown.events.len(),
            text::ranks_of(ranks@, ids@),
            forall|i: int| 0 <= i < base ==> (#[trigger] ids@[i])@ == shown.returns[i].return_id,
            forall|j: int|
                0 <= j < shown.events.len() ==> ids@[base + j]@ == (
                #[trigger] shown.events[j]).owner(),
            owners == ranks@.skip(base as int),
            canonical::selects(canonical.accepted@, shown.events),
            sorting::orders(runs@, runs::keys_of(canonical.accepted@, owners)),
            sorting::orders(conflicts@, runs::keys_of(contested@, owners)),
            forall|k: int|
                0 <= k < contested@.len() ==> (#[trigger] contested@[k]) < shown.events.len()
                    && model::conflicted(
                    shown.events,
                    shown.events[contested@[k] as int].id(),
                ),
            forall|i: int|
                0 <= i < shown.events.len() && model::conflicted(
                    shown.events,
                    (#[trigger] shown.events[i]).id(),
                ) ==> contested@.contains(i as usize),
            forall|j: int|
                0 <= j < plans@.len() ==> (#[trigger] plans@[j])@ == model::plan_of(
                    shown.events,
                    shown.returns[order@[j] as int],
                ),
            forall|j: int| 0 <= j < plans@.len() ==> (#[trigger] plans@[j]).lines@.len() <= 12,
        decreases order@.len() - plans@.len(),
    {
        let place = order[plans.len()];
        let authorization = &snapshot.returns[place];
        assert(shown.returns[place as int] == authorization@);
        let rank = ranks[place];
        let ghost owner = authorization@.return_id;
        proof {
            assert(ids@[place as int]@ == owner);
            assert forall|j: int| 0 <= j < shown.events.len() implies ((#[trigger] owners[j])
                == rank <==> shown.events[j].owner() == owner) by {
                assert(ranks@[base + j] == owners[j]);
                assert(ids@[base + j]@ == shown.events[j].owner());
            }
            assert(settle::sound(shown.returns[place as int]));
        }
        let mine = events_of(
            &runs,
            &canonical.accepted,
            rank,
            Ghost(owners),
            Ghost(shown.events),
            Ghost(owner),
        );
        let conflict = is_touched(
            &conflicts,
            rank,
            Ghost(contested@),
            Ghost(owners),
            Ghost(shown.events),
            Ghost(owner),
        );
        proof {
            reconcile::lemma_owned_count(mine@, shown.events, owner);
        }
        let plan = reference_return(
            snapshot,
            authorization,
            &canonical.accepted,
            &mine,
            conflict,
        );
        plans.push(plan);
    }
    proof {
        reconcile::lemma_plans_in_order(shown, order@, reconcile::plan_views(plans@));
    }
    sum_up(snapshot, canonical, plans)
}

} // verus!
