//! The candidate reconciler: search and grouping instead of repeated scans.

use vstd::prelude::*;
use crate::refund::canonical;
use crate::refund::canonical::{canonicalize_events, Canonical};
use crate::refund::gather::gather_scans;
use crate::refund::model;
use crate::refund::model::{
    AccountingView, Event, EventView, Flags, LinePlanView, PlanView, Report, ReportView, ReturnAuthorization,
    ReturnPlan, Snapshot, SnapshotView, Summary, SCHEMA_VERSION,
};
use crate::refund::order;
use crate::refund::order::order_returns;
use crate::refund::owned;
use crate::refund::payments;
use crate::refund::payments::judge_lines;
use crate::refund::settle;
use crate::refund::settle::settle;
use crate::refund::validate;
use crate::refund::validate::{return_texts, validate_snapshot};
use crate::seqs;
use crate::text;
use crate::text::{rank_texts, same_text};

verus! {

/// The events of each return, and whether a conflict touches it.
pub struct Partition {
    /// The places of the authorizations in identity order.
    pub order: Vec<usize>,
    /// The number that stands for the identity of each authorization.
    pub ranks: Vec<usize>,
    /// For every number, the places of the trusted events of that return.
    pub events: Vec<Vec<usize>>,
    /// For every number, whether a contested event belongs to that return.
    pub touched: Vec<bool>,
}

impl Partition {
    pub open spec fn describes(self, snapshot: SnapshotView) -> bool {
        let n = snapshot.returns.len();
        &&& self.ranks@.len() == n
        &&& self.events@.len() == self.touched@.len()
        &&& forall|i: int|
            0 <= i < n ==> (#[trigger] self.ranks@[i]) < self.events@.len() && owned::owns(
                self.events@[self.ranks@[i] as int]@,
                snapshot.events,
                snapshot.returns[i].return_id,
            ) && self.touched@[self.ranks@[i] as int] == model::conflict_touches(
                snapshot.events,
                snapshot.returns[i].return_id,
            )
        &&& order::return_order(self.order@, snapshot)
    }
}

/// The members of one bucket, out of the first `k` accepted places.
spec fn bucket_of(
    bucket: Seq<usize>,
    accepted: Seq<usize>,
    owners: Seq<usize>,
    events: Seq<EventView>,
    rank: int,
    k: int,
) -> bool {
    &&& forall|x: int|
        0 <= x < bucket.len() ==> exists|y: int|
            0 <= y < k && #[trigger] accepted[y] == #[trigger] bucket[x] && owners[bucket[x] as int]
                == rank
    &&& forall|a: int, b: int|
        0 <= a < b < bucket.len() ==> text::text_lt(
            events[#[trigger] bucket[a] as int].id(),
            events[#[trigger] bucket[b] as int].id(),
        )
    &&& forall|y: int|
        0 <= y < k && owners[#[trigger] accepted[y] as int] == rank ==> bucket.contains(accepted[y])
}

proof fn lemma_bucket_step(
    before: Seq<usize>,
    accepted: Seq<usize>,
    owners: Seq<usize>,
    events: Seq<EventView>,
    rank: int,
    k: int,
)
    requires
        canonical::selects(accepted, events),
        0 <= k < accepted.len(),
        owners.len() == events.len(),
        bucket_of(before, accepted, owners, events, rank, k),
    ensures
        owners[accepted[k] as int] == rank ==> bucket_of(
            before.push(accepted[k]),
            accepted,
            owners,
            events,
            rank,
            k + 1,
        ),
        owners[accepted[k] as int] != rank ==> bucket_of(
            before,
            accepted,
            owners,
            events,
            rank,
            k + 1,
        ),
{
    if owners[accepted[k] as int] == rank {
        let after = before.push(accepted[k]);
        assert forall|x: int| 0 <= x < after.len() implies exists|y: int|
            0 <= y < k + 1 && #[trigger] accepted[y] == #[trigger] after[x]
                && owners[after[x] as int] == rank by {
            if x < before.len() {
                let y = choose|y: int|
                    0 <= y < k && #[trigger] accepted[y] == before[x] && owners[before[x] as int]
                        == rank;
                assert(accepted[y] == after[x]);
            } else {
                assert(accepted[k] == after[x]);
            }
        }
        assert forall|a: int, b: int| 0 <= a < b < after.len() implies text::text_lt(
            events[#[trigger] after[a] as int].id(),
            events[#[trigger] after[b] as int].id(),
        ) by {
            if b == before.len() {
                let y = choose|y: int|
                    0 <= y < k && #[trigger] accepted[y] == before[a] && owners[before[a] as int]
                        == rank;
                assert(text::text_lt(
                    events[accepted[y] as int].id(),
                    events[accepted[k] as int].id(),
                ));
            }
        }
        assert forall|y: int|
            0 <= y < k + 1 && owners[#[trigger] accepted[y] as int] == rank implies after.contains(
            accepted[y],
        ) by {
            if y < k {
                assert(before.contains(accepted[y]));
                let x = choose|x: int| 0 <= x < before.len() && before[x] == accepted[y];
                assert(after[x] == accepted[y]);
            } else {
                assert(after[before.len() as int] == accepted[y]);
            }
        }
    } else {
        assert forall|x: int| 0 <= x < before.len() implies exists|y: int|
            0 <= y < k + 1 && #[trigger] accepted[y] == #[trigger] before[x]
                && owners[before[x] as int] == rank by {
            let y = choose|y: int|
                0 <= y < k && #[trigger] accepted[y] == before[x] && owners[before[x] as int]
                    == rank;
            assert(accepted[y] == before[x]);
        }
    }
}

proof fn lemma_bucket_owns(
    bucket: Seq<usize>,
    accepted: Seq<usize>,
    owners: Seq<usize>,
    events: Seq<EventView>,
    rank: int,
    id: Seq<char>,
)
    requires
        canonical::selects(accepted, events),
        owners.len() == events.len(),
        bucket_of(bucket, accepted, owners, events, rank, accepted.len() as int),
        forall|j: int|
            0 <= j < events.len() ==> ((#[trigger] owners[j]) == rank <==> events[j].owner() == id),
    ensures
        owned::owns(bucket, events, id),
{
    assert forall|k: int| 0 <= k < bucket.len() implies (#[trigger] bucket[k]) < events.len()
        && model::trusted(events, events[bucket[k] as int]) && events[bucket[k] as int].owner() == id by {
        let y = choose|y: int|
            0 <= y < accepted.len() && #[trigger] accepted[y] == bucket[k]
                && owners[bucket[k] as int] == rank;
        assert(model::trusted(events, events[accepted[y] as int]));
        assert(owners[bucket[k] as int] == rank);
    }
    assert forall|event: EventView| #[trigger]
        model::trusted(events, event) && event.owner() == id implies owned::owned(bucket, events, event) by {
        let y = choose|y: int|
            0 <= y < accepted.len() && events[#[trigger] accepted[y] as int] == event;
        assert(owners[accepted[y] as int] == rank);
        assert(bucket.contains(accepted[y]));
        let x = choose|x: int| 0 <= x < bucket.len() && bucket[x] == accepted[y];
        assert(events[bucket[x] as int] == event);
    }
}

/// Groups the trusted events by return.
fn partition(snapshot: &Snapshot, canonical: &Canonical) -> (partition: Partition)
    requires
        validate::interpretable(snapshot@),
        canonical.describes(snapshot@.events),
    ensures
        partition.describes(snapshot@),
{
    let ghost shown = snapshot@;
    let ids = return_texts(snapshot);
    let all_ranks = rank_texts(&ids);
    let base = snapshot.returns.len();
    let order = order_returns(snapshot, &all_ranks, Ghost(ids@));
    let ghost owners = all_ranks@.skip(base as int);
    let mut ranks: Vec<usize> = Vec::new();
    let mut events: Vec<Vec<usize>> = Vec::new();
    let mut touched: Vec<bool> = Vec::new();
    let mut i: usize = 0;
    while i < all_ranks.len()
        invariant
            i <= all_ranks@.len(),
            base <= all_ranks@.len(),
            events@.len() == i,
            touched@.len() == i,
            forall|r: int| 0 <= r < i ==> (#[trigger] events@[r])@.len() == 0,
            forall|r: int| 0 <= r < i ==> !#[trigger] touched@[r],
            ranks@ =~= all_ranks@.take(if i <= base {
                i as int
            } else {
                base as int
            }),
        decreases all_ranks@.len() - i,
    {
        events.push(Vec::new());
        touched.push(false);
        if i < base {
            ranks.push(all_ranks[i]);
        }
        i = i + 1;
    }
    let mut k: usize = 0;
    while k < canonical.accepted.len()
        invariant
            k <= canonical.accepted@.len(),
            shown == snapshot@,
            canonical::selects(canonical.accepted@, shown.events),
            all_ranks@.len() == base + shown.events.len(),
            forall|i: int|
                0 <= i < all_ranks@.len() ==> (#[trigger] all_ranks@[i]) < all_ranks@.len(),
            owners == all_ranks@.skip(base as int),
            events@.len() == all_ranks@.len(),
            forall|r: int|
                0 <= r < events@.len() ==> bucket_of(
                    (#[trigger] events@[r])@,
                    canonical.accepted@,
                    owners,
                    shown.events,
                    r,
                    k as int,
                ),
        decreases canonical.accepted@.len() - k,
    {
        let place = canonical.accepted[k];
        let bound = all_ranks.len();
        assert(base + place < bound);
        let rank = all_ranks[base + place];
        assert(owners[place as int] == rank);
        let ghost before = events@;
        events[rank].push(place);
        proof {
            assert forall|r: int| 0 <= r < events@.len() implies bucket_of(
                (#[trigger] events@[r])@,
                canonical.accepted@,
                owners,
                shown.events,
                r,
                k + 1,
            ) by {
                lemma_bucket_step(
                    before[r]@,
                    canonical.accepted@,
                    owners,
                    shown.events,
                    r,
                    k as int,
                );
            }
        }
        k = k + 1;
    }
    let mut j: usize = 0;
    while j < snapshot.events.len()
        invariant
            j <= snapshot.events@.len() == shown.events.len(),
            shown == snapshot@,
            canonical.describes(shown.events),
            all_ranks@.len() == base + shown.events.len(),
            forall|i: int|
                0 <= i < all_ranks@.len() ==> (#[trigger] all_ranks@[i]) < all_ranks@.len(),
            owners == all_ranks@.skip(base as int),
            touched@.len() == all_ranks@.len(),
            forall|r: int|
                0 <= r < touched@.len() ==> (#[trigger] touched@[r]) == exists|x: int|
                    0 <= x < j && (#[trigger] owners[x]) == r && model::conflicted(
                        shown.events,
                        shown.events[x].id(),
                    ),
        decreases snapshot.events@.len() - j,
    {
        let ghost before = touched@;
        let bound = all_ranks.len();
        assert(base + j < bound);
        let rank = all_ranks[base + j];
        assert(owners[j as int] == rank);
        if !canonical.clear[j] {
            touched.set(rank, true);
        }
        proof {
            assert forall|r: int| 0 <= r < touched@.len() implies (#[trigger] touched@[r])
                == exists|x: int|
                0 <= x < j + 1 && (#[trigger] owners[x]) == r && model::conflicted(
                    shown.events,
                    shown.events[x].id(),
                ) by {
                if before[r] {
                    let x = choose|x: int|
                        0 <= x < j && (#[trigger] owners[x]) == r && model::conflicted(
                            shown.events,
                            shown.events[x].id(),
                        );
                    assert(owners[x] == r);
                }
                let here = owners[j as int];
            }
        }
        j = j + 1;
    }
    let partition = Partition { order, ranks, events, touched };
    proof {
        assert forall|i: int| 0 <= i < base implies (#[trigger] partition.ranks@[i])
            < partition.events@.len() && owned::owns(
            partition.events@[partition.ranks@[i] as int]@,
            shown.events,
            shown.returns[i].return_id,
        ) && partition.touched@[partition.ranks@[i] as int] == model::conflict_touches(
            shown.events,
            shown.returns[i].return_id,
        ) by {
            let rank = partition.ranks@[i] as int;
            let id = shown.returns[i].return_id;
            assert(all_ranks@[i] == rank);
            assert(ids@[i]@ == id);
            assert forall|x: int| 0 <= x < shown.events.len() implies ((#[trigger] owners[x])
                == rank <==> shown.events[x].owner() == id) by {
                assert(all_ranks@[base + x] == owners[x]);
                assert(ids@[base + x]@ == shown.events[x].owner());
            }
            assert(bucket_of(
                partition.events@[rank]@,
                canonical.accepted@,
                owners,
                shown.events,
                rank,
                canonical.accepted@.len() as int,
            ));
            lemma_bucket_owns(
                partition.events@[rank]@,
                canonical.accepted@,
                owners,
                shown.events,
                rank,
                id,
            );
            if partition.touched@[rank] {
                let x = choose|x: int|
                    0 <= x < shown.events.len() && (#[trigger] owners[x]) == rank && model::conflicted(
                        shown.events,
                        shown.events[x].id(),
                    );
                assert(shown.events[x].owner() == id);
            }
            if model::conflict_touches(shown.events, id) {
                let x = choose|x: int|
                    0 <= x < shown.events.len() && (#[trigger] shown.events[x]).owner() == id
                        && model::conflicted(shown.events, shown.events[x].id());
                assert(owners[x] == rank);
            }
        }
    }
    partition
}

/// Plans one return from its events.
pub fn plan_return(
    snapshot: &Snapshot,
    authorization: &ReturnAuthorization,
    accepted: &Vec<usize>,
    mine: &Vec<usize>,
    conflict: bool,
) -> (plan: ReturnPlan)
    requires
        canonical::selects(accepted@, snapshot@.events),
        settle::sound(authorization@),
        owned::owns(mine@, snapshot@.events, authorization@.return_id),
        mine@.len() <= u32::MAX,
        payments::payments_name_lines(
            snapshot@.events,
            authorization@.return_id,
            authorization@.lines,
        ),
        conflict == model::conflict_touches(snapshot@.events, authorization@.return_id),
    ensures
        plan@ == model::plan_of(snapshot@.events, authorization@),
        plan.lines@.len() == authorization.lines@.len(),
{
    let ghost all = snapshot@.events;
    let ghost owner = authorization@.return_id;
    assert(canonical::views(snapshot.events@) == all);
    assert(settle::line_views(authorization.lines@) == authorization@.lines);
    let gathered = gather_scans(&snapshot.events, accepted, mine, Ghost(owner));
    let (blocks, contradictory) = judge_lines(
        &snapshot.events,
        mine,
        &authorization.lines,
        Ghost(owner),
    );
    let flags = Flags {
        conflicting_event_id: conflict,
        correction_return_mismatch: gathered.misdirected,
        excess_quantity: false,
        insufficient_whole_unit_capacity: false,
        non_later_correction: gathered.non_later,
        orphan_correction: gathered.orphaned,
        payment_already_successful: false,
        payment_amount_conflict: contradictory,
        payment_inconclusive: false,
        unauthorized_sku: false,
    };
    settle(
        authorization,
        &gathered.scans,
        &blocks,
        flags,
        Ghost(all),
    )
}

/// The sizes that a machine can count with: a return has at most twelve lines
/// of 32-bit quantities, and quantities of events are summed in 64 bits.
pub open spec fn countable(snapshot: SnapshotView) -> bool {
    snapshot.returns.len() * 12 * u32::MAX <= u64::MAX && snapshot.events.len() <= u32::MAX
}

/// Why reconciliation is refused, if it is.
pub open spec fn reconcile_error(snapshot: SnapshotView) -> Option<Seq<char>> {
    match validate::snapshot_error(snapshot) {
        Some(error) => Some(error),
        None => if exists|i: int|
            0 <= i < snapshot.events.len() && (#[trigger] snapshot.events[i]).id().len() == 0 {
            Some("event_id must not be empty"@)
        } else if model::total_cents(model::plans_of(snapshot)) > u64::MAX {
            Some("report proposed cents overflow"@)
        } else {
            None
        },
    }
}

/// What reconciliation answers: a report, or why there is none.
pub open spec fn outcome(snapshot: SnapshotView) -> Result<ReportView, Seq<char>> {
    match reconcile_error(snapshot) {
        Some(error) => Err(error),
        None => Ok(model::report_of(snapshot)),
    }
}

pub open spec fn plan_views(plans: Seq<ReturnPlan>) -> Seq<PlanView> {
    plans.map_values(|plan: ReturnPlan| plan@)
}

/// The cents that a plan proposes, unless 64 bits do not hold them together
/// with `total`.
pub fn add_line_cents(plan: &ReturnPlan, total: u64) -> (sum: Option<u64>)
    ensures
        match sum {
            Some(sum) => sum == total + model::line_cents(plan@),
            None => total + model::line_cents(plan@) > u64::MAX,
        },
{
    let ghost terms = plan@.lines.map_values(|line: LinePlanView| line.proposed_cents);
    let mut sum: u64 = total;
    let mut k: usize = 0;
    assert(terms.take(0) =~= Seq::<nat>::empty());
    while k < plan.lines.len()
        invariant
            k <= plan.lines@.len(),
            terms == plan@.lines.map_values(|line: LinePlanView| line.proposed_cents),
            sum == total + crate::seqs::sum(terms.take(k as int)),
        decreases plan.lines@.len() - k,
    {
        proof {
            seqs::lemma_sum_take(terms, k as int);
            assert(plan@.lines[k as int] == plan.lines@[k as int]@);
        }
        match sum.checked_add(plan.lines[k].proposed_cents) {
            Some(next) => {
                sum = next;
            },
            None => {
                return None;
            },
        }
        k = k + 1;
    }
    assert(terms.take(plan.lines@.len() as int) =~= terms);
    Some(sum)
}

/// The units that a plan proposes.
fn count_units(plan: &ReturnPlan) -> (units: u64)
    requires
        plan.lines@.len() <= 12,
    ensures
        units == model::line_units(plan@),
        units <= 12 * 0xffff_ffff,
{
    let ghost terms = plan@.lines.map_values(|line: LinePlanView| line.proposed_quantity);
    let mut units: u64 = 0;
    let mut k: usize = 0;
    assert(terms.take(0) =~= Seq::<nat>::empty());
    while k < plan.lines.len()
        invariant
            k <= plan.lines@.len() <= 12,
            terms == plan@.lines.map_values(|line: LinePlanView| line.proposed_quantity),
            units == seqs::sum(terms.take(k as int)),
            units <= k * 0xffff_ffff,
        decreases plan.lines@.len() - k,
    {
        proof {
            seqs::lemma_sum_take(terms, k as int);
            assert(plan@.lines[k as int] == plan.lines@[k as int]@);
        }
        units = units + plan.lines[k].proposed_quantity as u64;
        k = k + 1;
    }
    assert(terms.take(plan.lines@.len() as int) =~= terms);
    units
}

/// Cents, units and reviewed returns over all plans.
struct Totals {
    cents: u64,
    units: u64,
    reviewed: usize,
}

/// Sums over the plans, unless 64 bits do not hold the cents.
fn sum_plans(plans: &Vec<ReturnPlan>) -> (totals: Option<Totals>)
    requires
        plans@.len() * 12 * u32::MAX <= u64::MAX,
        forall|k: int| 0 <= k < plans@.len() ==> (#[trigger] plans@[k]).lines@.len() <= 12,
    ensures
        match totals {
            Some(totals) => {
                &&& totals.cents == model::total_cents(plan_views(plans@))
                &&& totals.units == model::total_units(plan_views(plans@))
                &&& totals.reviewed == plan_views(plans@).filter(
                    |plan: PlanView| plan.disposition == "review"@,
                ).len()
            },
            None => model::total_cents(plan_views(plans@)) > u64::MAX,
        },
{
    let ghost shown = plan_views(plans@);
    let ghost cents = shown.map_values(|plan: PlanView| model::line_cents(plan));
    let ghost units = shown.map_values(|plan: PlanView| model::line_units(plan));
    let ghost is_reviewed = |plan: PlanView| plan.disposition == "review"@;
    let mut proposed_cents: u64 = 0;
    let mut proposed_quantity: u64 = 0;
    let mut reviewed: usize = 0;
    let mut k: usize = 0;
    proof {
        reveal(Seq::filter);
        assert(cents.take(0) =~= Seq::<nat>::empty());
        assert(units.take(0) =~= Seq::<nat>::empty());
        assert(shown.take(0) =~= Seq::<PlanView>::empty());
    }
    while k < plans.len()
        invariant
            k <= plans@.len(),
            plans@.len() * 12 * u32::MAX <= u64::MAX,
            shown == plan_views(plans@),
            cents.len() == plans@.len(),
            units.len() == plans@.len(),
            forall|j: int| 0 <= j < plans@.len() ==> #[trigger] cents[j] == model::line_cents(shown[j]),
            forall|j: int| 0 <= j < plans@.len() ==> #[trigger] units[j] == model::line_units(shown[j]),
            is_reviewed == (|plan: PlanView| plan.disposition == "review"@),
            forall|k: int| 0 <= k < plans@.len() ==> (#[trigger] plans@[k]).lines@.len() <= 12,
            seqs::sum(cents) == model::total_cents(shown),
            proposed_cents == seqs::sum(cents.take(k as int)),
            proposed_quantity == seqs::sum(units.take(k as int)),
            proposed_quantity <= k * 51_539_607_540,
            reviewed == shown.take(k as int).filter(is_reviewed).len(),
            reviewed <= k,
        decreases plans@.len() - k,
    {
        let plan = &plans[k];
        proof {
            assert(shown[k as int] == plan@);
            seqs::lemma_sum_take(cents, k as int);
            seqs::lemma_sum_take(units, k as int);
            seqs::lemma_filter_step(shown, is_reviewed, k as int);
        }
        match add_line_cents(plan, proposed_cents) {
            Some(total) => {
                proposed_cents = total;
            },
            None => {
                return None;
            },
        }
        proposed_quantity = proposed_quantity + count_units(plan);
        if same_text(plan.disposition.as_str(), "review") {
            reviewed = reviewed + 1;
        }
        k = k + 1;
    }
    proof {
        assert(cents.take(plans@.len() as int) =~= cents);
        assert(units.take(plans@.len() as int) =~= units);
        assert(shown.take(plans@.len() as int) =~= shown);
    }
    Some(Totals { cents: proposed_cents, units: proposed_quantity, reviewed })
}

/// Sums up the plans of a snapshot into its report.
fn assemble(
    snapshot: &Snapshot,
    canonical: Canonical,
    plans: Vec<ReturnPlan>,
) -> (result: Result<Report, String>)
    requires
        countable(snapshot@),
        canonical.describes(snapshot@.events),
        plan_views(plans@) == model::plans_of(snapshot@),
        plans@.len() <= snapshot@.returns.len(),
        forall|k: int| 0 <= k < plans@.len() ==> (#[trigger] plans@[k]).lines@.len() <= 12,
    ensures
        match result {
            Ok(report) => model::total_cents(model::plans_of(snapshot@)) <= u64::MAX && report@
                == model::report_of(snapshot@),
            Err(error) => model::total_cents(model::plans_of(snapshot@)) > u64::MAX && error@
                == "report proposed cents overflow"@,
        },
{
    let totals = match sum_plans(&plans) {
        Some(totals) => totals,
        None => {
            return Err("report proposed cents overflow".to_owned());
        },
    };
    let summary = Summary {
        return_count: plans.len(),
        input_event_count: snapshot.events.len(),
        accepted_unique_events: canonical.accepted.len(),
        exact_duplicate_events: canonical.exact_duplicates,
        conflicting_event_ids: canonical.conflicts,
        review_returns: totals.reviewed,
        proposed_quantity: totals.units,
        proposed_cents: totals.cents,
    };
    let report = Report {
        schema_version: SCHEMA_VERSION,
        snapshot_id: snapshot.snapshot_id.clone(),
        advisory_only: true,
        summary,
        event_accounting: canonical.event_accounting,
        returns: plans,
    };
    proof {
        let expected = model::report_of(snapshot@);
        let rows = model::accounting_of(snapshot@.events);
        assert(rows.map_values(|row: AccountingView| canonical::retries(row)) =~= rows.map_values(
            |row: AccountingView|
                if row.disposition == "quarantined_conflict"@ {
                    0nat
                } else {
                    (row.input_occurrences - 1) as nat
                },
        ));
        assert(report@.event_accounting == expected.event_accounting);
        assert(report@.returns == expected.returns);
        assert(report@.summary == expected.summary);
    }
    Ok(report)
}

/// A return of an interpretable snapshot is found by its identity.
pub proof fn lemma_return_with(snapshot: SnapshotView, i: int)
    requires
        validate::interpretable(snapshot),
        0 <= i < snapshot.returns.len(),
    ensures
        model::return_with(snapshot.returns, snapshot.returns[i].return_id) == snapshot.returns[i],
{
    assert(snapshot.returns.contains(snapshot.returns[i]));
    let found = model::return_with(snapshot.returns, snapshot.returns[i].return_id);
    assert(snapshot.returns.contains(found) && found.return_id == snapshot.returns[i].return_id);
    let j = choose|j: int| 0 <= j < snapshot.returns.len() && snapshot.returns[j] == found;
    if i < j {
        assert(snapshot.returns[i].return_id != snapshot.returns[j].return_id);
    } else if j < i {
        assert(snapshot.returns[j].return_id != snapshot.returns[i].return_id);
    }
}

/// Plans made in identity order are the plans of the snapshot.
pub proof fn lemma_plans_in_order(
    snapshot: SnapshotView,
    order: Seq<usize>,
    plans: Seq<PlanView>,
)
    requires
        validate::interpretable(snapshot),
        order::return_order(order, snapshot),
        plans.len() == order.len(),
        forall|k: int|
            0 <= k < order.len() ==> (#[trigger] plans[k]) == model::plan_of(
                snapshot.events,
                snapshot.returns[order[k] as int],
            ),
    ensures
        plans == model::plans_of(snapshot),
{
    assert forall|k: int| 0 <= k < order.len() implies plans[k] == model::plans_of(snapshot)[k] by {
        assert(order[k] < snapshot.returns.len());
        lemma_return_with(snapshot, order[k] as int);
    }
    assert(plans =~= model::plans_of(snapshot));
}

/// Trusted events are no more than events.
pub proof fn lemma_owned_count(mine: Seq<usize>, events: Seq<EventView>, id: Seq<char>)
    requires
        owned::owns(mine, events, id),
    ensures
        mine.len() <= events.len(),
{
    let places = mine.map_values(|place: usize| place as int);
    assert forall|a: int, b: int| 0 <= a < places.len() && 0 <= b < places.len() && a
        != b implies places[a] != places[b] by {
        let (x, y) = (mine[a], mine[b]);
        crate::text::lemma_text_total(events[x as int].id(), events[y as int].id());
        if a < b {
            assert(text::text_lt(events[mine[a] as int].id(), events[mine[b] as int].id()));
        } else {
            assert(text::text_lt(events[mine[b] as int].id(), events[mine[a] as int].id()));
        }
    }
    places.unique_seq_to_set();
    let range = vstd::set_lib::set_int_range(0, events.len() as int);
    vstd::set_lib::lemma_int_range(0, events.len() as int);
    assert forall|x: int| places.to_set().contains(x) implies range.contains(x) by {
        let k = choose|k: int| 0 <= k < places.len() && places[k] == x;
        assert(mine[k] < events.len());
    }
    vstd::set_lib::lemma_len_subset(places.to_set(), range);
}

fn has_empty_id(events: &Vec<Event>) -> (found: bool)
    ensures
        found == exists|i: int|
            0 <= i < events@.len() && (#[trigger] canonical::views(events@)[i]).id().len() == 0,
{
    let ghost all = canonical::views(events@);
    let mut i: usize = 0;
    while i < events.len()
        invariant
            i <= events@.len(),
            all == canonical::views(events@),
            forall|j: int| 0 <= j < i ==> (#[trigger] all[j]).id().len() != 0,
        decreases events@.len() - i,
    {
        if events[i].event_id().is_empty() {
            assert(all[i as int].id().len() == 0);
            return true;
        }
        i = i + 1;
    }
    false
}

/// Validates and reconciles one immutable snapshot into a canonical advisory report.
pub fn reconcile(snapshot: &Snapshot) -> (result: Result<Report, String>)
    requires
        countable(snapshot@),
    ensures
        match result {
            Ok(report) => outcome(snapshot@) == Ok::<ReportView, Seq<char>>(report@),
            Err(error) => outcome(snapshot@) == Err::<ReportView, Seq<char>>(error@),
        },
{
    let ghost shown = snapshot@;
    if let Some(error) = validate_snapshot(snapshot) {
        return Err(error);
    }
    assert(canonical::views(snapshot.events@) == shown.events);
    if has_empty_id(&snapshot.events) {
        return Err("event_id must not be empty".to_owned());
    }
    proof {
        validate::lemma_interpretable(shown);
    }
    let canonical = canonicalize_events(&snapshot.events);
    let partition = partition(snapshot, &canonical);
    let mut plans: Vec<ReturnPlan> = Vec::new();
    let mut k: usize = 0;
    while k < partition.order.len()
        invariant
            k <= partition.order@.len(),
            shown == snapshot@,
            countable(shown),
            validate::interpretable(shown),
            canonical.describes(shown.events),
            partition.describes(shown),
            plans@.len() == k,
            forall|j: int|
                0 <= j < k ==> (#[trigger] plans@[j])@ == model::plan_of(
                    shown.events,
                    shown.returns[partition.order@[j] as int],
                ),
            forall|j: int| 0 <= j < k ==> (#[trigger] plans@[j]).lines@.len() <= 12,
        decreases partition.order@.len() - k,
    {
        let place = partition.order[k];
        let authorization = &snapshot.returns[place];
        assert(shown.returns[place as int] == authorization@);
        let rank = partition.ranks[place];
        proof {
            lemma_owned_count(
                partition.events@[rank as int]@,
                shown.events,
                authorization@.return_id,
            );
            assert(settle::sound(shown.returns[place as int]));
        }
        let plan = plan_return(
            snapshot,
            authorization,
            &canonical.accepted,
            &partition.events[rank],
            partition.touched[rank],
        );
        plans.push(plan);
        k = k + 1;
    }
    proof {
        lemma_plans_in_order(
            shown,
            partition.order@,
            plan_views(plans@),
        );
    }
    assemble(snapshot, canonical, plans)
}

} // verus!
