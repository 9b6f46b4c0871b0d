//! What holds of plans, scheduler and oracle taken together.

use vstd::prelude::*;
use crate::midi::plan;
use crate::midi::plan::{PlanSpec, PlanView, PreparedEvent, TempoNode, FRAME_DENOMINATOR};
use crate::midi::oracle;
use crate::midi::oracle::{OracleError, OraclePlanView};
use crate::midi::scheduler;
use crate::midi::scheduler::{
    ActiveSlot, CallbackError, Emission, HostBlock, ScheduleResult, ScheduledEvent, SchedulerView,
};
use crate::sorting;

verus! {

/// Strictly increasing events are determined by which events they are.
pub proof fn increasing_events_are_unique(a: Seq<PreparedEvent>, b: Seq<PreparedEvent>)
    requires
        plan::increasing_events(a),
        plan::increasing_events(b),
        a.to_multiset() == b.to_multiset(),
    ensures
        a == b,
    decreases a.len(),
{
    a.to_multiset_ensures();
    b.to_multiset_ensures();
    if a.len() > 0 {
        let (x, y) = (a.last(), b.last());
        assert(a.contains(x) && b.contains(y));
        vstd::seq_lib::to_multiset_contains(a, x);
        vstd::seq_lib::to_multiset_contains(b, x);
        vstd::seq_lib::to_multiset_contains(a, y);
        vstd::seq_lib::to_multiset_contains(b, y);
        let i = choose|i: int| 0 <= i < b.len() && b[i] == x;
        let j = choose|j: int| 0 <= j < a.len() && a[j] == y;
        if i < b.len() - 1 {
            assert(plan::key_lt(b[i].key(), b[b.len() - 1].key()));
            if j < a.len() - 1 {
                assert(plan::key_lt(a[j].key(), a[a.len() - 1].key()));
            }
        }
        assert(x == y);
        vstd::seq_lib::to_multiset_remove(a, a.len() - 1);
        vstd::seq_lib::to_multiset_remove(b, b.len() - 1);
        assert(a.remove(a.len() - 1) =~= a.drop_last());
        assert(b.remove(b.len() - 1) =~= b.drop_last());
        increasing_events_are_unique(a.drop_last(), b.drop_last());
        assert(a =~= a.drop_last().push(x));
        assert(b =~= b.drop_last().push(y));
    } else {
        assert(a =~= b);
    }
}

/// The oracle's walk over the tempo nodes arrives at the exact numerator.
proof fn lemma_walk_is_exact(
    nodes: Seq<TempoNode>,
    rate: int,
    target: int,
    i: int,
    base: int,
)
    requires
        1 <= i <= nodes.len(),
        plan::increasing_nodes(nodes),
        0 <= rate <= 96_000,
        nodes[i - 1].pulse <= target <= i64::MAX,
        i64::MIN * FRAME_DENOMINATOR <= base <= i64::MAX * FRAME_DENOMINATOR,
    ensures
        oracle::walked(
            nodes,
            rate,
            target,
            i,
            base + plan::elapsed(nodes, nodes[i - 1].pulse as int, i as nat) * rate,
            nodes[i - 1].pulse as int,
            nodes[i - 1].micros_per_quarter as int,
        ) == Some(base + plan::elapsed(nodes, target, nodes.len()) * rate),
    decreases nodes.len() - i,
{
    let start = nodes[i - 1].pulse as int;
    let micros = nodes[i - 1].micros_per_quarter as int;
    let end = if i < nodes.len() && nodes[i].pulse < target {
        nodes[i].pulse as int
    } else {
        target
    };
    if i > 1 {
        assert(nodes[0].pulse < nodes[i - 1].pulse);
    }
    if i < nodes.len() {
        assert(nodes[i - 1].pulse < nodes[i].pulse);
    }
    plan::lemma_elapsed_linear(nodes, start, end, i as nat);
    plan::lemma_elapsed_bounds(nodes, start, i as nat);
    plan::lemma_elapsed_bounds(nodes, end, i as nat);
    let from = plan::elapsed(nodes, start, i as nat);
    let to = plan::elapsed(nodes, end, i as nat);
    let distance = end - start;
    assert(distance * micros * rate == to * rate - from * rate) by (nonlinear_arith)
        requires
            to == from + distance * micros,
    ;
    assert(0 <= from * rate <= to * rate <= 0x1_0000_0000_0000_0000 * 0xffff_ffff * 96_000)
        by (nonlinear_arith)
        requires
            0 <= from <= to <= 0x1_0000_0000_0000_0000 * 0xffff_ffff,
            0 <= rate <= 96_000,
    {
        assert(from * rate <= to * rate);
    }
    assert(oracle::segment_sum(base + from * rate, distance, micros, rate) == Some(base + to * rate));
    if i < nodes.len() {
        if target <= nodes[i].pulse {
            assert forall|j: int| i <= j < nodes.len() implies target
                <= #[trigger] nodes[j].pulse by {
                if j > i {
                    assert(nodes[i].pulse < nodes[j].pulse);
                }
            }
            plan::lemma_elapsed_prefix(nodes, target, i as nat, nodes.len());
        } else {
            plan::lemma_elapsed_prefix(nodes, end, i as nat, (i + 1) as nat);
            lemma_walk_is_exact(nodes, rate, target, i + 1, base);
        }
    }
}

/// On a plan that preparation accepts, the oracle gives every event the frame
/// that preparation gives it.
pub proof fn oracle_frame_is_exact(spec: PlanSpec, i: int)
    requires
        spec.error() is None,
        0 <= i < spec.events@.len(),
    ensures
        oracle::oracle_frame_of(spec, spec.events@[i].pulse) == Ok::<i64, OracleError>(
            spec.frame(spec.events@[i].pulse as int) as i64,
        ),
        i64::MIN <= spec.frame(spec.events@[i].pulse as int) <= i64::MAX,
{
    let nodes = spec.tempo_nodes@;
    let target = spec.events@[i].pulse;
    plan::lemma_no_first_error(spec.events@, spec.origin_pulse, spec.events@.len(), i);
    assert(spec.fits_frame(target as int));
    let base = spec.origin_frame * FRAME_DENOMINATOR;
    assert(plan::elapsed(nodes, nodes[0].pulse as int, 1) == 0) by {
        let micros = nodes[0].micros_per_quarter as int;
        assert((nodes[0].pulse - nodes[0].pulse) * micros == 0) by (nonlinear_arith);
    }
    lemma_walk_is_exact(nodes, spec.sample_rate as int, target as int, 1, base);
}

/// The oracle's plan and the prepared plan hold the same events in the same
/// order.
pub proof fn oracle_plan_matches_prepared(
    spec: PlanSpec,
    plan: PlanView,
    oracle_events: Seq<PreparedEvent>,
)
    requires
        spec.error() is None,
        plan::prepared_from(plan, spec),
        sorting::arranges(oracle_events, oracle::oracle_converted(spec)),
    ensures
        plan.events == oracle_events,
{
    assert forall|i: int| 0 <= i < spec.events@.len() implies oracle::oracle_converted(spec)[i]
        == spec.converted()[i] by {
        oracle_frame_is_exact(spec, i);
    }
    assert(oracle::oracle_converted(spec) =~= spec.converted());
    assert forall|i: int, j: int| 0 <= i < j < spec.converted().len() implies (
    #[trigger] spec.converted()[i]).stable_id != (#[trigger] spec.converted()[j]).stable_id by {
        plan::lemma_no_first_error(spec.events@, spec.origin_pulse, spec.events@.len(), j);
        assert(spec.events@[i].stable_id == spec.converted()[i].stable_id);
    }
    plan::lemma_distinct_ids_kept(oracle_events, spec.converted());
    increasing_events_are_unique(plan.events, oracle_events);
}

/// Two adjacent half-open blocks cover exactly the events of their union, each
/// once and in order.
pub proof fn adjacent_blocks_partition(
    events: Seq<PreparedEvent>,
    start: int,
    first: int,
    second: int,
)
    requires
        plan::increasing_events(events),
        0 <= first,
        0 <= second,
    ensures
        scheduler::block_events(events, start, first + second) == scheduler::block_events(events, start, first)
            + scheduler::block_events(events, start + first, second),
    decreases events.len(),
{
    reveal(Seq::filter);
    if events.len() > 0 {
        let front = events.drop_last();
        assert(plan::increasing_events(front));
        adjacent_blocks_partition(front, start, first, second);
        let last = events.last();
        if start <= last.frame < start + first {
            assert forall|i: int| 0 <= i < front.len() implies !(start + first
                <= (#[trigger] front[i]).frame) by {
                assert(plan::key_lt(events[i].key(), events[events.len() - 1].key()));
            }
            lemma_no_block_events(front, start + first, second);
        }
        assert(scheduler::block_events(events, start, first + second) =~= scheduler::block_events(events, start, first)
            + scheduler::block_events(events, start + first, second));
    } else {
        assert(scheduler::block_events(events, start, first + second) =~= scheduler::block_events(events, start, first)
            + scheduler::block_events(events, start + first, second));
    }
}

proof fn lemma_no_block_events(events: Seq<PreparedEvent>, start: int, length: int)
    requires
        forall|i: int|
            0 <= i < events.len() ==> !(start <= (#[trigger] events[i]).frame < start + length),
    ensures
        scheduler::block_events(events, start, length).len() == 0,
    decreases events.len(),
{
    reveal(Seq::filter);
    if events.len() > 0 {
        lemma_no_block_events(events.drop_last(), start, length);
    }
}

/// The token of a successful callback, and every smaller one, is refused from
/// then on, whatever the plan, the block and the output.
pub proof fn spent_token_is_refused(
    before: SchedulerView,
    after: SchedulerView,
    plan: PlanView,
    block: HostBlock,
    output: Seq<ScheduledEvent>,
    result: ScheduleResult,
    later_plan: PlanView,
    later: HostBlock,
    room: nat,
)
    requires
        scheduler::accepted(before, after, plan, block, output, result),
        later.token <= block.token,
    ensures
        scheduler::refusal(after, later_plan, later, room) == Some(
            ScheduleResult::refused(
                CallbackError::NonMonotonicToken,
                later.token == block.token,
            ),
        ),
{
}

/// A discontinuity that invalidates everything leaves no earlier note sounding
/// once its terminations are out.
pub proof fn discontinuity_silences_prior_notes(
    before: SchedulerView,
    plan: PlanView,
    block: HostBlock,
    room: nat,
    i: int,
)
    requires
        block.discontinuity is Seek || block.discontinuity is LoopWrap
            || block.discontinuity is SampleRateChange,
        0 <= i < before.active.len(),
    ensures
        scheduler::settled(before, plan, block, room)[i] == ActiveSlot::Empty,
{
    let ordinary = scheduler::block_events(plan.events, block.start_frame as int, block.length as int);
    if let ActiveSlot::Live { channel, .. } = before.active[i] {
        assert(before.active[i].on_channel(channel));
        assert(scheduler::affected(before.active, plan, block, ordinary, channel));
    }
}

/// Emitting no onset and no termination leaves the table as it was and lets
/// everything out.
proof fn lemma_emission_of_controls(active: Seq<ActiveSlot>, events: Seq<ScheduledEvent>)
    requires
        forall|i: int| 0 <= i < events.len() ==> !scheduler::note_related((#[trigger] events[i]).kind),
    ensures
        scheduler::emission(active, events) == (Emission { active, emitted: events, saturated: false }),
    decreases events.len(),
{
    if events.len() > 0 {
        let front = events.drop_last();
        assert forall|i: int| 0 <= i < front.len() implies !scheduler::note_related(
            (#[trigger] front[i]).kind,
        ) by {
            assert(front[i] == events[i]);
        }
        lemma_emission_of_controls(active, front);
        let last = events[events.len() - 1];
        assert(!scheduler::note_related(last.kind));
        let ended = |slot: ActiveSlot| scheduler::terminates(last.kind, slot);
        assert(scheduler::without(active, ended) =~= active);
        assert(front.push(last) =~= events);
    } else {
        assert(events =~= Seq::<ScheduledEvent>::empty());
    }
}

/// When terminations are condensed per channel, no note that had to end is left
/// sounding, no note begins, and only controller and program changes follow.
pub proof fn fallback_leaves_no_stuck_note(
    before: SchedulerView,
    after: SchedulerView,
    plan: PlanView,
    block: HostBlock,
    output: Seq<ScheduledEvent>,
    result: ScheduleResult,
)
    requires
        scheduler::accepted(before, after, plan, block, output, result),
        scheduler::falls_back(before, plan, block, output.len()),
    ensures
        after.active == scheduler::settled(before, plan, block, output.len()),
        forall|i: int|
            0 <= i < before.active.len() && (scheduler::invalidated(
                before.active[i],
                plan,
                block.discontinuity,
            ) || scheduler::ordinary_terminates(
                before.active[i],
                scheduler::block_events(plan.events, block.start_frame as int, block.length as int),
            )) ==> (#[trigger] after.active[i]) == ActiveSlot::Empty,
        forall|i: int|
            result.synthetic_terminations <= i < result.written ==> !scheduler::note_related(
                (#[trigger] output[i]).kind,
            ),
        after.sticky_overflow,
{
    let room = output.len();
    let ordinary = scheduler::block_events(plan.events, block.start_frame as int, block.length as int);
    let competing = scheduler::candidates(ordinary, true, block.start_frame);
    let first = result.synthetic_terminations as int;
    let base = scheduler::settled(before, plan, block, room);
    let kept = choose|kept: Seq<ScheduledEvent>| #[trigger]
        scheduler::retained(kept, competing, (room - first) as nat) && {
            let effect = scheduler::emission(base, kept);
            &&& after.active == effect.active
            &&& output.subrange(first, result.written as int) == effect.emitted
            &&& result.overflowed == (competing.len() < ordinary.len() || competing.len() > room
                - first || effect.saturated)
        };
    scheduler::lemma_candidates_from(ordinary, true, block.start_frame);
    assert forall|i: int| 0 <= i < kept.len() implies !scheduler::note_related((#[trigger] kept[i]).kind) by {
        assert(competing.contains(kept[i]));
    }
    lemma_emission_of_controls(base, kept);
    assert forall|i: int| first <= i < result.written implies !scheduler::note_related(
        (#[trigger] output[i]).kind,
    ) by {
        assert(output.subrange(first, result.written as int)[i - first] == output[i]);
    }
    assert forall|i: int|
        0 <= i < before.active.len() && (scheduler::invalidated(
            before.active[i],
            plan,
            block.discontinuity,
        ) || scheduler::ordinary_terminates(before.active[i], ordinary)) implies (#[trigger] after.active[i])
        == ActiveSlot::Empty by {
        if let ActiveSlot::Live { channel, .. } = before.active[i] {
            assert(before.active[i].on_channel(channel));
            assert(scheduler::affected(before.active, plan, block, ordinary, channel));
        }
    }
}

/// Which events overload keeps, and in which order, is determined.
pub proof fn retained_is_unique(
    a: Seq<ScheduledEvent>,
    b: Seq<ScheduledEvent>,
    competing: Seq<ScheduledEvent>,
    room: nat,
)
    requires
        scheduler::retained(a, competing, room),
        scheduler::retained(b, competing, room),
        forall|i: int, j: int|
            0 <= i < j < competing.len() ==> (#[trigger] competing[i]).stable_id != (
            #[trigger] competing[j]).stable_id,
    ensures
        a == b,
{
    a.unique_seq_to_set();
    b.unique_seq_to_set();
    lemma_retained_subset(a, b, competing, room);
    lemma_retained_subset(b, a, competing, room);
    assert(a.to_set() =~= b.to_set());
    assert forall|i: int, j: int| 0 <= i < j < a.len() implies plan::key_lt(
        (#[trigger] a[i]).schedule_key(),
        (#[trigger] a[j]).schedule_key(),
    ) by {
        lemma_same_id_same_event(a[i], a[j], competing);
    }
    assert forall|i: int, j: int| 0 <= i < j < b.len() implies plan::key_lt(
        (#[trigger] b[i]).schedule_key(),
        (#[trigger] b[j]).schedule_key(),
    ) by {
        lemma_same_id_same_event(b[i], b[j], competing);
    }
    lemma_ordered_sets_equal(a, b);
}

proof fn lemma_same_id_same_event(
    x: ScheduledEvent,
    y: ScheduledEvent,
    competing: Seq<ScheduledEvent>,
)
    requires
        competing.contains(x),
        competing.contains(y),
        forall|i: int, j: int|
            0 <= i < j < competing.len() ==> (#[trigger] competing[i]).stable_id != (
            #[trigger] competing[j]).stable_id,
    ensures
        x.stable_id == y.stable_id ==> x == y,
{
    let i = choose|i: int| 0 <= i < competing.len() && competing[i] == x;
    let j = choose|j: int| 0 <= j < competing.len() && competing[j] == y;
    if i < j {
        assert(competing[i].stable_id != competing[j].stable_id);
    } else if j < i {
        assert(competing[j].stable_id != competing[i].stable_id);
    }
}

proof fn lemma_retained_subset(
    a: Seq<ScheduledEvent>,
    b: Seq<ScheduledEvent>,
    competing: Seq<ScheduledEvent>,
    room: nat,
)
    requires
        scheduler::retained(a, competing, room),
        scheduler::retained(b, competing, room),
    ensures
        a.to_set().subset_of(b.to_set()),
{
    a.unique_seq_to_set();
    b.unique_seq_to_set();
    if !a.to_set().subset_of(b.to_set()) {
        let e = choose|e: ScheduledEvent| a.to_set().contains(e) && !b.to_set().contains(e);
        assert(a.contains(e) && !b.contains(e));
        let i = choose|i: int| 0 <= i < a.len() && a[i] == e;
        if b.to_set().subset_of(a.to_set()) {
            vstd::set_lib::lemma_subset_equality(b.to_set(), a.to_set());
            assert(false);
        }
        let f = choose|f: ScheduledEvent| b.to_set().contains(f) && !a.to_set().contains(f);
        assert(b.contains(f) && !a.contains(f));
        let j = choose|j: int| 0 <= j < b.len() && b[j] == f;
        assert(competing.contains(a[i]));
        assert(competing.contains(b[j]));
        assert(plan::key_lt(a[i].retention_key(), f.retention_key()));
        assert(plan::key_lt(b[j].retention_key(), e.retention_key()));
    }
}

proof fn lemma_ordered_sets_equal(a: Seq<ScheduledEvent>, b: Seq<ScheduledEvent>)
    requires
        a.len() == b.len(),
        a.to_set() == b.to_set(),
        forall|i: int, j: int|
            0 <= i < j < a.len() ==> plan::key_lt((#[trigger] a[i]).schedule_key(), (
            #[trigger] a[j]).schedule_key()),
        forall|i: int, j: int|
            0 <= i < j < b.len() ==> plan::key_lt((#[trigger] b[i]).schedule_key(), (
            #[trigger] b[j]).schedule_key()),
    ensures
        a == b,
    decreases a.len(),
{
    if a.len() > 0 {
        let (x, y) = (a.last(), b.last());
        assert(a[a.len() - 1] == x && b[b.len() - 1] == y);
        assert(a.to_set().contains(x) && b.to_set().contains(y));
        assert(b.contains(x) && a.contains(y));
        let i = choose|i: int| 0 <= i < b.len() && b[i] == x;
        let j = choose|j: int| 0 <= j < a.len() && a[j] == y;
        if i < b.len() - 1 {
            assert(plan::key_lt(b[i].schedule_key(), b[b.len() - 1].schedule_key()));
            if j < a.len() - 1 {
                assert(plan::key_lt(a[j].schedule_key(), a[a.len() - 1].schedule_key()));
            }
        }
        assert(x == y);
        let (front_a, front_b) = (a.drop_last(), b.drop_last());
        assert forall|e: ScheduledEvent| front_a.to_set().contains(e)
            == front_b.to_set().contains(e) by {
            lemma_front_contains(a, e);
            lemma_front_contains(b, e);
        }
        assert(front_a.to_set() =~= front_b.to_set());
        lemma_ordered_sets_equal(front_a, front_b);
        assert(a =~= front_a.push(x));
        assert(b =~= front_b.push(y));
    } else {
        assert(a =~= b);
    }
}

proof fn lemma_front_contains(a: Seq<ScheduledEvent>, e: ScheduledEvent)
    requires
        a.len() > 0,
        forall|i: int, j: int|
            0 <= i < j < a.len() ==> plan::key_lt((#[trigger] a[i]).schedule_key(), (
            #[trigger] a[j]).schedule_key()),
    ensures
        a.drop_last().to_set().contains(e) <==> a.to_set().contains(e) && e != a.last(),
{
    let front = a.drop_last();
    if front.contains(e) {
        let i = choose|i: int| 0 <= i < front.len() && front[i] == e;
        assert(a[i] == e);
        assert(plan::key_lt(a[i].schedule_key(), a[a.len() - 1].schedule_key()));
    }
    if a.contains(e) && e != a.last() {
        let i = choose|i: int| 0 <= i < a.len() && a[i] == e;
        assert(front[i] == e);
    }
}

/// Without a fallback every ordinary event competes, in its place.
proof fn lemma_candidates_of_all(ordinary: Seq<PreparedEvent>, start: i64)
    ensures
        scheduler::candidates(ordinary, false, start) == ordinary.map_values(
            |event: PreparedEvent| scheduler::placed(event, start),
        ),
    decreases ordinary.len(),
{
    let place = |event: PreparedEvent| scheduler::placed(event, start);
    if ordinary.len() > 0 {
        lemma_candidates_of_all(ordinary.drop_last(), start);
        assert(ordinary.map_values(place) =~= ordinary.drop_last().map_values(place).push(
            place(ordinary.last()),
        ));
    } else {
        assert(scheduler::candidates(ordinary, false, start) =~= ordinary.map_values(place));
    }
}

/// Suppressing an event leaves fewer to compete.
proof fn lemma_suppressed(ordinary: Seq<PreparedEvent>, start: i64, i: int)
    requires
        0 <= i < ordinary.len(),
        scheduler::note_related(ordinary[i].kind),
    ensures
        scheduler::candidates(ordinary, true, start).len() < ordinary.len(),
    decreases ordinary.len(),
{
    scheduler::lemma_candidates_from(ordinary.drop_last(), true, start);
    if i < ordinary.len() - 1 {
        lemma_suppressed(ordinary.drop_last(), start, i);
    }
}

/// No note is opened twice.
pub open spec fn opens_once(events: Seq<PreparedEvent>) -> bool {
    forall|i: int, j: int, note: u32|
        0 <= i < j < events.len() && #[trigger] events[i].kind.opens(note)
            ==> !#[trigger] events[j].kind.opens(note)
}

/// Some event before the frame opens the note.
pub open spec fn opened_by(events: Seq<PreparedEvent>, frame: int, note: u32) -> bool {
    exists|i: int|
        0 <= i < events.len() && events[i].frame < frame && #[trigger] events[i].kind.opens(note)
}

/// One callback: the block it was given, what came out, and what the scheduler
/// remembers afterwards.
pub struct Turn {
    pub block: HostBlock,
    pub output: Seq<ScheduledEvent>,
    pub result: ScheduleResult,
    pub after: SchedulerView,
}

/// What a new scheduler for `notes` notes remembers.
pub open spec fn fresh(notes: nat) -> SchedulerView {
    SchedulerView {
        active: Seq::new(notes, |i: int| ActiveSlot::Empty),
        last_token: None,
        sticky_overflow: false,
    }
}

/// What the scheduler remembers before the given turn.
pub open spec fn before_turn(notes: nat, turns: Seq<Turn>, k: int) -> SchedulerView {
    if k <= 0 {
        fresh(notes)
    } else {
        turns[k - 1].after
    }
}

/// The token that the oracle served last before the given turn.
pub open spec fn served_before(turns: Seq<Turn>, k: int) -> Option<u64> {
    if k <= 0 {
        None
    } else {
        Some(turns[k - 1].block.token)
    }
}

/// The turn was accepted as a continuous block and did not overflow.
pub open spec fn smooth(before: SchedulerView, plan: PlanView, turn: Turn) -> bool {
    &&& scheduler::refusal(before, plan, turn.block, turn.output.len()) is None
    &&& scheduler::accepted(before, turn.after, plan, turn.block, turn.output, turn.result)
    &&& turn.block.discontinuity is Continuous
    &&& !turn.result.overflowed
}

/// A new scheduler served these blocks in turn, each from where the one before
/// it ended.
pub open spec fn smooth_run(plan: PlanView, notes: nat, turns: Seq<Turn>) -> bool {
    &&& forall|k: int|
        0 <= k < turns.len() ==> #[trigger] smooth(before_turn(notes, turns, k), plan, turns[k])
    &&& forall|k: int|
        0 < k < turns.len() ==> (#[trigger] turns[k]).block.start_frame == turns[k
            - 1].block.start_frame + turns[k - 1].block.length
}

/// A valid specification opens no note twice, and neither does the plan
/// prepared from it.
proof fn lemma_prepared_opens_once(spec: PlanSpec, plan: PlanView)
    requires
        spec.error() is None,
        plan::prepared_from(plan, spec),
    ensures
        opens_once(plan.events),
{
    let converted = spec.converted();
    let events = plan.events;
    events.to_multiset_ensures();
    converted.to_multiset_ensures();
    assert forall|i: int, j: int, note: u32|
        0 <= i < j < events.len() && #[trigger] events[i].kind.opens(
            note,
        ) implies !#[trigger] events[j].kind.opens(note) by {
        if events[j].kind.opens(note) {
            assert(events.contains(events[i]) && events.contains(events[j]));
            assert(converted.to_multiset().contains(events[i]));
            assert(converted.to_multiset().contains(events[j]));
            assert(converted.contains(events[i]) && converted.contains(events[j]));
            let a = choose|a: int| 0 <= a < converted.len() && converted[a] == events[i];
            let b = choose|b: int| 0 <= b < converted.len() && converted[b] == events[j];
            assert(events[i].stable_id != events[j].stable_id);
            plan::lemma_no_first_error(spec.events@, spec.origin_pulse, spec.events@.len(), a);
            plan::lemma_no_first_error(spec.events@, spec.origin_pulse, spec.events@.len(), b);
            assert(spec.events@[a].kind.opens(note) && spec.events@[b].kind.opens(note));
        }
    }
}

/// Where no onset repeats a note and every onset finds a free slot, everything
/// comes out.
proof fn lemma_nothing_is_dropped(active: Seq<ActiveSlot>, events: Seq<ScheduledEvent>)
    requires
        !scheduler::emission(active, events).saturated,
        forall|i: int, note: u32|
            0 <= i < events.len() && #[trigger] events[i].kind.opens(note) ==> !scheduler::sounding(
                active,
                note,
            ),
        forall|i: int, j: int, note: u32|
            0 <= i < j < events.len() && #[trigger] events[i].kind.opens(note)
                ==> !#[trigger] events[j].kind.opens(note),
    ensures
        scheduler::emission(active, events).emitted == events,
        forall|note: u32| #[trigger]
            scheduler::sounding(scheduler::emission(active, events).active, note)
                ==> scheduler::sounding(active, note) || exists|i: int|
                0 <= i < events.len() && #[trigger] events[i].kind.opens(note),
    decreases events.len(),
{
    let all = scheduler::emission(active, events);
    if events.len() > 0 {
        let front = events.drop_last();
        let last = events.last();
        let so_far = scheduler::emission(active, front);
        assert forall|i: int, note: u32| 0 <= i < front.len() && #[trigger] front[i].kind.opens(
            note,
        ) implies !scheduler::sounding(active, note) by {
            assert(events[i].kind.opens(note));
        }
        assert forall|i: int, j: int, note: u32|
            0 <= i < j < front.len() && #[trigger] front[i].kind.opens(
                note,
            ) implies !#[trigger] front[j].kind.opens(note) by {
            assert(events[i].kind.opens(note));
        }
        lemma_nothing_is_dropped(active, front);
        assert(front.push(last) =~= events);
        let n = events.len() - 1;
        if let crate::midi::plan::EventKind::NoteOn { instance_id, .. } = last.kind {
            assert(events[n].kind.opens(instance_id));
            if scheduler::sounding(so_far.active, instance_id) {
                let i = choose|i: int|
                    0 <= i < front.len() && #[trigger] front[i].kind.opens(instance_id);
                assert(events[i].kind.opens(instance_id));
            }
        }
        assert forall|note: u32| #[trigger]
            scheduler::sounding(all.active, note) implies scheduler::sounding(active, note)
            || exists|i: int| 0 <= i < events.len() && #[trigger] events[i].kind.opens(note) by {
            let slot = choose|slot: int|
                0 <= slot < all.active.len() && (#[trigger] all.active[slot]).is_instance(note);
            if so_far.active[slot].is_instance(note) {
                assert(scheduler::sounding(so_far.active, note));
                if !scheduler::sounding(active, note) {
                    let i = choose|i: int|
                        0 <= i < front.len() && #[trigger] front[i].kind.opens(note);
                    assert(events[i].kind.opens(note));
                }
            } else {
                assert(events[n].kind.opens(note));
            }
        }
    } else {
        assert(all.emitted =~= events);
    }
}

/// An accepted continuous block that does not overflow, and none of whose onsets
/// repeats a note, emits its events.
proof fn lemma_block_comes_out(
    before: SchedulerView,
    after: SchedulerView,
    plan: PlanView,
    block: HostBlock,
    output: Seq<ScheduledEvent>,
    result: ScheduleResult,
)
    requires
        plan::valid_plan(plan),
        scheduler::accepted(before, after, plan, block, output, result),
        block.discontinuity is Continuous,
        !result.overflowed,
        block.length <= 2_048,
        opens_once(plan.events),
        forall|e: PreparedEvent, note: u32| #[trigger]
            plan.events.contains(e) && block.start_frame <= e.frame < block.start_frame
                + block.length && #[trigger] e.kind.opens(note) ==> !scheduler::sounding(
                before.active,
                note,
            ),
    ensures
        result.synthetic_terminations == 0,
        forall|note: u32| #[trigger]
            scheduler::sounding(after.active, note) ==> scheduler::sounding(before.active, note)
                || opened_by(plan.events, block.start_frame + block.length, note),
        output.take(result.written as int) == scheduler::block_events(
            plan.events,
            block.start_frame as int,
            block.length as int,
        ).map_values(|event: PreparedEvent| scheduler::placed(event, block.start_frame)),
{
    let room = output.len();
    let start = block.start_frame;
    let ordinary = scheduler::block_events(plan.events, start as int, block.length as int);
    let fallback = scheduler::falls_back(before, plan, block, room);
    let competing = scheduler::candidates(ordinary, fallback, start);
    let first = result.synthetic_terminations as int;
    let ends = |slot: ActiveSlot| scheduler::invalidated(slot, plan, block.discontinuity);
    let stops = |slot: ActiveSlot| scheduler::ordinary_terminates(slot, ordinary);
    lemma_filter_none(before.active, ends);
    if fallback {
        before.active.lemma_filter_len(stops);
        before.active.lemma_filter_pred(stops, 0);
        assert(before.active.filter(stops).len() > 0);
        let slot = before.active.filter(stops)[0];
        assert(stops(slot));
        let i = choose|i: int|
            0 <= i < ordinary.len() && #[trigger] scheduler::terminates(ordinary[i].kind, slot);
        assert(scheduler::note_related(ordinary[i].kind));
        lemma_suppressed(ordinary, start, i);
    }
    let releases = before.active.filter(ends).map_values(
        |slot: ActiveSlot| crate::midi::scheduler::release(slot, start),
    );
    output.take(first).to_multiset_ensures();
    releases.to_multiset_ensures();
    assert(first == 0);
    let base = scheduler::settled(before, plan, block, room);
    let kept = choose|kept: Seq<ScheduledEvent>| #[trigger]
        scheduler::retained(kept, competing, (room - first) as nat) && {
            let effect = scheduler::emission(base, kept);
            &&& after.active == effect.active
            &&& output.subrange(first, result.written as int) == effect.emitted
            &&& result.overflowed == (competing.len() < ordinary.len() || competing.len() > room
                - first || effect.saturated)
        };
    lemma_candidates_of_all(ordinary, start);
    lemma_block_order(plan.events, start as int, block.length as int);
    let place = |event: PreparedEvent| scheduler::placed(event, start);
    assert(competing == ordinary.map_values(place));
    assert forall|i: int, j: int| 0 <= i < j < competing.len() implies (
    #[trigger] competing[i]).stable_id != (#[trigger] competing[j]).stable_id by {
        assert(ordinary[i].stable_id != ordinary[j].stable_id);
    }
    assert(scheduler::retained(competing, competing, room)) by {
        assert forall|i: int, j: int| 0 <= i < j < competing.len() implies
            crate::midi::plan::key_le(
            (#[trigger] competing[i]).schedule_key(),
            (#[trigger] competing[j]).schedule_key(),
        ) by {
            assert(plan::key_lt(ordinary[i].key(), ordinary[j].key()));
        }
        assert forall|i: int| 0 <= i < competing.len() implies competing.contains(
            #[trigger] competing[i],
        ) by {}
    }
    retained_is_unique(kept, competing, competing, room);
    assert forall|note: u32| #[trigger] scheduler::sounding(base, note) implies scheduler::sounding(
        before.active,
        note,
    ) by {
        let i = choose|i: int|
            0 <= i < base.len() && (#[trigger] base[i]).is_instance(note);
        assert(before.active[i].is_instance(note));
    }
    assert forall|i: int, note: u32| 0 <= i < competing.len() && #[trigger]
        competing[i].kind.opens(note) implies !scheduler::sounding(base, note) && opened_by(
        plan.events,
        start + block.length,
        note,
    ) by {
        let e = ordinary[i];
        assert(plan.events.contains(e) && e.kind.opens(note));
        let k = choose|k: int| 0 <= k < plan.events.len() && plan.events[k] == e;
        assert(plan.events[k].kind.opens(note));
    }
    assert forall|i: int, j: int, note: u32|
        0 <= i < j < competing.len() && #[trigger] competing[i].kind.opens(
            note,
        ) implies !#[trigger] competing[j].kind.opens(note) by {
        let (a, b) = (ordinary[i], ordinary[j]);
        assert(plan.events.contains(a) && plan.events.contains(b));
        let x = choose|x: int| 0 <= x < plan.events.len() && plan.events[x] == a;
        let y = choose|y: int| 0 <= y < plan.events.len() && plan.events[y] == b;
        assert(a.stable_id != b.stable_id);
        if b.kind.opens(note) {
            assert(plan.events[x].kind.opens(note) && plan.events[y].kind.opens(note));
        }
    }
    lemma_nothing_is_dropped(base, kept);
    assert forall|note: u32| #[trigger] scheduler::sounding(after.active, note) implies (
    scheduler::sounding(before.active, note) || opened_by(
        plan.events,
        start + block.length,
        note,
    )) by {
        if !scheduler::sounding(base, note) {
            let i = choose|i: int| 0 <= i < kept.len() && #[trigger] kept[i].kind.opens(note);
            assert(competing[i].kind.opens(note));
        }
    }
    assert(output.take(result.written as int) =~= output.subrange(0, result.written as int));
}

/// Before each turn of a smooth run only notes sound that an earlier frame opened.
proof fn lemma_only_earlier_notes_sound(plan: PlanView, notes: nat, turns: Seq<Turn>, k: int)
    requires
        plan::valid_plan(plan),
        opens_once(plan.events),
        smooth_run(plan, notes, turns),
        0 <= k < turns.len(),
    ensures
        forall|note: u32| #[trigger]
            scheduler::sounding(before_turn(notes, turns, k).active, note) ==> opened_by(
                plan.events,
                turns[k].block.start_frame as int,
                note,
            ),
    decreases k,
{
    if k > 0 {
        let turn = turns[k - 1];
        let before = before_turn(notes, turns, k - 1);
        lemma_only_earlier_notes_sound(plan, notes, turns, k - 1);
        assert(smooth(before, plan, turn));
        lemma_no_onset_repeats(plan, before, turn.block);
        lemma_block_comes_out(before, turn.after, plan, turn.block, turn.output, turn.result);
        assert(turns[k].block.start_frame == turn.block.start_frame + turn.block.length);
        assert forall|note: u32| #[trigger]
            scheduler::sounding(before_turn(notes, turns, k).active, note) implies opened_by(
            plan.events,
            turns[k].block.start_frame as int,
            note,
        ) by {
            if scheduler::sounding(before.active, note) {
                let i = choose|i: int|
                    0 <= i < plan.events.len() && plan.events[i].frame < turn.block.start_frame
                        && #[trigger] plan.events[i].kind.opens(note);
                assert(plan.events[i].frame < turns[k].block.start_frame);
            }
        }
    }
}

/// Where only notes sound that an earlier frame opened, the block's onsets
/// repeat none of them.
proof fn lemma_no_onset_repeats(plan: PlanView, before: SchedulerView, block: HostBlock)
    requires
        opens_once(plan.events),
        forall|note: u32| #[trigger]
            scheduler::sounding(before.active, note) ==> opened_by(
                plan.events,
                block.start_frame as int,
                note,
            ),
    ensures
        forall|e: PreparedEvent, note: u32| #[trigger]
            plan.events.contains(e) && block.start_frame <= e.frame < block.start_frame
                + block.length && #[trigger] e.kind.opens(note) ==> !scheduler::sounding(
                before.active,
                note,
            ),
{
    assert forall|e: PreparedEvent, note: u32| #[trigger]
        plan.events.contains(e) && block.start_frame <= e.frame < block.start_frame + block.length
            && #[trigger] e.kind.opens(note) implies !scheduler::sounding(before.active, note) by {
        if scheduler::sounding(before.active, note) {
            let i = choose|i: int|
                0 <= i < plan.events.len() && plan.events[i].frame < block.start_frame
                    && #[trigger] plan.events[i].kind.opens(note);
            let j = choose|j: int| 0 <= j < plan.events.len() && plan.events[j] == e;
            assert(plan.events[j].kind.opens(note));
        }
    }
}

/// One turn of a smooth run emits what the oracle emits for its block.
#[verifier::spinoff_prover]
#[verifier::rlimit(40)]
proof fn lemma_turn_matches_oracle(
    plan: PlanView,
    oracle_plan: OraclePlanView,
    notes: nat,
    turns: Seq<Turn>,
    k: int,
)
    requires
        plan::valid_plan(plan),
        opens_once(plan.events),
        oracle_plan.sample_rate == plan.sample_rate,
        oracle_plan.events == plan.events,
        smooth_run(plan, notes, turns),
        0 <= k < turns.len(),
    ensures
        turns[k].result.synthetic_terminations == 0,
        oracle::served(served_before(turns, k), oracle_plan, turns[k].block),
        oracle::emitted(oracle_plan, turns[k].block) == turns[k].output.take(
            turns[k].result.written as int,
        ),
{
    let turn = turns[k];
    let before = before_turn(notes, turns, k);
    assert(smooth(before, plan, turn));
    if k > 0 {
        assert(smooth(before_turn(notes, turns, k - 1), plan, turns[k - 1]));
        assert(before.last_token == Some(turns[k - 1].block.token));
    }
    assert(oracle::served(served_before(turns, k), oracle_plan, turn.block));
    lemma_only_earlier_notes_sound(plan, notes, turns, k);
    lemma_no_onset_repeats(plan, before, turn.block);
    lemma_block_comes_out(before, turn.after, plan, turn.block, turn.output, turn.result);
}

/// Over successive continuous blocks a new scheduler emits, block by block,
/// exactly what the oracle emits for the same specification, as long as no block
/// is refused or overflows.
pub proof fn scheduler_matches_oracle(
    spec: PlanSpec,
    plan: PlanView,
    oracle_plan: OraclePlanView,
    notes: nat,
    turns: Seq<Turn>,
)
    requires
        spec.error() is None,
        plan::prepared_from(plan, spec),
        oracle_plan.sample_rate == spec.sample_rate,
        sorting::arranges(oracle_plan.events, oracle::oracle_converted(spec)),
        smooth_run(plan, notes, turns),
    ensures
        forall|k: int|
            0 <= k < turns.len() ==> {
                let turn = #[trigger] turns[k];
                &&& turn.result.synthetic_terminations == 0
                &&& oracle::served(served_before(turns, k), oracle_plan, turn.block)
                &&& oracle::emitted(oracle_plan, turn.block) == turn.output.take(
                    turn.result.written as int,
                )
            },
{
    oracle_plan_matches_prepared(spec, plan, oracle_plan.events);
    lemma_prepared_opens_once(spec, plan);
    assert forall|k: int| 0 <= k < turns.len() implies {
        let turn = #[trigger] turns[k];
        &&& turn.result.synthetic_terminations == 0
        &&& oracle::served(served_before(turns, k), oracle_plan, turn.block)
        &&& oracle::emitted(oracle_plan, turn.block) == turn.output.take(turn.result.written as int)
    } by {
        lemma_turn_matches_oracle(plan, oracle_plan, notes, turns, k);
    }
}

proof fn lemma_filter_none(active: Seq<ActiveSlot>, keep: spec_fn(ActiveSlot) -> bool)
    requires
        forall|i: int| 0 <= i < active.len() ==> !keep(#[trigger] active[i]),
    ensures
        active.filter(keep).len() == 0,
    decreases active.len(),
{
    reveal(Seq::filter);
    if active.len() > 0 {
        lemma_filter_none(active.drop_last(), keep);
    }
}

/// A block's events are in range, increasing and distinct.
proof fn lemma_block_order(events: Seq<PreparedEvent>, start: int, length: int)
    requires
        plan::increasing_events(events),
        plan::distinct_ids(events),
    ensures
        plan::increasing_events(scheduler::block_events(events, start, length)),
        plan::distinct_ids(scheduler::block_events(events, start, length)),
        forall|i: int|
            0 <= i < scheduler::block_events(events, start, length).len() ==> {
                &&& events.contains(#[trigger] scheduler::block_events(events, start, length)[i])
                &&& start <= scheduler::block_events(events, start, length)[i].frame < start + length
            },
    decreases events.len(),
{
    reveal(Seq::filter);
    if events.len() > 0 {
        let front = events.drop_last();
        lemma_block_order(front, start, length);
        let rest = scheduler::block_events(front, start, length);
        let all = scheduler::block_events(events, start, length);
        assert forall|i: int| 0 <= i < all.len() implies events.contains(#[trigger] all[i]) by {
            if i < rest.len() {
                assert(front.contains(rest[i]));
                let k = choose|k: int| 0 <= k < front.len() && front[k] == rest[i];
                assert(events[k] == all[i]);
            } else {
                assert(events[events.len() - 1] == all[i]);
            }
        }
        assert forall|i: int, j: int| 0 <= i < j < all.len() implies plan::key_lt(
            (#[trigger] all[i]).key(),
            (#[trigger] all[j]).key(),
        ) && all[i].stable_id != all[j].stable_id by {
            if j == rest.len() {
                assert(front.contains(rest[i]));
                let k = choose|k: int| 0 <= k < front.len() && front[k] == rest[i];
                assert(plan::key_lt(events[k].key(), events[events.len() - 1].key()));
                assert(events[k].stable_id != events[events.len() - 1].stable_id);
            }
        }
    }
}

} // verus!
