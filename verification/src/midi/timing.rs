//! When events come out, in which order, and which notes they leave sounding.

use vstd::prelude::*;
use crate::midi::plan;
use crate::midi::plan::{Event, EventKind, NoteIdentity, PlanSpec, PlanView, PreparedEvent};
use crate::midi::scheduler;
use crate::midi::scheduler::{
    ActiveSlot, CallbackError, Discontinuity, Emission, HostBlock, ScheduleResult, ScheduledEvent,
    SchedulerView,
};

verus! {

/// The origin of a plan falls at its frame; from there on each pulse of a tempo adds its
/// microseconds at the sample rate, 960 pulses to the quarter; and an event belongs to
/// the frame in which its exact time falls.
pub proof fn pulses_fall_in_exact_frames(spec: PlanSpec, k: int, p: int, q: int)
    requires
        0 <= k < spec.tempo_nodes@.len(),
        plan::increasing_nodes(spec.tempo_nodes@),
        spec.tempo_nodes@[k].pulse <= p <= q,
        k + 1 < spec.tempo_nodes@.len() ==> q <= spec.tempo_nodes@[k + 1].pulse,
    ensures
        spec.frame_numerator(spec.tempo_nodes@[0].pulse as int) == spec.origin_frame * 960_000_000,
        spec.frame_numerator(q) - spec.frame_numerator(p) == (q - p)
            * spec.tempo_nodes@[k].micros_per_quarter * spec.sample_rate,
        960_000_000 * spec.frame(p) <= spec.frame_numerator(p),
        spec.frame_numerator(p) < 960_000_000 * (spec.frame(p) + 1),
{
    let nodes = spec.tempo_nodes@;
    let n = nodes.len();
    let rate = spec.sample_rate as int;
    let micros = nodes[k].micros_per_quarter as int;
    assert forall|j: int| k + 1 <= j < n implies q <= #[trigger] nodes[j].pulse by {
        if j > k + 1 {
            assert(nodes[k + 1].pulse < nodes[j].pulse);
        }
    }
    plan::lemma_elapsed_prefix(nodes, p, (k + 1) as nat, n);
    plan::lemma_elapsed_prefix(nodes, q, (k + 1) as nat, n);
    plan::lemma_elapsed_linear(nodes, p, q, (k + 1) as nat);
    let (from, to) = (plan::elapsed(nodes, p, n), plan::elapsed(nodes, q, n));
    assert(to * rate - from * rate == (q - p) * micros * rate) by (nonlinear_arith)
        requires
            to == from + (q - p) * micros,
    ;
    let origin = nodes[0].pulse as int;
    assert forall|j: int| 1 <= j < n implies origin <= #[trigger] nodes[j].pulse by {
        assert(nodes[0].pulse < nodes[j].pulse);
    }
    plan::lemma_elapsed_prefix(nodes, origin, 1, n);
    let first = nodes[0].micros_per_quarter as int;
    assert((origin - origin) * first == 0) by (nonlinear_arith);
    assert(0 * rate == 0) by (nonlinear_arith);
}

/// Every event of a specification is in the prepared plan at its frame, and nothing else
/// is.
pub proof fn every_event_is_prepared(spec: PlanSpec, prepared: PlanView, i: int)
    requires
        spec.error() is None,
        plan::prepared_from(prepared, spec),
        0 <= i < spec.events@.len(),
    ensures
        prepared.events.len() == spec.events@.len(),
        exists|j: int|
            {
                &&& 0 <= j < prepared.events.len()
                &&& (#[trigger] prepared.events[j]).stable_id == spec.events@[i].stable_id
                &&& prepared.events[j].kind == spec.events@[i].kind
                &&& prepared.events[j].frame == spec.frame(spec.events@[i].pulse as int)
            },
{
    let converted = spec.converted();
    prepared.events.to_multiset_ensures();
    converted.to_multiset_ensures();
    let event = converted[i];
    assert(converted.contains(event));
    vstd::seq_lib::to_multiset_contains(converted, event);
    vstd::seq_lib::to_multiset_contains(prepared.events, event);
    let j = choose|j: int| 0 <= j < prepared.events.len() && prepared.events[j] == event;
    assert(spec.fits_frame(spec.events@[i].pulse as int));
    assert(prepared.events[j].stable_id == spec.events@[i].stable_id);
}

/// At one frame everything on a channel ends first, then single notes, then controllers
/// and programs change, and notes begin last.
pub open spec fn turn_in_frame(kind: EventKind) -> int {
    match kind {
        EventKind::AllNotesOff { .. } => 0,
        EventKind::NoteOff { .. } => 1,
        EventKind::ControlChange { .. } => 2,
        EventKind::ProgramChange { .. } => 3,
        EventKind::NoteOn { .. } => 4,
    }
}

/// Prepared events stand by frame, at one frame by what they do, and then by identity.
pub proof fn prepared_events_stand_in_order(prepared: PlanView, i: int, j: int)
    requires
        plan::valid_plan(prepared),
        0 <= i < j < prepared.events.len(),
    ensures
        ({
            let (a, b) = (prepared.events[i], prepared.events[j]);
            &&& a.frame <= b.frame
            &&& a.frame == b.frame ==> turn_in_frame(a.kind) <= turn_in_frame(b.kind)
            &&& a.frame == b.frame && turn_in_frame(a.kind) == turn_in_frame(b.kind)
                ==> a.stable_id < b.stable_id
        }),
{
    assert(plan::key_lt(prepared.events[i].key(), prepared.events[j].key()));
}

/// The data of an event fit four bits of channel and seven of each value.
pub open spec fn within_midi(kind: EventKind) -> bool {
    match kind {
        EventKind::NoteOn { channel, key, velocity, .. } => channel <= 15 && key <= 127 && velocity
            <= 127,
        EventKind::NoteOff { channel, key, velocity, .. } => channel <= 15 && key <= 127
            && velocity <= 127,
        EventKind::ControlChange { channel, controller, value } => channel <= 15 && controller
            <= 127 && value <= 127,
        EventKind::ProgramChange { channel, program } => channel <= 15 && program <= 127,
        EventKind::AllNotesOff { channel } => channel <= 15,
    }
}

/// Event `i` fits behind those before it: no earlier in time, in the order within its
/// pulse, with an identity of its own and sound data; an onset opens a new instance; a
/// release ends one that an earlier onset opened on the same channel and key, once.
pub open spec fn event_fits(events: Seq<Event>, origin: i64, i: int) -> bool {
    let event = events[i];
    &&& event.pulse >= origin
    &&& i > 0 ==> {
        let last = events[i - 1];
        ||| last.pulse < event.pulse
        ||| last.pulse == event.pulse && turn_in_frame(last.kind) < turn_in_frame(event.kind)
        ||| last.pulse == event.pulse && turn_in_frame(last.kind) == turn_in_frame(event.kind)
            && last.stable_id <= event.stable_id
    }
    &&& forall|j: int| 0 <= j < i ==> (#[trigger] events[j]).stable_id != event.stable_id
    &&& within_midi(event.kind)
    &&& event.kind matches EventKind::NoteOn { instance_id, .. } ==> forall|j: int|
        0 <= j < i ==> !((#[trigger] events[j]).kind matches EventKind::NoteOn {
            instance_id: other,
            ..
        } && other == instance_id)
    &&& event.kind matches EventKind::NoteOff { instance_id, channel, key, .. } ==> {
        &&& exists|j: int|
            0 <= j < i && ((#[trigger] events[j]).kind matches EventKind::NoteOn {
                instance_id: other,
                channel: on,
                key: at,
                ..
            } && other == instance_id && on == channel && at == key)
        &&& forall|j: int|
            0 <= j < i ==> !((#[trigger] events[j]).kind matches EventKind::NoteOff {
                instance_id: other,
                ..
            } && other == instance_id)
    }
}

proof fn lemma_event_fits(events: Seq<Event>, origin: i64, i: int)
    requires
        0 <= i < events.len(),
    ensures
        plan::event_error(events, origin, i) is None <==> event_fits(events, origin, i),
{
    let event = events[i];
    assert(event.kind.valid_midi() == within_midi(event.kind));
    if i > 0 {
        assert(event.kind.rank() == turn_in_frame(event.kind));
        assert(events[i - 1].kind.rank() == turn_in_frame(events[i - 1].kind));
    }
    match event.kind {
        EventKind::NoteOn { instance_id, .. } => {
            assert forall|j: int| 0 <= j < i implies (#[trigger] events[j]).kind.opens(instance_id)
                == ((events[j]).kind matches EventKind::NoteOn { instance_id: other, .. } && other
                == instance_id) by {}
            if plan::opened_before(events, i, instance_id) {
                let j = choose|j: int| 0 <= j < i && #[trigger] events[j].kind.opens(instance_id);
                assert(events[j].kind matches EventKind::NoteOn { instance_id: other, .. } && other
                    == instance_id);
            }
        },
        EventKind::NoteOff { instance_id, channel, key, .. } => {
            let identity = NoteIdentity { instance_id, channel, key };
            if plan::opened_as(events, i, identity) {
                let j = choose|j: int|
                    0 <= j < i && #[trigger] plan::sounds_as(events[j].kind, identity);
                assert(events[j].kind.opens(instance_id));
                assert(events[j].kind matches EventKind::NoteOn {
                    instance_id: other,
                    channel: on,
                    key: at,
                    ..
                } && other == instance_id && on == channel && at == key);
            }
            if exists|j: int|
                0 <= j < i && ((#[trigger] events[j]).kind matches EventKind::NoteOn {
                    instance_id: other,
                    channel: on,
                    key: at,
                    ..
                } && other == instance_id && on == channel && at == key) {
                let j = choose|j: int|
                    0 <= j < i && ((#[trigger] events[j]).kind matches EventKind::NoteOn {
                        instance_id: other,
                        channel: on,
                        key: at,
                        ..
                    } && other == instance_id && on == channel && at == key);
                assert(plan::sounds_as(events[j].kind, identity));
                assert(events[j].kind.opens(instance_id));
            }
            if plan::closed_before(events, i, instance_id) {
                let j = choose|j: int| 0 <= j < i && #[trigger] events[j].kind.closes(instance_id);
                assert(events[j].kind matches EventKind::NoteOff { instance_id: other, .. } && other
                    == instance_id);
            }
            assert forall|j: int| 0 <= j < i implies (#[trigger] events[j]).kind.closes(instance_id)
                == (events[j].kind matches EventKind::NoteOff { instance_id: other, .. } && other
                == instance_id) by {}
        },
        _ => {},
    }
}

proof fn lemma_events_fit(events: Seq<Event>, origin: i64, n: nat)
    requires
        n <= events.len(),
    ensures
        plan::first_event_error(events, origin, n) is None <==> forall|i: int|
            0 <= i < n ==> #[trigger] event_fits(events, origin, i),
    decreases n,
{
    if n > 0 {
        lemma_events_fit(events, origin, (n - 1) as nat);
        lemma_event_fits(events, origin, n - 1);
    }
}

/// A specification is prepared exactly if its rate is one of three, its tempo map begins
/// at the origin and goes on with rising pulses and tempos above zero, neither map nor
/// events are too many, every event fits behind those before it, and every frame fits.
pub proof fn sound_specifications_are_prepared(spec: PlanSpec)
    ensures
        spec.error() is None <==> {
            let nodes = spec.tempo_nodes@;
            let events = spec.events@;
            &&& spec.sample_rate == 44_100 || spec.sample_rate == 48_000 || spec.sample_rate
                == 96_000
            &&& 1 <= nodes.len() <= 50_000
            &&& events.len() <= 200_000
            &&& nodes[0].pulse == spec.origin_pulse
            &&& forall|i: int| 0 <= i < nodes.len() ==> (#[trigger] nodes[i]).micros_per_quarter > 0
            &&& forall|i: int, j: int|
                0 <= i < j < nodes.len() ==> (#[trigger] nodes[i]).pulse < (
                #[trigger] nodes[j]).pulse
            &&& forall|i: int|
                0 <= i < events.len() ==> #[trigger] event_fits(events, spec.origin_pulse, i)
            &&& forall|i: int|
                0 <= i < events.len() ==> i64::MIN <= spec.frame(
                    (#[trigger] events[i]).pulse as int,
                ) <= i64::MAX
        },
{
    let nodes = spec.tempo_nodes@;
    let events = spec.events@;
    lemma_events_fit(events, spec.origin_pulse, events.len());
    if spec.error() is None {
        assert forall|i: int| 0 <= i < nodes.len() implies (#[trigger] nodes[i]).micros_per_quarter
            > 0 by {}
        assert forall|i: int| 0 <= i < events.len() implies i64::MIN <= spec.frame(
            (#[trigger] events[i]).pulse as int,
        ) <= i64::MAX by {
            assert(spec.fits_frame(events[i].pulse as int));
        }
    }
}

/// What a block puts out of a plan: the event at its distance from the start of the block.
pub open spec fn comes_out_of(entry: ScheduledEvent, event: PreparedEvent, block: HostBlock) -> bool {
    &&& block.start_frame <= event.frame < block.start_frame + block.length
    &&& entry.absolute_frame == event.frame
    &&& entry.frame_offset == event.frame - block.start_frame
    &&& entry.stable_id == event.stable_id
    &&& entry.kind == event.kind
    &&& !entry.synthetic
}

proof fn lemma_block_holds(events: Seq<PreparedEvent>, start: int, length: int)
    ensures
        forall|event: PreparedEvent| #[trigger]
            scheduler::block_events(events, start, length).contains(event) <==> events.contains(
                event,
            ) && start <= event.frame < start + length,
    decreases events.len(),
{
    reveal(Seq::filter);
    let all = scheduler::block_events(events, start, length);
    if events.len() > 0 {
        let front = events.drop_last();
        let rest = scheduler::block_events(front, start, length);
        lemma_block_holds(front, start, length);
        assert forall|event: PreparedEvent| #[trigger] all.contains(event) <==> events.contains(
            event,
        ) && start <= event.frame < start + length by {
            if all.contains(event) {
                let k = choose|k: int| 0 <= k < all.len() && all[k] == event;
                if k < rest.len() {
                    assert(rest[k] == event);
                    assert(rest.contains(event));
                    let j = choose|j: int| 0 <= j < front.len() && front[j] == event;
                    assert(events[j] == event);
                } else {
                    assert(events[events.len() - 1] == event);
                }
            }
            if events.contains(event) && start <= event.frame < start + length {
                let j = choose|j: int| 0 <= j < events.len() && events[j] == event;
                if j < front.len() {
                    assert(front[j] == event);
                    assert(front.contains(event));
                    assert(rest.contains(event));
                    let k = choose|k: int| 0 <= k < rest.len() && rest[k] == event;
                    assert(all[k] == event);
                } else {
                    assert(all.last() == event);
                    assert(all[all.len() - 1] == event);
                }
            }
        }
    } else {
        assert(all =~= Seq::empty());
    }
}

proof fn lemma_emitted_from(active: Seq<ActiveSlot>, events: Seq<ScheduledEvent>)
    requires
        scheduler::in_schedule_order(events),
    ensures
        ({
            let emitted = scheduler::emission(active, events).emitted;
            &&& scheduler::in_schedule_order(emitted)
            &&& emitted.len() <= events.len()
            &&& forall|i: int| 0 <= i < emitted.len() ==> events.contains(#[trigger] emitted[i])
            &&& forall|i: int|
                0 <= i < events.len() && !((#[trigger] events[i]).kind is NoteOn)
                    ==> emitted.contains(events[i])
        }),
    decreases events.len(),
{
    let emitted = scheduler::emission(active, events).emitted;
    if events.len() > 0 {
        let front = events.drop_last();
        let rest = scheduler::emission(active, front).emitted;
        assert forall|i: int, j: int| 0 <= i < j < front.len() implies plan::key_le(
            (#[trigger] front[i]).schedule_key(),
            (#[trigger] front[j]).schedule_key(),
        ) by {
            assert(front[i] == events[i] && front[j] == events[j]);
        }
        lemma_emitted_from(active, front);
        let last = events.last();
        assert(events[events.len() - 1] == last);
        assert forall|i: int| 0 <= i < emitted.len() implies events.contains(
            #[trigger] emitted[i],
        ) by {
            if i < rest.len() {
                assert(emitted[i] == rest[i]);
                let k = choose|k: int| 0 <= k < front.len() && front[k] == rest[i];
                assert(events[k] == emitted[i]);
            }
        }
        assert forall|i: int, j: int| 0 <= i < j < emitted.len() implies plan::key_le(
            (#[trigger] emitted[i]).schedule_key(),
            (#[trigger] emitted[j]).schedule_key(),
        ) by {
            assert(emitted[i] == rest[i]);
            if j < rest.len() {
                assert(emitted[j] == rest[j]);
            } else {
                assert(front.contains(rest[i]));
                let k = choose|k: int| 0 <= k < front.len() && front[k] == rest[i];
                assert(plan::key_le(
                    events[k].schedule_key(),
                    events[events.len() - 1].schedule_key(),
                ));
            }
        }
        assert forall|i: int|
            0 <= i < events.len() && !((#[trigger] events[i]).kind is NoteOn) implies emitted.contains(
            events[i],
        ) by {
            if i < front.len() {
                assert(front[i] == events[i]);
                assert(rest.contains(front[i]));
                let k = choose|k: int| 0 <= k < rest.len() && rest[k] == front[i];
                assert(emitted[k] == events[i]);
            } else {
                assert(emitted.last() == last);
                assert(emitted[emitted.len() - 1] == last);
            }
        }
    }
}

/// What follows the synthetic terminations of a block comes out of the plan's events in
/// its frames, each at its distance from the start, by distance, at one distance by what
/// it does, and then by identity.
pub proof fn blocks_put_out_their_events(
    before: SchedulerView,
    after: SchedulerView,
    prepared: PlanView,
    block: HostBlock,
    output: Seq<ScheduledEvent>,
    result: ScheduleResult,
    i: int,
)
    requires
        scheduler::accepted(before, after, prepared, block, output, result),
        result.synthetic_terminations <= i < result.written,
    ensures
        exists|event: PreparedEvent| #[trigger]
            prepared.events.contains(event) && comes_out_of(output[i], event, block),
        forall|j: int| i < j < result.written ==> {
            let (a, b) = (output[i], #[trigger] output[j]);
            &&& a.frame_offset <= b.frame_offset
            &&& a.frame_offset == b.frame_offset ==> turn_in_frame(a.kind) <= turn_in_frame(b.kind)
            &&& a.frame_offset == b.frame_offset && turn_in_frame(a.kind) == turn_in_frame(b.kind)
                ==> a.stable_id <= b.stable_id
        },
{
    let room = output.len();
    let (start, length) = (block.start_frame as int, block.length as int);
    let ordinary = scheduler::block_events(prepared.events, start, length);
    let fallback = scheduler::falls_back(before, prepared, block, room);
    let competing = scheduler::candidates(ordinary, fallback, block.start_frame);
    let first = result.synthetic_terminations as int;
    let base = scheduler::settled(before, prepared, block, room);
    let kept = choose|kept: Seq<ScheduledEvent>| #[trigger]
        scheduler::retained(kept, competing, (room - first) as nat) && {
            let effect = scheduler::emission(base, kept);
            &&& after.active == effect.active
            &&& output.subrange(first, result.written as int) == effect.emitted
            &&& result.overflowed == (competing.len() < ordinary.len() || competing.len() > room
                - first || effect.saturated)
        };
    let emitted = scheduler::emission(base, kept).emitted;
    lemma_emitted_from(base, kept);
    assert(emitted[i - first] == output[i]);
    assert(kept.contains(emitted[i - first]));
    let k = choose|k: int| 0 <= k < kept.len() && kept[k] == output[i];
    assert(competing.contains(kept[k]));
    scheduler::lemma_candidates_from(ordinary, fallback, block.start_frame);
    let m = choose|m: int|
        0 <= m < ordinary.len() && output[i] == scheduler::placed(
            #[trigger] ordinary[m],
            block.start_frame,
        ) && !(fallback && scheduler::note_related(ordinary[m].kind));
    lemma_block_holds(prepared.events, start, length);
    assert(ordinary.contains(ordinary[m]));
    assert(prepared.events.contains(ordinary[m]));
    assert(comes_out_of(output[i], ordinary[m], block));
    assert forall|j: int| i < j < result.written implies plan::key_le(
        output[i].schedule_key(),
        (#[trigger] output[j]).schedule_key(),
    ) by {
        assert(emitted[j - first] == output[j]);
    }
}

/// A block that does not overflow leaves out no event of the plan in its frames, but for
/// onsets of notes that sound already.
pub proof fn blocks_leave_nothing_out(
    before: SchedulerView,
    after: SchedulerView,
    prepared: PlanView,
    block: HostBlock,
    output: Seq<ScheduledEvent>,
    result: ScheduleResult,
    event: PreparedEvent,
)
    requires
        scheduler::accepted(before, after, prepared, block, output, result),
        !result.overflowed,
        prepared.events.contains(event),
        block.start_frame <= event.frame < block.start_frame + block.length,
        !(event.kind is NoteOn),
    ensures
        exists|i: int|
            result.synthetic_terminations <= i < result.written && #[trigger] comes_out_of(
                output[i],
                event,
                block,
            ),
{
    let room = output.len();
    let (start, length) = (block.start_frame as int, block.length as int);
    let ordinary = scheduler::block_events(prepared.events, start, length);
    let fallback = scheduler::falls_back(before, prepared, block, room);
    let competing = scheduler::candidates(ordinary, fallback, block.start_frame);
    let first = result.synthetic_terminations as int;
    let base = scheduler::settled(before, prepared, block, room);
    let kept = choose|kept: Seq<ScheduledEvent>| #[trigger]
        scheduler::retained(kept, competing, (room - first) as nat) && {
            let effect = scheduler::emission(base, kept);
            &&& after.active == effect.active
            &&& output.subrange(first, result.written as int) == effect.emitted
            &&& result.overflowed == (competing.len() < ordinary.len() || competing.len() > room
                - first || effect.saturated)
        };
    lemma_block_holds(prepared.events, start, length);
    assert(ordinary.contains(event));
    lemma_all_compete(ordinary, fallback, block.start_frame);
    let m = choose|m: int| 0 <= m < ordinary.len() && ordinary[m] == event;
    let entry = scheduler::placed(event, block.start_frame);
    assert(competing[m] == entry);
    assert(competing.contains(entry));
    lemma_all_kept(kept, competing);
    assert(kept.contains(entry));
    let k = choose|k: int| 0 <= k < kept.len() && kept[k] == entry;
    lemma_emitted_from(base, kept);
    let emitted = scheduler::emission(base, kept).emitted;
    assert(emitted.contains(kept[k]));
    let e = choose|e: int| 0 <= e < emitted.len() && emitted[e] == entry;
    assert(output.subrange(first, result.written as int)[e] == output[first + e]);
    assert(comes_out_of(output[first + e], event, block));
}

/// Where as many compete as there are events, each does.
proof fn lemma_all_compete(ordinary: Seq<PreparedEvent>, fallback: bool, start: i64)
    requires
        scheduler::candidates(ordinary, fallback, start).len() >= ordinary.len(),
    ensures
        scheduler::candidates(ordinary, fallback, start).len() == ordinary.len(),
        forall|m: int|
            0 <= m < ordinary.len() ==> scheduler::candidates(ordinary, fallback, start)[m]
                == scheduler::placed(#[trigger] ordinary[m], start),
    decreases ordinary.len(),
{
    scheduler::lemma_candidates_from(ordinary, fallback, start);
    if ordinary.len() > 0 {
        let front = ordinary.drop_last();
        scheduler::lemma_candidates_from(front, fallback, start);
        lemma_all_compete(front, fallback, start);
        let all = scheduler::candidates(ordinary, fallback, start);
        let rest = scheduler::candidates(front, fallback, start);
        assert forall|m: int| 0 <= m < ordinary.len() implies all[m] == scheduler::placed(
            #[trigger] ordinary[m],
            start,
        ) by {
            if m < front.len() {
                assert(all[m] == rest[m]);
                assert(front[m] == ordinary[m]);
            }
        }
    }
}

/// As many distinct entries as there are to choose from are all of them.
proof fn lemma_all_kept(kept: Seq<ScheduledEvent>, competing: Seq<ScheduledEvent>)
    requires
        kept.no_duplicates(),
        kept.len() == competing.len(),
        forall|i: int| 0 <= i < kept.len() ==> competing.contains(#[trigger] kept[i]),
    ensures
        forall|e: ScheduledEvent| #[trigger] competing.contains(e) ==> kept.contains(e),
{
    let (some, all) = (kept.to_set(), competing.to_set());
    kept.unique_seq_to_set();
    competing.lemma_cardinality_of_set();
    vstd::seq_lib::seq_to_set_is_finite(competing);
    vstd::seq_lib::seq_to_set_is_finite(kept);
    assert(some.subset_of(all)) by {
        assert forall|e: ScheduledEvent| some.contains(e) implies #[trigger] all.contains(e) by {
            assert(kept.contains(e));
            let i = choose|i: int| 0 <= i < kept.len() && kept[i] == e;
            assert(competing.contains(kept[i]));
        }
    }
    vstd::set_lib::lemma_len_subset(some, all);
    vstd::set_lib::lemma_subset_equality(some, all);
    assert forall|e: ScheduledEvent| #[trigger] competing.contains(e) implies kept.contains(e) by {
        assert(all.contains(e));
        assert(some.contains(e));
    }
}

/// Under overload what is dropped comes behind everything that is kept: by what it does,
/// then by identity, then by frame.
pub proof fn overload_drops_what_matters_least(
    kept: Seq<ScheduledEvent>,
    competing: Seq<ScheduledEvent>,
    room: nat,
    i: int,
    dropped: ScheduledEvent,
)
    requires
        scheduler::retained(kept, competing, room),
        0 <= i < kept.len(),
        competing.contains(dropped),
        !kept.contains(dropped),
    ensures
        kept.len() == room,
        turn_in_frame(kept[i].kind) <= turn_in_frame(dropped.kind),
        turn_in_frame(kept[i].kind) == turn_in_frame(dropped.kind) ==> kept[i].stable_id
            <= dropped.stable_id,
{
    assert(plan::key_lt(kept[i].retention_key(), dropped.retention_key()));
    if competing.len() <= room {
        lemma_all_kept(kept, competing);
    }
}

/// An event ends a note: a release of the same instance on its channel and key, or the end
/// of everything on its channel.
pub open spec fn ends_note(kind: EventKind, note: NoteIdentity) -> bool {
    match kind {
        EventKind::NoteOff { instance_id, channel, key, .. } => instance_id == note.instance_id
            && channel == note.channel && key == note.key,
        EventKind::AllNotesOff { channel } => channel == note.channel,
        _ => false,
    }
}

pub open spec fn begins_note(kind: EventKind, note: NoteIdentity) -> bool {
    kind matches EventKind::NoteOn { instance_id, channel, key, .. } && instance_id
        == note.instance_id && channel == note.channel && key == note.key
}

pub open spec fn slot_of(note: NoteIdentity) -> ActiveSlot {
    ActiveSlot::Live { instance_id: note.instance_id, channel: note.channel, key: note.key }
}

/// A note sounds after some events: it did before them and none ended it, or one began it
/// and none after that ended it.
pub open spec fn sounds_after(
    active: Seq<ActiveSlot>,
    emitted: Seq<ScheduledEvent>,
    note: NoteIdentity,
) -> bool {
    ||| active.contains(slot_of(note)) && forall|i: int|
        0 <= i < emitted.len() ==> !ends_note((#[trigger] emitted[i]).kind, note)
    ||| exists|s: int|
        {
            &&& 0 <= s < emitted.len()
            &&& begins_note((#[trigger] emitted[s]).kind, note)
            &&& forall|i: int|
                s < i < emitted.len() ==> !ends_note((#[trigger] emitted[i]).kind, note)
        }
}

/// The table of sounding notes holds a note exactly if it sounded before or has begun, and
/// has not ended since.
pub proof fn notes_sound_until_they_end(
    active: Seq<ActiveSlot>,
    events: Seq<ScheduledEvent>,
    note: NoteIdentity,
)
    ensures
        ({
            let effect = scheduler::emission(active, events);
            effect.active.contains(slot_of(note)) <==> sounds_after(active, effect.emitted, note)
        }),
    decreases events.len(),
{
    let slot = slot_of(note);
    let effect = scheduler::emission(active, events);
    if events.len() == 0 {
        assert(effect.emitted.len() == 0);
    } else {
        let so_far = scheduler::emission(active, events.drop_last());
        let event = events.last();
        notes_sound_until_they_end(active, events.drop_last(), note);
        if effect.emitted == so_far.emitted {
            lemma_emission_kept(so_far, event);
        } else {
            lemma_emission_step(so_far, event, slot, note);
            lemma_sounds_step(active, so_far.emitted, event, note);
        }
    }
}

proof fn lemma_emission_kept(so_far: Emission, event: ScheduledEvent)
    requires
        scheduler::emit_one(so_far, event).emitted == so_far.emitted,
    ensures
        scheduler::emit_one(so_far, event).active == so_far.active,
{
    assert(so_far.emitted.push(event).len() == so_far.emitted.len() + 1);
}

proof fn lemma_emission_step(
    so_far: Emission,
    event: ScheduledEvent,
    slot: ActiveSlot,
    note: NoteIdentity,
)
    requires
        slot == slot_of(note),
        scheduler::emit_one(so_far, event).emitted != so_far.emitted,
    ensures
        scheduler::emit_one(so_far, event).emitted == so_far.emitted.push(event),
        scheduler::emit_one(so_far, event).active.contains(slot) <==> begins_note(event.kind, note)
            || (so_far.active.contains(slot) && !ends_note(event.kind, note)),
{
    let next = scheduler::emit_one(so_far, event);
    match event.kind {
        EventKind::NoteOn { instance_id, channel, key, .. } => {
            let i = choose|i: int| scheduler::first_empty(so_far.active, i);
            let begun = ActiveSlot::Live { instance_id, channel, key };
            assert(next.active == so_far.active.update(i, begun));
            assert(next.active[i] == begun);
            if so_far.active.contains(slot) {
                let k = choose|k: int| 0 <= k < so_far.active.len() && so_far.active[k] == slot;
                assert(next.active[k] == slot);
            }
            if next.active.contains(slot) {
                let k = choose|k: int| 0 <= k < next.active.len() && next.active[k] == slot;
                if k != i {
                    assert(so_far.active[k] == slot);
                }
            }
        },
        _ => {
            let ended = |other: ActiveSlot| scheduler::terminates(event.kind, other);
            assert(next.active == scheduler::without(so_far.active, ended));
            assert(scheduler::terminates(event.kind, slot) == ends_note(event.kind, note));
            if so_far.active.contains(slot) && !ends_note(event.kind, note) {
                let k = choose|k: int| 0 <= k < so_far.active.len() && so_far.active[k] == slot;
                assert(next.active[k] == slot);
            }
            if next.active.contains(slot) {
                let k = choose|k: int| 0 <= k < next.active.len() && next.active[k] == slot;
                assert(so_far.active[k] == slot);
            }
        },
    }
}

proof fn lemma_sounds_step(
    active: Seq<ActiveSlot>,
    emitted: Seq<ScheduledEvent>,
    event: ScheduledEvent,
    note: NoteIdentity,
)
    ensures
        sounds_after(active, emitted.push(event), note) <==> begins_note(event.kind, note) || (
        sounds_after(active, emitted, note) && !ends_note(event.kind, note)),
{
    let longer = emitted.push(event);
    let n = emitted.len() as int;
    assert(longer[n] == event);
    assert forall|i: int| 0 <= i < n implies #[trigger] emitted[i] == longer[i] by {}
    if begins_note(event.kind, note) {
        assert(begins_note(longer[n].kind, note));
    } else if sounds_after(active, emitted, note) && !ends_note(event.kind, note) {
        if active.contains(slot_of(note)) && forall|i: int|
            0 <= i < n ==> !ends_note((#[trigger] emitted[i]).kind, note) {
            assert forall|i: int| 0 <= i < longer.len() implies !ends_note(
                (#[trigger] longer[i]).kind,
                note,
            ) by {
                if i < n {
                    assert(!ends_note(emitted[i].kind, note));
                }
            }
        } else {
            let s = choose|s: int|
                {
                    &&& 0 <= s < n
                    &&& begins_note((#[trigger] emitted[s]).kind, note)
                    &&& forall|i: int| s < i < n ==> !ends_note((#[trigger] emitted[i]).kind, note)
                };
            assert(begins_note(longer[s].kind, note));
            assert forall|i: int| s < i < longer.len() implies !ends_note(
                (#[trigger] longer[i]).kind,
                note,
            ) by {
                if i < n {
                    assert(!ends_note(emitted[i].kind, note));
                }
            }
        }
    }
    if sounds_after(active, longer, note) && !begins_note(event.kind, note) {
        assert(!ends_note(longer[n].kind, note)) by {
            if !(active.contains(slot_of(note)) && forall|i: int|
                0 <= i < longer.len() ==> !ends_note((#[trigger] longer[i]).kind, note)) {
                let s = choose|s: int|
                    {
                        &&& 0 <= s < longer.len()
                        &&& begins_note((#[trigger] longer[s]).kind, note)
                        &&& forall|i: int|
                            s < i < longer.len() ==> !ends_note((#[trigger] longer[i]).kind, note)
                    };
                assert(s < n);
            }
        }
        if active.contains(slot_of(note)) && forall|i: int|
            0 <= i < longer.len() ==> !ends_note((#[trigger] longer[i]).kind, note) {
            assert forall|i: int| 0 <= i < n implies !ends_note(
                (#[trigger] emitted[i]).kind,
                note,
            ) by {
                assert(!ends_note(longer[i].kind, note));
            }
        } else {
            let s = choose|s: int|
                {
                    &&& 0 <= s < longer.len()
                    &&& begins_note((#[trigger] longer[s]).kind, note)
                    &&& forall|i: int|
                        s < i < longer.len() ==> !ends_note((#[trigger] longer[i]).kind, note)
                };
            assert(s < n);
            assert(begins_note(emitted[s].kind, note));
            assert forall|i: int| s < i < n implies !ends_note(
                (#[trigger] emitted[i]).kind,
                note,
            ) by {
                assert(!ends_note(longer[i].kind, note));
            }
        }
    }
}

/// Which notes a discontinuity ends: none where time goes on, those that no onset of the
/// new plan begins where the plan is replaced, and all of them otherwise.
pub proof fn discontinuities_end_their_notes(
    before: SchedulerView,
    prepared: PlanView,
    block: HostBlock,
    room: nat,
    i: int,
    note: NoteIdentity,
)
    requires
        plan::valid_plan(prepared),
        !scheduler::falls_back(before, prepared, block, room),
        0 <= i < before.active.len(),
        before.active[i] == slot_of(note),
    ensures
        scheduler::settled(before, prepared, block, room)[i] == if match block.discontinuity {
            Discontinuity::Continuous => false,
            Discontinuity::PlanReplacement => forall|k: int|
                0 <= k < prepared.events.len() ==> !begins_note(
                    (#[trigger] prepared.events[k]).kind,
                    note,
                ),
            Discontinuity::Seek => true,
            Discontinuity::LoopWrap => true,
            Discontinuity::SampleRateChange => true,
        } {
            ActiveSlot::Empty
        } else {
            slot_of(note)
        },
{
    if prepared.note_instances.contains(note) {
        let k = choose|k: int|
            0 <= k < prepared.events.len() && #[trigger] plan::sounds_as(
                prepared.events[k].kind,
                note,
            );
        assert(begins_note(prepared.events[k].kind, note));
    }
    if exists|k: int|
        0 <= k < prepared.events.len() && begins_note((#[trigger] prepared.events[k]).kind, note) {
        let k = choose|k: int|
            0 <= k < prepared.events.len() && begins_note(
                (#[trigger] prepared.events[k]).kind,
                note,
            );
        assert(plan::sounds_as(prepared.events[k].kind, note));
        assert(prepared.note_instances.contains(note));
    }
}

/// A call is refused for its token exactly if the token is no greater than that of the
/// last accepted call; for its length if that is zero or above 2048; for its rate if that
/// is not supported or not the plan's; and for its frames if they run out.
pub proof fn faulty_blocks_are_refused(
    before: SchedulerView,
    prepared: PlanView,
    block: HostBlock,
    room: nat,
)
    ensures
        ({
            let told = scheduler::refusal(before, prepared, block, room);
            let stale = before.last_token matches Some(last) && block.token <= last;
            let short = block.length == 0;
            let long = block.length > 2_048;
            let odd = block.sample_rate != 44_100 && block.sample_rate != 48_000
                && block.sample_rate != 96_000;
            let other = block.sample_rate != prepared.sample_rate;
            let late = block.start_frame + block.length > i64::MAX;
            let error = match told {
                Some(result) => result.error,
                None => None,
            };
            &&& stale ==> error == Some(CallbackError::NonMonotonicToken)
                && (told->0).duplicate_token == (before.last_token == Some(block.token))
            &&& !stale && short ==> error == Some(CallbackError::EmptyBlock)
            &&& !stale && long ==> error == Some(CallbackError::BlockTooLarge)
            &&& !stale && !short && !long && odd ==> error == Some(
                CallbackError::UnsupportedSampleRate,
            )
            &&& !stale && !short && !long && !odd && other ==> error == Some(
                CallbackError::PlanSampleRateMismatch,
            )
            &&& !stale && !short && !long && !odd && !other && late ==> error == Some(
                CallbackError::FrameRangeOverflow,
            )
            &&& !stale && !short && !long && !odd && !other && !late ==> error is None || error
                == Some(CallbackError::TerminationOutputTooSmall)
            &&& told is Some ==> (told->0).written == 0
        }),
{
}

} // verus!
