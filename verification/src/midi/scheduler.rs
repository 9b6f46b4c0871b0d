//! The callback scheduler: one host block at a time, into storage that the
//! caller owns, with a fixed table of sounding notes.

use vstd::prelude::*;
use crate::midi::plan;
use crate::midi::plan::{
    is_supported_rate, EventKind, NoteIdentity, PlanView, PreparedEvent, PreparedPlan,
};

verus! {

/// Explicit transport state transition supplied by the host wrapper.
#[derive(Clone, Copy, Debug, PartialEq, Eq, Structural)]
pub enum Discontinuity {
    Continuous,
    Seek,
    LoopWrap,
    SampleRateChange,
    PlanReplacement,
}

/// Callback metadata. Blocks are interpreted as `[start_frame, start_frame + length)`.
#[derive(Clone, Copy, Debug, PartialEq, Eq, Structural)]
pub struct HostBlock {
    /// Must be greater than the token of the last successful callback.
    /// Failed calls do not consume their token and may be retried.
    pub token: u64,
    pub start_frame: i64,
    pub length: u32,
    pub sample_rate: u32,
    pub discontinuity: Discontinuity,
}

#[derive(Clone, Copy, Debug, PartialEq, Eq, Structural)]
pub enum CallbackError {
    EmptyBlock,
    BlockTooLarge,
    UnsupportedSampleRate,
    PlanSampleRateMismatch,
    FrameRangeOverflow,
    TerminationOutputTooSmall,
    NonMonotonicToken,
}

/// One caller-owned output entry.
#[derive(Clone, Copy, Debug, PartialEq, Eq, Structural)]
pub struct ScheduledEvent {
    pub absolute_frame: i64,
    pub frame_offset: u32,
    pub stable_id: u64,
    pub kind: EventKind,
    pub synthetic: bool,
}

impl ScheduledEvent {
    /// The entry that fresh output storage is filled with.
    pub open spec fn blank() -> ScheduledEvent {
        ScheduledEvent {
            absolute_frame: 0,
            frame_offset: 0,
            stable_id: 0,
            kind: EventKind::AllNotesOff { channel: 0 },
            synthetic: false,
        }
    }

    #[must_use]
    pub fn empty() -> (event: Self)
        ensures
            event == Self::blank(),
    {
        ScheduledEvent {
            absolute_frame: 0,
            frame_offset: 0,
            stable_id: 0,
            kind: EventKind::AllNotesOff { channel: 0 },
            synthetic: false,
        }
    }

    /// What decides which events survive overload: lower keys first.
    pub open spec fn retention_key(self) -> (int, int, int) {
        (self.kind.rank() as int, self.stable_id as int, self.absolute_frame as int)
    }

    /// What decides the order of emission within a block.
    pub open spec fn schedule_key(self) -> (int, int, int) {
        (self.frame_offset as int, self.kind.rank() as int, self.stable_id as int)
    }
}

#[derive(Clone, Copy, Debug, PartialEq, Eq, Structural)]
pub struct ScheduleResult {
    pub written: usize,
    pub synthetic_terminations: usize,
    /// True only when `NonMonotonicToken` was caused by equality.
    pub duplicate_token: bool,
    pub overflowed: bool,
    pub error: Option<CallbackError>,
}

impl ScheduleResult {
    /// The result of a refused call.
    pub open spec fn refused(error: CallbackError, duplicate: bool) -> ScheduleResult {
        ScheduleResult {
            written: 0,
            synthetic_terminations: 0,
            duplicate_token: duplicate,
            overflowed: false,
            error: Some(error),
        }
    }

    fn error(error: CallbackError) -> (result: Self)
        ensures
            result == Self::refused(error, false),
    {
        ScheduleResult {
            written: 0,
            synthetic_terminations: 0,
            duplicate_token: false,
            overflowed: false,
            error: Some(error),
        }
    }

    fn non_monotonic_token(duplicate_token: bool) -> (result: Self)
        ensures
            result == Self::refused(CallbackError::NonMonotonicToken, duplicate_token),
    {
        ScheduleResult {
            written: 0,
            synthetic_terminations: 0,
            duplicate_token,
            overflowed: false,
            error: Some(CallbackError::NonMonotonicToken),
        }
    }
}

/// One entry of the table of sounding notes.
#[derive(Clone, Copy, Debug, PartialEq, Eq, Structural)]
pub enum ActiveSlot {
    Empty,
    Live { instance_id: u32, channel: u8, key: u8 },
}

impl ActiveSlot {
    pub open spec fn on_channel(self, wanted: u8) -> bool {
        self matches ActiveSlot::Live { channel, .. } && channel == wanted
    }

    pub open spec fn is_instance(self, wanted: u32) -> bool {
        self matches ActiveSlot::Live { instance_id, .. } && instance_id == wanted
    }
}

/// What the scheduler remembers between callbacks.
#[verifier::ext_equal]
pub struct SchedulerView {
    pub active: Seq<ActiveSlot>,
    pub last_token: Option<u64>,
    pub sticky_overflow: bool,
}

/// Sounding notes are on one of sixteen channels, and no instance sounds twice.
pub open spec fn valid_active(active: Seq<ActiveSlot>) -> bool {
    &&& forall|i: int|
        0 <= i < active.len() ==> ((#[trigger] active[i]) matches ActiveSlot::Live {
            channel,
            ..
        } ==> channel < 16)
    &&& forall|i: int, j: int|
        0 <= i < j < active.len() ==> ((#[trigger] active[i]) matches ActiveSlot::Live {
            instance_id,
            ..
        } ==> !(#[trigger] active[j]).is_instance(instance_id))
}

/// The plan's events in the half-open frame range of the block.
pub open spec fn block_events(
    events: Seq<PreparedEvent>,
    start: int,
    length: int,
) -> Seq<PreparedEvent> {
    events.filter(|event: PreparedEvent| start <= event.frame < start + length)
}

/// A prepared event placed in a block that begins at `start`.
pub open spec fn placed(event: PreparedEvent, start: i64) -> ScheduledEvent {
    ScheduledEvent {
        absolute_frame: event.frame,
        frame_offset: (event.frame - start) as u32,
        stable_id: event.stable_id,
        kind: event.kind,
        synthetic: false,
    }
}

/// Whether an event of this kind ends the note in the slot.
pub open spec fn terminates(kind: EventKind, slot: ActiveSlot) -> bool {
    match kind {
        EventKind::NoteOff { instance_id, channel, key, .. } => slot == (ActiveSlot::Live {
            instance_id,
            channel,
            key,
        }),
        EventKind::AllNotesOff { channel } => slot.on_channel(channel),
        _ => false,
    }
}

pub open spec fn ordinary_terminates(slot: ActiveSlot, ordinary: Seq<PreparedEvent>) -> bool {
    exists|i: int| 0 <= i < ordinary.len() && #[trigger] terminates(ordinary[i].kind, slot)
}

/// Whether the discontinuity ends the note in the slot: a replaced plan keeps
/// the notes that it still knows, every other discontinuity keeps none.
pub open spec fn invalidated(
    slot: ActiveSlot,
    plan: PlanView,
    discontinuity: Discontinuity,
) -> bool {
    match slot {
        ActiveSlot::Empty => false,
        ActiveSlot::Live { instance_id, channel, key } => match discontinuity {
            Discontinuity::Continuous => false,
            Discontinuity::PlanReplacement => !plan.note_instances.contains(
                NoteIdentity { instance_id, channel, key },
            ),
            _ => true,
        },
    }
}

/// How many termination entries a block may need.
pub open spec fn required_terminations(
    active: Seq<ActiveSlot>,
    plan: PlanView,
    block: HostBlock,
    ordinary: Seq<PreparedEvent>,
) -> nat {
    active.filter(|slot: ActiveSlot| invalidated(slot, plan, block.discontinuity)).len()
        + active.filter(|slot: ActiveSlot| ordinary_terminates(slot, ordinary)).len()
}

/// A channel with a note that the block ends in one way or the other.
pub open spec fn affected(
    active: Seq<ActiveSlot>,
    plan: PlanView,
    block: HostBlock,
    ordinary: Seq<PreparedEvent>,
    channel: u8,
) -> bool {
    exists|i: int|
        0 <= i < active.len() && (#[trigger] active[i]).on_channel(channel) && (invalidated(
            active[i],
            plan,
            block.discontinuity,
        ) || ordinary_terminates(active[i], ordinary))
}

/// A synthetic end of everything on one channel.
pub open spec fn channel_off(channel: u8, frame: i64) -> ScheduledEvent {
    ScheduledEvent {
        absolute_frame: frame,
        frame_offset: 0,
        stable_id: (1u64 << 63u64) | (channel as u64),
        kind: EventKind::AllNotesOff { channel },
        synthetic: true,
    }
}

/// One channel end for each chosen channel below `n`, in channel order.
pub open spec fn channel_offs(
    chosen: spec_fn(u8) -> bool,
    frame: i64,
    n: nat,
) -> Seq<ScheduledEvent>
    decreases n,
{
    if n == 0 {
        Seq::empty()
    } else {
        let rest = channel_offs(chosen, frame, (n - 1) as nat);
        if chosen((n - 1) as u8) {
            rest.push(channel_off((n - 1) as u8, frame))
        } else {
            rest
        }
    }
}

/// A synthetic release of one sounding note.
pub open spec fn release(slot: ActiveSlot, frame: i64) -> ScheduledEvent {
    match slot {
        ActiveSlot::Live { instance_id, channel, key } => ScheduledEvent {
            absolute_frame: frame,
            frame_offset: 0,
            stable_id: (1u64 << 63u64) | (instance_id as u64),
            kind: EventKind::NoteOff { channel, key, velocity: 0, instance_id },
            synthetic: true,
        },
        ActiveSlot::Empty => ScheduledEvent::blank(),
    }
}

/// The slots with every chosen note removed.
pub open spec fn without(
    active: Seq<ActiveSlot>,
    chosen: spec_fn(ActiveSlot) -> bool,
) -> Seq<ActiveSlot> {
    active.map_values(
        |slot: ActiveSlot|
            if chosen(slot) {
                ActiveSlot::Empty
            } else {
                slot
            },
    )
}

/// Events stand in emission order.
pub open spec fn in_schedule_order(events: Seq<ScheduledEvent>) -> bool {
    forall|i: int, j: int|
        0 <= i < j < events.len() ==> plan::key_le((#[trigger] events[i]).schedule_key(), (
        #[trigger] events[j]).schedule_key())
}

/// Kinds that a channel fallback makes redundant or unsafe.
pub open spec fn note_related(kind: EventKind) -> bool {
    kind is NoteOn || kind is NoteOff || kind is AllNotesOff
}

/// The ordinary events that compete for the remaining room.
pub open spec fn candidates(
    ordinary: Seq<PreparedEvent>,
    fallback: bool,
    start: i64,
) -> Seq<ScheduledEvent>
    decreases ordinary.len(),
{
    if ordinary.len() == 0 {
        Seq::empty()
    } else {
        let rest = candidates(ordinary.drop_last(), fallback, start);
        if fallback && note_related(ordinary.last().kind) {
            rest
        } else {
            rest.push(placed(ordinary.last(), start))
        }
    }
}

/// The `room` candidates of lowest retention key (all of them, if they fit), in
/// emission order.
pub open spec fn retained(
    kept: Seq<ScheduledEvent>,
    candidates: Seq<ScheduledEvent>,
    room: nat,
) -> bool {
    &&& in_schedule_order(kept)
    &&& best(kept, candidates, room)
}

/// The `room` candidates of lowest retention key, in any order.
pub open spec fn best(
    kept: Seq<ScheduledEvent>,
    candidates: Seq<ScheduledEvent>,
    room: nat,
) -> bool {
    &&& kept.no_duplicates()
    &&& kept.len() == (if candidates.len() <= room {
        candidates.len()
    } else {
        room
    })
    &&& forall|i: int| 0 <= i < kept.len() ==> candidates.contains(#[trigger] kept[i])
    &&& forall|e: ScheduledEvent, i: int|
        #![trigger candidates.contains(e), kept[i]]
        candidates.contains(e) && !kept.contains(e) && 0 <= i < kept.len() ==> plan::key_lt(
            kept[i].retention_key(),
            e.retention_key(),
        )
}

/// The effect of emitting events: the notes that sound afterwards, the events
/// that came out, and whether a note found no free slot.
#[verifier::ext_equal]
pub struct Emission {
    pub active: Seq<ActiveSlot>,
    pub emitted: Seq<ScheduledEvent>,
    pub saturated: bool,
}

pub open spec fn sounding(active: Seq<ActiveSlot>, instance: u32) -> bool {
    exists|i: int| 0 <= i < active.len() && (#[trigger] active[i]).is_instance(instance)
}

pub open spec fn first_empty(active: Seq<ActiveSlot>, i: int) -> bool {
    &&& 0 <= i < active.len()
    &&& active[i] == ActiveSlot::Empty
    &&& forall|j: int| 0 <= j < i ==> active[j] != ActiveSlot::Empty
}

/// One event: an onset of a sounding instance is dropped, an onset without a
/// free slot is dropped and reported, everything else comes out.
pub open spec fn emit_one(so_far: Emission, event: ScheduledEvent) -> Emission {
    match event.kind {
        EventKind::NoteOn { instance_id, channel, key, .. } => if sounding(
            so_far.active,
            instance_id,
        ) {
            so_far
        } else if exists|i: int| first_empty(so_far.active, i) {
            let i = choose|i: int| first_empty(so_far.active, i);
            Emission {
                active: so_far.active.update(i, ActiveSlot::Live { instance_id, channel, key }),
                emitted: so_far.emitted.push(event),
                saturated: so_far.saturated,
            }
        } else {
            Emission { saturated: true, ..so_far }
        },
        _ => Emission {
            active: without(so_far.active, |slot: ActiveSlot| terminates(event.kind, slot)),
            emitted: so_far.emitted.push(event),
            saturated: so_far.saturated,
        },
    }
}

pub open spec fn emission(active: Seq<ActiveSlot>, events: Seq<ScheduledEvent>) -> Emission
    decreases events.len(),
{
    if events.len() == 0 {
        Emission { active, emitted: Seq::empty(), saturated: false }
    } else {
        emit_one(emission(active, events.drop_last()), events.last())
    }
}

/// Whether the block's terminations are condensed to one entry per channel.
pub open spec fn falls_back(
    before: SchedulerView,
    plan: PlanView,
    block: HostBlock,
    room: nat,
) -> bool {
    required_terminations(
        before.active,
        plan,
        block,
        block_events(plan.events, block.start_frame as int, block.length as int),
    ) > room
}

/// The channel ends that a fallback emits.
pub open spec fn fallback_offs(
    before: SchedulerView,
    plan: PlanView,
    block: HostBlock,
) -> Seq<ScheduledEvent> {
    let ordinary = block_events(plan.events, block.start_frame as int, block.length as int);
    channel_offs(
        |channel: u8| affected(before.active, plan, block, ordinary, channel),
        block.start_frame,
        16,
    )
}

/// The refusal of a call, if it is refused.
pub open spec fn refusal(
    before: SchedulerView,
    plan: PlanView,
    block: HostBlock,
    room: nat,
) -> Option<ScheduleResult> {
    if before.last_token is Some && block.token <= before.last_token->0 {
        Some(
            ScheduleResult::refused(
                CallbackError::NonMonotonicToken,
                block.token == before.last_token->0,
            ),
        )
    } else if block.length == 0 {
        Some(ScheduleResult::refused(CallbackError::EmptyBlock, false))
    } else if block.length > 2_048 {
        Some(ScheduleResult::refused(CallbackError::BlockTooLarge, false))
    } else if !plan::supported_rate(block.sample_rate) {
        Some(ScheduleResult::refused(CallbackError::UnsupportedSampleRate, false))
    } else if block.sample_rate != plan.sample_rate {
        Some(ScheduleResult::refused(CallbackError::PlanSampleRateMismatch, false))
    } else if block.start_frame + block.length > i64::MAX {
        Some(ScheduleResult::refused(CallbackError::FrameRangeOverflow, false))
    } else if falls_back(before, plan, block, room) && fallback_offs(before, plan, block).len()
        > room {
        Some(ScheduleResult::refused(CallbackError::TerminationOutputTooSmall, false))
    } else {
        None
    }
}

/// The notes that sound once the block's terminations are out.
pub open spec fn settled(
    before: SchedulerView,
    plan: PlanView,
    block: HostBlock,
    room: nat,
) -> Seq<ActiveSlot> {
    let ordinary = block_events(plan.events, block.start_frame as int, block.length as int);
    if falls_back(before, plan, block, room) {
        without(
            before.active,
            |slot: ActiveSlot|
                slot matches ActiveSlot::Live { channel, .. } && affected(
                    before.active,
                    plan,
                    block,
                    ordinary,
                    channel,
                ),
        )
    } else {
        without(
            before.active,
            |slot: ActiveSlot| invalidated(slot, plan, block.discontinuity),
        )
    }
}

/// The synthetic terminations that open the output.
pub open spec fn opening(
    terminations: Seq<ScheduledEvent>,
    before: SchedulerView,
    plan: PlanView,
    block: HostBlock,
    room: nat,
) -> bool {
    if falls_back(before, plan, block, room) {
        terminations == fallback_offs(before, plan, block)
    } else {
        &&& in_schedule_order(terminations)
        &&& terminations.to_multiset() == before.active.filter(
            |slot: ActiveSlot| invalidated(slot, plan, block.discontinuity),
        ).map_values(|slot: ActiveSlot| release(slot, block.start_frame)).to_multiset()
    }
}

/// What an accepted call leaves behind. Entries of the output from `written`
/// on carry no meaning.
pub open spec fn accepted(
    before: SchedulerView,
    after: SchedulerView,
    plan: PlanView,
    block: HostBlock,
    output: Seq<ScheduledEvent>,
    result: ScheduleResult,
) -> bool {
    let room = output.len();
    let ordinary = block_events(plan.events, block.start_frame as int, block.length as int);
    let fallback = falls_back(before, plan, block, room);
    let competing = candidates(ordinary, fallback, block.start_frame);
    let first = result.synthetic_terminations as int;
    &&& first <= result.written <= room
    &&& opening(output.take(first), before, plan, block, room)
    &&& exists|kept: Seq<ScheduledEvent>| #[trigger]
        retained(kept, competing, (room - first) as nat) && {
            let effect = emission(settled(before, plan, block, room), kept);
            &&& after.active == effect.active
            &&& output.subrange(first, result.written as int) == effect.emitted
            &&& result.overflowed == (competing.len() < ordinary.len() || competing.len() > room
                - first || effect.saturated)
        }
    &&& after.last_token == Some(block.token)
    &&& after.sticky_overflow == (before.sticky_overflow || fallback || result.overflowed)
    &&& !result.duplicate_token
    &&& result.error is None
}

/// Fixed-capacity callback state. Construction and clearing are control-thread operations.
pub struct Scheduler {
    active: Vec<ActiveSlot>,
    last_token: Option<u64>,
    sticky_overflow: bool,
}

impl View for Scheduler {
    type V = SchedulerView;

    closed spec fn view(&self) -> SchedulerView {
        SchedulerView {
            active: self.active@,
            last_token: self.last_token,
            sticky_overflow: self.sticky_overflow,
        }
    }
}

fn retention_precedes(a: ScheduledEvent, b: ScheduledEvent) -> (less: bool)
    ensures
        less == plan::key_lt(a.retention_key(), b.retention_key()),
{
    let (left, right) = (a.kind.priority(), b.kind.priority());
    left < right || (left == right && (a.stable_id < b.stable_id || (a.stable_id == b.stable_id
        && a.absolute_frame < b.absolute_frame)))
}

fn schedule_precedes(a: ScheduledEvent, b: ScheduledEvent) -> (less: bool)
    ensures
        less == plan::key_lt(a.schedule_key(), b.schedule_key()),
{
    let (left, right) = (a.kind.priority(), b.kind.priority());
    a.frame_offset < b.frame_offset || (a.frame_offset == b.frame_offset && (left < right || (left
        == right && a.stable_id < b.stable_id)))
}

/// Exchanging two entries keeps the multiset.
proof fn lemma_exchange(s: Seq<ScheduledEvent>, i: int, j: int)
    requires
        0 <= i < j < s.len(),
    ensures
        s.update(i, s[j]).update(j, s[i]).to_multiset() == s.to_multiset(),
{
    vstd::seq_lib::to_multiset_update(s, i, s[j]);
    vstd::seq_lib::to_multiset_update(s.update(i, s[j]), j, s[i]);
    s.to_multiset_ensures();
    assert(s.update(i, s[j]).update(j, s[i]).to_multiset() =~= s.to_multiset());
}

/// Insertion sort of the entries from `from` to `to` by emission order.
fn insertion_sort_events(events: &mut [ScheduledEvent], from: usize, to: usize)
    requires
        from <= to <= old(events)@.len(),
    ensures
        final(events)@.len() == old(events)@.len(),
        forall|i: int|
            0 <= i < from || to <= i < final(events)@.len() ==> final(events)@[i] == old(
                events,
            )@[i],
        in_schedule_order(final(events)@.subrange(from as int, to as int)),
        final(events)@.to_multiset() == old(events)@.to_multiset(),
{
    let ghost original = events@;
    let mut index: usize = from;
    while index < to
        invariant
            from <= index <= to <= events@.len(),
            events@.len() == original.len(),
            forall|i: int|
                0 <= i < from || index <= i < events@.len() ==> events@[i] == original[i],
            forall|i: int, j: int|
                from <= i < j < index ==> plan::key_le((#[trigger] events@[i]).schedule_key(), (
                #[trigger] events@[j]).schedule_key()),
            events@.to_multiset() == original.to_multiset(),
        decreases to - index,
    {
        let mut cursor: usize = index;
        while cursor > from && schedule_precedes(events[cursor], events[cursor - 1])
            invariant
                from <= cursor <= index < to <= events@.len(),
                events@.len() == original.len(),
                forall|i: int|
                    0 <= i < from || index < i < events@.len() ==> events@[i] == original[i],
                forall|i: int, j: int|
                    from <= i < j <= index && j != cursor ==> plan::key_le(
                        (#[trigger] events@[i]).schedule_key(),
                        (#[trigger] events@[j]).schedule_key(),
                    ),
                events@.to_multiset() == original.to_multiset(),
            decreases cursor,
        {
            let ghost before = events@;
            let low = events[cursor - 1];
            let high = events[cursor];
            proof {
                lemma_exchange(before, cursor - 1, cursor as int);
            }
            events[cursor - 1] = high;
            events[cursor] = low;
            assert(events@ =~= before.update(cursor - 1, high).update(cursor as int, low));
            cursor = cursor - 1;
        }
        index = index + 1;
    }
}

/// Equal multisets with equal ends have equal multisets in between.
proof fn lemma_middle_multiset(a: Seq<ScheduledEvent>, b: Seq<ScheduledEvent>, from: int, to: int)
    requires
        0 <= from <= to <= a.len(),
        a.len() == b.len(),
        a.to_multiset() == b.to_multiset(),
        forall|i: int| 0 <= i < from || to <= i < a.len() ==> a[i] == b[i],
    ensures
        a.subrange(from, to).to_multiset() == b.subrange(from, to).to_multiset(),
{
    let (a1, a2, a3) = (a.take(from), a.subrange(from, to), a.skip(to));
    let (b1, b2, b3) = (b.take(from), b.subrange(from, to), b.skip(to));
    assert(a =~= a1 + a2 + a3);
    assert(b =~= b1 + b2 + b3);
    assert(a1 =~= b1);
    assert(a3 =~= b3);
    vstd::seq_lib::lemma_multiset_commutative(a1 + a2, a3);
    vstd::seq_lib::lemma_multiset_commutative(a1, a2);
    vstd::seq_lib::lemma_multiset_commutative(b1 + b2, b3);
    vstd::seq_lib::lemma_multiset_commutative(b1, b2);
    assert forall|v: ScheduledEvent| a2.to_multiset().count(v) == b2.to_multiset().count(v) by {
        assert(a.to_multiset().count(v) == a1.to_multiset().count(v) + a2.to_multiset().count(v)
            + a3.to_multiset().count(v));
        assert(b.to_multiset().count(v) == b1.to_multiset().count(v) + b2.to_multiset().count(v)
            + b3.to_multiset().count(v));
    }
    assert(a2.to_multiset() =~= b2.to_multiset());
}

/// Where the events from `frame` on begin.
fn frame_position(events: &[PreparedEvent], frame: i64) -> (position: usize)
    requires
        plan::increasing_events(events@),
    ensures
        position <= events@.len(),
        forall|i: int| 0 <= i < position ==> (#[trigger] events@[i]).frame < frame,
        forall|i: int| position <= i < events@.len() ==> (#[trigger] events@[i]).frame >= frame,
{
    let mut low: usize = 0;
    let mut high: usize = events.len();
    while low < high
        invariant
            low <= high <= events@.len(),
            plan::increasing_events(events@),
            forall|i: int| 0 <= i < low ==> (#[trigger] events@[i]).frame < frame,
            forall|i: int| high <= i < events@.len() ==> (#[trigger] events@[i]).frame >= frame,
        decreases high - low,
    {
        let middle: usize = low + (high - low) / 2;
        if events[middle].frame < frame {
            low = middle + 1;
        } else {
            high = middle;
        }
    }
    low
}

/// The events of a block are one run of the plan.
proof fn lemma_block_run(
    events: Seq<PreparedEvent>,
    start: int,
    length: int,
    begin: int,
    end: int,
)
    requires
        0 <= begin <= end <= events.len(),
        forall|i: int|
            0 <= i < events.len() ==> ((start <= (#[trigger] events[i]).frame < start + length)
                <==> begin <= i < end),
    ensures
        block_events(events, start, length) == events.subrange(begin, end),
{
    let keep = |event: PreparedEvent| start <= event.frame < start + length;
    crate::seqs::lemma_filter_run(events, keep, begin, end);
}

/// Counting one slot more.
proof fn lemma_count_step(active: Seq<ActiveSlot>, keep: spec_fn(ActiveSlot) -> bool, i: int)
    requires
        0 <= i < active.len(),
    ensures
        active.take(i + 1).filter(keep).len() == active.take(i).filter(keep).len() + (if keep(
            active[i],
        ) {
            1int
        } else {
            0
        }),
        active.take(i + 1).filter(keep) == (if keep(active[i]) {
            active.take(i).filter(keep).push(active[i])
        } else {
            active.take(i).filter(keep)
        }),
        active.take(i + 1).filter(keep).len() <= active.take(i + 1).len(),
{
    reveal(Seq::filter);
    assert(active.take(i + 1).drop_last() =~= active.take(i));
    active.take(i + 1).lemma_filter_len(keep);
}

fn slot_invalidated(slot: ActiveSlot, plan: &PreparedPlan, discontinuity: Discontinuity) -> (ends:
    bool)
    requires
        plan.wf(),
    ensures
        ends == invalidated(slot, plan@, discontinuity),
{
    match slot {
        ActiveSlot::Empty => false,
        ActiveSlot::Live { instance_id, channel, key } => match discontinuity {
            Discontinuity::Continuous => false,
            Discontinuity::PlanReplacement => !plan.contains_note_identity(
                NoteIdentity { instance_id, channel, key },
            ),
            _ => true,
        },
    }
}

fn kind_terminates(kind: EventKind, slot: ActiveSlot) -> (ends: bool)
    ensures
        ends == terminates(kind, slot),
{
    match slot {
        ActiveSlot::Empty => false,
        ActiveSlot::Live { instance_id, channel, key } => match kind {
            EventKind::NoteOff {
                instance_id: off_instance,
                channel: off_channel,
                key: off_key,
                ..
            } => off_instance == instance_id && off_channel == channel && off_key == key,
            EventKind::AllNotesOff { channel: off_channel } => off_channel == channel,
            _ => false,
        },
    }
}

fn ordinary_terminates_slot(
    slot: ActiveSlot,
    events: &[PreparedEvent],
    begin: usize,
    end: usize,
) -> (ends: bool)
    requires
        begin <= end <= events@.len(),
    ensures
        ends == ordinary_terminates(slot, events@.subrange(begin as int, end as int)),
{
    let ghost ordinary = events@.subrange(begin as int, end as int);
    let mut i: usize = begin;
    while i < end
        invariant
            begin <= i <= end <= events@.len(),
            ordinary == events@.subrange(begin as int, end as int),
            forall|j: int| 0 <= j < i - begin ==> !#[trigger] terminates(ordinary[j].kind, slot),
        decreases end - i,
    {
        if kind_terminates(events[i].kind, slot) {
            assert(terminates(ordinary[i - begin].kind, slot));
            return true;
        }
        i = i + 1;
    }
    false
}

/// An emission keeps the table valid when the onsets are valid MIDI.
proof fn lemma_emit_one_valid(so_far: Emission, event: ScheduledEvent)
    requires
        valid_active(so_far.active),
        event.kind.valid_midi(),
    ensures
        valid_active(emit_one(so_far, event).active),
        emit_one(so_far, event).active.len() == so_far.active.len(),
{
}

/// The first free slot is unique.
proof fn lemma_first_empty_unique(active: Seq<ActiveSlot>, i: int, j: int)
    requires
        first_empty(active, i),
        first_empty(active, j),
    ensures
        i == j,
{
    if i < j {
        assert(active[i] != ActiveSlot::Empty);
    } else if j < i {
        assert(active[j] != ActiveSlot::Empty);
    }
}

/// One more candidate joins the best: it fills free room, displaces the worst,
/// or stays out.
proof fn lemma_best_step(
    kept: Seq<ScheduledEvent>,
    competing: Seq<ScheduledEvent>,
    room: nat,
    next: ScheduledEvent,
    worst: int,
)
    requires
        best(kept, competing, room),
        kept.len() == room,
        room > 0,
        0 <= worst < room,
        !competing.contains(next),
        forall|e: ScheduledEvent| #[trigger]
            competing.contains(e) ==> e.stable_id != next.stable_id,
        forall|a: int, b: int|
            0 <= a < b < kept.len() ==> (#[trigger] kept[a]).stable_id != (
            #[trigger] kept[b]).stable_id,
        forall|i: int|
            0 <= i < room ==> !plan::key_lt(kept[worst].retention_key(), (
            #[trigger] kept[i]).retention_key()),
    ensures
        best(
            if plan::key_lt(next.retention_key(), kept[worst].retention_key()) {
                kept.update(worst, next)
            } else {
                kept
            },
            competing.push(next),
            room,
        ),
{
    let all = competing.push(next);
    assert forall|e: ScheduledEvent| #[trigger] all.contains(e) implies competing.contains(e) || e
        == next by {
        let k = choose|k: int| 0 <= k < all.len() && all[k] == e;
        if k < competing.len() {
            assert(competing[k] == e);
        }
    }
    assert(all[competing.len() as int] == next);
    assert forall|e: ScheduledEvent| #[trigger] competing.contains(e) implies all.contains(e) by {
        let k = choose|k: int| 0 <= k < competing.len() && competing[k] == e;
        assert(all[k] == e);
    }
    let worst_event = kept[worst];
    assert(competing.contains(worst_event));
    if plan::key_lt(next.retention_key(), worst_event.retention_key()) {
        let replaced = kept.update(worst, next);
        assert forall|i: int, j: int| 0 <= i < j < replaced.len() implies replaced[i]
            != replaced[j] by {
            assert(competing.contains(kept[i]));
            assert(competing.contains(kept[j]));
        }
        assert forall|i: int| 0 <= i < replaced.len() implies all.contains(
            #[trigger] replaced[i],
        ) by {
            assert(competing.contains(kept[i]));
        }
        assert forall|e: ScheduledEvent, i: int|
            #![trigger all.contains(e), replaced[i]]
            all.contains(e) && !replaced.contains(e) && 0 <= i < replaced.len() implies plan::key_lt(
            replaced[i].retention_key(),
            e.retention_key(),
        ) by {
            assert(replaced[worst] == next);
            assert(replaced.contains(next));
            assert(competing.contains(e));
            if e == worst_event {
                if i != worst {
                    assert(kept[i].stable_id != worst_event.stable_id);
                    assert(!plan::key_lt(kept[worst].retention_key(), kept[i].retention_key()));
                }
            } else {
                if kept.contains(e) {
                    let k = choose|k: int| 0 <= k < kept.len() && kept[k] == e;
                    assert(replaced[k] == e);
                }
                assert(plan::key_lt(kept[worst].retention_key(), e.retention_key()));
                if i != worst {
                    assert(plan::key_lt(kept[i].retention_key(), e.retention_key()));
                }
            }
        }
    } else {
        assert forall|i: int| 0 <= i < kept.len() implies all.contains(#[trigger] kept[i]) by {
            assert(competing.contains(kept[i]));
        }
        assert forall|e: ScheduledEvent, i: int|
            #![trigger all.contains(e), kept[i]]
            all.contains(e) && !kept.contains(e) && 0 <= i < kept.len() implies plan::key_lt(
            kept[i].retention_key(),
            e.retention_key(),
        ) by {
            if e == next {
                assert(competing.contains(kept[i]));
                assert(kept[i].stable_id != next.stable_id);
                assert(worst_event.stable_id != next.stable_id);
                assert(!plan::key_lt(kept[worst].retention_key(), kept[i].retention_key()));
            } else {
                assert(competing.contains(e));
            }
        }
    }
}

/// Every competing event is a placed ordinary event.
pub proof fn lemma_candidates_from(ordinary: Seq<PreparedEvent>, fallback: bool, start: i64)
    ensures
        candidates(ordinary, fallback, start).len() <= ordinary.len(),
        forall|e: ScheduledEvent| #[trigger]
            candidates(ordinary, fallback, start).contains(e) ==> exists|i: int|
                0 <= i < ordinary.len() && e == placed(#[trigger] ordinary[i], start) && !(fallback
                    && note_related(ordinary[i].kind)),
    decreases ordinary.len(),
{
    let all = candidates(ordinary, fallback, start);
    if ordinary.len() > 0 {
        let front = ordinary.drop_last();
        let rest = candidates(front, fallback, start);
        lemma_candidates_from(front, fallback, start);
        assert forall|e: ScheduledEvent| #[trigger] all.contains(e) implies exists|i: int|
            0 <= i < ordinary.len() && e == placed(#[trigger] ordinary[i], start) && !(fallback
                && note_related(ordinary[i].kind)) by {
            let k = choose|k: int| 0 <= k < all.len() && all[k] == e;
            if k < rest.len() {
                assert(rest[k] == e);
                assert(rest.contains(e));
                let i = choose|i: int|
                    0 <= i < front.len() && e == placed(#[trigger] front[i], start) && !(fallback
                        && note_related(front[i].kind));
                assert(e == placed(ordinary[i], start));
            } else {
                assert(e == placed(ordinary[ordinary.len() - 1], start));
            }
        }
    }
}

impl Scheduler {
    pub open spec fn wf(self) -> bool {
        valid_active(self@.active)
    }

    /// Allocates the active-note table before the scheduler reaches the callback.
    #[must_use]
    pub fn new(max_active_notes: usize) -> (scheduler: Self)
        ensures
            scheduler.wf(),
            scheduler@ == (SchedulerView {
                active: Seq::new(max_active_notes as nat, |i: int| ActiveSlot::Empty),
                last_token: None,
                sticky_overflow: false,
            }),
    {
        let mut active: Vec<ActiveSlot> = Vec::with_capacity(max_active_notes);
        let mut i: usize = 0;
        while i < max_active_notes
            invariant
                i <= max_active_notes,
                active@ =~= Seq::new(i as nat, |i: int| ActiveSlot::Empty),
            decreases max_active_notes - i,
        {
            active.push(ActiveSlot::Empty);
            i = i + 1;
        }
        Scheduler { active, last_token: None, sticky_overflow: false }
    }

    /// How many notes sound.
    #[must_use]
    pub fn active_count(&self) -> (count: usize)
        ensures
            count == self@.active.filter(|slot: ActiveSlot| slot is Live).len(),
    {
        let ghost live = |slot: ActiveSlot| slot is Live;
        let mut count: usize = 0;
        let mut i: usize = 0;
        proof {
            reveal(Seq::filter);
            assert(self.active@.take(0) =~= Seq::<ActiveSlot>::empty());
        }
        while i < self.active.len()
            invariant
                i <= self.active@.len(),
                count <= i,
                live == (|slot: ActiveSlot| slot is Live),
                count == self.active@.take(i as int).filter(live).len(),
            decreases self.active@.len() - i,
        {
            proof {
                lemma_count_step(self.active@, live, i as int);
            }
            if let ActiveSlot::Live { .. } = self.active[i] {
                count = count + 1;
            }
            i = i + 1;
        }
        assert(self.active@.take(self.active@.len() as int) =~= self.active@);
        count
    }

    #[must_use]
    pub fn sticky_overflow(&self) -> (overflow: bool)
        ensures
            overflow == self@.sticky_overflow,
    {
        self.sticky_overflow
    }

    /// This is deliberately separate from the callback operation.
    pub fn clear_overflow_control(&mut self)
        ensures
            final(self)@ == (SchedulerView { sticky_overflow: false, ..old(self)@ }),
    {
        self.sticky_overflow = false;
    }

    /// Whether the block may need more termination entries than there is room for.
    fn terminations_exceed(
        &self,
        plan: &PreparedPlan,
        block: HostBlock,
        events: &[PreparedEvent],
        begin: usize,
        end: usize,
        room: usize,
    ) -> (exceed: bool)
        requires
            plan.wf(),
            begin <= end <= events@.len(),
        ensures
            exceed == (required_terminations(
                self@.active,
                plan@,
                block,
                events@.subrange(begin as int, end as int),
            ) > room),
    {
        let ghost ordinary = events@.subrange(begin as int, end as int);
        let ghost ends = |slot: ActiveSlot| invalidated(slot, plan@, block.discontinuity);
        let ghost stops = |slot: ActiveSlot| ordinary_terminates(slot, ordinary);
        let mut discontinuity_count: usize = 0;
        let mut ordinary_count: usize = 0;
        let mut i: usize = 0;
        proof {
            reveal(Seq::filter);
            assert(self.active@.take(0) =~= Seq::<ActiveSlot>::empty());
        }
        while i < self.active.len()
            invariant
                plan.wf(),
                begin <= end <= events@.len(),
                ordinary == events@.subrange(begin as int, end as int),
                i <= self.active@.len(),
                discontinuity_count <= i,
                ordinary_count <= i,
                ends == (|slot: ActiveSlot| invalidated(slot, plan@, block.discontinuity)),
                stops == (|slot: ActiveSlot| ordinary_terminates(slot, ordinary)),
                discontinuity_count == self.active@.take(i as int).filter(ends).len(),
                ordinary_count == self.active@.take(i as int).filter(stops).len(),
            decreases self.active@.len() - i,
        {
            proof {
                lemma_count_step(self.active@, ends, i as int);
                lemma_count_step(self.active@, stops, i as int);
            }
            let slot = self.active[i];
            if slot_invalidated(slot, plan, block.discontinuity) {
                discontinuity_count = discontinuity_count + 1;
            }
            if ordinary_terminates_slot(slot, events, begin, end) {
                ordinary_count = ordinary_count + 1;
            }
            i = i + 1;
        }
        assert(self.active@.take(self.active@.len() as int) =~= self.active@);
        discontinuity_count > room || ordinary_count > room - discontinuity_count
    }

    /// The channels on which the block ends a note.
    fn affected_channels(
        &self,
        plan: &PreparedPlan,
        block: HostBlock,
        events: &[PreparedEvent],
        begin: usize,
        end: usize,
    ) -> (channels: [bool; 16])
        requires
            self.wf(),
            plan.wf(),
            begin <= end <= events@.len(),
        ensures
            forall|c: u8|
                c < 16 ==> #[trigger] channels@[c as int] == affected(
                    self@.active,
                    plan@,
                    block,
                    events@.subrange(begin as int, end as int),
                    c,
                ),
    {
        let ghost ordinary = events@.subrange(begin as int, end as int);
        let mut channels: [bool; 16] = [false; 16];
        let mut i: usize = 0;
        while i < self.active.len()
            invariant
                self.wf(),
                plan.wf(),
                begin <= end <= events@.len(),
                ordinary == events@.subrange(begin as int, end as int),
                i <= self.active@.len(),
                self.active@ == self@.active,
                channels@.len() == 16,
                forall|c: u8|
                    c < 16 ==> #[trigger] channels@[c as int] == affected(
                        self@.active.take(i as int),
                        plan@,
                        block,
                        ordinary,
                        c,
                    ),
            decreases self.active@.len() - i,
        {
            let slot = self.active[i];
            let ghost before = channels@;
            let ends = slot_invalidated(slot, plan, block.discontinuity)
                || ordinary_terminates_slot(slot, events, begin, end);
            if ends {
                if let ActiveSlot::Live { channel, .. } = slot {
                    channels[channel as usize] = true;
                }
            }
            proof {
                let now = self@.active.take(i + 1);
                let then = self@.active.take(i as int);
                assert forall|c: u8| c < 16 implies #[trigger] channels@[c as int] == affected(
                    now,
                    plan@,
                    block,
                    ordinary,
                    c,
                ) by {
                    assert(before[c as int] == affected(then, plan@, block, ordinary, c));
                    if affected(then, plan@, block, ordinary, c) {
                        let k = choose|k: int|
                            0 <= k < then.len() && (#[trigger] then[k]).on_channel(c) && (
                            invalidated(then[k], plan@, block.discontinuity) || ordinary_terminates(
                                then[k],
                                ordinary,
                            ));
                        assert(now[k] == then[k]);
                    }
                    assert(now[i as int] == slot);
                    if affected(now, plan@, block, ordinary, c) {
                        let k = choose|k: int|
                            0 <= k < now.len() && (#[trigger] now[k]).on_channel(c) && (
                            invalidated(now[k], plan@, block.discontinuity) || ordinary_terminates(
                                now[k],
                                ordinary,
                            ));
                        if k < i {
                            assert(then[k] == now[k]);
                        }
                    }
                }
            }
            i = i + 1;
        }
        assert(self@.active.take(self@.active.len() as int) =~= self@.active);
        channels
    }
}

/// Channel ends are in strictly ascending channel order and at most one per
/// channel.
proof fn lemma_channel_offs_len(chosen: spec_fn(u8) -> bool, frame: i64, n: nat)
    ensures
        channel_offs(chosen, frame, n).len() <= n,
    decreases n,
{
    if n > 0 {
        lemma_channel_offs_len(chosen, frame, (n - 1) as nat);
    }
}

/// More channels, no fewer channel ends.
proof fn lemma_channel_offs_grow(chosen: spec_fn(u8) -> bool, frame: i64, n: nat, m: nat)
    requires
        n <= m,
    ensures
        channel_offs(chosen, frame, n).len() <= channel_offs(chosen, frame, m).len(),
    decreases m,
{
    if n < m {
        lemma_channel_offs_grow(chosen, frame, n, (m - 1) as nat);
    }
}

impl Scheduler {
    /// Ends every affected channel with one entry, or reports that not even
    /// those fit and changes nothing.
    fn emit_channel_fallback(
        &mut self,
        plan: &PreparedPlan,
        block: HostBlock,
        events: &[PreparedEvent],
        begin: usize,
        end: usize,
        output: &mut [ScheduledEvent],
    ) -> (result: Result<usize, CallbackError>)
        requires
            old(self).wf(),
            plan.wf(),
            begin <= end <= events@.len(),
        ensures
            final(self).wf(),
            final(output)@.len() == old(output)@.len(),
            ({
                let ordinary = events@.subrange(begin as int, end as int);
                let chosen = |channel: u8|
                    affected(old(self)@.active, plan@, block, ordinary, channel);
                let offs = channel_offs(chosen, block.start_frame, 16);
                match result {
                    Ok(written) => {
                        &&& offs.len() <= old(output)@.len()
                        &&& written == offs.len()
                        &&& final(output)@.take(written as int) == offs
                        &&& final(self)@ == SchedulerView {
                            active: without(
                                old(self)@.active,
                                |slot: ActiveSlot|
                                    slot matches ActiveSlot::Live { channel, .. } && affected(
                                        old(self)@.active,
                                        plan@,
                                        block,
                                        ordinary,
                                        channel,
                                    ),
                            ),
                            last_token: old(self)@.last_token,
                            sticky_overflow: true,
                        }
                    },
                    Err(error) => {
                        &&& offs.len() > old(output)@.len()
                        &&& error == CallbackError::TerminationOutputTooSmall
                        &&& *final(self) == *old(self)
                        &&& final(output)@ == old(output)@
                    },
                }
            }),
    {
        let channels = self.affected_channels(plan, block, events, begin, end);
        let ghost ordinary = events@.subrange(begin as int, end as int);
        let ghost before = self@.active;
        let ghost chosen = |channel: u8| affected(before, plan@, block, ordinary, channel);
        let mut count: usize = 0;
        let mut channel: u8 = 0;
        while channel < 16
            invariant
                channel <= 16,
                channels@.len() == 16,
                forall|c: u8| c < 16 ==> #[trigger] channels@[c as int] == chosen(c),
                count <= channel,
                count == channel_offs(chosen, block.start_frame, channel as nat).len(),
            decreases 16 - channel,
        {
            assert(channels@[channel as int] == chosen(channel));
            if channels[channel as usize] {
                count = count + 1;
            }
            channel = channel + 1;
        }
        if count > output.len() {
            return Err(CallbackError::TerminationOutputTooSmall);
        }
        let mut written: usize = 0;
        let mut channel: u8 = 0;
        while channel < 16
            invariant
                channel <= 16,
                channels@.len() == 16,
                output@.len() == old(output)@.len(),
                forall|c: u8| c < 16 ==> #[trigger] channels@[c as int] == chosen(c),
                written == channel_offs(chosen, block.start_frame, channel as nat).len(),
                written <= output@.len(),
                channel_offs(chosen, block.start_frame, 16).len() <= output@.len(),
                output@.take(written as int) == channel_offs(
                    chosen,
                    block.start_frame,
                    channel as nat,
                ),
            decreases 16 - channel,
        {
            assert(channels@[channel as int] == chosen(channel));
            proof {
                lemma_channel_offs_grow(chosen, block.start_frame, (channel + 1) as nat, 16);
            }
            if channels[channel as usize] {
                let ghost filled = output@;
                output[written] = ScheduledEvent {
                    absolute_frame: block.start_frame,
                    frame_offset: 0,
                    stable_id: (1u64 << 63u64) | (channel as u64),
                    kind: EventKind::AllNotesOff { channel },
                    synthetic: true,
                };
                assert(output@.take(written + 1) =~= filled.take(written as int).push(
                    channel_off(channel, block.start_frame),
                ));
                written = written + 1;
            }
            channel = channel + 1;
        }
        let ghost cleared = |slot: ActiveSlot|
            slot matches ActiveSlot::Live { channel, .. } && affected(
                before,
                plan@,
                block,
                ordinary,
                channel,
            );
        let mut i: usize = 0;
        while i < self.active.len()
            invariant
                i <= self.active@.len(),
                valid_active(before),
                channels@.len() == 16,
                forall|c: u8| c < 16 ==> #[trigger] channels@[c as int] == chosen(c),
                chosen == (|channel: u8| affected(before, plan@, block, ordinary, channel)),
                cleared == (|slot: ActiveSlot|
                    slot matches ActiveSlot::Live { channel, .. } && affected(
                        before,
                        plan@,
                        block,
                        ordinary,
                        channel,
                    )),
                self.active@.len() == before.len(),
                forall|j: int|
                    0 <= j < i ==> self.active@[j] == without(before, cleared)[j],
                forall|j: int| i <= j < before.len() ==> self.active@[j] == before[j],
                self@.last_token == old(self)@.last_token,
            decreases self.active@.len() - i,
        {
            if let ActiveSlot::Live { channel, .. } = self.active[i] {
                assert(before[i as int] == self.active@[i as int]);
                assert(channels@[channel as int] == chosen(channel));
                if channels[channel as usize] {
                    self.active.set(i, ActiveSlot::Empty);
                }
            }
            i = i + 1;
        }
        assert(self.active@ =~= without(before, cleared));
        self.sticky_overflow = true;
        Ok(written)
    }

    /// Releases every note that the discontinuity ends.
    fn emit_terminations(
        &mut self,
        plan: &PreparedPlan,
        block: HostBlock,
        output: &mut [ScheduledEvent],
    ) -> (written: usize)
        requires
            old(self).wf(),
            plan.wf(),
            old(self)@.active.filter(
                |slot: ActiveSlot| invalidated(slot, plan@, block.discontinuity),
            ).len() <= old(output)@.len(),
        ensures
            final(self).wf(),
            final(output)@.len() == old(output)@.len(),
            written <= final(output)@.len(),
            in_schedule_order(final(output)@.take(written as int)),
            final(output)@.take(written as int).to_multiset() == old(self)@.active.filter(
                |slot: ActiveSlot| invalidated(slot, plan@, block.discontinuity),
            ).map_values(|slot: ActiveSlot| release(slot, block.start_frame)).to_multiset(),
            final(self)@ == (SchedulerView {
                active: without(
                    old(self)@.active,
                    |slot: ActiveSlot| invalidated(slot, plan@, block.discontinuity),
                ),
                ..old(self)@
            }),
    {
        let ghost before = self@.active;
        let ghost ends = |slot: ActiveSlot| invalidated(slot, plan@, block.discontinuity);
        let ghost as_release = |slot: ActiveSlot| release(slot, block.start_frame);
        let mut written: usize = 0;
        let mut i: usize = 0;
        proof {
            reveal(Seq::filter);
            assert(before.take(0) =~= Seq::<ActiveSlot>::empty());
            assert(output@.take(0) =~= before.take(0).filter(ends).map_values(as_release));
        }
        while i < self.active.len()
            invariant
                plan.wf(),
                i <= self.active@.len(),
                ends == (|slot: ActiveSlot| invalidated(slot, plan@, block.discontinuity)),
                as_release == (|slot: ActiveSlot| release(slot, block.start_frame)),
                before.filter(ends).len() <= output@.len(),
                output@.len() == old(output)@.len(),
                written == before.take(i as int).filter(ends).len(),
                written <= output@.len(),
                output@.take(written as int) == before.take(i as int).filter(ends).map_values(
                    as_release,
                ),
                self.active@.len() == before.len(),
                forall|j: int| 0 <= j < i ==> self.active@[j] == without(before, ends)[j],
                forall|j: int| i <= j < before.len() ==> self.active@[j] == before[j],
                self@.last_token == old(self)@.last_token,
                self@.sticky_overflow == old(self)@.sticky_overflow,
            decreases self.active@.len() - i,
        {
            let slot = self.active[i];
            proof {
                lemma_count_step(before, ends, i as int);
                lemma_filter_prefix_len(before, ends, i + 1);
            }
            if slot_invalidated(slot, plan, block.discontinuity) {
                if let ActiveSlot::Live { instance_id, channel, key } = slot {
                    let ghost filled = output@;
                    output[written] = ScheduledEvent {
                        absolute_frame: block.start_frame,
                        frame_offset: 0,
                        stable_id: (1u64 << 63u64) | (instance_id as u64),
                        kind: EventKind::NoteOff { channel, key, velocity: 0, instance_id },
                        synthetic: true,
                    };
                    assert(output@.take(written + 1) =~= filled.take(written as int).push(
                        release(slot, block.start_frame),
                    ));
                    assert(before.take(i + 1).filter(ends).map_values(as_release)
                        =~= before.take(i as int).filter(ends).map_values(as_release).push(
                        release(slot, block.start_frame),
                    ));
                    written = written + 1;
                }
                self.active.set(i, ActiveSlot::Empty);
            }
            i = i + 1;
        }
        assert(before.take(before.len() as int) =~= before);
        assert(self.active@ =~= without(before, ends));
        let ghost filled = output@;
        insertion_sort_events(output, 0, written);
        proof {
            lemma_middle_multiset(output@, filled, 0, written as int);
            assert(output@.subrange(0, written as int) =~= output@.take(written as int));
            assert(filled.subrange(0, written as int) =~= filled.take(written as int));
        }
        written
    }

    /// Places the best of the ordinary events behind the terminations.
    #[verifier::spinoff_prover]
    #[verifier::rlimit(80)]
    fn select_ordinary(
        plan: &PreparedPlan,
        begin: usize,
        end: usize,
        fallback: bool,
        block: HostBlock,
        first: usize,
        output: &mut [ScheduledEvent],
    ) -> (outcome: (usize, bool))
        requires
            plan.wf(),
            begin <= end <= plan@.events.len(),
            first <= old(output)@.len(),
            0 < block.length <= 2_048,
            forall|i: int|
                begin <= i < end ==> block.start_frame <= (#[trigger] plan@.events[i]).frame
                    < block.start_frame + block.length,
        ensures
            final(output)@.len() == old(output)@.len(),
            final(output)@.take(first as int) == old(output)@.take(first as int),
            first + outcome.0 <= final(output)@.len(),
            ({
                let ordinary = plan@.events.subrange(begin as int, end as int);
                let competing = candidates(ordinary, fallback, block.start_frame);
                let room = (old(output)@.len() - first) as nat;
                &&& retained(
                    final(output)@.subrange(first as int, first + outcome.0),
                    competing,
                    room,
                )
                &&& outcome.1 == (competing.len() < ordinary.len() || competing.len() > room)
            }),
    {
        let events = plan.events();
        let ghost ordinary = plan@.events.subrange(begin as int, end as int);
        let ghost start = block.start_frame;
        let available: usize = output.len() - first;
        let mut selected: usize = 0;
        let mut overflowed = false;
        let mut i: usize = begin;
        assert(ordinary.take(0) =~= Seq::<PreparedEvent>::empty());
        assert(output@.subrange(first as int, first as int) =~= Seq::<ScheduledEvent>::empty());
        while i < end
            invariant
                plan.wf(),
                events@ == plan@.events,
                begin <= i <= end <= plan@.events.len(),
                ordinary == plan@.events.subrange(begin as int, end as int),
                start == block.start_frame,
                0 < block.length <= 2_048,
                forall|j: int|
                    begin <= j < end ==> block.start_frame <= (#[trigger] plan@.events[j]).frame
                        < block.start_frame + block.length,
                output@.len() == old(output)@.len(),
                output@.take(first as int) == old(output)@.take(first as int),
                available == output@.len() - first,
                first <= output@.len(),
                selected <= available,
                ({
                    let competing = candidates(ordinary.take(i - begin), fallback, start);
                    let kept = output@.subrange(first as int, first + selected);
                    &&& best(kept, competing, available as nat)
                    &&& competing.len() <= available ==> kept == competing
                    &&& overflowed == (competing.len() < i - begin || competing.len() > available)
                }),
            decreases end - i,
        {
            let event = events[i];
            let ghost now = ordinary.take(i - begin);
            let ghost competing = candidates(now, fallback, start);
            let ghost kept = output@.subrange(first as int, first + selected);
            let ghost next = ordinary.take(i - begin + 1);
            proof {
                assert(next.drop_last() =~= now);
                assert(next.last() == event);
                lemma_candidates_from(now, fallback, start);
            }
            let suppressed = fallback && match event.kind {
                EventKind::NoteOn { .. }
                | EventKind::NoteOff { .. }
                | EventKind::AllNotesOff { .. } => true,
                _ => false,
            };
            if suppressed {
                overflowed = true;
            } else {
                let candidate = ScheduledEvent {
                    absolute_frame: event.frame,
                    frame_offset: (event.frame - block.start_frame) as u32,
                    stable_id: event.stable_id,
                    kind: event.kind,
                    synthetic: false,
                };
                proof {
                    assert(candidate == placed(event, start));
                    lemma_candidate_is_new(plan@.events, begin as int, i as int, fallback, start);
                    assert(plan@.events.subrange(begin as int, i as int) =~= now);
                }
                if selected < available {
                    output[first + selected] = candidate;
                    selected = selected + 1;
                    proof {
                        let grown = output@.subrange(first as int, first + selected);
                        assert(grown =~= competing.push(candidate));
                        assert(output@.take(first as int) =~= old(output)@.take(first as int));
                        lemma_best_of_all(competing.push(candidate), available as nat);
                    }
                } else {
                    overflowed = true;
                    if available > 0 {
                        let mut worst: usize = 0;
                        let mut index: usize = 1;
                        while index < selected
                            invariant
                                first + selected <= output@.len(),
                                1 <= index <= selected,
                                worst < index,
                                kept == output@.subrange(first as int, first + selected),
                                forall|j: int|
                                    0 <= j < index ==> !plan::key_lt(
                                        kept[worst as int].retention_key(),
                                        (#[trigger] kept[j]).retention_key(),
                                    ),
                            decreases selected - index,
                        {
                            assert(kept[index as int] == output@[first + index]);
                            assert(kept[worst as int] == output@[first + worst]);
                            if retention_precedes(output[first + worst], output[first + index]) {
                                worst = index;
                            }
                            index = index + 1;
                        }
                        proof {
                            lemma_kept_distinct(
                                kept,
                                competing,
                                available as nat,
                                plan@.events,
                                begin as int,
                                i as int,
                                fallback,
                                start,
                            );
                            lemma_best_step(
                                kept,
                                competing,
                                available as nat,
                                candidate,
                                worst as int,
                            );
                            assert(kept[worst as int] == output@[first + worst]);
                        }
                        if retention_precedes(candidate, output[first + worst]) {
                            output[first + worst] = candidate;
                            proof {
                                assert(output@.subrange(first as int, first + selected)
                                    =~= kept.update(worst as int, candidate));
                                assert(output@.take(first as int) =~= old(output)@.take(
                                    first as int,
                                ));
                            }
                        }
                    } else {
                        proof {
                            assert(kept =~= Seq::<ScheduledEvent>::empty());
                        }
                    }
                }
            }
            i = i + 1;
        }
        assert(ordinary.take(end - begin) =~= ordinary);
        let ghost filled = output@;
        insertion_sort_events(output, first, first + selected);
        proof {
            assert(output@.take(first as int) =~= filled.take(first as int));
            lemma_middle_multiset(output@, filled, first as int, first + selected);
            lemma_best_rearranged(
                output@.subrange(first as int, first + selected),
                filled.subrange(first as int, first + selected),
                candidates(ordinary, fallback, start),
                available as nat,
            );
        }
        (selected, overflowed)
    }
}

/// Counting a prefix counts no more than the whole.
proof fn lemma_filter_prefix_len<T>(s: Seq<T>, keep: spec_fn(T) -> bool, n: int)
    requires
        0 <= n <= s.len(),
    ensures
        s.take(n).filter(keep).len() <= s.filter(keep).len(),
{
    assert(s =~= s.take(n) + s.skip(n));
    Seq::filter_distributes_over_add(s.take(n), s.skip(n), keep);
}

/// When everything fits, everything is kept.
proof fn lemma_best_of_all(all: Seq<ScheduledEvent>, room: nat)
    requires
        all.len() <= room,
        all.no_duplicates(),
    ensures
        best(all, all, room),
{
    assert forall|i: int| 0 <= i < all.len() implies all.contains(#[trigger] all[i]) by {}
}

/// Of distinct events, the next one is not among those placed before.
pub proof fn lemma_candidate_is_new(
    events: Seq<PreparedEvent>,
    begin: int,
    i: int,
    fallback: bool,
    start: i64,
)
    requires
        0 <= begin <= i < events.len(),
        crate::midi::plan::distinct_ids(events),
    ensures
        ({
            let competing = candidates(events.subrange(begin, i), fallback, start);
            let next = placed(events[i], start);
            &&& !competing.contains(next)
            &&& competing.push(next).no_duplicates()
            &&& forall|e: ScheduledEvent| #[trigger]
                competing.contains(e) ==> e.stable_id != next.stable_id
            &&& forall|a: int, b: int|
                0 <= a < b < competing.len() ==> (#[trigger] competing[a]).stable_id != (
                #[trigger] competing[b]).stable_id
        }),
    decreases i,
{
    let now = events.subrange(begin, i);
    let competing = candidates(now, fallback, start);
    let next = placed(events[i], start);
    lemma_candidates_from(now, fallback, start);
    assert forall|e: ScheduledEvent| #[trigger] competing.contains(e) implies e.stable_id
        != next.stable_id by {
        let k = choose|k: int|
            0 <= k < now.len() && e == placed(#[trigger] now[k], start) && !(fallback
                && note_related(now[k].kind));
        assert(now[k] == events[begin + k]);
    }
    if begin < i {
        let before = events.subrange(begin, i - 1);
        let rest = candidates(before, fallback, start);
        assert(now.drop_last() =~= before);
        lemma_candidate_is_new(events, begin, i - 1, fallback, start);
        assert forall|a: int, b: int| 0 <= a < b < competing.len() implies (
        #[trigger] competing[a]).stable_id != (#[trigger] competing[b]).stable_id by {
            if b == rest.len() {
                assert(rest.contains(rest[a]));
            }
        }
    }
    assert forall|a: int, b: int| 0 <= a < b < competing.len() + 1 implies competing.push(next)[a]
        != competing.push(next)[b] by {
        if b == competing.len() {
            assert(competing.contains(competing[a]));
        }
    }
}

/// Kept events have distinct identities.
proof fn lemma_kept_distinct(
    kept: Seq<ScheduledEvent>,
    competing: Seq<ScheduledEvent>,
    room: nat,
    events: Seq<PreparedEvent>,
    begin: int,
    i: int,
    fallback: bool,
    start: i64,
)
    requires
        best(kept, competing, room),
        0 <= begin <= i < events.len(),
        crate::midi::plan::distinct_ids(events),
        competing == candidates(events.subrange(begin, i), fallback, start),
    ensures
        forall|a: int, b: int|
            0 <= a < b < kept.len() ==> (#[trigger] kept[a]).stable_id != (
            #[trigger] kept[b]).stable_id,
{
    lemma_candidate_is_new(events, begin, i, fallback, start);
    assert forall|a: int, b: int| 0 <= a < b < kept.len() implies (#[trigger] kept[a]).stable_id
        != (#[trigger] kept[b]).stable_id by {
        assert(competing.contains(kept[a]) && competing.contains(kept[b]));
        let x = choose|x: int| 0 <= x < competing.len() && competing[x] == kept[a];
        let y = choose|y: int| 0 <= y < competing.len() && competing[y] == kept[b];
        assert(x != y);
        assert(competing[x].stable_id != competing[y].stable_id);
    }
}

/// Order does not matter to what is kept.
proof fn lemma_best_rearranged(
    arranged: Seq<ScheduledEvent>,
    kept: Seq<ScheduledEvent>,
    competing: Seq<ScheduledEvent>,
    room: nat,
)
    requires
        best(kept, competing, room),
        arranged.to_multiset() == kept.to_multiset(),
    ensures
        best(arranged, competing, room),
{
    arranged.to_multiset_ensures();
    kept.to_multiset_ensures();
    kept.lemma_multiset_has_no_duplicates();
    arranged.lemma_multiset_has_no_duplicates_conv();
    assert forall|e: ScheduledEvent| #[trigger] arranged.contains(e) <==> kept.contains(e) by {
        vstd::seq_lib::to_multiset_contains(arranged, e);
        vstd::seq_lib::to_multiset_contains(kept, e);
    }
    assert forall|i: int| 0 <= i < arranged.len() implies competing.contains(
        #[trigger] arranged[i],
    ) by {
        assert(arranged.contains(arranged[i]));
        let k = choose|k: int| 0 <= k < kept.len() && kept[k] == arranged[i];
        assert(competing.contains(kept[k]));
    }
    assert forall|e: ScheduledEvent, i: int|
        #![trigger competing.contains(e), arranged[i]]
        competing.contains(e) && !arranged.contains(e) && 0 <= i < arranged.len() implies plan::key_lt(
        arranged[i].retention_key(),
        e.retention_key(),
    ) by {
        assert(arranged.contains(arranged[i]));
        let k = choose|k: int| 0 <= k < kept.len() && kept[k] == arranged[i];
        assert(plan::key_lt(kept[k].retention_key(), e.retention_key()));
    }
}

impl Scheduler {
    fn has_active(&self, instance_id: u32) -> (found: bool)
        ensures
            found == sounding(self@.active, instance_id),
    {
        let mut i: usize = 0;
        while i < self.active.len()
            invariant
                i <= self.active@.len(),
                forall|j: int| 0 <= j < i ==> !(#[trigger] self@.active[j]).is_instance(instance_id),
            decreases self.active@.len() - i,
        {
            if let ActiveSlot::Live { instance_id: active, .. } = self.active[i] {
                if active == instance_id {
                    assert(self@.active[i as int].is_instance(instance_id));
                    return true;
                }
            }
            i = i + 1;
        }
        false
    }

    /// Puts the note into the first free slot, if there is one.
    fn insert_active(&mut self, instance_id: u32, channel: u8, key: u8) -> (inserted: bool)
        ensures
            inserted == exists|i: int| first_empty(old(self)@.active, i),
            inserted ==> exists|i: int| #[trigger]
                first_empty(old(self)@.active, i) && final(self)@ == (SchedulerView {
                    active: old(self)@.active.update(
                        i,
                        ActiveSlot::Live { instance_id, channel, key },
                    ),
                    ..old(self)@
                }),
            !inserted ==> *final(self) == *old(self),
    {
        let mut i: usize = 0;
        while i < self.active.len()
            invariant
                i <= self.active@.len(),
                *self == *old(self),
                forall|j: int| 0 <= j < i ==> self@.active[j] != ActiveSlot::Empty,
            decreases self.active@.len() - i,
        {
            if self.active[i] == ActiveSlot::Empty {
                assert(first_empty(old(self)@.active, i as int));
                self.active.set(i, ActiveSlot::Live { instance_id, channel, key });
                return true;
            }
            i = i + 1;
        }
        false
    }

    /// Frees every slot whose note an event of this kind ends.
    fn remove_terminated(&mut self, kind: EventKind)
        ensures
            final(self)@ == (SchedulerView {
                active: without(old(self)@.active, |slot: ActiveSlot| terminates(kind, slot)),
                ..old(self)@
            }),
    {
        let ghost before = self@.active;
        let ghost ended = |slot: ActiveSlot| terminates(kind, slot);
        let mut i: usize = 0;
        while i < self.active.len()
            invariant
                i <= self.active@.len(),
                ended == (|slot: ActiveSlot| terminates(kind, slot)),
                self.active@.len() == before.len(),
                forall|j: int| 0 <= j < i ==> self.active@[j] == without(before, ended)[j],
                forall|j: int| i <= j < before.len() ==> self.active@[j] == before[j],
                self@.last_token == old(self)@.last_token,
                self@.sticky_overflow == old(self)@.sticky_overflow,
            decreases self.active@.len() - i,
        {
            if kind_terminates(kind, self.active[i]) {
                self.active.set(i, ActiveSlot::Empty);
            }
            i = i + 1;
        }
        assert(self.active@ =~= without(before, ended));
    }

    /// Emits the entries from `first` to `last` in order, closing the gaps
    /// that dropped onsets leave.
    fn apply_emitted_state(
        &mut self,
        output: &mut [ScheduledEvent],
        first: usize,
        last: usize,
    ) -> (outcome: (usize, bool))
        requires
            old(self).wf(),
            first <= last <= old(output)@.len(),
            forall|i: int|
                first <= i < last ==> (#[trigger] old(output)@[i]).kind.valid_midi(),
        ensures
            final(self).wf(),
            final(output)@.len() == old(output)@.len(),
            final(output)@.take(first as int) == old(output)@.take(first as int),
            first <= outcome.0 <= last,
            ({
                let effect = emission(
                    old(self)@.active,
                    old(output)@.subrange(first as int, last as int),
                );
                &&& final(self)@ == SchedulerView { active: effect.active, ..old(self)@ }
                &&& final(output)@.subrange(first as int, outcome.0 as int) == effect.emitted
                &&& outcome.1 == effect.saturated
            }),
    {
        let ghost kept = output@.subrange(first as int, last as int);
        let ghost active = self@.active;
        let mut write: usize = first;
        let mut read: usize = first;
        let mut saturated = false;
        assert(kept.take(0) =~= Seq::<ScheduledEvent>::empty());
        assert(output@.subrange(first as int, first as int) =~= Seq::<ScheduledEvent>::empty());
        while read < last
            invariant
                first <= write <= read <= last <= output@.len(),
                output@.len() == old(output)@.len(),
                kept.len() == last - first,
                output@.take(first as int) == old(output)@.take(first as int),
                forall|i: int| read <= i < last ==> output@[i] == kept[i - first],
                forall|i: int| 0 <= i < kept.len() ==> (#[trigger] kept[i]).kind.valid_midi(),
                valid_active(self@.active),
                self@.last_token == old(self)@.last_token,
                self@.sticky_overflow == old(self)@.sticky_overflow,
                ({
                    let effect = emission(active, kept.take(read - first));
                    &&& self@.active == effect.active
                    &&& output@.subrange(first as int, write as int) == effect.emitted
                    &&& saturated == effect.saturated
                }),
            decreases last - read,
        {
            let event = output[read];
            let ghost effect = emission(active, kept.take(read - first));
            proof {
                assert(kept.take(read - first + 1).drop_last() =~= kept.take(read - first));
                assert(kept.take(read - first + 1).last() == event);
                lemma_emit_one_valid(effect, event);
            }
            let keep = match event.kind {
                EventKind::NoteOn { instance_id, channel, key, .. } => {
                    if self.has_active(instance_id) {
                        false
                    } else {
                        let inserted = self.insert_active(instance_id, channel, key);
                        proof {
                            if inserted {
                                let i = choose|i: int| #[trigger]
                                    first_empty(effect.active, i) && self@ == (SchedulerView {
                                        active: effect.active.update(
                                            i,
                                            ActiveSlot::Live { instance_id, channel, key },
                                        ),
                                        last_token: old(self)@.last_token,
                                        sticky_overflow: old(self)@.sticky_overflow,
                                    });
                                let k = choose|k: int| first_empty(effect.active, k);
                                lemma_first_empty_unique(effect.active, i, k);
                            }
                        }
                        if !inserted {
                            saturated = true;
                        }
                        inserted
                    }
                },
                _ => {
                    self.remove_terminated(event.kind);
                    true
                },
            };
            if keep {
                let ghost filled = output@;
                output[write] = event;
                proof {
                    assert(output@.subrange(first as int, write + 1) =~= filled.subrange(
                        first as int,
                        write as int,
                    ).push(event));
                    assert(output@.take(first as int) =~= filled.take(first as int));
                }
                write = write + 1;
            }
            read = read + 1;
        }
        assert(kept.take(last - first) =~= kept);
        (write, saturated)
    }

    /// The run of the plan that the block covers.
    fn block_run(plan: &PreparedPlan, block: HostBlock, end_frame: i64) -> (run: (usize, usize))
        requires
            plan.wf(),
            block.length > 0,
            end_frame == block.start_frame + block.length,
        ensures
            run.0 <= run.1 <= plan@.events.len(),
            block_events(plan@.events, block.start_frame as int, block.length as int)
                == plan@.events.subrange(run.0 as int, run.1 as int),
            forall|i: int|
                run.0 <= i < run.1 ==> block.start_frame <= (#[trigger] plan@.events[i]).frame
                    < block.start_frame + block.length,
    {
        let events = plan.events();
        let begin = frame_position(events, block.start_frame);
        let end = frame_position(events, end_frame);
        proof {
            if begin > end {
                assert(events@[end as int].frame >= end_frame);
                assert(events@[end as int].frame < block.start_frame);
            }
            lemma_block_run(
                plan@.events,
                block.start_frame as int,
                block.length as int,
                begin as int,
                end as int,
            );
        }
        (begin, end)
    }

    /// Emits the block's terminations, per note where they fit and per channel
    /// where they do not.
    fn emit_opening(
        &mut self,
        plan: &PreparedPlan,
        block: HostBlock,
        begin: usize,
        end: usize,
        output: &mut [ScheduledEvent],
    ) -> (result: Result<(usize, bool), CallbackError>)
        requires
            old(self).wf(),
            plan.wf(),
            begin <= end <= plan@.events.len(),
            block_events(plan@.events, block.start_frame as int, block.length as int)
                == plan@.events.subrange(begin as int, end as int),
        ensures
            final(self).wf(),
            final(output)@.len() == old(output)@.len(),
            ({
                let room = old(output)@.len();
                let fallback = falls_back(old(self)@, plan@, block, room);
                match result {
                    Ok((first, condensed)) => {
                        &&& condensed == fallback
                        &&& fallback ==> fallback_offs(old(self)@, plan@, block).len() <= room
                        &&& first <= room
                        &&& opening(
                            final(output)@.take(first as int),
                            old(self)@,
                            plan@,
                            block,
                            room,
                        )
                        &&& final(self)@ == SchedulerView {
                            active: settled(old(self)@, plan@, block, room),
                            last_token: old(self)@.last_token,
                            sticky_overflow: old(self)@.sticky_overflow || fallback,
                        }
                    },
                    Err(error) => {
                        &&& fallback
                        &&& fallback_offs(old(self)@, plan@, block).len() > room
                        &&& error == CallbackError::TerminationOutputTooSmall
                        &&& final(self)@ == old(self)@
                        &&& final(output)@ == old(output)@
                    },
                }
            }),
    {
        let events = plan.events();
        if self.terminations_exceed(plan, block, events, begin, end, output.len()) {
            match self.emit_channel_fallback(plan, block, events, begin, end, output) {
                Ok(written) => Ok((written, true)),
                Err(error) => Err(error),
            }
        } else {
            Ok((self.emit_terminations(plan, block, output), false))
        }
    }

    /// Emits the best of the ordinary events behind the terminations.
    fn emit_ordinary(
        &mut self,
        plan: &PreparedPlan,
        block: HostBlock,
        begin: usize,
        end: usize,
        fallback: bool,
        first: usize,
        output: &mut [ScheduledEvent],
    ) -> (outcome: (usize, bool))
        requires
            old(self).wf(),
            plan.wf(),
            begin <= end <= plan@.events.len(),
            first <= old(output)@.len(),
            0 < block.length <= 2_048,
            forall|i: int|
                begin <= i < end ==> block.start_frame <= (#[trigger] plan@.events[i]).frame
                    < block.start_frame + block.length,
        ensures
            final(self).wf(),
            final(self)@.last_token == old(self)@.last_token,
            final(self)@.sticky_overflow == old(self)@.sticky_overflow,
            final(output)@.len() == old(output)@.len(),
            final(output)@.take(first as int) == old(output)@.take(first as int),
            first <= outcome.0 <= final(output)@.len(),
            ({
                let ordinary = plan@.events.subrange(begin as int, end as int);
                let competing = candidates(ordinary, fallback, block.start_frame);
                let room = old(output)@.len() - first;
                exists|kept: Seq<ScheduledEvent>| #[trigger]
                    retained(kept, competing, room as nat) && {
                        let effect = emission(old(self)@.active, kept);
                        &&& final(self)@.active == effect.active
                        &&& final(output)@.subrange(first as int, outcome.0 as int)
                            == effect.emitted
                        &&& outcome.1 == (competing.len() < ordinary.len() || competing.len()
                            > room || effect.saturated)
                    }
            }),
    {
        let ghost ordinary = plan@.events.subrange(begin as int, end as int);
        let (selected, crowded) = Self::select_ordinary(
            plan,
            begin,
            end,
            fallback,
            block,
            first,
            output,
        );
        let ghost kept = output@.subrange(first as int, first + selected);
        proof {
            lemma_candidates_from(ordinary, fallback, block.start_frame);
            assert forall|i: int| first <= i < first + selected implies (
            #[trigger] output@[i]).kind.valid_midi() by {
                let competing = candidates(ordinary, fallback, block.start_frame);
                assert(output@[i] == kept[i - first]);
                assert(competing.contains(kept[i - first]));
                let k = choose|k: int|
                    0 <= k < ordinary.len() && kept[i - first] == placed(
                        #[trigger] ordinary[k],
                        block.start_frame,
                    ) && !(fallback && note_related(ordinary[k].kind));
                assert(ordinary[k] == plan@.events[begin + k]);
            }
        }
        let capacity = output.len();
        assert(first + selected <= capacity);
        let (written, saturated) = self.apply_emitted_state(output, first, first + selected);
        (written, crowded || saturated)
    }

    /// Schedules one host block into `output` without growing callback-owned storage.
    pub fn schedule(
        &mut self,
        plan: &PreparedPlan,
        block: HostBlock,
        output: &mut [ScheduledEvent],
    ) -> (result: ScheduleResult)
        requires
            old(self).wf(),
            plan.wf(),
        ensures
            final(self).wf(),
            final(output)@.len() == old(output)@.len(),
            match refusal(old(self)@, plan@, block, old(output)@.len()) {
                Some(refused) => {
                    &&& result == refused
                    &&& final(self)@ == old(self)@
                    &&& final(output)@ == old(output)@
                },
                None => accepted(
                    old(self)@,
                    final(self)@,
                    plan@,
                    block,
                    final(output)@,
                    result,
                ),
            },
    {
        if let Some(last_token) = self.last_token {
            if block.token <= last_token {
                return ScheduleResult::non_monotonic_token(block.token == last_token);
            }
        }
        if block.length == 0 {
            return ScheduleResult::error(CallbackError::EmptyBlock);
        }
        if block.length > 2_048 {
            return ScheduleResult::error(CallbackError::BlockTooLarge);
        }
        if !is_supported_rate(block.sample_rate) {
            return ScheduleResult::error(CallbackError::UnsupportedSampleRate);
        }
        if block.sample_rate != plan.sample_rate() {
            return ScheduleResult::error(CallbackError::PlanSampleRateMismatch);
        }
        let end_frame: i64 = match block.start_frame.checked_add(block.length as i64) {
            Some(end_frame) => end_frame,
            None => {
                return ScheduleResult::error(CallbackError::FrameRangeOverflow);
            },
        };
        let ghost before = self@;
        let ghost room = output@.len();
        let (begin, end) = Self::block_run(plan, block, end_frame);
        let (first, fallback) = match self.emit_opening(plan, block, begin, end, output) {
            Ok(opened) => opened,
            Err(error) => {
                return ScheduleResult::error(error);
            },
        };
        let (written, overflowed) = self.emit_ordinary(
            plan,
            block,
            begin,
            end,
            fallback,
            first,
            output,
        );
        if overflowed {
            self.sticky_overflow = true;
        }
        self.last_token = Some(block.token);
        let result = ScheduleResult {
            written,
            synthetic_terminations: first,
            duplicate_token: false,
            overflowed,
            error: None,
        };
        proof {
            assert(refusal(before, plan@, block, room) is None);
            assert(opening(output@.take(first as int), before, plan@, block, room));
            assert(accepted(before, self@, plan@, block, output@, result));
        }
        result
    }
}

} // verus!
