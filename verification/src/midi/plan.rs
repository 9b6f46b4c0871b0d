//! Plans: validation of beat-positioned events and their exact conversion to
//! sample frames, done once before a plan reaches the callback.

use vstd::prelude::*;
use std::collections::{HashMap, HashSet};
use crate::sorting::{sort, Ranked};

verus! {

/// Denominator of the exact frame fraction: pulses per quarter note times
/// microseconds per second.
pub const FRAME_DENOMINATOR: i128 = 960_000_000;

pub const MAX_EVENTS: usize = 200_000;

pub const MAX_TEMPO_NODES: usize = 50_000;

/// One piecewise-constant tempo segment, effective at `pulse`.
#[derive(Clone, Copy, Debug, PartialEq, Eq, Structural)]
pub struct TempoNode {
    pub pulse: i64,
    pub micros_per_quarter: u32,
}

/// MIDI data retained by the scheduling core.
#[derive(Clone, Copy, Debug, PartialEq, Eq, Structural)]
pub enum EventKind {
    NoteOn { channel: u8, key: u8, velocity: u8, instance_id: u32 },
    NoteOff { channel: u8, key: u8, velocity: u8, instance_id: u32 },
    ControlChange { channel: u8, controller: u8, value: u8 },
    ProgramChange { channel: u8, program: u8 },
    AllNotesOff { channel: u8 },
}

impl EventKind {
    /// Terminations rank before controllers, controllers before programs, and
    /// note onsets last.
    pub open spec fn rank(self) -> u8 {
        match self {
            EventKind::AllNotesOff { .. } => 0,
            EventKind::NoteOff { .. } => 1,
            EventKind::ControlChange { .. } => 2,
            EventKind::ProgramChange { .. } => 3,
            EventKind::NoteOn { .. } => 4,
        }
    }

    /// Lower values survive ordinary overload first.
    #[must_use]
    pub fn priority(self) -> (priority: u8)
        ensures
            priority == self.rank(),
    {
        match self {
            EventKind::AllNotesOff { .. } => 0,
            EventKind::NoteOff { .. } => 1,
            EventKind::ControlChange { .. } => 2,
            EventKind::ProgramChange { .. } => 3,
            EventKind::NoteOn { .. } => 4,
        }
    }

    /// Channels are four bits wide and data bytes seven.
    pub open spec fn valid_midi(self) -> bool {
        match self {
            EventKind::NoteOn { channel, key, velocity, .. } => channel < 16 && key < 128
                && velocity < 128,
            EventKind::NoteOff { channel, key, velocity, .. } => channel < 16 && key < 128
                && velocity < 128,
            EventKind::ControlChange { channel, controller, value } => channel < 16 && controller
                < 128 && value < 128,
            EventKind::ProgramChange { channel, program } => channel < 16 && program < 128,
            EventKind::AllNotesOff { channel } => channel < 16,
        }
    }

    fn midi_is_valid(self) -> (valid: bool)
        ensures
            valid == self.valid_midi(),
    {
        match self {
            EventKind::NoteOn { channel, key, velocity, .. }
            | EventKind::NoteOff { channel, key, velocity, .. } => channel < 16 && key < 128
                && velocity < 128,
            EventKind::ControlChange { channel, controller, value } => channel < 16 && controller
                < 128 && value < 128,
            EventKind::ProgramChange { channel, program } => channel < 16 && program < 128,
            EventKind::AllNotesOff { channel } => channel < 16,
        }
    }

    /// The instance that a note onset opens.
    pub open spec fn opens(self, instance: u32) -> bool {
        self matches EventKind::NoteOn { instance_id, .. } && instance_id == instance
    }

    /// The instance that a note release closes.
    pub open spec fn closes(self, instance: u32) -> bool {
        self matches EventKind::NoteOff { instance_id, .. } && instance_id == instance
    }
}

/// Beat-positioned event supplied by the control thread.
#[derive(Clone, Copy, Debug, PartialEq, Eq, Structural)]
pub struct Event {
    pub pulse: i64,
    pub stable_id: u64,
    pub kind: EventKind,
}

/// Complete off-thread plan input.
#[derive(Clone, Debug, PartialEq, Eq)]
pub struct PlanSpec {
    pub origin_pulse: i64,
    pub origin_frame: i64,
    pub sample_rate: u32,
    pub tempo_nodes: Vec<TempoNode>,
    pub events: Vec<Event>,
}

/// Stable validation failures; values are intentionally independent of prose.
#[derive(Clone, Copy, Debug, PartialEq, Eq, Structural)]
pub enum PlanError {
    UnsupportedSampleRate,
    EmptyTempoMap,
    TempoOriginMismatch,
    TempoNodesUnsorted,
    InvalidTempo,
    TooManyTempoNodes,
    TooManyEvents,
    PulseBeforeOrigin,
    EventsUnsorted,
    DuplicateStableId,
    DuplicateNoteInstance,
    UnmatchedNoteOff,
    DuplicateTermination,
    InvalidMidiData,
    FrameOverflow,
    TerminationIdentityMismatch,
}

impl PlanError {
    pub open spec fn stable_code(self) -> u8 {
        match self {
            PlanError::UnsupportedSampleRate => 1,
            PlanError::EmptyTempoMap => 2,
            PlanError::TempoOriginMismatch => 3,
            PlanError::TempoNodesUnsorted => 4,
            PlanError::InvalidTempo => 5,
            PlanError::TooManyTempoNodes => 6,
            PlanError::TooManyEvents => 7,
            PlanError::PulseBeforeOrigin => 8,
            PlanError::EventsUnsorted => 9,
            PlanError::DuplicateStableId => 10,
            PlanError::DuplicateNoteInstance => 11,
            PlanError::UnmatchedNoteOff => 12,
            PlanError::DuplicateTermination => 13,
            PlanError::InvalidMidiData => 14,
            PlanError::FrameOverflow => 15,
            PlanError::TerminationIdentityMismatch => 16,
        }
    }

    /// The number that stands for this failure outside the process.
    #[must_use]
    pub fn code(self) -> (code: u8)
        ensures
            code == self.stable_code(),
    {
        match self {
            PlanError::UnsupportedSampleRate => 1,
            PlanError::EmptyTempoMap => 2,
            PlanError::TempoOriginMismatch => 3,
            PlanError::TempoNodesUnsorted => 4,
            PlanError::InvalidTempo => 5,
            PlanError::TooManyTempoNodes => 6,
            PlanError::TooManyEvents => 7,
            PlanError::PulseBeforeOrigin => 8,
            PlanError::EventsUnsorted => 9,
            PlanError::DuplicateStableId => 10,
            PlanError::DuplicateNoteInstance => 11,
            PlanError::UnmatchedNoteOff => 12,
            PlanError::DuplicateTermination => 13,
            PlanError::InvalidMidiData => 14,
            PlanError::FrameOverflow => 15,
            PlanError::TerminationIdentityMismatch => 16,
        }
    }
}

/// An event after exact off-thread pulse-to-frame conversion.
#[derive(Clone, Copy, Debug, PartialEq, Eq, Structural)]
pub struct PreparedEvent {
    pub frame: i64,
    pub stable_id: u64,
    pub kind: EventKind,
}

/// Lexicographic order on frame (or pulse), priority and stable identity.
pub open spec fn key_le(a: (int, int, int), b: (int, int, int)) -> bool {
    a.0 < b.0 || (a.0 == b.0 && (a.1 < b.1 || (a.1 == b.1 && a.2 <= b.2)))
}

/// As `key_le`, without equality.
pub open spec fn key_lt(a: (int, int, int), b: (int, int, int)) -> bool {
    a.0 < b.0 || (a.0 == b.0 && (a.1 < b.1 || (a.1 == b.1 && a.2 < b.2)))
}

impl PreparedEvent {
    pub open spec fn key(self) -> (int, int, int) {
        (self.frame as int, self.kind.rank() as int, self.stable_id as int)
    }
}

impl Event {
    pub open spec fn key(self) -> (int, int, int) {
        (self.pulse as int, self.kind.rank() as int, self.stable_id as int)
    }
}

impl Ranked for PreparedEvent {
    open spec fn le(self, other: Self) -> bool {
        key_le(self.key(), other.key())
    }

    proof fn le_total(a: Self, b: Self) {
    }

    proof fn le_transitive(a: Self, b: Self, c: Self) {
    }

    fn is_le(self, other: Self) -> bool {
        let (left, right) = (self.kind.priority(), other.kind.priority());
        self.frame < other.frame || (self.frame == other.frame && (left < right || (left == right
            && self.stable_id <= other.stable_id)))
    }
}

/// The channel and key on which an instance sounds.
#[derive(Clone, Copy, Debug, PartialEq, Eq, Structural)]
pub struct NoteIdentity {
    pub instance_id: u32,
    pub channel: u8,
    pub key: u8,
}

impl Ranked for NoteIdentity {
    open spec fn le(self, other: Self) -> bool {
        self.instance_id <= other.instance_id
    }

    proof fn le_total(a: Self, b: Self) {
    }

    proof fn le_transitive(a: Self, b: Self, c: Self) {
    }

    fn is_le(self, other: Self) -> bool {
        self.instance_id <= other.instance_id
    }
}

/// Immutable callback input. All vectors are built before publication.
#[derive(Clone, Debug, PartialEq, Eq)]
pub struct PreparedPlan {
    sample_rate: u32,
    events: Vec<PreparedEvent>,
    note_instances: Vec<NoteIdentity>,
    digest: u64,
}

/// The rates at which a host may run.
pub open spec fn supported_rate(rate: u32) -> bool {
    rate == 44_100 || rate == 48_000 || rate == 96_000
}

pub fn is_supported_rate(rate: u32) -> (supported: bool)
    ensures
        supported == supported_rate(rate),
{
    rate == 44_100 || rate == 48_000 || rate == 96_000
}

/// What is wrong with event `i`, judged against the events before it.
pub open spec fn event_error(events: Seq<Event>, origin: i64, i: int) -> Option<PlanError> {
    let event = events[i];
    if event.pulse < origin {
        Some(PlanError::PulseBeforeOrigin)
    } else if i > 0 && key_lt(event.key(), events[i - 1].key()) {
        Some(PlanError::EventsUnsorted)
    } else if exists|j: int| 0 <= j < i && events[j].stable_id == event.stable_id {
        Some(PlanError::DuplicateStableId)
    } else if !event.kind.valid_midi() {
        Some(PlanError::InvalidMidiData)
    } else {
        match event.kind {
            EventKind::NoteOn { instance_id, .. } => if opened_before(events, i, instance_id) {
                Some(PlanError::DuplicateNoteInstance)
            } else {
                None
            },
            EventKind::NoteOff { instance_id, channel, key, .. } => if !opened_before(
                events,
                i,
                instance_id,
            ) {
                Some(PlanError::UnmatchedNoteOff)
            } else if closed_before(events, i, instance_id) {
                Some(PlanError::DuplicateTermination)
            } else if !opened_as(events, i, NoteIdentity { instance_id, channel, key }) {
                Some(PlanError::TerminationIdentityMismatch)
            } else {
                None
            },
            _ => None,
        }
    }
}

/// Some event before `i` opens the instance.
pub open spec fn opened_before(events: Seq<Event>, i: int, instance: u32) -> bool {
    exists|j: int| 0 <= j < i && #[trigger] events[j].kind.opens(instance)
}

/// Some event before `i` closes the instance.
pub open spec fn closed_before(events: Seq<Event>, i: int, instance: u32) -> bool {
    exists|j: int| 0 <= j < i && #[trigger] events[j].kind.closes(instance)
}

/// Some event before `i` opens the instance on the given channel and key.
pub open spec fn opened_as(events: Seq<Event>, i: int, identity: NoteIdentity) -> bool {
    exists|j: int| 0 <= j < i && #[trigger] sounds_as(events[j].kind, identity)
}

/// A note onset with this identity.
pub open spec fn sounds_as(kind: EventKind, identity: NoteIdentity) -> bool {
    kind matches EventKind::NoteOn { instance_id, channel, key, .. } && instance_id
        == identity.instance_id && channel == identity.channel && key == identity.key
}

/// The failure of the first faulty event among the first `n`.
pub open spec fn first_event_error(events: Seq<Event>, origin: i64, n: nat) -> Option<PlanError>
    decreases n,
{
    if n == 0 {
        None
    } else {
        match first_event_error(events, origin, (n - 1) as nat) {
            Some(error) => Some(error),
            None => event_error(events, origin, n - 1),
        }
    }
}

/// Tempo-weighted distance from the first of `n` nodes to `pulse`: each pulse
/// counts the microseconds per quarter of the node in effect when it elapses.
pub open spec fn elapsed(nodes: Seq<TempoNode>, pulse: int, n: nat) -> int
    decreases n,
{
    if n == 0 {
        0
    } else {
        let last = nodes[n - 1];
        if n > 1 && pulse <= last.pulse {
            elapsed(nodes, pulse, (n - 1) as nat)
        } else if n > 1 {
            elapsed(nodes, last.pulse as int, (n - 1) as nat) + (pulse - last.pulse)
                * last.micros_per_quarter
        } else {
            (pulse - last.pulse) * last.micros_per_quarter
        }
    }
}

impl PlanSpec {
    /// The exact frame of `pulse`, times `FRAME_DENOMINATOR`.
    pub open spec fn frame_numerator(self, pulse: int) -> int {
        self.origin_frame * FRAME_DENOMINATOR + elapsed(
            self.tempo_nodes@,
            pulse,
            self.tempo_nodes@.len(),
        ) * self.sample_rate
    }

    /// The frame in which `pulse` falls.
    pub open spec fn frame(self, pulse: int) -> int {
        self.frame_numerator(pulse) / (FRAME_DENOMINATOR as int)
    }

    pub open spec fn fits_frame(self, pulse: int) -> bool {
        i64::MIN <= self.frame(pulse) <= i64::MAX
    }

    /// The first failure that preparation reports, if any.
    pub open spec fn error(self) -> Option<PlanError> {
        let nodes = self.tempo_nodes@;
        let events = self.events@;
        if !supported_rate(self.sample_rate) {
            Some(PlanError::UnsupportedSampleRate)
        } else if nodes.len() == 0 {
            Some(PlanError::EmptyTempoMap)
        } else if nodes.len() > MAX_TEMPO_NODES {
            Some(PlanError::TooManyTempoNodes)
        } else if events.len() > MAX_EVENTS {
            Some(PlanError::TooManyEvents)
        } else if nodes[0].pulse != self.origin_pulse {
            Some(PlanError::TempoOriginMismatch)
        } else if exists|i: int| 0 <= i < nodes.len() && nodes[i].micros_per_quarter == 0 {
            Some(PlanError::InvalidTempo)
        } else if !increasing_nodes(nodes) {
            Some(PlanError::TempoNodesUnsorted)
        } else {
            match first_event_error(events, self.origin_pulse, events.len()) {
                Some(error) => Some(error),
                None => if forall|i: int|
                    0 <= i < events.len() ==> self.fits_frame(#[trigger] events[i].pulse as int) {
                    None
                } else {
                    Some(PlanError::FrameOverflow)
                },
            }
        }
    }

    /// Every event at its exact frame, in input order.
    pub open spec fn converted(self) -> Seq<PreparedEvent> {
        self.events@.map_values(
            |event: Event|
                PreparedEvent {
                    frame: self.frame(event.pulse as int) as i64,
                    stable_id: event.stable_id,
                    kind: event.kind,
                },
        )
    }
}

/// Tempo nodes take effect at strictly increasing pulses.
pub open spec fn increasing_nodes(nodes: Seq<TempoNode>) -> bool {
    forall|i: int, j: int| 0 <= i < j < nodes.len() ==> nodes[i].pulse < nodes[j].pulse
}

/// One step of the FNV-1a hash.
pub open spec fn fnv_step(hash: u64, byte: u64) -> u64 {
    (hash ^ byte).wrapping_mul(0x0000_0100_0000_01b3)
}

/// The hash extended by the `n` lowest bytes of `value`, lowest first.
pub open spec fn fnv_bytes(value: u64, hash: u64, n: nat) -> u64
    decreases n,
{
    if n == 0 {
        hash
    } else {
        fnv_step(
            fnv_bytes(value, hash, (n - 1) as nat),
            (value >> ((8 * (n - 1)) as u64)) & 0xff,
        )
    }
}

/// The data of an event packed into one word.
pub open spec fn packed(kind: EventKind) -> u64 {
    match kind {
        EventKind::NoteOn { channel, key, velocity, instance_id } => (instance_id as u64) << 24u64
            | (channel as u64) << 16u64 | (key as u64) << 8u64 | velocity as u64,
        EventKind::NoteOff { channel, key, velocity, instance_id } => (instance_id as u64) << 24u64
            | (channel as u64) << 16u64 | (key as u64) << 8u64 | velocity as u64,
        EventKind::ControlChange { channel, controller, value } => (channel as u64) << 16u64 | (
        controller as u64) << 8u64 | value as u64,
        EventKind::ProgramChange { channel, program } => (channel as u64) << 8u64 | program as u64,
        EventKind::AllNotesOff { channel } => channel as u64,
    }
}

/// The hash extended by one prepared event.
pub open spec fn event_digest(hash: u64, event: PreparedEvent) -> u64 {
    fnv_bytes(
        packed(event.kind),
        fnv_bytes(
            event.kind.rank() as u64,
            fnv_bytes(event.stable_id, fnv_bytes(event.frame as u64, hash, 8), 8),
            8,
        ),
        8,
    )
}

/// Digest of a sample rate and the events that follow it.
pub open spec fn plan_digest(sample_rate: u32, events: Seq<PreparedEvent>) -> u64
    decreases events.len(),
{
    if events.len() == 0 {
        fnv_bytes(sample_rate as u64, 0xcbf2_9ce4_8422_2325, 8)
    } else {
        event_digest(plan_digest(sample_rate, events.drop_last()), events.last())
    }
}

fn fnv(value: u64, hash: u64) -> (extended: u64)
    ensures
        extended == fnv_bytes(value, hash, 8),
{
    let mut extended: u64 = hash;
    let mut index: u64 = 0;
    while index < 8
        invariant
            index <= 8,
            extended == fnv_bytes(value, hash, index as nat),
        decreases 8 - index,
    {
        extended = (extended ^ ((value >> (8 * index)) & 0xff)).wrapping_mul(0x0000_0100_0000_01b3);
        index = index + 1;
    }
    extended
}

fn kind_bits(kind: EventKind) -> (bits: u64)
    ensures
        bits == packed(kind),
{
    match kind {
        EventKind::NoteOn { channel, key, velocity, instance_id }
        | EventKind::NoteOff { channel, key, velocity, instance_id } => (instance_id as u64)
            << 24u64 | (channel as u64) << 16u64 | (key as u64) << 8u64 | velocity as u64,
        EventKind::ControlChange { channel, controller, value } => (channel as u64) << 16u64 | (
        controller as u64) << 8u64 | value as u64,
        EventKind::ProgramChange { channel, program } => (channel as u64) << 8u64 | program as u64,
        EventKind::AllNotesOff { channel } => channel as u64,
    }
}

fn digest_plan(sample_rate: u32, events: &Vec<PreparedEvent>) -> (digest: u64)
    ensures
        digest == plan_digest(sample_rate, events@),
{
    let mut hash: u64 = fnv(sample_rate as u64, 0xcbf2_9ce4_8422_2325);
    let mut i: usize = 0;
    assert(events@.take(0) =~= Seq::<PreparedEvent>::empty());
    while i < events.len()
        invariant
            i <= events@.len(),
            hash == plan_digest(sample_rate, events@.take(i as int)),
        decreases events@.len() - i,
    {
        let event = events[i];
        proof {
            assert(events@.take(i + 1).drop_last() =~= events@.take(i as int));
        }
        hash = fnv(event.frame as u64, hash);
        hash = fnv(event.stable_id, hash);
        hash = fnv(event.kind.priority() as u64, hash);
        hash = fnv(kind_bits(event.kind), hash);
        i = i + 1;
    }
    assert(events@.take(events@.len() as int) =~= events@);
    hash
}

/// What a prepared plan holds.
#[verifier::ext_equal]
pub struct PlanView {
    pub sample_rate: u32,
    pub events: Seq<PreparedEvent>,
    pub note_instances: Seq<NoteIdentity>,
    pub digest: u64,
}

impl View for PreparedPlan {
    type V = PlanView;

    closed spec fn view(&self) -> PlanView {
        PlanView {
            sample_rate: self.sample_rate,
            events: self.events@,
            note_instances: self.note_instances@,
            digest: self.digest,
        }
    }
}

/// Events stand in strictly increasing key order.
pub open spec fn increasing_events(events: Seq<PreparedEvent>) -> bool {
    forall|i: int, j: int|
        0 <= i < j < events.len() ==> key_lt((#[trigger] events[i]).key(), (
        #[trigger] events[j]).key())
}

/// No two events share a stable identity.
pub open spec fn distinct_ids(events: Seq<PreparedEvent>) -> bool {
    forall|i: int, j: int|
        0 <= i < j < events.len() ==> (#[trigger] events[i]).stable_id != (
        #[trigger] events[j]).stable_id
}

/// Identities stand in strictly increasing instance order.
pub open spec fn increasing_identities(identities: Seq<NoteIdentity>) -> bool {
    forall|i: int, j: int|
        0 <= i < j < identities.len() ==> (#[trigger] identities[i]).instance_id < (
        #[trigger] identities[j]).instance_id
}

/// What holds of every plan that preparation hands out.
pub open spec fn valid_plan(plan: PlanView) -> bool {
    &&& supported_rate(plan.sample_rate)
    &&& increasing_events(plan.events)
    &&& distinct_ids(plan.events)
    &&& forall|i: int| 0 <= i < plan.events.len() ==> (#[trigger] plan.events[i]).kind.valid_midi()
    &&& increasing_identities(plan.note_instances)
    &&& forall|identity: NoteIdentity| #[trigger]
        plan.note_instances.contains(identity) <==> exists|i: int|
            0 <= i < plan.events.len() && #[trigger] sounds_as(plan.events[i].kind, identity)
    &&& plan.digest == plan_digest(plan.sample_rate, plan.events)
}

impl PreparedPlan {
    pub open spec fn wf(self) -> bool {
        valid_plan(self@)
    }

    #[must_use]
    pub fn sample_rate(&self) -> (rate: u32)
        ensures
            rate == self@.sample_rate,
    {
        self.sample_rate
    }

    #[must_use]
    pub fn events(&self) -> (events: &[PreparedEvent])
        ensures
            events@ == self@.events,
    {
        self.events.as_slice()
    }

    #[must_use]
    pub fn digest(&self) -> (digest: u64)
        ensures
            digest == self@.digest,
    {
        self.digest
    }

    /// Where the identities from `instance_id` on begin.
    fn instance_position(&self, instance_id: u32) -> (position: usize)
        requires
            self.wf(),
        ensures
            position <= self@.note_instances.len(),
            forall|i: int|
                0 <= i < position ==> (#[trigger] self@.note_instances[i]).instance_id
                    < instance_id,
            forall|i: int|
                position <= i < self@.note_instances.len() ==> (
                #[trigger] self@.note_instances[i]).instance_id >= instance_id,
    {
        let mut low: usize = 0;
        let mut high: usize = self.note_instances.len();
        while low < high
            invariant
                low <= high <= self@.note_instances.len(),
                self.note_instances@ == self@.note_instances,
                increasing_identities(self@.note_instances),
                forall|i: int|
                    0 <= i < low ==> (#[trigger] self@.note_instances[i]).instance_id < instance_id,
                forall|i: int|
                    high <= i < self@.note_instances.len() ==> (
                    #[trigger] self@.note_instances[i]).instance_id >= instance_id,
            decreases high - low,
        {
            let middle: usize = low + (high - low) / 2;
            if self.note_instances[middle].instance_id < instance_id {
                low = middle + 1;
            } else {
                high = middle;
            }
        }
        low
    }

    /// Whether the plan opens the instance anywhere.
    #[must_use]
    pub fn contains_note_instance(&self, instance_id: u32) -> (found: bool)
        requires
            self.wf(),
        ensures
            found == exists|i: int|
                0 <= i < self@.events.len() && #[trigger] self@.events[i].kind.opens(instance_id),
    {
        let position = self.instance_position(instance_id);
        let found = position < self.note_instances.len()
            && self.note_instances[position].instance_id == instance_id;
        proof {
            if found {
                let identity = self@.note_instances[position as int];
                assert(self@.note_instances.contains(identity));
                let i = choose|i: int|
                    0 <= i < self@.events.len() && #[trigger] sounds_as(
                        self@.events[i].kind,
                        identity,
                    );
                assert(self@.events[i].kind.opens(instance_id));
            } else if exists|i: int|
                0 <= i < self@.events.len() && #[trigger] self@.events[i].kind.opens(instance_id) {
                let i = choose|i: int|
                    0 <= i < self@.events.len() && #[trigger] self@.events[i].kind.opens(
                        instance_id,
                    );
                if let EventKind::NoteOn { channel, key, .. } = self@.events[i].kind {
                    let identity = NoteIdentity { instance_id, channel, key };
                    assert(sounds_as(self@.events[i].kind, identity));
                    assert(self@.note_instances.contains(identity));
                }
            }
        }
        found
    }

    /// Whether the plan opens the instance on this very channel and key.
    pub fn contains_note_identity(&self, identity: NoteIdentity) -> (found: bool)
        requires
            self.wf(),
        ensures
            found == self@.note_instances.contains(identity),
    {
        let position = self.instance_position(identity.instance_id);
        let found = position < self.note_instances.len() && self.note_instances[position]
            == identity;
        proof {
            if found {
                assert(self@.note_instances[position as int] == identity);
            } else if self@.note_instances.contains(identity) {
                let i = choose|i: int|
                    0 <= i < self@.note_instances.len() && self@.note_instances[i] == identity;
                assert(i == position);
            }
        }
        found
    }
}

/// Once an event is faulty, looking at more events changes nothing.
proof fn lemma_first_error_stays(events: Seq<Event>, origin: i64, n: nat, m: nat)
    requires
        n <= m,
        first_event_error(events, origin, n) is Some,
    ensures
        first_event_error(events, origin, m) == first_event_error(events, origin, n),
    decreases m,
{
    if n < m {
        lemma_first_error_stays(events, origin, n, (m - 1) as nat);
    }
}

/// Of a fault-free prefix, no event is faulty.
pub proof fn lemma_no_first_error(events: Seq<Event>, origin: i64, n: nat, i: int)
    requires
        first_event_error(events, origin, n) is None,
        0 <= i < n,
    ensures
        event_error(events, origin, i) is None,
    decreases n,
{
    if i < n - 1 {
        lemma_no_first_error(events, origin, (n - 1) as nat, i);
    }
}

#[derive(Clone, Copy)]
struct InstanceRecord {
    closed: bool,
    channel: u8,
    key: u8,
}

/// What the records say of the instances that the first `i` events touch.
spec fn records_match(
    records: Map<u32, InstanceRecord>,
    events: Seq<Event>,
    i: int,
) -> bool {
    &&& forall|n: u32| #[trigger] records.contains_key(n) <==> opened_before(events, i, n)
    &&& forall|n: u32| #[trigger]
        records.contains_key(n) ==> records[n].closed == closed_before(events, i, n)
    &&& forall|identity: NoteIdentity| #[trigger]
        opened_as(events, i, identity) <==> records.contains_key(identity.instance_id)
            && records[identity.instance_id].channel == identity.channel
            && records[identity.instance_id].key == identity.key
}

/// The identities that the first `i` events open, each once.
spec fn notes_match(notes: Seq<NoteIdentity>, events: Seq<Event>, i: int) -> bool {
    &&& forall|identity: NoteIdentity| #[trigger]
        notes.contains(identity) <==> opened_as(events, i, identity)
    &&& forall|a: int, b: int|
        0 <= a < b < notes.len() ==> (#[trigger] notes[a]).instance_id != (
        #[trigger] notes[b]).instance_id
}

fn validate_events(events: &Vec<Event>, origin_pulse: i64) -> (result: Result<
    Vec<NoteIdentity>,
    PlanError,
>)
    ensures
        match result {
            Ok(notes) => first_event_error(events@, origin_pulse, events@.len()) is None
                && notes_match(notes@, events@, events@.len() as int),
            Err(error) => first_event_error(events@, origin_pulse, events@.len()) == Some(error),
        },
{
    broadcast use vstd::std_specs::hash::group_hash_axioms;

    let mut ids: HashSet<u64> = HashSet::new();
    let mut records: HashMap<u32, InstanceRecord> = HashMap::new();
    let mut notes: Vec<NoteIdentity> = Vec::new();
    let mut i: usize = 0;
    while i < events.len()
        invariant
            i <= events@.len(),
            first_event_error(events@, origin_pulse, i as nat) is None,
            forall|x: u64| #[trigger]
                ids@.contains(x) <==> exists|j: int| 0 <= j < i && events@[j].stable_id == x,
            records_match(records@, events@, i as int),
            notes_match(notes@, events@, i as int),
        decreases events@.len() - i,
    {
        broadcast use vstd::std_specs::hash::group_hash_axioms;

        let event = events[i];
        let ghost now = i as int;
        let ghost fault = event_error(events@, origin_pulse, now);
        proof {
            assert(first_event_error(events@, origin_pulse, (now + 1) as nat) == fault);
            if fault is Some {
                lemma_first_error_stays(
                    events@,
                    origin_pulse,
                    (now + 1) as nat,
                    events@.len(),
                );
            }
        }
        if event.pulse < origin_pulse {
            return Err(PlanError::PulseBeforeOrigin);
        }
        if i > 0 {
            let previous = events[i - 1];
            let (rank, previous_rank) = (event.kind.priority(), previous.kind.priority());
            if event.pulse < previous.pulse || (event.pulse == previous.pulse && (rank
                < previous_rank || (rank == previous_rank && event.stable_id
                < previous.stable_id))) {
                return Err(PlanError::EventsUnsorted);
            }
        }
        let ghost ids_before = ids@;
        if !ids.insert(event.stable_id) {
            return Err(PlanError::DuplicateStableId);
        }
        if !event.kind.midi_is_valid() {
            return Err(PlanError::InvalidMidiData);
        }
        match event.kind {
            EventKind::NoteOn { instance_id, channel, key, .. } => {
                if records.contains_key(&instance_id) {
                    return Err(PlanError::DuplicateNoteInstance);
                }
                let ghost records_before = records@;
                let ghost notes_before = notes@;
                let identity = NoteIdentity { instance_id, channel, key };
                records.insert(instance_id, InstanceRecord { closed: false, channel, key });
                notes.push(identity);
                proof {
                    lemma_open_step(
                        records_before,
                        notes_before,
                        events@,
                        now,
                        identity,
                        origin_pulse,
                    );
                }
            },
            EventKind::NoteOff { instance_id, channel, key, .. } => {
                let ghost records_before = records@;
                match records.get(&instance_id) {
                    None => {
                        return Err(PlanError::UnmatchedNoteOff);
                    },
                    Some(record) => {
                        let record: InstanceRecord = *record;
                        if record.closed {
                            return Err(PlanError::DuplicateTermination);
                        }
                        let ghost identity = NoteIdentity { instance_id, channel, key };
                        assert(opened_as(events@, now, identity) <==> record.channel == channel
                            && record.key == key);
                        if record.channel != channel || record.key != key {
                            return Err(PlanError::TerminationIdentityMismatch);
                        }
                        records.insert(instance_id, InstanceRecord { closed: true, channel, key });
                        proof {
                            lemma_other_step(events@, now, notes@, records_before);
                        }
                    },
                }
            },
            _ => {
                proof {
                    lemma_other_step(events@, now, notes@, records@);
                }
            },
        }
        proof {
            assert forall|x: u64| #[trigger] ids@.contains(x) <==> exists|j: int|
                0 <= j < now + 1 && events@[j].stable_id == x by {
                if x == event.stable_id {
                    assert(events@[now].stable_id == x);
                }
                if ids_before.contains(x) {
                    let j = choose|j: int| 0 <= j < now && events@[j].stable_id == x;
                    assert(events@[j].stable_id == x);
                }
            }
        }
        i = i + 1;
    }
    Ok(notes)
}

/// A first onset of an instance extends records and identities by one entry.
proof fn lemma_open_step(
    records: Map<u32, InstanceRecord>,
    notes: Seq<NoteIdentity>,
    events: Seq<Event>,
    i: int,
    identity: NoteIdentity,
    origin: i64,
)
    requires
        0 <= i < events.len(),
        records_match(records, events, i),
        notes_match(notes, events, i),
        sounds_as(events[i].kind, identity),
        !records.contains_key(identity.instance_id),
        first_event_error(events, origin, i as nat) is None,
    ensures
        records_match(
            records.insert(
                identity.instance_id,
                InstanceRecord { closed: false, channel: identity.channel, key: identity.key },
            ),
            events,
            i + 1,
        ),
        notes_match(notes.push(identity), events, i + 1),
{
    let record = InstanceRecord { closed: false, channel: identity.channel, key: identity.key };
    let next = records.insert(identity.instance_id, record);
    let next_notes = notes.push(identity);
    assert(events[i].kind.opens(identity.instance_id));
    assert forall|n: u32| #[trigger] next.contains_key(n) <==> opened_before(events, i + 1, n) by {
        if opened_before(events, i, n) {
            let j = choose|j: int| 0 <= j < i && #[trigger] events[j].kind.opens(n);
            assert(events[j].kind.opens(n));
        }
    }
    if closed_before(events, i, identity.instance_id) {
        let j = choose|j: int|
            0 <= j < i && #[trigger] events[j].kind.closes(identity.instance_id);
        lemma_no_first_error(events, origin, i as nat, j);
        let k = choose|k: int|
            0 <= k < j && #[trigger] events[k].kind.opens(identity.instance_id);
        assert(events[k].kind.opens(identity.instance_id));
        assert(opened_before(events, i, identity.instance_id));
    }
    assert forall|n: u32| #[trigger] next.contains_key(n) implies next[n].closed == closed_before(
        events,
        i + 1,
        n,
    ) by {
        if closed_before(events, i, n) {
            let j = choose|j: int| 0 <= j < i && #[trigger] events[j].kind.closes(n);
            assert(events[j].kind.closes(n));
        }
        assert(!events[i].kind.closes(n));
        if n != identity.instance_id {
            assert(records.contains_key(n));
        }
    }
    assert forall|other: NoteIdentity| #[trigger] opened_as(events, i + 1, other) <==> (
    opened_as(events, i, other) || other == identity) by {
        if opened_as(events, i, other) {
            let j = choose|j: int| 0 <= j < i && #[trigger] sounds_as(events[j].kind, other);
            assert(sounds_as(events[j].kind, other));
        }
        if other == identity {
            assert(sounds_as(events[i].kind, other));
        }
    }
    assert forall|other: NoteIdentity| #[trigger] next_notes.contains(other) <==> (notes.contains(
        other,
    ) || other == identity) by {
        if notes.contains(other) {
            let k = choose|k: int| 0 <= k < notes.len() && notes[k] == other;
            assert(next_notes[k] == other);
        }
        assert(next_notes[notes.len() as int] == identity);
    }
    assert forall|a: int, b: int| 0 <= a < b < next_notes.len() implies (
    #[trigger] next_notes[a]).instance_id != (#[trigger] next_notes[b]).instance_id by {
        if b == notes.len() {
            assert(notes.contains(notes[a]));
            assert(opened_as(events, i, notes[a]));
        }
    }
}

/// An event that opens nothing leaves the opened identities as they are; a
/// release marks its instance closed.
proof fn lemma_other_step(
    events: Seq<Event>,
    i: int,
    notes: Seq<NoteIdentity>,
    records: Map<u32, InstanceRecord>,
)
    requires
        0 <= i < events.len(),
        !(events[i].kind is NoteOn),
        records_match(records, events, i),
        notes_match(notes, events, i),
    ensures
        notes_match(notes, events, i + 1),
        match events[i].kind {
            EventKind::NoteOff { instance_id, .. } => records.contains_key(instance_id)
                ==> records_match(
                records.insert(
                    instance_id,
                    InstanceRecord {
                        closed: true,
                        channel: records[instance_id].channel,
                        key: records[instance_id].key,
                    },
                ),
                events,
                i + 1,
            ),
            _ => records_match(records, events, i + 1),
        },
{
    assert forall|n: u32| #[trigger] opened_before(events, i + 1, n) == opened_before(events, i, n) by {
        if opened_before(events, i, n) {
            let j = choose|j: int| 0 <= j < i && #[trigger] events[j].kind.opens(n);
            assert(events[j].kind.opens(n));
        }
    }
    assert forall|n: u32| #[trigger] closed_before(events, i + 1, n) == (closed_before(events, i, n)
        || events[i].kind.closes(n)) by {
        if closed_before(events, i, n) {
            let j = choose|j: int| 0 <= j < i && #[trigger] events[j].kind.closes(n);
            assert(events[j].kind.closes(n));
        }
    }
    assert forall|other: NoteIdentity| #[trigger] opened_as(events, i + 1, other) == opened_as(
        events,
        i,
        other,
    ) by {
        if opened_as(events, i, other) {
            let j = choose|j: int| 0 <= j < i && #[trigger] sounds_as(events[j].kind, other);
            assert(sounds_as(events[j].kind, other));
        }
    }
}

/// Elapsed tempo time is nonnegative and at most the widest tempo allows.
pub proof fn lemma_elapsed_bounds(nodes: Seq<TempoNode>, pulse: int, n: nat)
    requires
        1 <= n <= nodes.len(),
        increasing_nodes(nodes),
        nodes[0].pulse <= pulse,
    ensures
        0 <= elapsed(nodes, pulse, n) <= (pulse - nodes[0].pulse) * 0xffff_ffff,
    decreases n,
{
    let last = nodes[n - 1];
    let distance = pulse - last.pulse;
    let micros = last.micros_per_quarter as int;
    if n > 1 {
        if pulse <= last.pulse {
            lemma_elapsed_bounds(nodes, pulse, (n - 1) as nat);
        } else {
            lemma_elapsed_bounds(nodes, last.pulse as int, (n - 1) as nat);
            assert(0 <= distance * micros <= distance * 0xffff_ffff) by (nonlinear_arith)
                requires
                    distance >= 0,
                    0 <= micros <= 0xffff_ffff,
            ;
            assert((last.pulse - nodes[0].pulse) * 0xffff_ffff + distance * 0xffff_ffff == (pulse
                - nodes[0].pulse) * 0xffff_ffff);
        }
    } else {
        assert(0 <= distance * micros <= distance * 0xffff_ffff) by (nonlinear_arith)
            requires
                distance >= 0,
                0 <= micros <= 0xffff_ffff,
        ;
    }
}

/// Past the last of `n` nodes, elapsed time grows at that node's tempo.
pub proof fn lemma_elapsed_linear(nodes: Seq<TempoNode>, from: int, to: int, n: nat)
    requires
        1 <= n <= nodes.len(),
        nodes[n - 1].pulse <= from <= to,
    ensures
        elapsed(nodes, to, n) == elapsed(nodes, from, n) + (to - from) * nodes[n
            - 1].micros_per_quarter,
{
    let last = nodes[n - 1];
    let micros = last.micros_per_quarter as int;
    let base = last.pulse as int;
    assert((to - base) * micros == (from - base) * micros + (to - from) * micros)
        by (nonlinear_arith);
    if n > 1 && from == last.pulse {
        assert((from - base) * micros == 0) by (nonlinear_arith)
            requires
                from == base,
        ;
    }
}

/// Nodes at or after `pulse` do not matter to the time elapsed there.
pub proof fn lemma_elapsed_prefix(nodes: Seq<TempoNode>, pulse: int, n: nat, m: nat)
    requires
        1 <= n <= m <= nodes.len(),
        forall|j: int| n <= j < m ==> pulse <= #[trigger] nodes[j].pulse,
    ensures
        elapsed(nodes, pulse, m) == elapsed(nodes, pulse, n),
    decreases m,
{
    if n < m {
        lemma_elapsed_prefix(nodes, pulse, n, (m - 1) as nat);
    }
}

/// Walks the tempo map forward, one conversion after another.
struct FrameConverter<'a> {
    spec: &'a PlanSpec,
    weight: i128,
    cursor: i64,
    next_tempo: usize,
}

impl<'a> FrameConverter<'a> {
    spec fn wf(self) -> bool {
        let nodes = self.spec.tempo_nodes@;
        &&& supported_rate(self.spec.sample_rate)
        &&& increasing_nodes(nodes)
        &&& 1 <= self.next_tempo <= nodes.len()
        &&& nodes[self.next_tempo - 1].pulse <= self.cursor
        &&& self.next_tempo < nodes.len() ==> self.cursor <= nodes[self.next_tempo as int].pulse
        &&& self.weight == elapsed(nodes, self.cursor as int, self.next_tempo as nat)
    }

    fn new(spec: &'a PlanSpec) -> (converter: Self)
        requires
            supported_rate(spec.sample_rate),
            spec.tempo_nodes@.len() > 0,
            increasing_nodes(spec.tempo_nodes@),
            spec.tempo_nodes@[0].pulse == spec.origin_pulse,
        ensures
            converter.wf(),
            converter.spec == spec,
            converter.cursor == spec.origin_pulse,
    {
        FrameConverter { spec, weight: 0, cursor: spec.origin_pulse, next_tempo: 1 }
    }

    /// Adds the pulses up to `to` at the tempo in effect.
    fn add_segment(&mut self, to: i64)
        requires
            old(self).wf(),
            old(self).cursor <= to,
            old(self).next_tempo < old(self).spec.tempo_nodes@.len() ==> to <= old(
                self,
            ).spec.tempo_nodes@[old(self).next_tempo as int].pulse,
        ensures
            final(self).wf(),
            final(self).spec == old(self).spec,
            final(self).next_tempo == old(self).next_tempo,
            final(self).cursor == to,
    {
        let node = self.spec.tempo_nodes[self.next_tempo - 1];
        let distance: i128 = to as i128 - self.cursor as i128;
        let micros: i128 = node.micros_per_quarter as i128;
        proof {
            let nodes = self.spec.tempo_nodes@;
            lemma_elapsed_linear(
                nodes,
                self.cursor as int,
                to as int,
                self.next_tempo as nat,
            );
            if self.next_tempo > 1 {
                assert(nodes[0].pulse < nodes[self.next_tempo - 1].pulse);
            }
            lemma_elapsed_bounds(nodes, self.cursor as int, self.next_tempo as nat);
            assert(0 <= distance * micros <= 0x1_0000_0000_0000_0000 * 0xffff_ffff)
                by (nonlinear_arith)
                requires
                    0 <= distance <= 0x1_0000_0000_0000_0000,
                    0 <= micros <= 0xffff_ffff,
            ;
        }
        self.weight = self.weight + distance * micros;
        self.cursor = to;
    }

    fn convert(&mut self, target: i64) -> (frame: Result<i64, PlanError>)
        requires
            old(self).wf(),
            old(self).cursor <= target,
        ensures
            final(self).wf(),
            final(self).spec == old(self).spec,
            final(self).cursor == target,
            match frame {
                Ok(frame) => old(self).spec.fits_frame(target as int) && frame == old(
                    self,
                ).spec.frame(target as int),
                Err(error) => error == PlanError::FrameOverflow && !old(self).spec.fits_frame(
                    target as int,
                ),
            },
    {
        let ghost nodes = self.spec.tempo_nodes@;
        while self.next_tempo < self.spec.tempo_nodes.len()
            && self.spec.tempo_nodes[self.next_tempo].pulse <= target
            invariant
                self.wf(),
                self.cursor <= target,
                self.spec == old(self).spec,
                nodes == self.spec.tempo_nodes@,
            decreases nodes.len() - self.next_tempo,
        {
            let node = self.spec.tempo_nodes[self.next_tempo];
            self.add_segment(node.pulse);
            proof {
                lemma_elapsed_prefix(
                    nodes,
                    node.pulse as int,
                    self.next_tempo as nat,
                    (self.next_tempo + 1) as nat,
                );
            }
            self.next_tempo = self.next_tempo + 1;
        }
        self.add_segment(target);
        let rate: i128 = self.spec.sample_rate as i128;
        let origin: i128 = self.spec.origin_frame as i128;
        let weight: i128 = self.weight;
        proof {
            assert forall|j: int| self.next_tempo <= j < nodes.len() implies target
                <= #[trigger] nodes[j].pulse by {
                if j > self.next_tempo {
                    assert(nodes[self.next_tempo as int].pulse < nodes[j].pulse);
                }
            }
            lemma_elapsed_prefix(nodes, target as int, self.next_tempo as nat, nodes.len());
            if self.next_tempo > 1 {
                assert(nodes[0].pulse < nodes[self.next_tempo - 1].pulse);
            }
            lemma_elapsed_bounds(nodes, target as int, self.next_tempo as nat);
            assert(0 <= weight * rate <= 0x1_0000_0000_0000_0000 * 0xffff_ffff * 96_000)
                by (nonlinear_arith)
                requires
                    0 <= weight <= 0x1_0000_0000_0000_0000 * 0xffff_ffff,
                    0 <= rate <= 96_000,
            ;
        }
        let numerator: i128 = origin * FRAME_DENOMINATOR + weight * rate;
        assert(numerator == self.spec.frame_numerator(target as int));
        match numerator.checked_div_euclid(FRAME_DENOMINATOR) {
            Some(frame) => {
                if frame < i64::MIN as i128 || frame > i64::MAX as i128 {
                    Err(PlanError::FrameOverflow)
                } else {
                    Ok(frame as i64)
                }
            },
            None => Err(PlanError::FrameOverflow),
        }
    }
}

/// What a plan prepared from `spec` holds.
pub open spec fn prepared_from(plan: PlanView, spec: PlanSpec) -> bool {
    &&& valid_plan(plan)
    &&& plan.sample_rate == spec.sample_rate
    &&& plan.events.to_multiset() == spec.converted().to_multiset()
}

/// Validates and prepares one immutable plan off the callback thread.
pub fn prepare_plan(spec: PlanSpec) -> (result: Result<PreparedPlan, PlanError>)
    ensures
        match result {
            Ok(plan) => spec.error() is None && prepared_from(plan@, spec),
            Err(error) => spec.error() == Some(error),
        },
{
    if !is_supported_rate(spec.sample_rate) {
        return Err(PlanError::UnsupportedSampleRate);
    }
    if spec.tempo_nodes.len() == 0 {
        return Err(PlanError::EmptyTempoMap);
    }
    if spec.tempo_nodes.len() > MAX_TEMPO_NODES {
        return Err(PlanError::TooManyTempoNodes);
    }
    if spec.events.len() > MAX_EVENTS {
        return Err(PlanError::TooManyEvents);
    }
    if spec.tempo_nodes[0].pulse != spec.origin_pulse {
        return Err(PlanError::TempoOriginMismatch);
    }
    if has_zero_tempo(&spec.tempo_nodes) {
        return Err(PlanError::InvalidTempo);
    }
    if !are_increasing(&spec.tempo_nodes) {
        return Err(PlanError::TempoNodesUnsorted);
    }
    let notes = match validate_events(&spec.events, spec.origin_pulse) {
        Ok(notes) => notes,
        Err(error) => {
            return Err(error);
        },
    };
    let mut unsorted: Vec<PreparedEvent> = Vec::new();
    let mut converter = FrameConverter::new(&spec);
    let mut i: usize = 0;
    while i < spec.events.len()
        invariant
            i <= spec.events@.len(),
            converter.wf(),
            *converter.spec == spec,
            converter.cursor == (if i == 0 {
                spec.origin_pulse
            } else {
                spec.events@[i - 1].pulse
            }),
            first_event_error(spec.events@, spec.origin_pulse, spec.events@.len()) is None,
            unsorted@ == spec.converted().take(i as int),
            forall|j: int|
                0 <= j < i ==> spec.fits_frame(#[trigger] spec.events@[j].pulse as int),
            spec.error() == (if forall|j: int|
                0 <= j < spec.events@.len() ==> spec.fits_frame(
                    #[trigger] spec.events@[j].pulse as int,
                ) {
                None
            } else {
                Some(PlanError::FrameOverflow)
            }),
        decreases spec.events@.len() - i,
    {
        let event = spec.events[i];
        proof {
            lemma_no_first_error(spec.events@, spec.origin_pulse, spec.events@.len(), i as int);
        }
        match converter.convert(event.pulse) {
            Ok(frame) => {
                unsorted.push(
                    PreparedEvent { frame, stable_id: event.stable_id, kind: event.kind },
                );
                proof {
                    assert(spec.converted().take(i + 1) =~= spec.converted().take(i as int).push(
                        spec.converted()[i as int],
                    ));
                }
            },
            Err(error) => {
                assert(!spec.fits_frame(spec.events@[i as int].pulse as int));
                return Err(error);
            },
        }
        i = i + 1;
    }
    assert(unsorted@ =~= spec.converted());
    let events = sort(&unsorted);
    let note_instances = sort(&notes);
    let digest = digest_plan(spec.sample_rate, &events);
    let plan = PreparedPlan { sample_rate: spec.sample_rate, events, note_instances, digest };
    proof {
        lemma_prepared_valid(spec, plan@, notes@);
    }
    Ok(plan)
}

fn has_zero_tempo(nodes: &Vec<TempoNode>) -> (found: bool)
    ensures
        found == exists|i: int| 0 <= i < nodes@.len() && nodes@[i].micros_per_quarter == 0,
{
    let mut i: usize = 0;
    while i < nodes.len()
        invariant
            i <= nodes@.len(),
            forall|j: int| 0 <= j < i ==> nodes@[j].micros_per_quarter != 0,
        decreases nodes@.len() - i,
    {
        if nodes[i].micros_per_quarter == 0 {
            return true;
        }
        i = i + 1;
    }
    false
}

fn are_increasing(nodes: &Vec<TempoNode>) -> (increasing: bool)
    ensures
        increasing == increasing_nodes(nodes@),
{
    let mut i: usize = 1;
    while i < nodes.len()
        invariant
            1 <= i,
            i <= nodes@.len() || nodes@.len() == 0,
            forall|a: int, b: int|
                0 <= a < b < i && b < nodes@.len() ==> nodes@[a].pulse < nodes@[b].pulse,
        decreases nodes@.len() - i,
    {
        if nodes[i - 1].pulse >= nodes[i].pulse {
            return false;
        }
        i = i + 1;
    }
    true
}

proof fn lemma_prepared_valid(spec: PlanSpec, plan: PlanView, notes: Seq<NoteIdentity>)
    requires
        spec.error() is None,
        plan.sample_rate == spec.sample_rate,
        crate::sorting::arranges(plan.events, spec.converted()),
        crate::sorting::arranges(plan.note_instances, notes),
        notes_match(notes, spec.events@, spec.events@.len() as int),
        plan.digest == plan_digest(plan.sample_rate, plan.events),
    ensures
        prepared_from(plan, spec),
{
    let events = spec.events@;
    let converted = spec.converted();
    let n = events.len();
    assert forall|i: int, j: int| 0 <= i < j < n implies events[i].stable_id
        != events[j].stable_id by {
        lemma_no_first_error(events, spec.origin_pulse, n, j);
    }
    lemma_distinct_ids_kept(plan.events, converted);
    assert forall|i: int| 0 <= i < plan.events.len() implies (
    #[trigger] plan.events[i]).kind.valid_midi() by {
        crate::sorting::lemma_arranges_contains(plan.events, converted, plan.events[i]);
        assert(plan.events.contains(plan.events[i]));
        let j = choose|j: int| 0 <= j < converted.len() && converted[j] == plan.events[i];
        lemma_no_first_error(events, spec.origin_pulse, n, j);
    }
    lemma_distinct_instances_kept(plan.note_instances, notes);
    assert forall|identity: NoteIdentity| #[trigger]
        plan.note_instances.contains(identity) <==> exists|i: int|
            0 <= i < plan.events.len() && #[trigger] sounds_as(plan.events[i].kind, identity) by {
        crate::sorting::lemma_arranges_contains(plan.note_instances, notes, identity);
        if opened_as(events, n as int, identity) {
            let j = choose|j: int| 0 <= j < n && #[trigger] sounds_as(events[j].kind, identity);
            let value = converted[j];
            assert(converted.contains(value));
            crate::sorting::lemma_arranges_contains(plan.events, converted, value);
            let i = choose|i: int| 0 <= i < plan.events.len() && plan.events[i] == value;
            assert(sounds_as(plan.events[i].kind, identity));
        }
        if exists|i: int|
            0 <= i < plan.events.len() && #[trigger] sounds_as(plan.events[i].kind, identity) {
            let i = choose|i: int|
                0 <= i < plan.events.len() && #[trigger] sounds_as(plan.events[i].kind, identity);
            crate::sorting::lemma_arranges_contains(plan.events, converted, plan.events[i]);
            assert(plan.events.contains(plan.events[i]));
            let j = choose|j: int| 0 <= j < converted.len() && converted[j] == plan.events[i];
            assert(sounds_as(events[j].kind, identity));
            assert(opened_as(events, n as int, identity));
        }
    }
}

/// Rearranging events with distinct identities keeps them distinct, so that
/// their ascending order is strict.
pub proof fn lemma_distinct_ids_kept(arranged: Seq<PreparedEvent>, original: Seq<PreparedEvent>)
    requires
        crate::sorting::arranges(arranged, original),
        distinct_ids(original),
    ensures
        distinct_ids(arranged),
        increasing_events(arranged),
{
    assert(original.no_duplicates());
    original.lemma_multiset_has_no_duplicates();
    arranged.lemma_multiset_has_no_duplicates_conv();
    assert forall|i: int, j: int| 0 <= i < j < arranged.len() implies (
    #[trigger] arranged[i]).stable_id != (#[trigger] arranged[j]).stable_id by {
        crate::sorting::lemma_arranges_contains(arranged, original, arranged[i]);
        crate::sorting::lemma_arranges_contains(arranged, original, arranged[j]);
        assert(arranged.contains(arranged[i]) && arranged.contains(arranged[j]));
        let a = choose|a: int| 0 <= a < original.len() && original[a] == arranged[i];
        let b = choose|b: int| 0 <= b < original.len() && original[b] == arranged[j];
        assert(original[a].stable_id == arranged[i].stable_id);
    }
    assert forall|i: int, j: int| 0 <= i < j < arranged.len() implies key_lt(
        (#[trigger] arranged[i]).key(),
        (#[trigger] arranged[j]).key(),
    ) by {
        assert(arranged[i].le(arranged[j]));
    }
}

proof fn lemma_distinct_instances_kept(arranged: Seq<NoteIdentity>, original: Seq<NoteIdentity>)
    requires
        crate::sorting::arranges(arranged, original),
        forall|a: int, b: int|
            0 <= a < b < original.len() ==> (#[trigger] original[a]).instance_id != (
            #[trigger] original[b]).instance_id,
    ensures
        increasing_identities(arranged),
{
    assert(original.no_duplicates());
    original.lemma_multiset_has_no_duplicates();
    arranged.lemma_multiset_has_no_duplicates_conv();
    assert forall|i: int, j: int| 0 <= i < j < arranged.len() implies (
    #[trigger] arranged[i]).instance_id < (#[trigger] arranged[j]).instance_id by {
        crate::sorting::lemma_arranges_contains(arranged, original, arranged[i]);
        crate::sorting::lemma_arranges_contains(arranged, original, arranged[j]);
        assert(arranged.contains(arranged[i]) && arranged.contains(arranged[j]));
        let a = choose|a: int| 0 <= a < original.len() && original[a] == arranged[i];
        let b = choose|b: int| 0 <= b < original.len() && original[b] == arranged[j];
        assert(original[a].instance_id == arranged[i].instance_id);
        assert(arranged[i].le(arranged[j]));
    }
}

} // verus!
