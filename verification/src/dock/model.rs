//! Bookings of doors, and what each command does to them.

use vstd::prelude::*;
use crate::seqs;
use crate::text;

verus! {

pub const DOOR_COUNT: u16 = 24;

#[derive(Clone, Copy, Debug, PartialEq, Eq, Structural)]
pub struct Door {
    pub id: u16,
    pub height: u8,
    pub refrigerated: bool,
    pub pallet_capacity: u16,
}

#[derive(Clone, Copy, Debug, PartialEq, Eq, Structural)]
pub struct HoldSpec {
    pub tenant: u16,
    pub request_id: u64,
    pub arrival: u32,
    pub duration: u8,
    pub pallets: u16,
    pub height: u8,
    pub refrigerated: bool,
    pub priority: u8,
    pub lifetime: u32,
}

#[derive(Clone, Copy, Debug, PartialEq, Eq, Structural)]
pub enum Command {
    Hold { spec: HoldSpec, now: u32 },
    Confirm { tenant: u16, request_id: u64, now: u32 },
    Cancel { tenant: u16, request_id: u64, now: u32 },
    Reschedule {
        tenant: u16,
        request_id: u64,
        expected_version: u32,
        arrival: u32,
        duration: u8,
        now: u32,
    },
    Expire { sweep_id: u64, now: u32 },
}

#[derive(Clone, Copy, Debug, PartialEq, Eq, Structural)]
pub enum Status {
    Held { expires_at: u32 },
    Confirmed,
    Cancelled,
    Expired,
}

#[derive(Clone, Copy, Debug, PartialEq, Eq, Structural)]
pub struct Booking {
    pub spec: HoldSpec,
    pub door: u16,
    pub version: u32,
    pub accepted_order: u64,
    pub status: Status,
}

#[derive(Clone, Copy, Debug, PartialEq, Eq)]
pub struct Outcome {
    pub accepted: bool,
    pub code: &'static str,
    pub door: Option<u16>,
    pub interval: Option<u32>,
    pub version: Option<u32>,
}

/// An outcome as plain values.
pub struct OutcomeView {
    pub accepted: bool,
    pub code: Seq<char>,
    pub door: Option<u16>,
    pub interval: Option<u32>,
    pub version: Option<u32>,
}

impl View for Outcome {
    type V = OutcomeView;

    open spec fn view(&self) -> OutcomeView {
        OutcomeView {
            accepted: self.accepted,
            code: self.code@,
            door: self.door,
            interval: self.interval,
            version: self.version,
        }
    }
}

pub open spec fn accepted(code: Seq<char>, booking: Booking) -> OutcomeView {
    OutcomeView {
        accepted: true,
        code,
        door: Some(booking.door),
        interval: Some(booking.spec.arrival),
        version: Some(booking.version),
    }
}

pub open spec fn rejected(code: Seq<char>, door: Option<u16>, interval: Option<u32>) -> OutcomeView {
    OutcomeView { accepted: false, code, door, interval, version: None }
}

impl Outcome {
    pub fn accepted(code: &'static str, booking: &Booking) -> (outcome: Self)
        ensures
            outcome@ == accepted(code@, *booking),
    {
        Outcome {
            accepted: true,
            code,
            door: Some(booking.door),
            interval: Some(booking.spec.arrival),
            version: Some(booking.version),
        }
    }

    pub fn rejected(code: &'static str, door: Option<u16>, interval: Option<u32>) -> (outcome: Self)
        ensures
            outcome@ == rejected(code@, door, interval),
    {
        Outcome { accepted: false, code, door, interval, version: None }
    }
}

/// A decision that has been made.
pub struct DecisionView {
    pub key: Seq<char>,
    pub fingerprint: Seq<char>,
    pub outcome: OutcomeView,
}

/// The record of a decision.
pub struct AuditView {
    pub command_key: Seq<char>,
    pub outcome: OutcomeView,
}

/// All that the authority knows: bookings in the order in which they were
/// accepted, and decisions in the order in which they were made.
#[verifier::ext_equal]
pub struct State {
    pub doors: Seq<Door>,
    pub bookings: Seq<Booking>,
    pub decisions: Seq<DecisionView>,
    pub audits: Seq<AuditView>,
    pub next_order: nat,
}

pub open spec fn now_of(command: Command) -> u32 {
    match command {
        Command::Hold { now, .. } => now,
        Command::Confirm { now, .. } => now,
        Command::Cancel { now, .. } => now,
        Command::Reschedule { now, .. } => now,
        Command::Expire { now, .. } => now,
    }
}

/// The identity of a command.
pub open spec fn key_of(command: Command) -> Seq<char> {
    match command {
        Command::Hold { spec, .. } => text::decimal(spec.tenant as nat) + ":"@ + text::decimal(
            spec.request_id as nat,
        ) + ":hold"@,
        Command::Confirm { tenant, request_id, .. } => text::decimal(tenant as nat) + ":"@
            + text::decimal(request_id as nat) + ":confirm"@,
        Command::Cancel { tenant, request_id, .. } => text::decimal(tenant as nat) + ":"@
            + text::decimal(request_id as nat) + ":cancel"@,
        Command::Reschedule { tenant, request_id, expected_version, .. } => text::decimal(
            tenant as nat,
        ) + ":"@ + text::decimal(request_id as nat) + ":reschedule:"@ + text::decimal(
            expected_version as nat,
        ),
        Command::Expire { sweep_id, .. } => "expiry:"@ + text::decimal(sweep_id as nat),
    }
}

pub open spec fn truth(value: bool) -> Seq<char> {
    if value {
        "true"@
    } else {
        "false"@
    }
}

/// What a command asks for, but for the time at which it does.
pub open spec fn payload_of(command: Command) -> Seq<char> {
    match command {
        Command::Hold { spec, .. } => "hold/"@ + text::decimal(spec.tenant as nat) + "/"@
            + text::decimal(spec.request_id as nat) + "/"@ + text::decimal(spec.arrival as nat)
            + "/"@ + text::decimal(spec.duration as nat) + "/"@ + text::decimal(
            spec.pallets as nat,
        ) + "/"@ + text::decimal(spec.height as nat) + "/"@ + truth(spec.refrigerated) + "/"@
            + text::decimal(spec.priority as nat) + "/"@ + text::decimal(spec.lifetime as nat),
        Command::Confirm { tenant, request_id, .. } => "confirm/"@ + text::decimal(tenant as nat)
            + "/"@ + text::decimal(request_id as nat),
        Command::Cancel { tenant, request_id, .. } => "cancel/"@ + text::decimal(tenant as nat)
            + "/"@ + text::decimal(request_id as nat),
        Command::Reschedule {
            tenant,
            request_id,
            expected_version,
            arrival,
            duration,
            ..
        } => "reschedule/"@ + text::decimal(tenant as nat) + "/"@ + text::decimal(
            request_id as nat,
        ) + "/"@ + text::decimal(expected_version as nat) + "/"@ + text::decimal(arrival as nat)
            + "/"@ + text::decimal(duration as nat),
        Command::Expire { sweep_id, now } => "expire/"@ + text::decimal(sweep_id as nat) + "/"@
            + text::decimal(now as nat),
    }
}

/// The decision on a key, if one has been made.
pub open spec fn stored(decisions: Seq<DecisionView>, key: Seq<char>) -> Option<DecisionView>
    decreases decisions.len(),
{
    if decisions.len() == 0 {
        None
    } else if decisions.last().key == key {
        Some(decisions.last())
    } else {
        stored(decisions.drop_last(), key)
    }
}

/// A hold whose time has come.
pub open spec fn due(booking: Booking, now: u32) -> bool {
    booking.status matches Status::Held { expires_at } && expires_at <= now
}

pub open spec fn swept(booking: Booking, now: u32) -> Booking {
    if due(booking, now) {
        Booking { status: Status::Expired, ..booking }
    } else {
        booking
    }
}

/// Bookings once every hold that is due has expired.
pub open spec fn sweep(bookings: Seq<Booking>, now: u32) -> Seq<Booking> {
    bookings.map_values(|booking: Booking| swept(booking, now))
}

pub open spec fn due_count(bookings: Seq<Booking>, now: u32) -> nat {
    bookings.filter(|booking: Booking| due(booking, now)).len()
}

pub open spec fn is_active(status: Status) -> bool {
    status is Held || status is Confirmed
}

/// The booking takes up the interval.
pub open spec fn overlaps(spec: HoldSpec, interval: int) -> bool {
    spec.arrival <= interval < spec.arrival + spec.duration
}

pub open spec fn has_key(booking: Booking, tenant: u16, request_id: u64) -> bool {
    booking.spec.tenant == tenant && booking.spec.request_id == request_id
}

/// The booking stands in the way at a door and interval, unless it is the one
/// that is to be moved.
pub open spec fn occupies(
    booking: Booking,
    exclude: Option<(u16, u64)>,
    door: u16,
    interval: int,
) -> bool {
    &&& exclude != Some((booking.spec.tenant, booking.spec.request_id))
    &&& booking.door == door
    &&& is_active(booking.status)
    &&& overlaps(booking.spec, interval)
}

/// A confirmed booking has the door to itself.
pub open spec fn taken(
    bookings: Seq<Booking>,
    exclude: Option<(u16, u64)>,
    door: u16,
    interval: int,
) -> bool {
    exists|i: int|
        0 <= i < bookings.len() && occupies(#[trigger] bookings[i], exclude, door, interval)
            && bookings[i].status is Confirmed
}

pub open spec fn pallets_at(
    bookings: Seq<Booking>,
    exclude: Option<(u16, u64)>,
    door: u16,
    interval: int,
) -> Seq<nat> {
    bookings.map_values(
        |booking: Booking|
            if occupies(booking, exclude, door, interval) {
                booking.spec.pallets as nat
            } else {
                0
            },
    )
}

/// The pallets that are booked at a door in an interval.
pub open spec fn load(
    bookings: Seq<Booking>,
    exclude: Option<(u16, u64)>,
    door: u16,
    interval: int,
) -> nat {
    seqs::sum(pallets_at(bookings, exclude, door, interval))
}

/// What keeps a booking from an interval at a door.
#[derive(Clone, Copy, PartialEq, Eq, Structural)]
pub enum Conflict {
    Time,
    Capacity,
}

pub open spec fn conflict_at(
    bookings: Seq<Booking>,
    exclude: Option<(u16, u64)>,
    door: Door,
    pallets: u16,
    interval: int,
) -> Option<Conflict> {
    let total = load(bookings, exclude, door.id, interval) + pallets;
    if taken(bookings, exclude, door.id, interval) {
        Some(Conflict::Time)
    } else if (if total > u16::MAX {
        u16::MAX as nat
    } else {
        total as nat
    }) > door.pallet_capacity {
        Some(Conflict::Capacity)
    } else {
        None
    }
}

/// The first of the next `n` intervals in which a booking meets a conflict.
pub open spec fn first_conflict(
    bookings: Seq<Booking>,
    exclude: Option<(u16, u64)>,
    door: Door,
    pallets: u16,
    from: int,
    n: nat,
) -> Option<(Conflict, int)>
    decreases n,
{
    if n == 0 {
        None
    } else {
        match first_conflict(bookings, exclude, door, pallets, from, (n - 1) as nat) {
            Some(found) => Some(found),
            None => match conflict_at(bookings, exclude, door, pallets, from + n - 1) {
                Some(conflict) => Some((conflict, from + n - 1)),
                None => None,
            },
        }
    }
}

pub open spec fn compatible(door: Door, spec: HoldSpec) -> bool {
    door.height >= spec.height && (!spec.refrigerated || door.refrigerated)
}

/// The state of the search for a door among the first `n`.
pub struct Search {
    pub found: Option<u16>,
    pub time: Option<(u16, int)>,
    pub capacity: Option<(u16, int)>,
}

/// A search goes on with one more door.
pub open spec fn tried(
    before: Search,
    door: Door,
    spec: HoldSpec,
    met: Option<(Conflict, int)>,
) -> Search {
    if before.found is Some || !compatible(door, spec) {
        before
    } else {
        match met {
            None => Search { found: Some(door.id), ..before },
            Some((Conflict::Time, interval)) => Search {
                time: match before.time {
                    Some(first) => Some(first),
                    None => Some((door.id, interval)),
                },
                ..before
            },
            Some((Conflict::Capacity, interval)) => Search {
                capacity: match before.capacity {
                    Some(first) => Some(first),
                    None => Some((door.id, interval)),
                },
                ..before
            },
        }
    }
}

pub open spec fn search(
    doors: Seq<Door>,
    bookings: Seq<Booking>,
    exclude: Option<(u16, u64)>,
    spec: HoldSpec,
    n: nat,
) -> Search
    decreases n,
{
    if n == 0 {
        Search { found: None, time: None, capacity: None }
    } else {
        tried(
            search(doors, bookings, exclude, spec, (n - 1) as nat),
            doors[n - 1],
            spec,
            first_conflict(
                bookings,
                exclude,
                doors[n - 1],
                spec.pallets,
                spec.arrival as int,
                spec.duration as nat,
            ),
        )
    }
}

/// Why no door was found: the first time conflict, else the first lack of room,
/// else that no door fits at all.
pub open spec fn refusal(found: Search, spec: HoldSpec) -> OutcomeView {
    match found.time {
        Some((door, interval)) => rejected("time_conflict"@, Some(door), Some(interval as u32)),
        None => match found.capacity {
            Some((door, interval)) => rejected(
                "pallet_capacity"@,
                Some(door),
                Some(interval as u32),
            ),
            None => rejected("no_compatible_door"@, None, Some(spec.arrival)),
        },
    }
}

/// The place of a booking.
pub open spec fn place_of(bookings: Seq<Booking>, tenant: u16, request_id: u64) -> Option<int>
    decreases bookings.len(),
{
    if bookings.len() == 0 {
        None
    } else if has_key(bookings.last(), tenant, request_id) {
        Some(bookings.len() - 1)
    } else {
        place_of(bookings.drop_last(), tenant, request_id)
    }
}

/// Adds a booking, in place of one with its key if there is one.
pub open spec fn put(bookings: Seq<Booking>, booking: Booking) -> Seq<Booking> {
    match place_of(bookings, booking.spec.tenant, booking.spec.request_id) {
        Some(i) => bookings.update(i, booking),
        None => bookings.push(booking),
    }
}

pub open spec fn with_status(bookings: Seq<Booking>, i: int, status: Status) -> Seq<Booking> {
    bookings.update(i, Booking { status, ..bookings[i] })
}

/// What a command changes, and what it is answered.
#[verifier::ext_equal]
pub struct Effect {
    pub bookings: Seq<Booking>,
    pub next_order: nat,
    pub outcome: OutcomeView,
}

pub open spec fn well_timed(spec: HoldSpec) -> bool {
    1 <= spec.duration <= 8 && 1 <= spec.lifetime <= 15
}

pub open spec fn held(
    doors: Seq<Door>,
    bookings: Seq<Booking>,
    next_order: nat,
    spec: HoldSpec,
    now: u32,
) -> Effect {
    let found = search(doors, bookings, None, spec, doors.len());
    if !well_timed(spec) {
        Effect {
            bookings,
            next_order,
            outcome: rejected("invalid_request"@, None, Some(spec.arrival)),
        }
    } else {
        match found.found {
            None => Effect { bookings, next_order, outcome: refusal(found, spec) },
            Some(door) => {
                let booking = Booking {
                    spec,
                    door,
                    version: 0,
                    accepted_order: next_order as u64,
                    status: Status::Held { expires_at: (now + spec.lifetime) as u32 },
                };
                Effect {
                    bookings: put(bookings, booking),
                    next_order: next_order + 1,
                    outcome: accepted("hold_accepted"@, booking),
                }
            },
        }
    }
}

/// The first of the next `n` intervals in which another confirmed booking has the
/// door.
pub open spec fn first_taken(
    bookings: Seq<Booking>,
    exclude: Option<(u16, u64)>,
    door: u16,
    from: int,
    n: nat,
) -> Option<int>
    decreases n,
{
    if n == 0 {
        None
    } else {
        match first_taken(bookings, exclude, door, from, (n - 1) as nat) {
            Some(found) => Some(found),
            None => if taken(bookings, exclude, door, from + n - 1) {
                Some(from + n - 1)
            } else {
                None
            },
        }
    }
}

pub open spec fn confirmed(
    bookings: Seq<Booking>,
    next_order: nat,
    tenant: u16,
    request_id: u64,
    now: u32,
) -> Effect {
    match place_of(bookings, tenant, request_id) {
        None => Effect {
            bookings,
            next_order,
            outcome: rejected("booking_not_found"@, None, None),
        },
        Some(i) => {
            let existing = bookings[i];
            let (door, arrival) = (Some(existing.door), Some(existing.spec.arrival));
            match existing.status {
                Status::Held { expires_at } => if expires_at <= now {
                    Effect {
                        bookings: with_status(bookings, i, Status::Expired),
                        next_order,
                        outcome: rejected("expired_hold"@, door, arrival),
                    }
                } else {
                    match first_taken(
                        bookings,
                        Some((tenant, request_id)),
                        existing.door,
                        existing.spec.arrival as int,
                        existing.spec.duration as nat,
                    ) {
                        Some(interval) => Effect {
                            bookings,
                            next_order,
                            outcome: rejected("time_conflict"@, door, Some(interval as u32)),
                        },
                        None => Effect {
                            bookings: with_status(bookings, i, Status::Confirmed),
                            next_order,
                            outcome: accepted("booking_confirmed"@, existing),
                        },
                    }
                },
                Status::Confirmed => Effect {
                    bookings,
                    next_order,
                    outcome: accepted("booking_confirmed"@, existing),
                },
                Status::Expired => Effect {
                    bookings,
                    next_order,
                    outcome: rejected("expired_hold"@, door, arrival),
                },
                Status::Cancelled => Effect {
                    bookings,
                    next_order,
                    outcome: rejected("booking_cancelled"@, door, arrival),
                },
            }
        },
    }
}

pub open spec fn cancelled(
    bookings: Seq<Booking>,
    next_order: nat,
    tenant: u16,
    request_id: u64,
    now: u32,
) -> Effect {
    match place_of(bookings, tenant, request_id) {
        None => Effect {
            bookings,
            next_order,
            outcome: rejected("booking_not_found"@, None, None),
        },
        Some(i) => {
            let existing = bookings[i];
            let (door, arrival) = (Some(existing.door), Some(existing.spec.arrival));
            if due(existing, now) {
                Effect {
                    bookings: with_status(bookings, i, Status::Expired),
                    next_order,
                    outcome: rejected("expired_hold"@, door, arrival),
                }
            } else if !is_active(existing.status) {
                Effect {
                    bookings,
                    next_order,
                    outcome: rejected("booking_inactive"@, door, arrival),
                }
            } else {
                Effect {
                    bookings: with_status(bookings, i, Status::Cancelled),
                    next_order,
                    outcome: accepted("booking_cancelled"@, existing),
                }
            }
        },
    }
}

pub open spec fn rescheduled(
    doors: Seq<Door>,
    bookings: Seq<Booking>,
    next_order: nat,
    tenant: u16,
    request_id: u64,
    expected_version: u32,
    arrival: u32,
    duration: u8,
    now: u32,
) -> Effect {
    match place_of(bookings, tenant, request_id) {
        None => Effect {
            bookings,
            next_order,
            outcome: rejected("booking_not_found"@, None, Some(arrival)),
        },
        Some(i) => {
            let existing = bookings[i];
            let door = Some(existing.door);
            let proposed = HoldSpec { arrival, duration, ..existing.spec };
            let found = search(
                doors,
                bookings,
                Some((tenant, request_id)),
                proposed,
                doors.len(),
            );
            if !(1 <= duration <= 8) {
                Effect {
                    bookings,
                    next_order,
                    outcome: rejected("invalid_request"@, door, Some(arrival)),
                }
            } else if existing.version != expected_version {
                Effect {
                    bookings,
                    next_order,
                    outcome: rejected("stale_reschedule_version"@, door, Some(arrival)),
                }
            } else if due(existing, now) {
                Effect {
                    bookings: with_status(bookings, i, Status::Expired),
                    next_order,
                    outcome: rejected("expired_hold"@, door, Some(existing.spec.arrival)),
                }
            } else if !is_active(existing.status) {
                Effect {
                    bookings,
                    next_order,
                    outcome: rejected("booking_inactive"@, door, Some(arrival)),
                }
            } else {
                match found.found {
                    None => Effect { bookings, next_order, outcome: refusal(found, proposed) },
                    Some(door) => {
                        let moved = Booking {
                            spec: proposed,
                            door,
                            version: (existing.version + 1) as u32,
                            ..existing
                        };
                        Effect {
                            bookings: bookings.update(i, moved),
                            next_order,
                            outcome: accepted("booking_rescheduled"@, moved),
                        }
                    },
                }
            }
        },
    }
}

/// What a new command does, once holds that are due have expired.
pub open spec fn effect_of(state: State, command: Command) -> Effect {
    let bookings = sweep(state.bookings, now_of(command));
    match command {
        Command::Hold { spec, now } => held(state.doors, bookings, state.next_order, spec, now),
        Command::Confirm { tenant, request_id, now } => confirmed(
            bookings,
            state.next_order,
            tenant,
            request_id,
            now,
        ),
        Command::Cancel { tenant, request_id, now } => cancelled(
            bookings,
            state.next_order,
            tenant,
            request_id,
            now,
        ),
        Command::Reschedule {
            tenant,
            request_id,
            expected_version,
            arrival,
            duration,
            now,
        } => rescheduled(
            state.doors,
            bookings,
            state.next_order,
            tenant,
            request_id,
            expected_version,
            arrival,
            duration,
            now,
        ),
        Command::Expire { now, .. } => Effect {
            bookings,
            next_order: state.next_order,
            outcome: OutcomeView {
                accepted: true,
                code: "expiry_sweep_applied"@,
                door: None,
                interval: Some(due_count(state.bookings, now) as u32),
                version: None,
            },
        },
    }
}

/// What the authority answers to a command.
pub open spec fn answer(state: State, command: Command) -> OutcomeView {
    match stored(state.decisions, key_of(command)) {
        Some(decision) => if decision.fingerprint == payload_of(command) {
            decision.outcome
        } else {
            rejected("request_id_payload_mismatch"@, None, None)
        },
        None => effect_of(state, command).outcome,
    }
}

/// What the authority knows after a command.
pub open spec fn after(state: State, command: Command) -> State {
    match stored(state.decisions, key_of(command)) {
        Some(_) => state,
        None => {
            let effect = effect_of(state, command);
            State {
                doors: state.doors,
                bookings: effect.bookings,
                decisions: state.decisions.push(
                    DecisionView {
                        key: key_of(command),
                        fingerprint: payload_of(command),
                        outcome: effect.outcome,
                    },
                ),
                audits: state.audits.push(
                    AuditView { command_key: key_of(command), outcome: effect.outcome },
                ),
                next_order: effect.next_order,
            }
        },
    }
}

/// Doors are numbered by their place, bookings end within 32 bits, and every
/// decision has its audit.
pub open spec fn consistent(state: State) -> bool {
    &&& state.doors.len() <= u16::MAX
    &&& forall|i: int| 0 <= i < state.doors.len() ==> (#[trigger] state.doors[i]).id == i
    &&& forall|i: int|
        0 <= i < state.bookings.len() ==> (#[trigger] state.bookings[i]).spec.arrival
            + state.bookings[i].spec.duration <= u32::MAX
    &&& state.next_order <= state.audits.len()
    &&& state.audits.len() == state.decisions.len()
    &&& forall|i: int|
        0 <= i < state.audits.len() ==> (#[trigger] state.audits[i]).command_key
            == state.decisions[i].key && state.audits[i].outcome == state.decisions[i].outcome
}

/// Some door could take the truck, were it free.
pub open spec fn some_compatible(doors: Seq<Door>, spec: HoldSpec) -> bool {
    exists|d: int| 0 <= d < doors.len() && compatible(#[trigger] doors[d], spec)
}

/// The intervals that a search goes through are numbered within 32 bits.
pub open spec fn searchable(doors: Seq<Door>, spec: HoldSpec) -> bool {
    some_compatible(doors, spec) ==> spec.arrival + spec.duration <= u32::MAX
}

/// A booking that is moved gets a door looked for.
pub open spec fn movable(existing: Booking, expected_version: u32, duration: u8, now: u32) -> bool {
    &&& 1 <= duration <= 8
    &&& existing.version == expected_version
    &&& !due(existing, now)
    &&& is_active(existing.status)
}

/// A hold that is granted is numbered and ends within the numbers of the machine.
pub open spec fn hold_fits(
    doors: Seq<Door>,
    bookings: Seq<Booking>,
    next_order: nat,
    spec: HoldSpec,
    now: u32,
) -> bool {
    well_timed(spec) ==> {
        &&& searchable(doors, spec)
        &&& search(doors, bookings, None, spec, doors.len()).found is Some ==> now + spec.lifetime
            <= u32::MAX && next_order < u64::MAX
    }
}

/// A booking that is moved is numbered within the numbers of the machine.
pub open spec fn reschedule_fits(
    doors: Seq<Door>,
    bookings: Seq<Booking>,
    tenant: u16,
    request_id: u64,
    expected_version: u32,
    arrival: u32,
    duration: u8,
    now: u32,
) -> bool {
    match place_of(bookings, tenant, request_id) {
        Some(i) => movable(bookings[i], expected_version, duration, now) ==> {
            let proposed = HoldSpec { arrival, duration, ..bookings[i].spec };
            let exclude = Some((tenant, request_id));
            &&& searchable(doors, proposed)
            &&& search(doors, bookings, exclude, proposed, doors.len()).found is Some
                ==> expected_version < u32::MAX
        },
        None => true,
    }
}

/// The numbers that the command, if it is new, makes the authority form are
/// within those of the machine.
pub open spec fn fits(state: State, command: Command) -> bool {
    let bookings = sweep(state.bookings, now_of(command));
    match command {
        Command::Hold { spec, now } => hold_fits(
            state.doors,
            bookings,
            state.next_order,
            spec,
            now,
        ),
        Command::Reschedule {
            tenant,
            request_id,
            expected_version,
            arrival,
            duration,
            now,
        } => reschedule_fits(
            state.doors,
            bookings,
            tenant,
            request_id,
            expected_version,
            arrival,
            duration,
            now,
        ),
        Command::Expire { now, .. } => due_count(state.bookings, now) <= u32::MAX,
        _ => true,
    }
}

} // verus!
