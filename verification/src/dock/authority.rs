//! The authority that decides on commands, one after the other.

use vstd::prelude::*;
use crate::dock::model;
use crate::dock::model::{
    AuditView, Booking, Command, Conflict, DecisionView, Door, Effect, HoldSpec, Outcome, State,
    Status, DOOR_COUNT,
};
use crate::seqs;
use crate::text;
use crate::text::{push_decimal, same_text};

verus! {

#[derive(Clone, Debug)]
pub struct StoredDecision {
    pub key: String,
    pub fingerprint: String,
    pub outcome: Outcome,
}

impl View for StoredDecision {
    type V = DecisionView;

    open spec fn view(&self) -> DecisionView {
        DecisionView {
            key: self.key@,
            fingerprint: self.fingerprint@,
            outcome: self.outcome@,
        }
    }
}

#[derive(Clone, Debug)]
pub struct Audit {
    pub command_key: String,
    pub outcome: Outcome,
}

impl View for Audit {
    type V = AuditView;

    open spec fn view(&self) -> AuditView {
        AuditView { command_key: self.command_key@, outcome: self.outcome@ }
    }
}

#[derive(Clone, Debug)]
pub struct Authority {
    doors: Vec<Door>,
    bookings: Vec<Booking>,
    decisions: Vec<StoredDecision>,
    audits: Vec<Audit>,
    next_order: u64,
}

impl View for Authority {
    type V = State;

    closed spec fn view(&self) -> State {
        State {
            doors: self.doors@,
            bookings: self.bookings@,
            decisions: self.decisions@.map_values(|decision: StoredDecision| decision@),
            audits: self.audits@.map_values(|audit: Audit| audit@),
            next_order: self.next_order as nat,
        }
    }
}

/// Door `id` of the model warehouse.
pub open spec fn warehouse_door(id: int) -> Door {
    Door {
        id: id as u16,
        height: if id % 3 == 0 {
            1
        } else if id % 3 == 1 {
            2
        } else {
            3
        },
        refrigerated: id % 4 == 0,
        pallet_capacity: (18 + (id % 5) * 4) as u16,
    }
}

pub open spec fn fresh(doors: Seq<Door>) -> State {
    State {
        doors,
        bookings: Seq::empty(),
        decisions: Seq::empty(),
        audits: Seq::empty(),
        next_order: 0,
    }
}

fn push_key(out: &mut String, tenant: u16, request_id: u64)
    ensures
        final(out)@ == old(out)@ + text::decimal(tenant as nat) + ":"@ + text::decimal(
            request_id as nat,
        ),
{
    push_decimal(out, tenant as u64);
    out.append(":");
    push_decimal(out, request_id);
}

pub fn command_now(command: &Command) -> (now: u32)
    ensures
        now == model::now_of(*command),
{
    match command {
        Command::Hold { now, .. } => *now,
        Command::Confirm { now, .. } => *now,
        Command::Cancel { now, .. } => *now,
        Command::Reschedule { now, .. } => *now,
        Command::Expire { now, .. } => *now,
    }
}

/// The identity of a command.
pub fn command_key(command: &Command) -> (key: String)
    ensures
        key@ == model::key_of(*command),
{
    let mut key = String::new();
    match command {
        Command::Hold { spec, .. } => {
            push_key(&mut key, spec.tenant, spec.request_id);
            key.append(":hold");
        },
        Command::Confirm { tenant, request_id, .. } => {
            push_key(&mut key, *tenant, *request_id);
            key.append(":confirm");
        },
        Command::Cancel { tenant, request_id, .. } => {
            push_key(&mut key, *tenant, *request_id);
            key.append(":cancel");
        },
        Command::Reschedule { tenant, request_id, expected_version, .. } => {
            push_key(&mut key, *tenant, *request_id);
            key.append(":reschedule:");
            push_decimal(&mut key, *expected_version as u64);
        },
        Command::Expire { sweep_id, .. } => {
            key.append("expiry:");
            push_decimal(&mut key, *sweep_id);
        },
    }
    assert(key@ =~= model::key_of(*command));
    key
}

fn push_field(out: &mut String, value: u64)
    ensures
        final(out)@ == old(out)@ + "/"@ + text::decimal(value as nat),
{
    out.append("/");
    push_decimal(out, value);
}

/// What a command asks for, but for the time at which it does.
pub fn fingerprint(command: &Command) -> (payload: String)
    ensures
        payload@ == model::payload_of(*command),
{
    match command {
        Command::Hold { spec, .. } => {
            let mut payload = "hold/".to_owned();
            push_decimal(&mut payload, spec.tenant as u64);
            push_field(&mut payload, spec.request_id);
            push_field(&mut payload, spec.arrival as u64);
            push_field(&mut payload, spec.duration as u64);
            push_field(&mut payload, spec.pallets as u64);
            push_field(&mut payload, spec.height as u64);
            payload.append("/");
            payload.append(
                if spec.refrigerated {
                    "true"
                } else {
                    "false"
                },
            );
            push_field(&mut payload, spec.priority as u64);
            push_field(&mut payload, spec.lifetime as u64);
            payload
        },
        Command::Confirm { tenant, request_id, .. } => {
            let mut payload = "confirm/".to_owned();
            push_decimal(&mut payload, *tenant as u64);
            push_field(&mut payload, *request_id);
            payload
        },
        Command::Cancel { tenant, request_id, .. } => {
            let mut payload = "cancel/".to_owned();
            push_decimal(&mut payload, *tenant as u64);
            push_field(&mut payload, *request_id);
            payload
        },
        Command::Reschedule { tenant, request_id, expected_version, arrival, duration, .. } => {
            let mut payload = "reschedule/".to_owned();
            push_decimal(&mut payload, *tenant as u64);
            push_field(&mut payload, *request_id);
            push_field(&mut payload, *expected_version as u64);
            push_field(&mut payload, *arrival as u64);
            push_field(&mut payload, *duration as u64);
            payload
        },
        Command::Expire { sweep_id, now } => {
            let mut payload = "expire/".to_owned();
            push_decimal(&mut payload, *sweep_id);
            push_field(&mut payload, *now as u64);
            payload
        },
    }
}

/// The place of a booking.
fn find_booking(bookings: &Vec<Booking>, tenant: u16, request_id: u64) -> (place: Option<usize>)
    ensures
        match place {
            Some(i) => i < bookings@.len() && model::place_of(bookings@, tenant, request_id)
                == Some(i as int),
            None => model::place_of(bookings@, tenant, request_id) is None,
        },
{
    let mut n: usize = bookings.len();
    assert(bookings@.take(n as int) =~= bookings@);
    while n > 0
        invariant
            n <= bookings@.len(),
            model::place_of(bookings@.take(n as int), tenant, request_id) == model::place_of(
                bookings@,
                tenant,
                request_id,
            ),
        decreases n,
    {
        let booking = &bookings[n - 1];
        assert(bookings@.take(n as int).last() == booking);
        assert(bookings@.take(n as int).drop_last() =~= bookings@.take(n - 1));
        if booking.spec.tenant == tenant && booking.spec.request_id == request_id {
            return Some(n - 1);
        }
        n = n - 1;
    }
    None
}

pub fn occupies(booking: &Booking, exclude: Option<(u16, u64)>, door: u16, interval: u32) -> (result:
    bool)
    requires
        booking.spec.arrival + booking.spec.duration <= u32::MAX,
    ensures
        result == model::occupies(*booking, exclude, door, interval as int),
{
    let excluded = match exclude {
        Some((tenant, request_id)) => tenant == booking.spec.tenant && request_id
            == booking.spec.request_id,
        None => false,
    };
    let active = match booking.status {
        Status::Held { .. } | Status::Confirmed => true,
        _ => false,
    };
    !excluded && booking.door == door && active && interval >= booking.spec.arrival && interval
        < booking.spec.arrival + booking.spec.duration as u32
}

/// Bookings that end within 32 bits.
pub open spec fn bounded(bookings: Seq<Booking>) -> bool {
    forall|i: int|
        0 <= i < bookings.len() ==> (#[trigger] bookings[i]).spec.arrival
            + bookings[i].spec.duration <= u32::MAX
}

/// What keeps a booking of some pallets from an interval at a door.
fn find_conflict(
    bookings: &Vec<Booking>,
    exclude: Option<(u16, u64)>,
    door: &Door,
    pallets: u16,
    interval: u32,
) -> (conflict: Option<Conflict>)
    requires
        bounded(bookings@),
    ensures
        conflict == model::conflict_at(bookings@, exclude, *door, pallets, interval as int),
{
    let ghost terms = model::pallets_at(bookings@, exclude, door.id, interval as int);
    let mut used: u16 = 0;
    let mut i: usize = 0;
    assert(terms.take(0) =~= Seq::<nat>::empty());
    while i < bookings.len()
        invariant
            i <= bookings@.len(),
            bounded(bookings@),
            terms == model::pallets_at(bookings@, exclude, door.id, interval as int),
            used == if seqs::sum(terms.take(i as int)) > u16::MAX {
                u16::MAX as nat
            } else {
                seqs::sum(terms.take(i as int))
            },
            forall|j: int|
                0 <= j < i ==> !(model::occupies(
                    #[trigger] bookings@[j],
                    exclude,
                    door.id,
                    interval as int,
                ) && bookings@[j].status is Confirmed),
        decreases bookings@.len() - i,
    {
        let booking = &bookings[i];
        proof {
            seqs::lemma_sum_take(terms, i as int);
        }
        if occupies(booking, exclude, door.id, interval) {
            if let Status::Confirmed = booking.status {
                assert(model::taken(bookings@, exclude, door.id, interval as int)) by {
                    assert(model::occupies(bookings@[i as int], exclude, door.id, interval as int));
                }
                return Some(Conflict::Time);
            }
            used = used.saturating_add(booking.spec.pallets);
        }
        i = i + 1;
    }
    assert(terms.take(terms.len() as int) =~= terms);
    if used.saturating_add(pallets) > door.pallet_capacity {
        Some(Conflict::Capacity)
    } else {
        None
    }
}

/// The first interval in which a booking would meet a conflict at a door.
fn find_first_conflict(
    bookings: &Vec<Booking>,
    exclude: Option<(u16, u64)>,
    door: &Door,
    spec: &HoldSpec,
) -> (met: Option<(Conflict, u32)>)
    requires
        bounded(bookings@),
        spec.arrival + spec.duration <= u32::MAX,
    ensures
        match met {
            Some((conflict, interval)) => model::first_conflict(
                bookings@,
                exclude,
                *door,
                spec.pallets,
                spec.arrival as int,
                spec.duration as nat,
            ) == Some((conflict, interval as int)),
            None => model::first_conflict(
                bookings@,
                exclude,
                *door,
                spec.pallets,
                spec.arrival as int,
                spec.duration as nat,
            ) is None,
        },
{
    let count: u32 = spec.duration as u32;
    let mut n: u32 = 0;
    while n < count
        invariant
            n <= count == spec.duration,
            bounded(bookings@),
            spec.arrival + spec.duration <= u32::MAX,
            model::first_conflict(
                bookings@,
                exclude,
                *door,
                spec.pallets,
                spec.arrival as int,
                n as nat,
            ) is None,
        decreases count - n,
    {
        let interval: u32 = spec.arrival + n;
        if let Some(conflict) = find_conflict(bookings, exclude, door, spec.pallets, interval) {
            proof {
                lemma_conflict_stays(
                    bookings@,
                    exclude,
                    *door,
                    spec.pallets,
                    spec.arrival as int,
                    (n + 1) as nat,
                    spec.duration as nat,
                );
            }
            return Some((conflict, interval));
        }
        n = n + 1;
    }
    None
}

proof fn lemma_conflict_stays(
    bookings: Seq<Booking>,
    exclude: Option<(u16, u64)>,
    door: Door,
    pallets: u16,
    from: int,
    n: nat,
    m: nat,
)
    requires
        n <= m,
        model::first_conflict(bookings, exclude, door, pallets, from, n) is Some,
    ensures
        model::first_conflict(bookings, exclude, door, pallets, from, m) == model::first_conflict(
            bookings,
            exclude,
            door,
            pallets,
            from,
            n,
        ),
    decreases m,
{
    if n < m {
        lemma_conflict_stays(bookings, exclude, door, pallets, from, n, (m - 1) as nat);
    }
}

proof fn lemma_search_stays(
    doors: Seq<Door>,
    bookings: Seq<Booking>,
    exclude: Option<(u16, u64)>,
    spec: HoldSpec,
    n: nat,
    m: nat,
)
    requires
        n <= m,
        model::search(doors, bookings, exclude, spec, n).found is Some,
    ensures
        model::search(doors, bookings, exclude, spec, m) == model::search(
            doors,
            bookings,
            exclude,
            spec,
            n,
        ),
    decreases m,
{
    if n < m {
        lemma_search_stays(doors, bookings, exclude, spec, n, (m - 1) as nat);
    }
}

/// The first door that takes a booking, or why none does.
fn choose_door(
    doors: &Vec<Door>,
    bookings: &Vec<Booking>,
    exclude: Option<(u16, u64)>,
    spec: &HoldSpec,
) -> (choice: Result<u16, Outcome>)
    requires
        bounded(bookings@),
        model::searchable(doors@, *spec),
    ensures
        ({
            let found = model::search(doors@, bookings@, exclude, *spec, doors@.len());
            match choice {
                Ok(door) => found.found == Some(door),
                Err(outcome) => found.found is None && outcome@ == model::refusal(found, *spec),
            }
        }),
{
    let mut first_time_conflict: Option<(u16, u32)> = None;
    let mut first_capacity_conflict: Option<(u16, u32)> = None;
    let mut n: usize = 0;
    while n < doors.len()
        invariant
            n <= doors@.len(),
            bounded(bookings@),
            model::searchable(doors@, *spec),
            ({
                let so_far = model::search(doors@, bookings@, exclude, *spec, n as nat);
                &&& so_far.found is None
                &&& match first_time_conflict {
                    Some((door, interval)) => so_far.time == Some((door, interval as int)),
                    None => so_far.time is None,
                }
                &&& match first_capacity_conflict {
                    Some((door, interval)) => so_far.capacity == Some((door, interval as int)),
                    None => so_far.capacity is None,
                }
            }),
        decreases doors@.len() - n,
    {
        let door = &doors[n];
        if door.height >= spec.height && (!spec.refrigerated || door.refrigerated) {
            assert(model::compatible(doors@[n as int], *spec));
            match find_first_conflict(bookings, exclude, door, spec) {
                None => {
                    proof {
                        lemma_search_stays(
                            doors@,
                            bookings@,
                            exclude,
                            *spec,
                            (n + 1) as nat,
                            doors@.len(),
                        );
                    }
                    return Ok(door.id);
                },
                Some((Conflict::Time, interval)) => {
                    if first_time_conflict.is_none() {
                        first_time_conflict = Some((door.id, interval));
                    }
                },
                Some((Conflict::Capacity, interval)) => {
                    if first_capacity_conflict.is_none() {
                        first_capacity_conflict = Some((door.id, interval));
                    }
                },
            }
        }
        n = n + 1;
    }
    if let Some((door, interval)) = first_time_conflict {
        Err(Outcome::rejected("time_conflict", Some(door), Some(interval)))
    } else if let Some((door, interval)) = first_capacity_conflict {
        Err(Outcome::rejected("pallet_capacity", Some(door), Some(interval)))
    } else {
        Err(Outcome::rejected("no_compatible_door", None, Some(spec.arrival)))
    }
}

/// Whether the intervals that a search goes through are numbered within 32 bits.
fn is_searchable(doors: &Vec<Door>, spec: &HoldSpec) -> (result: bool)
    ensures
        result == model::searchable(doors@, *spec),
{
    if spec.arrival.checked_add(spec.duration as u32).is_some() {
        return true;
    }
    let mut n: usize = 0;
    while n < doors.len()
        invariant
            n <= doors@.len(),
            spec.arrival + spec.duration > u32::MAX,
            forall|d: int| 0 <= d < n ==> !model::compatible(#[trigger] doors@[d], *spec),
        decreases doors@.len() - n,
    {
        let door = &doors[n];
        if door.height >= spec.height && (!spec.refrigerated || door.refrigerated) {
            assert(model::compatible(doors@[n as int], *spec));
            return false;
        }
        n = n + 1;
    }
    true
}

/// The first interval of a booking in which another confirmed one has its door.
fn find_taken(bookings: &Vec<Booking>, booking: &Booking) -> (interval: Option<u32>)
    requires
        bounded(bookings@),
        booking.spec.arrival + booking.spec.duration <= u32::MAX,
    ensures
        ({
            let found = model::first_taken(
                bookings@,
                Some((booking.spec.tenant, booking.spec.request_id)),
                booking.door,
                booking.spec.arrival as int,
                booking.spec.duration as nat,
            );
            match interval {
                Some(interval) => found == Some(interval as int),
                None => found is None,
            }
        }),
{
    let exclude = Some((booking.spec.tenant, booking.spec.request_id));
    let ghost from = booking.spec.arrival as int;
    let count: u32 = booking.spec.duration as u32;
    let mut n: u32 = 0;
    while n < count
        invariant
            n <= count == booking.spec.duration,
            bounded(bookings@),
            from == booking.spec.arrival,
            exclude == Some((booking.spec.tenant, booking.spec.request_id)),
            booking.spec.arrival + booking.spec.duration <= u32::MAX,
            model::first_taken(bookings@, exclude, booking.door, from, n as nat) is None,
        decreases count - n,
    {
        let interval: u32 = booking.spec.arrival + n;
        if is_taken(bookings, exclude, booking.door, interval) {
            proof {
                lemma_taken_stays(
                    bookings@,
                    exclude,
                    booking.door,
                    from,
                    (n + 1) as nat,
                    count as nat,
                );
            }
            return Some(interval);
        }
        n = n + 1;
    }
    None
}

proof fn lemma_taken_stays(
    bookings: Seq<Booking>,
    exclude: Option<(u16, u64)>,
    door: u16,
    from: int,
    n: nat,
    m: nat,
)
    requires
        n <= m,
        model::first_taken(bookings, exclude, door, from, n) is Some,
    ensures
        model::first_taken(bookings, exclude, door, from, m) == model::first_taken(
            bookings,
            exclude,
            door,
            from,
            n,
        ),
    decreases m,
{
    if n < m {
        lemma_taken_stays(bookings, exclude, door, from, n, (m - 1) as nat);
    }
}

fn is_taken(bookings: &Vec<Booking>, exclude: Option<(u16, u64)>, door: u16, interval: u32) -> (result:
    bool)
    requires
        bounded(bookings@),
    ensures
        result == model::taken(bookings@, exclude, door, interval as int),
{
    let mut i: usize = 0;
    while i < bookings.len()
        invariant
            i <= bookings@.len(),
            bounded(bookings@),
            forall|j: int|
                0 <= j < i ==> !(model::occupies(
                    #[trigger] bookings@[j],
                    exclude,
                    door,
                    interval as int,
                ) && bookings@[j].status is Confirmed),
        decreases bookings@.len() - i,
    {
        let booking = &bookings[i];
        if occupies(booking, exclude, door, interval) {
            if let Status::Confirmed = booking.status {
                assert(model::occupies(bookings@[i as int], exclude, door, interval as int));
                return true;
            }
        }
        i = i + 1;
    }
    false
}

/// Expires the holds whose time has come, and counts them.
fn expire_due(bookings: &mut Vec<Booking>, now: u32) -> (count: usize)
    ensures
        final(bookings)@ == model::sweep(old(bookings)@, now),
        count == model::due_count(old(bookings)@, now),
{
    let ghost before = bookings@;
    let ghost is_due = |booking: Booking| model::due(booking, now);
    let mut count: usize = 0;
    let mut i: usize = 0;
    proof {
        reveal(Seq::filter);
        assert(before.take(0).filter(is_due).len() == 0);
    }
    while i < bookings.len()
        invariant
            i <= bookings@.len() == before.len(),
            is_due == |booking: Booking| model::due(booking, now),
            count == before.take(i as int).filter(is_due).len(),
            count <= i,
            forall|j: int| 0 <= j < i ==> #[trigger] bookings@[j] == model::swept(before[j], now),
            forall|j: int| i <= j < before.len() ==> #[trigger] bookings@[j] == before[j],
        decreases bookings@.len() - i,
    {
        let booking = bookings[i];
        proof {
            reveal(Seq::filter);
            assert(before.take(i + 1).drop_last() =~= before.take(i as int));
        }
        if let Status::Held { expires_at } = booking.status {
            if expires_at <= now {
                bookings.set(i, Booking { status: Status::Expired, ..booking });
                count = count + 1;
            }
        }
        i = i + 1;
    }
    assert(before.take(before.len() as int) =~= before);
    assert(bookings@ =~= model::sweep(before, now));
    count
}

/// Adds a booking, in place of one with its key if there is one.
fn put_booking(bookings: &mut Vec<Booking>, booking: Booking)
    ensures
        final(bookings)@ == model::put(old(bookings)@, booking),
{
    match find_booking(bookings, booking.spec.tenant, booking.spec.request_id) {
        Some(i) => {
            bookings.set(i, booking);
        },
        None => {
            bookings.push(booking);
        },
    }
}

fn hold(
    doors: &Vec<Door>,
    bookings: &mut Vec<Booking>,
    next_order: &mut u64,
    spec: HoldSpec,
    now: u32,
) -> (outcome: Outcome)
    requires
        bounded(old(bookings)@),
        model::hold_fits(doors@, old(bookings)@, *old(next_order) as nat, spec, now),
    ensures
        (Effect {
            bookings: final(bookings)@,
            next_order: *final(next_order) as nat,
            outcome: outcome@,
        }) == model::held(doors@, old(bookings)@, *old(next_order) as nat, spec, now),
{
    if spec.duration == 0 || spec.duration > 8 || spec.lifetime == 0 || spec.lifetime > 15 {
        return Outcome::rejected("invalid_request", None, Some(spec.arrival));
    }
    match choose_door(doors, bookings, None, &spec) {
        Err(rejection) => rejection,
        Ok(door) => {
            let order: u64 = *next_order;
            *next_order = order + 1;
            let booking = Booking {
                spec,
                door,
                version: 0,
                accepted_order: order,
                status: Status::Held { expires_at: now + spec.lifetime },
            };
            put_booking(bookings, booking);
            Outcome::accepted("hold_accepted", &booking)
        },
    }
}

fn confirm(bookings: &mut Vec<Booking>, tenant: u16, request_id: u64, now: u32, Ghost(
    next_order,
): Ghost<nat>) -> (outcome: Outcome)
    requires
        bounded(old(bookings)@),
    ensures
        (Effect { bookings: final(bookings)@, next_order, outcome: outcome@ }) == model::confirmed(
            old(bookings)@,
            next_order,
            tenant,
            request_id,
            now,
        ),
{
    let i = match find_booking(bookings, tenant, request_id) {
        Some(i) => i,
        None => {
            return Outcome::rejected("booking_not_found", None, None);
        },
    };
    proof {
        lemma_place(bookings@, tenant, request_id);
    }
    let existing = bookings[i];
    let (door, arrival) = (Some(existing.door), Some(existing.spec.arrival));
    match existing.status {
        Status::Held { expires_at } => {
            if expires_at <= now {
                bookings.set(i, Booking { status: Status::Expired, ..existing });
                return Outcome::rejected("expired_hold", door, arrival);
            }
            if let Some(interval) = find_taken(bookings, &existing) {
                return Outcome::rejected("time_conflict", door, Some(interval));
            }
            bookings.set(i, Booking { status: Status::Confirmed, ..existing });
            Outcome::accepted("booking_confirmed", &existing)
        },
        Status::Confirmed => Outcome::accepted("booking_confirmed", &existing),
        Status::Expired => Outcome::rejected("expired_hold", door, arrival),
        Status::Cancelled => Outcome::rejected("booking_cancelled", door, arrival),
    }
}

/// The booking that was found has the key that was looked for.
pub proof fn lemma_place(bookings: Seq<Booking>, tenant: u16, request_id: u64)
    ensures
        match model::place_of(bookings, tenant, request_id) {
            Some(i) => 0 <= i < bookings.len() && model::has_key(bookings[i], tenant, request_id),
            None => forall|i: int|
                0 <= i < bookings.len() ==> !model::has_key(
                    #[trigger] bookings[i],
                    tenant,
                    request_id,
                ),
        },
    decreases bookings.len(),
{
    if bookings.len() > 0 && !model::has_key(bookings.last(), tenant, request_id) {
        lemma_place(bookings.drop_last(), tenant, request_id);
        if model::place_of(bookings, tenant, request_id) is None {
            assert forall|i: int| 0 <= i < bookings.len() implies !model::has_key(
                #[trigger] bookings[i],
                tenant,
                request_id,
            ) by {
                if i < bookings.len() - 1 {
                    assert(bookings.drop_last()[i] == bookings[i]);
                }
            }
        }
    }
}

fn cancel(bookings: &mut Vec<Booking>, tenant: u16, request_id: u64, now: u32, Ghost(
    next_order,
): Ghost<nat>) -> (outcome: Outcome)
    ensures
        (Effect { bookings: final(bookings)@, next_order, outcome: outcome@ }) == model::cancelled(
            old(bookings)@,
            next_order,
            tenant,
            request_id,
            now,
        ),
{
    let i = match find_booking(bookings, tenant, request_id) {
        Some(i) => i,
        None => {
            return Outcome::rejected("booking_not_found", None, None);
        },
    };
    let existing = bookings[i];
    let (door, arrival) = (Some(existing.door), Some(existing.spec.arrival));
    match existing.status {
        Status::Held { expires_at } => {
            if expires_at <= now {
                bookings.set(i, Booking { status: Status::Expired, ..existing });
                return Outcome::rejected("expired_hold", door, arrival);
            }
        },
        Status::Confirmed => {},
        _ => {
            return Outcome::rejected("booking_inactive", door, arrival);
        },
    }
    bookings.set(i, Booking { status: Status::Cancelled, ..existing });
    Outcome::accepted("booking_cancelled", &existing)
}

fn reschedule(
    doors: &Vec<Door>,
    bookings: &mut Vec<Booking>,
    tenant: u16,
    request_id: u64,
    expected_version: u32,
    arrival: u32,
    duration: u8,
    now: u32,
    Ghost(next_order): Ghost<nat>,
) -> (outcome: Outcome)
    requires
        bounded(old(bookings)@),
        model::reschedule_fits(
            doors@,
            old(bookings)@,
            tenant,
            request_id,
            expected_version,
            arrival,
            duration,
            now,
        ),
    ensures
        (Effect { bookings: final(bookings)@, next_order, outcome: outcome@ })
            == model::rescheduled(
            doors@,
            old(bookings)@,
            next_order,
            tenant,
            request_id,
            expected_version,
            arrival,
            duration,
            now,
        ),
{
    let i = match find_booking(bookings, tenant, request_id) {
        Some(i) => i,
        None => {
            return Outcome::rejected("booking_not_found", None, Some(arrival));
        },
    };
    let existing = bookings[i];
    let door = Some(existing.door);
    if duration < 1 || duration > 8 {
        return Outcome::rejected("invalid_request", door, Some(arrival));
    }
    if existing.version != expected_version {
        return Outcome::rejected("stale_reschedule_version", door, Some(arrival));
    }
    match existing.status {
        Status::Held { expires_at } => {
            if expires_at <= now {
                bookings.set(i, Booking { status: Status::Expired, ..existing });
                return Outcome::rejected("expired_hold", door, Some(existing.spec.arrival));
            }
        },
        Status::Confirmed => {},
        _ => {
            return Outcome::rejected("booking_inactive", door, Some(arrival));
        },
    }
    let proposed = HoldSpec { arrival, duration, ..existing.spec };
    match choose_door(doors, bookings, Some((tenant, request_id)), &proposed) {
        Err(outcome) => outcome,
        Ok(door) => {
            let moved = Booking {
                spec: proposed,
                door,
                version: existing.version + 1,
                ..existing
            };
            bookings.set(i, moved);
            Outcome::accepted("booking_rescheduled", &moved)
        },
    }
}

/// The decision on a key, if one has been made.
fn find_decision<'a>(decisions: &'a Vec<StoredDecision>, key: &str) -> (found: Option<
    &'a StoredDecision,
>)
    ensures
        ({
            let shown = decisions@.map_values(|decision: StoredDecision| decision@);
            match found {
                Some(decision) => model::stored(shown, key@) == Some(decision@),
                None => model::stored(shown, key@) is None,
            }
        }),
{
    let ghost shown = decisions@.map_values(|decision: StoredDecision| decision@);
    let mut n: usize = decisions.len();
    assert(shown.take(n as int) =~= shown);
    while n > 0
        invariant
            n <= decisions@.len(),
            shown == decisions@.map_values(|decision: StoredDecision| decision@),
            model::stored(shown.take(n as int), key@) == model::stored(shown, key@),
        decreases n,
    {
        assert(shown.take(n as int).last() == decisions@[n - 1]@);
        assert(shown.take(n as int).drop_last() =~= shown.take(n - 1));
        if same_text(decisions[n - 1].key.as_str(), key) {
            return Some(&decisions[n - 1]);
        }
        n = n - 1;
    }
    None
}

/// A door that was found could take the truck.
proof fn lemma_found_compatible(
    doors: Seq<Door>,
    bookings: Seq<Booking>,
    exclude: Option<(u16, u64)>,
    spec: HoldSpec,
    n: nat,
)
    requires
        n <= doors.len(),
    ensures
        model::search(doors, bookings, exclude, spec, n).found is Some ==> model::some_compatible(
            doors,
            spec,
        ),
    decreases n,
{
    if n > 0 {
        lemma_found_compatible(doors, bookings, exclude, spec, (n - 1) as nat);
        if model::compatible(doors[n - 1], spec) {
            assert(model::some_compatible(doors, spec));
        }
    }
}

/// No command makes a booking end beyond 32 bits.
proof fn lemma_stays_bounded(state: State, command: Command)
    requires
        bounded(state.bookings),
        model::fits(state, command),
    ensures
        bounded(model::effect_of(state, command).bookings),
        model::effect_of(state, command).next_order <= state.next_order + 1,
{
    let bookings = model::sweep(state.bookings, model::now_of(command));
    let after = model::effect_of(state, command).bookings;
    match command {
        Command::Hold { spec, .. } => {
            lemma_place(bookings, spec.tenant, spec.request_id);
            lemma_found_compatible(state.doors, bookings, None, spec, state.doors.len());
        },
        Command::Confirm { tenant, request_id, .. } => {
            lemma_place(bookings, tenant, request_id);
        },
        Command::Cancel { tenant, request_id, .. } => {
            lemma_place(bookings, tenant, request_id);
        },
        Command::Reschedule { tenant, request_id, arrival, duration, .. } => {
            lemma_place(bookings, tenant, request_id);
            if let Some(i) = model::place_of(bookings, tenant, request_id) {
                lemma_found_compatible(
                    state.doors,
                    bookings,
                    Some((tenant, request_id)),
                    HoldSpec { arrival, duration, ..bookings[i].spec },
                    state.doors.len(),
                );
            }
        },
        Command::Expire { .. } => {},
    }
    assert forall|i: int| 0 <= i < after.len() implies (#[trigger] after[i]).spec.arrival
        + after[i].spec.duration <= u32::MAX by {
        if i < bookings.len() {
            assert(bookings[i].spec == state.bookings[i].spec);
        }
    }
}

impl Authority {
    /// What every operation keeps.
    pub open spec fn well_formed(&self) -> bool {
        model::consistent(self@)
    }

    /// The model warehouse, nothing booked.
    pub fn one_warehouse() -> (authority: Self)
        ensures
            authority.well_formed(),
            authority@ == fresh(Seq::new(DOOR_COUNT as nat, |id: int| warehouse_door(id))),
    {
        let mut doors: Vec<Door> = Vec::new();
        let mut id: u16 = 0;
        while id < DOOR_COUNT
            invariant
                id <= DOOR_COUNT,
                doors@.len() == id,
                forall|k: int| 0 <= k < id ==> (#[trigger] doors@[k]) == warehouse_door(k),
            decreases DOOR_COUNT - id,
        {
            let height: u8 = if id % 3 == 0 {
                1
            } else if id % 3 == 1 {
                2
            } else {
                3
            };
            doors.push(
                Door {
                    id,
                    height,
                    refrigerated: id % 4 == 0,
                    pallet_capacity: 18 + (id % 5) * 4,
                },
            );
            id = id + 1;
        }
        let authority = Self::with_doors(doors);
        assert(authority@.doors =~= Seq::new(DOOR_COUNT as nat, |id: int| warehouse_door(id)));
        authority
    }

    /// A warehouse with the given doors, nothing booked.
    pub fn with_doors(doors: Vec<Door>) -> (authority: Self)
        ensures
            authority@ == fresh(doors@),
    {
        let authority = Authority {
            doors,
            bookings: Vec::new(),
            decisions: Vec::new(),
            audits: Vec::new(),
            next_order: 0,
        };
        assert(authority@ =~= fresh(doors@));
        authority
    }

    /// A warehouse with one door that takes any truck.
    pub fn one_door(pallet_capacity: u16) -> (authority: Self)
        ensures
            authority.well_formed(),
            authority@ == fresh(
                seq![Door { id: 0, height: 3, refrigerated: true, pallet_capacity }],
            ),
    {
        let mut doors: Vec<Door> = Vec::new();
        doors.push(Door { id: 0, height: 3, refrigerated: true, pallet_capacity });
        let authority = Self::with_doors(doors);
        assert(authority@.doors =~= seq![
            Door { id: 0, height: 3, refrigerated: true, pallet_capacity },
        ]);
        authority
    }

    /// Decides on a new command.
    fn execute_new(&mut self, command: &Command) -> (outcome: Outcome)
        requires
            old(self).well_formed(),
            model::fits(old(self)@, *command),
        ensures
            (Effect {
                bookings: final(self)@.bookings,
                next_order: final(self)@.next_order,
                outcome: outcome@,
            }) == model::effect_of(old(self)@, *command),
            final(self)@.doors == old(self)@.doors,
            final(self)@.decisions == old(self)@.decisions,
            final(self)@.audits == old(self)@.audits,
    {
        let ghost state = self@;
        let ghost order = self.next_order as nat;
        let expired: usize = expire_due(&mut self.bookings, command_now(command));
        assert(bounded(self.bookings@)) by {
            assert forall|i: int| 0 <= i < self.bookings@.len() implies (
            #[trigger] self.bookings@[i]).spec.arrival + self.bookings@[i].spec.duration
                <= u32::MAX by {
                assert(self.bookings@[i].spec == state.bookings[i].spec);
            }
        }
        proof {
            lemma_due_count(state.bookings, model::now_of(*command));
        }
        match command {
            Command::Hold { spec, now } => hold(
                &self.doors,
                &mut self.bookings,
                &mut self.next_order,
                *spec,
                *now,
            ),
            Command::Confirm { tenant, request_id, now } => confirm(
                &mut self.bookings,
                *tenant,
                *request_id,
                *now,
                Ghost(order),
            ),
            Command::Cancel { tenant, request_id, now } => cancel(
                &mut self.bookings,
                *tenant,
                *request_id,
                *now,
                Ghost(order),
            ),
            Command::Reschedule {
                tenant,
                request_id,
                expected_version,
                arrival,
                duration,
                now,
            } => reschedule(
                &self.doors,
                &mut self.bookings,
                *tenant,
                *request_id,
                *expected_version,
                *arrival,
                *duration,
                *now,
                Ghost(order),
            ),
            Command::Expire { .. } => Outcome {
                accepted: true,
                code: "expiry_sweep_applied",
                door: None,
                interval: Some(expired as u32),
                version: None,
            },
        }
    }

    /// Whether the numbers that a command makes the authority form are within
    /// those of the machine.
    pub fn within_limits(&self, command: &Command) -> (within: bool)
        requires
            self.well_formed(),
        ensures
            within == (model::stored(self@.decisions, model::key_of(*command)) is None
                ==> model::fits(self@, *command)),
    {
        let key = command_key(command);
        if find_decision(&self.decisions, key.as_str()).is_some() {
            return true;
        }
        let mut bookings: Vec<Booking> = Vec::new();
        let mut n: usize = 0;
        while n < self.bookings.len()
            invariant
                n <= self.bookings@.len(),
                bookings@ =~= self.bookings@.take(n as int),
            decreases self.bookings@.len() - n,
        {
            bookings.push(self.bookings[n]);
            n = n + 1;
        }
        assert(bookings@ =~= self@.bookings);
        let expired: usize = expire_due(&mut bookings, command_now(command));
        assert(bounded(bookings@)) by {
            assert forall|i: int| 0 <= i < bookings@.len() implies (
            #[trigger] bookings@[i]).spec.arrival + bookings@[i].spec.duration <= u32::MAX by {
                assert(bookings@[i].spec == self@.bookings[i].spec);
            }
        }
        match command {
            Command::Hold { spec, now } => {
                if spec.duration == 0 || spec.duration > 8 || spec.lifetime == 0 || spec.lifetime
                    > 15 {
                    return true;
                }
                if !is_searchable(&self.doors, spec) {
                    return false;
                }
                match choose_door(&self.doors, &bookings, None, spec) {
                    Ok(_) => now.checked_add(spec.lifetime).is_some() && self.next_order < u64::MAX,
                    Err(_) => true,
                }
            },
            Command::Reschedule {
                tenant,
                request_id,
                expected_version,
                arrival,
                duration,
                now,
            } => {
                let existing = match find_booking(&bookings, *tenant, *request_id) {
                    Some(i) => bookings[i],
                    None => {
                        return true;
                    },
                };
                let active = match existing.status {
                    Status::Held { expires_at } => *now < expires_at,
                    Status::Confirmed => true,
                    _ => false,
                };
                if *duration < 1 || *duration > 8 || existing.version != *expected_version
                    || !active {
                    return true;
                }
                let proposed = HoldSpec { arrival: *arrival, duration: *duration, ..existing.spec };
                if !is_searchable(&self.doors, &proposed) {
                    return false;
                }
                match choose_door(&self.doors, &bookings, Some((*tenant, *request_id)), &proposed) {
                    Ok(_) => *expected_version < u32::MAX,
                    Err(_) => true,
                }
            },
            Command::Expire { .. } => expired <= u32::MAX as usize,
            _ => true,
        }
    }

    /// Decides on a command. A command that was decided on before is answered as
    /// it was then, without any effect; one that reuses its identity for something
    /// else is refused.
    pub fn execute(&mut self, command: &Command) -> (outcome: Outcome)
        requires
            old(self).well_formed(),
            model::stored(old(self)@.decisions, model::key_of(*command)) is None ==> model::fits(
                old(self)@,
                *command,
            ),
        ensures
            final(self).well_formed(),
            outcome@ == model::answer(old(self)@, *command),
            final(self)@ == model::after(old(self)@, *command),
    {
        let ghost state = self@;
        let key = command_key(command);
        let fingerprint = fingerprint(command);
        if let Some(stored) = find_decision(&self.decisions, key.as_str()) {
            return if same_text(stored.fingerprint.as_str(), fingerprint.as_str()) {
                stored.outcome
            } else {
                Outcome::rejected("request_id_payload_mismatch", None, None)
            };
        }
        proof {
            lemma_stays_bounded(state, *command);
        }
        let outcome = self.execute_new(command);
        let ghost decisions = self.decisions@;
        let ghost audits = self.audits@;
        self.decisions.push(StoredDecision { key: key.clone(), fingerprint, outcome });
        self.audits.push(Audit { command_key: key, outcome });
        proof {
            let wanted = model::after(state, *command);
            assert(self@.decisions =~= wanted.decisions);
            assert(self@.audits =~= wanted.audits);
            assert(self@ =~= wanted);
        }
        outcome
    }

    /// The booking with a key.
    pub fn booking(&self, tenant: u16, request_id: u64) -> (found: Option<Booking>)
        ensures
            match model::place_of(self@.bookings, tenant, request_id) {
                Some(i) => found == Some(self@.bookings[i]),
                None => found is None,
            },
    {
        match find_booking(&self.bookings, tenant, request_id) {
            Some(i) => Some(self.bookings[i]),
            None => None,
        }
    }

    /// All bookings in the order in which they were accepted.
    pub fn bookings(&self) -> (bookings: &Vec<Booking>)
        ensures
            bookings@ == self@.bookings,
    {
        &self.bookings
    }

    pub fn doors(&self) -> (doors: &Vec<Door>)
        ensures
            doors@ == self@.doors,
    {
        &self.doors
    }

    /// The records of all decisions.
    pub fn audits(&self) -> (audits: &Vec<Audit>)
        ensures
            audits@.map_values(|audit: Audit| audit@) == self@.audits,
    {
        &self.audits
    }
}

proof fn lemma_due_count(bookings: Seq<Booking>, now: u32)
    ensures
        model::due_count(bookings, now) <= bookings.len(),
{
    bookings.lemma_filter_len(|booking: Booking| model::due(booking, now));
}

} // verus!
