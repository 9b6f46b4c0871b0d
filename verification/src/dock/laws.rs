//! What holds of the authority after any commands.

use vstd::prelude::*;
use crate::dock::authority;
use crate::dock::model;
use crate::dock::model::{Booking, Command, Door, HoldSpec, State, Status};
use crate::ip_laws;
use crate::seqs;
use crate::text;

verus! {

/// No two bookings have one key.
pub open spec fn distinct(bookings: Seq<Booking>) -> bool {
    forall|i: int, j: int|
        0 <= i < j < bookings.len() ==> !model::has_key(
            #[trigger] bookings[i],
            (#[trigger] bookings[j]).spec.tenant,
            bookings[j].spec.request_id,
        )
}

/// A confirmed booking takes up a door and interval.
pub open spec fn confirmed_at(booking: Booking, door: u16, interval: int) -> bool {
    model::occupies(booking, None, door, interval) && booking.status is Confirmed
}

/// At most one confirmed booking takes up a door at a time.
pub open spec fn exclusive(bookings: Seq<Booking>, door: u16, interval: int) -> bool {
    forall|i: int, j: int|
        0 <= i < j < bookings.len() ==> !(confirmed_at(#[trigger] bookings[i], door, interval)
            && confirmed_at(#[trigger] bookings[j], door, interval))
}

/// Nothing is booked beyond what a door can take.
pub open spec fn safe_at(bookings: Seq<Booking>, door: Door, interval: int) -> bool {
    model::load(bookings, None, door.id, interval) <= door.pallet_capacity && exclusive(
        bookings,
        door.id,
        interval,
    )
}

pub open spec fn safe(state: State) -> bool {
    &&& distinct(state.bookings)
    &&& forall|d: int, interval: int|
        0 <= d < state.doors.len() ==> #[trigger] safe_at(
            state.bookings,
            state.doors[d],
            interval,
        )
}

/// Doors whose capacity 16 bits tell from any greater load.
pub open spec fn measurable(doors: Seq<Door>) -> bool {
    forall|d: int| 0 <= d < doors.len() ==> (#[trigger] doors[d]).pallet_capacity < u16::MAX
}

/// What a booking adds to the load.
spec fn weight(booking: Booking, exclude: Option<(u16, u64)>, door: u16, interval: int) -> nat {
    if model::occupies(booking, exclude, door, interval) {
        booking.spec.pallets as nat
    } else {
        0
    }
}

proof fn lemma_load_update(bookings: Seq<Booking>, i: int, booking: Booking, door: u16, interval: int)
    requires
        0 <= i < bookings.len(),
    ensures
        model::load(bookings.update(i, booking), None, door, interval) + weight(
            bookings[i],
            None,
            door,
            interval,
        ) == model::load(bookings, None, door, interval) + weight(booking, None, door, interval),
{
    let before = model::pallets_at(bookings, None, door, interval);
    let after = model::pallets_at(bookings.update(i, booking), None, door, interval);
    assert(after =~= before.update(i, weight(booking, None, door, interval)));
    seqs::lemma_sum_update(before, i, weight(booking, None, door, interval));
}

proof fn lemma_load_push(bookings: Seq<Booking>, booking: Booking, door: u16, interval: int)
    ensures
        model::load(bookings.push(booking), None, door, interval) == model::load(
            bookings,
            None,
            door,
            interval,
        ) + weight(booking, None, door, interval),
{
    let before = model::pallets_at(bookings, None, door, interval);
    let after = model::pallets_at(bookings.push(booking), None, door, interval);
    assert(after =~= before.push(weight(booking, None, door, interval)));
    seqs::lemma_sum_push(before, weight(booking, None, door, interval));
}

/// The load without a booking is the load less what it adds.
proof fn lemma_load_without(bookings: Seq<Booking>, i: int, door: u16, interval: int)
    requires
        0 <= i < bookings.len(),
        distinct(bookings),
    ensures
        model::load(
            bookings,
            Some((bookings[i].spec.tenant, bookings[i].spec.request_id)),
            door,
            interval,
        ) + weight(bookings[i], None, door, interval) == model::load(bookings, None, door, interval),
{
    let exclude = Some((bookings[i].spec.tenant, bookings[i].spec.request_id));
    let all = model::pallets_at(bookings, None, door, interval);
    let rest = model::pallets_at(bookings, exclude, door, interval);
    assert forall|j: int| 0 <= j < bookings.len() implies rest[j] == all.update(i, 0)[j] by {
        if j < i {
            assert(!model::has_key(
                bookings[j],
                bookings[i].spec.tenant,
                bookings[i].spec.request_id,
            ));
        } else if i < j {
            assert(!model::has_key(
                bookings[i],
                bookings[j].spec.tenant,
                bookings[j].spec.request_id,
            ));
        }
    }
    assert(rest =~= all.update(i, 0));
    seqs::lemma_sum_update(all, i, 0);
}

/// Where a search ends at a door, no interval there meets a conflict.
proof fn lemma_search(
    doors: Seq<Door>,
    bookings: Seq<Booking>,
    exclude: Option<(u16, u64)>,
    spec: HoldSpec,
    n: nat,
)
    requires
        n <= doors.len(),
        forall|i: int| 0 <= i < doors.len() ==> (#[trigger] doors[i]).id == i,
    ensures
        match model::search(doors, bookings, exclude, spec, n).found {
            Some(door) => door < n && model::compatible(doors[door as int], spec)
                && model::first_conflict(
                bookings,
                exclude,
                doors[door as int],
                spec.pallets,
                spec.arrival as int,
                spec.duration as nat,
            ) is None,
            None => true,
        },
    decreases n,
{
    if n > 0 {
        lemma_search(doors, bookings, exclude, spec, (n - 1) as nat);
    }
}

proof fn lemma_no_conflict(
    bookings: Seq<Booking>,
    exclude: Option<(u16, u64)>,
    door: Door,
    pallets: u16,
    from: int,
    n: nat,
    interval: int,
)
    requires
        model::first_conflict(bookings, exclude, door, pallets, from, n) is None,
        from <= interval < from + n,
    ensures
        model::conflict_at(bookings, exclude, door, pallets, interval) is None,
    decreases n,
{
    if interval < from + n - 1 {
        lemma_no_conflict(bookings, exclude, door, pallets, from, (n - 1) as nat, interval);
    }
}

proof fn lemma_none_taken(
    bookings: Seq<Booking>,
    exclude: Option<(u16, u64)>,
    door: u16,
    from: int,
    n: nat,
    interval: int,
)
    requires
        model::first_taken(bookings, exclude, door, from, n) is None,
        from <= interval < from + n,
    ensures
        !model::taken(bookings, exclude, door, interval),
    decreases n,
{
    if interval < from + n - 1 {
        lemma_none_taken(bookings, exclude, door, from, (n - 1) as nat, interval);
    }
}

/// A booking that takes the place of another with its key keeps keys apart.
proof fn lemma_distinct_update(bookings: Seq<Booking>, i: int, booking: Booking)
    requires
        0 <= i < bookings.len(),
        distinct(bookings),
        booking.spec.tenant == bookings[i].spec.tenant,
        booking.spec.request_id == bookings[i].spec.request_id,
    ensures
        distinct(bookings.update(i, booking)),
{
    let after = bookings.update(i, booking);
    assert forall|a: int, b: int| 0 <= a < b < after.len() implies !model::has_key(
        #[trigger] after[a],
        (#[trigger] after[b]).spec.tenant,
        after[b].spec.request_id,
    ) by {
        assert(!model::has_key(
            bookings[a],
            bookings[b].spec.tenant,
            bookings[b].spec.request_id,
        ));
    }
}

/// Replacing a booking by one that adds no more load, confirmed only where no
/// other is, keeps a door safe.
proof fn lemma_update_safe(bookings: Seq<Booking>, i: int, booking: Booking, door: Door, interval: int)
    requires
        0 <= i < bookings.len(),
        distinct(bookings),
        safe_at(bookings, door, interval),
        booking.spec.tenant == bookings[i].spec.tenant,
        booking.spec.request_id == bookings[i].spec.request_id,
        weight(booking, None, door.id, interval) + model::load(
            bookings,
            Some((booking.spec.tenant, booking.spec.request_id)),
            door.id,
            interval,
        ) <= door.pallet_capacity,
        confirmed_at(booking, door.id, interval) ==> !model::taken(
            bookings,
            Some((booking.spec.tenant, booking.spec.request_id)),
            door.id,
            interval,
        ),
    ensures
        safe_at(bookings.update(i, booking), door, interval),
{
    lemma_load_update(bookings, i, booking, door.id, interval);
    lemma_load_without(bookings, i, door.id, interval);
    let after = bookings.update(i, booking);
    let exclude = Some((booking.spec.tenant, booking.spec.request_id));
    assert forall|a: int, b: int| 0 <= a < b < after.len() implies !(confirmed_at(
        #[trigger] after[a],
        door.id,
        interval,
    ) && confirmed_at(#[trigger] after[b], door.id, interval)) by {
        if a != i && b != i {
            assert(!(confirmed_at(bookings[a], door.id, interval) && confirmed_at(
                bookings[b],
                door.id,
                interval,
            )));
        } else {
            let other = if a == i {
                b
            } else {
                a
            };
            assert(!model::has_key(
                bookings[a],
                bookings[b].spec.tenant,
                bookings[b].spec.request_id,
            ));
            if confirmed_at(booking, door.id, interval) && confirmed_at(
                bookings[other],
                door.id,
                interval,
            ) {
                assert(model::occupies(bookings[other], exclude, door.id, interval));
                assert(model::taken(bookings, exclude, door.id, interval));
            }
        }
    }
}

/// Making a booking less, or leaving it as it is, keeps a door safe.
proof fn lemma_lessened_safe(
    bookings: Seq<Booking>,
    i: int,
    booking: Booking,
    door: Door,
    interval: int,
)
    requires
        0 <= i < bookings.len(),
        distinct(bookings),
        safe_at(bookings, door, interval),
        booking.spec == bookings[i].spec,
        booking.door == bookings[i].door,
        !model::is_active(booking.status) || booking.status == bookings[i].status,
    ensures
        safe_at(bookings.update(i, booking), door, interval),
{
    lemma_load_without(bookings, i, door.id, interval);
    let exclude = Some((booking.spec.tenant, booking.spec.request_id));
    if confirmed_at(booking, door.id, interval) && model::taken(
        bookings,
        exclude,
        door.id,
        interval,
    ) {
        let j = choose|j: int|
            0 <= j < bookings.len() && model::occupies(
                #[trigger] bookings[j],
                exclude,
                door.id,
                interval,
            ) && bookings[j].status is Confirmed;
        assert(confirmed_at(bookings[i], door.id, interval) && confirmed_at(
            bookings[j],
            door.id,
            interval,
        ));
    }
    lemma_update_safe(bookings, i, booking, door, interval);
}

/// Expiring holds keeps every door safe.
proof fn lemma_sweep_safe(bookings: Seq<Booking>, now: u32, door: Door, interval: int)
    requires
        safe_at(bookings, door, interval),
    ensures
        safe_at(model::sweep(bookings, now), door, interval),
{
    let after = model::sweep(bookings, now);
    let (a, b) = (
        model::pallets_at(after, None, door.id, interval),
        model::pallets_at(bookings, None, door.id, interval),
    );
    assert forall|i: int| 0 <= i < a.len() implies (#[trigger] a[i]) <= b[i] by {
        assert(after[i] == model::swept(bookings[i], now));
    }
    seqs::lemma_sum_monotone(a, b);
    assert forall|i: int, j: int| 0 <= i < j < after.len() implies !(confirmed_at(
        #[trigger] after[i],
        door.id,
        interval,
    ) && confirmed_at(#[trigger] after[j], door.id, interval)) by {
        assert(!(confirmed_at(bookings[i], door.id, interval) && confirmed_at(
            bookings[j],
            door.id,
            interval,
        )));
    }
}

proof fn lemma_sweep_distinct(bookings: Seq<Booking>, now: u32)
    requires
        distinct(bookings),
    ensures
        distinct(model::sweep(bookings, now)),
{
    let after = model::sweep(bookings, now);
    assert forall|i: int, j: int| 0 <= i < j < after.len() implies !model::has_key(
        #[trigger] after[i],
        (#[trigger] after[j]).spec.tenant,
        after[j].spec.request_id,
    ) by {
        assert(!model::has_key(
            bookings[i],
            bookings[j].spec.tenant,
            bookings[j].spec.request_id,
        ));
    }
}

/// A door that a search found has room in every interval.
proof fn lemma_found_room(
    doors: Seq<Door>,
    bookings: Seq<Booking>,
    exclude: Option<(u16, u64)>,
    spec: HoldSpec,
    booking: Booking,
    door: Door,
    interval: int,
)
    requires
        forall|i: int| 0 <= i < doors.len() ==> (#[trigger] doors[i]).id == i,
        measurable(doors),
        doors.contains(door),
        model::search(doors, bookings, exclude, spec, doors.len()).found == Some(booking.door),
        booking.spec == spec,
        model::load(bookings, exclude, door.id, interval) <= door.pallet_capacity,
    ensures
        weight(booking, None, door.id, interval) + model::load(
            bookings,
            exclude,
            door.id,
            interval,
        ) <= door.pallet_capacity,
        confirmed_at(booking, door.id, interval) ==> !model::taken(
            bookings,
            exclude,
            door.id,
            interval,
        ),
{
    lemma_search(doors, bookings, exclude, spec, doors.len());
    let d = choose|d: int| 0 <= d < doors.len() && doors[d] == door;
    if model::occupies(booking, None, door.id, interval) {
        assert(doors[booking.door as int] == door);
        lemma_no_conflict(
            bookings,
            exclude,
            door,
            spec.pallets,
            spec.arrival as int,
            spec.duration as nat,
            interval,
        );
    }
}

/// What a new command does keeps every door safe.
proof fn lemma_effect_safe(state: State, command: Command, d: int, interval: int)
    requires
        model::consistent(state),
        safe(state),
        measurable(state.doors),
        0 <= d < state.doors.len(),
    ensures
        safe_at(model::effect_of(state, command).bookings, state.doors[d], interval),
{
    let door = state.doors[d];
    let bookings = model::sweep(state.bookings, model::now_of(command));
    assert(safe_at(state.bookings, door, interval));
    lemma_sweep_safe(state.bookings, model::now_of(command), door, interval);
    lemma_sweep_distinct(state.bookings, model::now_of(command));
    assert(state.doors.contains(door));
    match command {
        Command::Hold { spec, now } => {
            authority::lemma_place(bookings, spec.tenant, spec.request_id);
            let found = model::search(state.doors, bookings, None, spec, state.doors.len());
            if model::well_timed(spec) && found.found is Some {
                let booking = Booking {
                    spec,
                    door: found.found.unwrap(),
                    version: 0,
                    accepted_order: state.next_order as u64,
                    status: Status::Held { expires_at: (now + spec.lifetime) as u32 },
                };
                lemma_found_room(state.doors, bookings, None, spec, booking, door, interval);
                match model::place_of(bookings, spec.tenant, spec.request_id) {
                    Some(i) => {
                        lemma_load_without(bookings, i, door.id, interval);
                        lemma_update_safe(bookings, i, booking, door, interval);
                    },
                    None => {
                        lemma_load_push(bookings, booking, door.id, interval);
                        lemma_push_exclusive(bookings, booking, door.id, interval);
                    },
                }
            }
        },
        Command::Confirm { tenant, request_id, now } => {
            authority::lemma_place(bookings, tenant, request_id);
            lemma_confirm_safe(
                bookings,
                state.next_order,
                tenant,
                request_id,
                now,
                door,
                interval,
            );
        },
        Command::Cancel { tenant, request_id, now } => {
            authority::lemma_place(bookings, tenant, request_id);
            if let Some(i) = model::place_of(bookings, tenant, request_id) {
                lemma_lessened_safe(
                    bookings,
                    i,
                    Booking { status: Status::Expired, ..bookings[i] },
                    door,
                    interval,
                );
                lemma_lessened_safe(
                    bookings,
                    i,
                    Booking { status: Status::Cancelled, ..bookings[i] },
                    door,
                    interval,
                );
            }
        },
        Command::Reschedule { tenant, request_id, arrival, duration, .. } => {
            authority::lemma_place(bookings, tenant, request_id);
            if let Some(i) = model::place_of(bookings, tenant, request_id) {
                let existing = bookings[i];
                lemma_lessened_safe(
                    bookings,
                    i,
                    Booking { status: Status::Expired, ..existing },
                    door,
                    interval,
                );
                let exclude = Some((tenant, request_id));
                let proposed = HoldSpec { arrival, duration, ..existing.spec };
                let found = model::search(
                    state.doors,
                    bookings,
                    exclude,
                    proposed,
                    state.doors.len(),
                );
                if found.found is Some {
                    let moved = Booking {
                        spec: proposed,
                        door: found.found.unwrap(),
                        version: (existing.version + 1) as u32,
                        ..existing
                    };
                    lemma_load_without(bookings, i, door.id, interval);
                    lemma_found_room(
                        state.doors,
                        bookings,
                        exclude,
                        proposed,
                        moved,
                        door,
                        interval,
                    );
                    lemma_update_safe(bookings, i, moved, door, interval);
                }
            }
        },
        Command::Expire { .. } => {},
    }
}

proof fn lemma_push_exclusive(bookings: Seq<Booking>, booking: Booking, door: u16, interval: int)
    requires
        exclusive(bookings, door, interval),
        booking.status is Held,
    ensures
        exclusive(bookings.push(booking), door, interval),
{
    let after = bookings.push(booking);
    assert forall|i: int, j: int| 0 <= i < j < after.len() implies !(confirmed_at(
        #[trigger] after[i],
        door,
        interval,
    ) && confirmed_at(#[trigger] after[j], door, interval)) by {
        if j < bookings.len() {
            assert(!(confirmed_at(bookings[i], door, interval) && confirmed_at(
                bookings[j],
                door,
                interval,
            )));
        }
    }
}

proof fn lemma_confirm_safe(
    bookings: Seq<Booking>,
    next_order: nat,
    tenant: u16,
    request_id: u64,
    now: u32,
    door: Door,
    interval: int,
)
    requires
        distinct(bookings),
        safe_at(bookings, door, interval),
    ensures
        safe_at(
            model::confirmed(bookings, next_order, tenant, request_id, now).bookings,
            door,
            interval,
        ),
{
    authority::lemma_place(bookings, tenant, request_id);
    if let Some(i) = model::place_of(bookings, tenant, request_id) {
        let existing = bookings[i];
        let exclude = Some((tenant, request_id));
        lemma_lessened_safe(
            bookings,
            i,
            Booking { status: Status::Expired, ..existing },
            door,
            interval,
        );
        if existing.status is Held && model::first_taken(
            bookings,
            exclude,
            existing.door,
            existing.spec.arrival as int,
            existing.spec.duration as nat,
        ) is None {
            let sealed = Booking { status: Status::Confirmed, ..existing };
            lemma_load_without(bookings, i, door.id, interval);
            assert(weight(sealed, None, door.id, interval) == weight(
                existing,
                None,
                door.id,
                interval,
            ));
            if confirmed_at(sealed, door.id, interval) {
                lemma_none_taken(
                    bookings,
                    exclude,
                    existing.door,
                    existing.spec.arrival as int,
                    existing.spec.duration as nat,
                    interval,
                );
            }
            lemma_update_safe(bookings, i, sealed, door, interval);
        }
    }
}

proof fn lemma_effect_distinct(state: State, command: Command)
    requires
        distinct(state.bookings),
    ensures
        distinct(model::effect_of(state, command).bookings),
{
    let bookings = model::sweep(state.bookings, model::now_of(command));
    lemma_sweep_distinct(state.bookings, model::now_of(command));
    match command {
        Command::Hold { spec, now } => {
            authority::lemma_place(bookings, spec.tenant, spec.request_id);
            let found = model::search(state.doors, bookings, None, spec, state.doors.len());
            if model::well_timed(spec) && found.found is Some {
                let booking = Booking {
                    spec,
                    door: found.found.unwrap(),
                    version: 0,
                    accepted_order: state.next_order as u64,
                    status: Status::Held { expires_at: (now + spec.lifetime) as u32 },
                };
                match model::place_of(bookings, spec.tenant, spec.request_id) {
                    Some(i) => {
                        lemma_distinct_update(bookings, i, booking);
                    },
                    None => {
                        let after = bookings.push(booking);
                        assert forall|a: int, b: int|
                            0 <= a < b < after.len() implies !model::has_key(
                            #[trigger] after[a],
                            (#[trigger] after[b]).spec.tenant,
                            after[b].spec.request_id,
                        ) by {
                            if b < bookings.len() {
                                assert(!model::has_key(
                                    bookings[a],
                                    bookings[b].spec.tenant,
                                    bookings[b].spec.request_id,
                                ));
                            }
                        }
                    },
                }
            }
        },
        Command::Confirm { tenant, request_id, .. } => {
            authority::lemma_place(bookings, tenant, request_id);
            lemma_statuses_distinct(bookings, tenant, request_id);
        },
        Command::Cancel { tenant, request_id, .. } => {
            authority::lemma_place(bookings, tenant, request_id);
            lemma_statuses_distinct(bookings, tenant, request_id);
        },
        Command::Reschedule { tenant, request_id, arrival, duration, .. } => {
            authority::lemma_place(bookings, tenant, request_id);
            lemma_statuses_distinct(bookings, tenant, request_id);
            if let Some(i) = model::place_of(bookings, tenant, request_id) {
                let existing = bookings[i];
                let proposed = HoldSpec { arrival, duration, ..existing.spec };
                let found = model::search(
                    state.doors,
                    bookings,
                    Some((tenant, request_id)),
                    proposed,
                    state.doors.len(),
                );
                if found.found is Some {
                    lemma_distinct_update(
                        bookings,
                        i,
                        Booking {
                            spec: proposed,
                            door: found.found.unwrap(),
                            version: (existing.version + 1) as u32,
                            ..existing
                        },
                    );
                }
            }
        },
        Command::Expire { .. } => {},
    }
}

proof fn lemma_statuses_distinct(bookings: Seq<Booking>, tenant: u16, request_id: u64)
    requires
        distinct(bookings),
    ensures
        match model::place_of(bookings, tenant, request_id) {
            Some(i) => forall|status: Status|
                distinct(#[trigger] model::with_status(bookings, i, status)),
            None => true,
        },
{
    authority::lemma_place(bookings, tenant, request_id);
    if let Some(i) = model::place_of(bookings, tenant, request_id) {
        assert forall|status: Status| distinct(#[trigger] model::with_status(bookings, i, status)) by {
            lemma_distinct_update(bookings, i, Booking { status, ..bookings[i] });
        }
    }
}

/// No command overbooks a door or confirms two bookings for one door and
/// interval.
pub proof fn commands_keep_doors_safe(state: State, command: Command)
    requires
        model::consistent(state),
        measurable(state.doors),
        safe(state),
    ensures
        safe(model::after(state, command)),
{
    if model::stored(state.decisions, model::key_of(command)) is None {
        lemma_effect_distinct(state, command);
        let next = model::after(state, command);
        assert forall|d: int, interval: int| 0 <= d < next.doors.len() implies #[trigger] safe_at(
            next.bookings,
            next.doors[d],
            interval,
        ) by {
            lemma_effect_safe(state, command, d, interval);
        }
    }
}

/// A warehouse in which nothing is booked is safe.
pub proof fn empty_warehouse_is_safe(doors: Seq<Door>)
    ensures
        safe(authority::fresh(doors)),
{
    let state = authority::fresh(doors);
    assert forall|d: int, interval: int| 0 <= d < doors.len() implies #[trigger] safe_at(
        state.bookings,
        doors[d],
        interval,
    ) by {
        assert(model::pallets_at(state.bookings, None, doors[d].id, interval) =~= Seq::<
            nat,
        >::empty());
    }
}

/// The same command at another time. A sweep is identified by its time.
pub open spec fn at_time(command: Command, now: u32) -> Command {
    match command {
        Command::Hold { spec, .. } => Command::Hold { spec, now },
        Command::Confirm { tenant, request_id, .. } => Command::Confirm { tenant, request_id, now },
        Command::Cancel { tenant, request_id, .. } => Command::Cancel { tenant, request_id, now },
        Command::Reschedule {
            tenant,
            request_id,
            expected_version,
            arrival,
            duration,
            ..
        } => Command::Reschedule {
            tenant,
            request_id,
            expected_version,
            arrival,
            duration,
            now,
        },
        Command::Expire { .. } => command,
    }
}

/// Two commands ask for the same in every field, but for the time.
pub open spec fn same_request(a: Command, b: Command) -> bool {
    at_time(a, 0) == at_time(b, 0)
}

/// Two commands are of one kind and speak of one booking, in one version of it
/// where they name one; two sweeps have one identity.
pub open spec fn same_identity(a: Command, b: Command) -> bool {
    match (a, b) {
        (Command::Hold { spec, .. }, Command::Hold { spec: other, .. }) => spec.tenant
            == other.tenant && spec.request_id == other.request_id,
        (
            Command::Confirm { tenant, request_id, .. },
            Command::Confirm { tenant: t, request_id: r, .. },
        ) => tenant == t && request_id == r,
        (
            Command::Cancel { tenant, request_id, .. },
            Command::Cancel { tenant: t, request_id: r, .. },
        ) => tenant == t && request_id == r,
        (
            Command::Reschedule { tenant, request_id, expected_version, .. },
            Command::Reschedule { tenant: t, request_id: r, expected_version: v, .. },
        ) => tenant == t && request_id == r && expected_version == v,
        (Command::Expire { sweep_id, .. }, Command::Expire { sweep_id: other, .. }) => sweep_id
            == other,
        _ => false,
    }
}

/// What the authority knows after several commands, one after the other.
pub open spec fn after_all(state: State, commands: Seq<Command>) -> State
    decreases commands.len(),
{
    if commands.len() == 0 {
        state
    } else {
        model::after(after_all(state, commands.drop_last()), commands.last())
    }
}

/// The words of a payload.
spec fn payload_words(command: Command) -> Seq<Seq<char>> {
    match command {
        Command::Hold { spec, .. } => seq![
            "hold"@,
            text::decimal(spec.tenant as nat),
            text::decimal(spec.request_id as nat),
            text::decimal(spec.arrival as nat),
            text::decimal(spec.duration as nat),
            text::decimal(spec.pallets as nat),
            text::decimal(spec.height as nat),
            model::truth(spec.refrigerated),
            text::decimal(spec.priority as nat),
            text::decimal(spec.lifetime as nat),
        ],
        Command::Confirm { tenant, request_id, .. } => seq![
            "confirm"@,
            text::decimal(tenant as nat),
            text::decimal(request_id as nat),
        ],
        Command::Cancel { tenant, request_id, .. } => seq![
            "cancel"@,
            text::decimal(tenant as nat),
            text::decimal(request_id as nat),
        ],
        Command::Reschedule {
            tenant,
            request_id,
            expected_version,
            arrival,
            duration,
            ..
        } => seq![
            "reschedule"@,
            text::decimal(tenant as nat),
            text::decimal(request_id as nat),
            text::decimal(expected_version as nat),
            text::decimal(arrival as nat),
            text::decimal(duration as nat),
        ],
        Command::Expire { sweep_id, now } => seq![
            "expire"@,
            text::decimal(sweep_id as nat),
            text::decimal(now as nat),
        ],
    }
}

/// Words put together with a stroke between them.
spec fn stroked(words: Seq<Seq<char>>) -> Seq<char>
    decreases words.len(),
{
    if words.len() <= 1 {
        words[0]
    } else {
        stroked(words.drop_last()) + "/"@ + words.last()
    }
}

spec fn unstroked(words: Seq<Seq<char>>) -> bool {
    forall|i: int| 0 <= i < words.len() ==> !(#[trigger] words[i]).contains('/')
}

/// What is put together of words without strokes can be taken apart again.
proof fn lemma_stroked_injective(a: Seq<Seq<char>>, b: Seq<Seq<char>>)
    requires
        a.len() > 0,
        b.len() > 0,
        unstroked(a),
        unstroked(b),
        stroked(a) == stroked(b),
    ensures
        a == b,
    decreases a.len(),
{
    reveal_strlit("/");
    let whole = stroked(a);
    if a.len() > 1 && b.len() > 1 {
        let (x, y) = (a.last(), b.last());
        let (p, q) = (stroked(a.drop_last()), stroked(b.drop_last()));
        assert(whole == p + "/"@ + x && whole == q + "/"@ + y);
        assert("/"@.len() == 1);
        assert(whole.len() == p.len() + 1 + x.len());
        assert(whole.len() == q.len() + 1 + y.len());
        assert(!a[a.len() - 1].contains('/') && !b[b.len() - 1].contains('/'));
        assert(whole[p.len() as int] == '/');
        assert(whole[q.len() as int] == '/');
        if p.len() < q.len() {
            let k = q.len() as int - p.len() - 1;
            assert((p + "/"@ + x)[q.len() as int] == x[k]);
            assert(x.contains(x[k]));
        }
        if q.len() < p.len() {
            let k = p.len() as int - q.len() - 1;
            assert((q + "/"@ + y)[p.len() as int] == y[k]);
            assert(y.contains(y[k]));
        }
        assert(p =~= whole.take(p.len() as int) && q =~= whole.take(q.len() as int));
        assert(x =~= whole.skip(p.len() as int + 1) && y =~= whole.skip(q.len() as int + 1));
        assert forall|i: int| 0 <= i < a.drop_last().len() implies !(
        #[trigger] a.drop_last()[i]).contains('/') by {
            assert(!a[i].contains('/'));
        }
        assert forall|i: int| 0 <= i < b.drop_last().len() implies !(
        #[trigger] b.drop_last()[i]).contains('/') by {
            assert(!b[i].contains('/'));
        }
        lemma_stroked_injective(a.drop_last(), b.drop_last());
        assert(a =~= a.drop_last().push(x) && b =~= b.drop_last().push(y));
    } else if a.len() > 1 {
        let p = stroked(a.drop_last());
        assert(whole == p + "/"@ + a.last());
        assert(whole[p.len() as int] == '/');
        assert(b[0].contains('/'));
    } else if b.len() > 1 {
        let q = stroked(b.drop_last());
        assert(whole == q + "/"@ + b.last());
        assert(whole[q.len() as int] == '/');
        assert(a[0].contains('/'));
    } else {
        assert(a =~= seq![a[0]] && b =~= seq![b[0]]);
    }
}

/// A numeral holds no stroke.
proof fn lemma_numeral_unstroked(value: nat)
    ensures
        !text::decimal(value).contains('/'),
{
    ip_laws::lemma_decimal(value);
}

proof fn lemma_numeral_injective(a: nat, b: nat)
    requires
        text::decimal(a) == text::decimal(b),
    ensures
        a == b,
{
    ip_laws::lemma_decimal(a);
    ip_laws::lemma_decimal(b);
}

/// A payload is its words with strokes between them.
#[verifier::spinoff_prover]
#[verifier::rlimit(60)]
proof fn lemma_payload_words(command: Command)
    ensures
        model::payload_of(command) == stroked(payload_words(command)),
        unstroked(payload_words(command)),
{
    let words = payload_words(command);
    assert forall|value: nat| !(#[trigger] text::decimal(value)).contains('/') by {
        lemma_numeral_unstroked(value);
    }
    reveal_strlit("/");
    reveal_strlit("true");
    reveal_strlit("false");
    match command {
        Command::Hold { .. } => {
            reveal_strlit("hold");
            reveal_strlit("hold/");
            assert("hold/"@ =~= "hold"@ + "/"@);
            lemma_ten_stroked(words);
        },
        Command::Confirm { .. } => {
            reveal_strlit("confirm");
            reveal_strlit("confirm/");
            assert("confirm/"@ =~= "confirm"@ + "/"@);
            lemma_three_stroked(words);
        },
        Command::Cancel { .. } => {
            reveal_strlit("cancel");
            reveal_strlit("cancel/");
            assert("cancel/"@ =~= "cancel"@ + "/"@);
            lemma_three_stroked(words);
        },
        Command::Reschedule { .. } => {
            reveal_strlit("reschedule");
            reveal_strlit("reschedule/");
            assert("reschedule/"@ =~= "reschedule"@ + "/"@);
            lemma_six_stroked(words);
        },
        Command::Expire { .. } => {
            reveal_strlit("expire");
            reveal_strlit("expire/");
            assert("expire/"@ =~= "expire"@ + "/"@);
            lemma_three_stroked(words);
        },
    }
}

proof fn lemma_three_stroked(w: Seq<Seq<char>>)
    requires
        w.len() == 3,
    ensures
        stroked(w) == w[0] + "/"@ + w[1] + "/"@ + w[2],
{
    assert(w.drop_last().drop_last()[0] == w[0]);
    reveal_with_fuel(stroked, 3);
}

proof fn lemma_six_stroked(w: Seq<Seq<char>>)
    requires
        w.len() == 6,
    ensures
        stroked(w) == w[0] + "/"@ + w[1] + "/"@ + w[2] + "/"@ + w[3] + "/"@ + w[4] + "/"@ + w[5],
{
    let v = w.drop_last().drop_last().drop_last();
    assert(v =~= w.take(3));
    lemma_three_stroked(v);
    reveal_with_fuel(stroked, 4);
}

proof fn lemma_ten_stroked(w: Seq<Seq<char>>)
    requires
        w.len() == 10,
    ensures
        stroked(w) == w[0] + "/"@ + w[1] + "/"@ + w[2] + "/"@ + w[3] + "/"@ + w[4] + "/"@ + w[5]
            + "/"@ + w[6] + "/"@ + w[7] + "/"@ + w[8] + "/"@ + w[9],
{
    let v = w.drop_last().drop_last().drop_last().drop_last();
    assert(v =~= w.take(6));
    lemma_six_stroked(v);
    reveal_with_fuel(stroked, 5);
}

/// The payloads of two commands agree where their fields do.
#[verifier::spinoff_prover]
#[verifier::rlimit(60)]
proof fn lemma_payload_tells_requests_apart(a: Command, b: Command)
    requires
        same_identity(a, b),
    ensures
        model::payload_of(a) == model::payload_of(b) <==> same_request(a, b),
{
    if model::payload_of(a) == model::payload_of(b) {
        let (v, w) = (payload_words(a), payload_words(b));
        lemma_payload_words(a);
        lemma_payload_words(b);
        lemma_stroked_injective(v, w);
        match (a, b) {
            (Command::Hold { spec, .. }, Command::Hold { spec: other, .. }) => {
                assert(v[3] == w[3] && v[4] == w[4] && v[5] == w[5] && v[6] == w[6]);
                assert(v[7] == w[7] && v[8] == w[8] && v[9] == w[9]);
                lemma_numeral_injective(spec.arrival as nat, other.arrival as nat);
                lemma_numeral_injective(spec.duration as nat, other.duration as nat);
                lemma_numeral_injective(spec.pallets as nat, other.pallets as nat);
                lemma_numeral_injective(spec.height as nat, other.height as nat);
                lemma_numeral_injective(spec.priority as nat, other.priority as nat);
                lemma_numeral_injective(spec.lifetime as nat, other.lifetime as nat);
                reveal_strlit("true");
                reveal_strlit("false");
                assert("true"@.len() == 4 && "false"@.len() == 5);
                assert(spec == other);
            },
            (
                Command::Reschedule { arrival, duration, .. },
                Command::Reschedule { arrival: r, duration: d, .. },
            ) => {
                assert(v[4] == w[4] && v[5] == w[5]);
                lemma_numeral_injective(arrival as nat, r as nat);
                lemma_numeral_injective(duration as nat, d as nat);
            },
            (Command::Expire { now, .. }, Command::Expire { now: other, .. }) => {
                assert(v[2] == w[2]);
                lemma_numeral_injective(now as nat, other as nat);
            },
            _ => {},
        }
    }
}

/// A decision stays as it was made, whatever is commanded afterwards.
proof fn lemma_decision_stays(state: State, commands: Seq<Command>, key: Seq<char>)
    requires
        model::stored(state.decisions, key) is Some,
    ensures
        model::stored(after_all(state, commands).decisions, key) == model::stored(
            state.decisions,
            key,
        ),
    decreases commands.len(),
{
    if commands.len() > 0 {
        lemma_decision_stays(state, commands.drop_last(), key);
        let before = after_all(state, commands.drop_last());
        let after = model::after(before, commands.last());
        if model::stored(before.decisions, model::key_of(commands.last())) is None {
            assert(after.decisions.drop_last() =~= before.decisions);
        }
    }
}

/// A command that is repeated in every field but its time is answered as it was
/// the first time, whatever was commanded in between, and changes nothing: not
/// even holds that are due expire.
pub proof fn exact_retry_is_replayed(
    state: State,
    command: Command,
    between: Seq<Command>,
    retry: Command,
)
    requires
        same_request(command, retry),
        model::stored(state.decisions, model::key_of(command)) is None,
    ensures
        ({
            let later = after_all(model::after(state, command), between);
            &&& model::answer(later, retry) == model::answer(state, command)
            &&& model::after(later, retry) == later
        }),
{
    let decided = model::after(state, command);
    assert(decided.decisions.drop_last() =~= state.decisions);
    assert(same_identity(command, retry));
    lemma_payload_tells_requests_apart(command, retry);
    lemma_decision_stays(decided, between, model::key_of(command));
}

/// A command that reuses the identity of an earlier one, with any other field
/// different, is refused, whatever was commanded in between, and changes nothing.
pub proof fn payload_mismatch_is_refused(
    state: State,
    command: Command,
    between: Seq<Command>,
    other: Command,
)
    requires
        same_identity(command, other),
        !same_request(command, other),
        model::stored(state.decisions, model::key_of(command)) is None,
    ensures
        ({
            let later = after_all(model::after(state, command), between);
            &&& model::answer(later, other) == model::rejected(
                "request_id_payload_mismatch"@,
                None,
                None,
            )
            &&& model::after(later, other) == later
        }),
{
    let decided = model::after(state, command);
    assert(decided.decisions.drop_last() =~= state.decisions);
    lemma_payload_tells_requests_apart(command, other);
    lemma_decision_stays(decided, between, model::key_of(command));
}

/// At the very moment at which a hold expires, expiry wins over its confirmation.
pub proof fn expiry_wins_at_equality(state: State, tenant: u16, request_id: u64, now: u32, i: int)
    requires
        model::place_of(state.bookings, tenant, request_id) == Some(i),
        state.bookings[i].status == (Status::Held { expires_at: now }),
        model::stored(
            state.decisions,
            model::key_of(Command::Confirm { tenant, request_id, now }),
        ) is None,
    ensures
        model::answer(state, Command::Confirm { tenant, request_id, now }).code == "expired_hold"@,
        model::after(
            state,
            Command::Confirm { tenant, request_id, now },
        ).bookings[i].status == Status::Expired,
{
    authority::lemma_place(state.bookings, tenant, request_id);
    let bookings = model::sweep(state.bookings, now);
    lemma_place_swept(state.bookings, tenant, request_id, now);
    assert(bookings[i] == model::swept(state.bookings[i], now));
}

proof fn lemma_place_swept(bookings: Seq<Booking>, tenant: u16, request_id: u64, now: u32)
    ensures
        model::place_of(model::sweep(bookings, now), tenant, request_id) == model::place_of(
            bookings,
            tenant,
            request_id,
        ),
    decreases bookings.len(),
{
    let after = model::sweep(bookings, now);
    if bookings.len() > 0 {
        lemma_place_swept(bookings.drop_last(), tenant, request_id, now);
        assert(after.drop_last() =~= model::sweep(bookings.drop_last(), now));
        assert(after.last() == model::swept(bookings.last(), now));
    }
}

} // verus!
