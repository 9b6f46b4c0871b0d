//! Which commands are granted, told by the doors and by the bookings that stand.

use vstd::prelude::*;
use crate::dock::authority;
use crate::dock::inspect;
use crate::dock::laws;
use crate::dock::model;
use crate::dock::model::{Booking, Command, Door, HoldSpec, State, Status};

verus! {

/// A booking counts at a moment: it is confirmed, or held until later.
pub open spec fn alive(booking: Booking, now: u32) -> bool {
    match booking.status {
        Status::Held { expires_at } => expires_at > now,
        Status::Confirmed => true,
        Status::Cancelled => false,
        Status::Expired => false,
    }
}

/// A booking is for a door, and its time takes up an interval.
pub open spec fn there(booking: Booking, door: int, interval: int) -> bool {
    booking.door == door && booking.spec.arrival <= interval < booking.spec.arrival
        + booking.spec.duration
}

pub open spec fn key(booking: Booking) -> (u16, u64) {
    (booking.spec.tenant, booking.spec.request_id)
}

/// The pallets of the bookings that count at a door in an interval, but for one booking.
pub open spec fn pallets_there(
    bookings: Seq<Booking>,
    but: Option<(u16, u64)>,
    now: u32,
    door: int,
    interval: int,
) -> nat
    decreases bookings.len(),
{
    if bookings.len() == 0 {
        0
    } else {
        let last = bookings.last();
        pallets_there(bookings.drop_last(), but, now, door, interval) + if alive(last, now)
            && there(last, door, interval) && but != Some(key(last)) {
            last.spec.pallets as nat
        } else {
            0
        }
    }
}

/// A confirmed booking has a door in an interval, but for one booking.
pub open spec fn confirmed_there(
    bookings: Seq<Booking>,
    but: Option<(u16, u64)>,
    door: int,
    interval: int,
) -> bool {
    exists|i: int|
        0 <= i < bookings.len() && there(#[trigger] bookings[i], door, interval)
            && bookings[i].status == Status::Confirmed && but != Some(key(bookings[i]))
}

/// A door is high enough for a delivery, and cold if the delivery must be.
pub open spec fn suits(door: Door, spec: HoldSpec) -> bool {
    door.height >= spec.height && (spec.refrigerated ==> door.refrigerated)
}

/// A door suits a delivery, no confirmed booking has it meanwhile, and it has room for
/// the pallets in every interval.
pub open spec fn has_room(
    doors: Seq<Door>,
    bookings: Seq<Booking>,
    but: Option<(u16, u64)>,
    now: u32,
    spec: HoldSpec,
    d: int,
) -> bool {
    &&& 0 <= d < doors.len()
    &&& suits(doors[d], spec)
    &&& forall|interval: int|
        spec.arrival <= interval < spec.arrival + spec.duration ==> !#[trigger] confirmed_there(
            bookings,
            but,
            d,
            interval,
        ) && pallets_there(bookings, but, now, d, interval) + spec.pallets
            <= doors[d].pallet_capacity
}

/// The first door with room.
pub open spec fn first_room(
    doors: Seq<Door>,
    bookings: Seq<Booking>,
    but: Option<(u16, u64)>,
    now: u32,
    spec: HoldSpec,
    d: int,
) -> bool {
    has_room(doors, bookings, but, now, spec, d) && forall|e: int|
        0 <= e < d ==> !#[trigger] has_room(doors, bookings, but, now, spec, e)
}

/// No command with its identity has been decided.
pub open spec fn is_new(state: State, command: Command) -> bool {
    model::stored(state.decisions, model::key_of(command)) is None
}

proof fn lemma_pallets(
    bookings: Seq<Booking>,
    but: Option<(u16, u64)>,
    now: u32,
    door: u16,
    interval: int,
)
    ensures
        model::load(model::sweep(bookings, now), but, door, interval) == pallets_there(
            bookings,
            but,
            now,
            door as int,
            interval,
        ),
    decreases bookings.len(),
{
    let swept = model::sweep(bookings, now);
    let amounts = model::pallets_at(swept, but, door, interval);
    if bookings.len() > 0 {
        let front = bookings.drop_last();
        lemma_pallets(front, but, now, door, interval);
        assert(swept.drop_last() =~= model::sweep(front, now));
        assert(amounts.drop_last() =~= model::pallets_at(
            model::sweep(front, now),
            but,
            door,
            interval,
        ));
        assert(swept.last() == model::swept(bookings.last(), now));
        assert(amounts.last() == if model::occupies(swept.last(), but, door, interval) {
            swept.last().spec.pallets as nat
        } else {
            0
        });
    }
}

proof fn lemma_confirmed(
    bookings: Seq<Booking>,
    but: Option<(u16, u64)>,
    now: u32,
    door: u16,
    interval: int,
)
    ensures
        model::taken(model::sweep(bookings, now), but, door, interval) <==> confirmed_there(
            bookings,
            but,
            door as int,
            interval,
        ),
{
    let swept = model::sweep(bookings, now);
    assert forall|i: int| 0 <= i < bookings.len() implies #[trigger] swept[i] == model::swept(
        bookings[i],
        now,
    ) by {}
    if model::taken(swept, but, door, interval) {
        let i = choose|i: int|
            0 <= i < swept.len() && model::occupies(#[trigger] swept[i], but, door, interval)
                && swept[i].status is Confirmed;
        assert(there(bookings[i], door as int, interval));
    }
    if confirmed_there(bookings, but, door as int, interval) {
        let i = choose|i: int|
            0 <= i < bookings.len() && there(#[trigger] bookings[i], door as int, interval)
                && bookings[i].status == Status::Confirmed && but != Some(key(bookings[i]));
        assert(model::occupies(swept[i], but, door, interval));
    }
}

proof fn lemma_first_conflict(
    bookings: Seq<Booking>,
    but: Option<(u16, u64)>,
    door: Door,
    pallets: u16,
    from: int,
    n: nat,
)
    ensures
        model::first_conflict(bookings, but, door, pallets, from, n) is None <==> forall|i: int|
            from <= i < from + n ==> #[trigger] model::conflict_at(
                bookings,
                but,
                door,
                pallets,
                i,
            ) is None,
    decreases n,
{
    if n > 0 {
        lemma_first_conflict(bookings, but, door, pallets, from, (n - 1) as nat);
        let last = model::conflict_at(bookings, but, door, pallets, from + n - 1);
    }
}

/// A door is free of conflicts where it has room.
proof fn lemma_room(
    doors: Seq<Door>,
    bookings: Seq<Booking>,
    but: Option<(u16, u64)>,
    now: u32,
    spec: HoldSpec,
    d: int,
)
    requires
        0 <= d < doors.len() <= u16::MAX,
        doors[d].id == d,
        doors[d].pallet_capacity < u16::MAX,
    ensures
        has_room(doors, bookings, but, now, spec, d) <==> model::compatible(doors[d], spec)
            && model::first_conflict(
            model::sweep(bookings, now),
            but,
            doors[d],
            spec.pallets,
            spec.arrival as int,
            spec.duration as nat,
        ) is None,
{
    let swept = model::sweep(bookings, now);
    let door = doors[d];
    lemma_first_conflict(
        swept,
        but,
        door,
        spec.pallets,
        spec.arrival as int,
        spec.duration as nat,
    );
    assert forall|i: int| #[trigger]
        model::conflict_at(swept, but, door, spec.pallets, i) is None <==> !confirmed_there(
            bookings,
            but,
            d,
            i,
        ) && pallets_there(bookings, but, now, d, i) + spec.pallets <= door.pallet_capacity by {
        lemma_pallets(bookings, but, now, door.id, i);
        lemma_confirmed(bookings, but, now, door.id, i);
    }
    if has_room(doors, bookings, but, now, spec, d) {
        assert forall|i: int|
            spec.arrival <= i < spec.arrival + spec.duration implies #[trigger] model::conflict_at(
            swept,
            but,
            door,
            spec.pallets,
            i,
        ) is None by {
            assert(!confirmed_there(bookings, but, d, i));
        }
    }
    if model::compatible(door, spec) && model::first_conflict(
        swept,
        but,
        door,
        spec.pallets,
        spec.arrival as int,
        spec.duration as nat,
    ) is None {
        assert forall|i: int|
            spec.arrival <= i < spec.arrival + spec.duration implies !#[trigger] confirmed_there(
            bookings,
            but,
            d,
            i,
        ) && pallets_there(bookings, but, now, d, i) + spec.pallets <= door.pallet_capacity by {
            assert(model::conflict_at(swept, but, door, spec.pallets, i) is None);
        }
    }
}

proof fn lemma_search_room(
    doors: Seq<Door>,
    bookings: Seq<Booking>,
    but: Option<(u16, u64)>,
    now: u32,
    spec: HoldSpec,
    n: nat,
)
    requires
        n <= doors.len() <= u16::MAX,
        forall|i: int| 0 <= i < doors.len() ==> (#[trigger] doors[i]).id == i,
        laws::measurable(doors),
    ensures
        match model::search(doors, model::sweep(bookings, now), but, spec, n).found {
            Some(door) => door < n && first_room(doors, bookings, but, now, spec, door as int),
            None => forall|d: int|
                0 <= d < n ==> !#[trigger] has_room(doors, bookings, but, now, spec, d),
        },
    decreases n,
{
    if n > 0 {
        lemma_search_room(doors, bookings, but, now, spec, (n - 1) as nat);
        lemma_room(doors, bookings, but, now, spec, n - 1);
        assert(doors[n - 1].pallet_capacity < u16::MAX);
    }
}

/// A new hold is granted exactly if it lasts one to eight intervals, lives one to
/// fifteen, and some door has room for it; it then gets the first such door, until its
/// lifetime is over, and a place among the bookings.
pub proof fn holds_get_the_first_door_with_room(state: State, spec: HoldSpec, now: u32)
    requires
        model::consistent(state),
        laws::measurable(state.doors),
        is_new(state, Command::Hold { spec, now }),
        now + spec.lifetime <= u32::MAX,
        state.next_order < u64::MAX,
    ensures
        ({
            let command = Command::Hold { spec, now };
            let told = model::answer(state, command);
            let after = model::after(state, command).bookings;
            &&& told.accepted <==> 1 <= spec.duration <= 8 && 1 <= spec.lifetime <= 15
                && exists|d: int| #[trigger]
                has_room(state.doors, state.bookings, None, now, spec, d)
            &&& told.accepted ==> {
                let d = told.door->0;
                &&& told.door is Some
                &&& first_room(state.doors, state.bookings, None, now, spec, d as int)
                &&& told.interval == Some(spec.arrival) && told.version == Some(0u32)
                &&& after.contains(
                    Booking {
                        spec,
                        door: d,
                        version: 0,
                        accepted_order: state.next_order as u64,
                        status: Status::Held { expires_at: (now + spec.lifetime) as u32 },
                    },
                )
            }
            &&& told.code == "invalid_request"@ <==> !(1 <= spec.duration <= 8 && 1
                <= spec.lifetime <= 15)
            &&& told.code == "no_compatible_door"@ <==> 1 <= spec.duration <= 8 && 1
                <= spec.lifetime <= 15 && forall|d: int|
                0 <= d < state.doors.len() ==> !suits(#[trigger] state.doors[d], spec)
        }),
{
    let doors = state.doors;
    let swept = model::sweep(state.bookings, now);
    lemma_search_room(doors, state.bookings, None, now, spec, doors.len());
    lemma_search_open(doors, swept, None, spec, doors.len());
    let found = model::search(doors, swept, None, spec, doors.len());
    reveal_strlit("invalid_request");
    reveal_strlit("no_compatible_door");
    reveal_strlit("time_conflict");
    reveal_strlit("pallet_capacity");
    reveal_strlit("hold_accepted");
    assert("invalid_request"@.len() == 15 && "invalid_request"@[0] == 'i');
    assert("pallet_capacity"@.len() == 15 && "pallet_capacity"@[0] == 'p');
    assert("no_compatible_door"@.len() == 18 && "time_conflict"@.len() == 13
        && "hold_accepted"@.len() == 13);
    authority::lemma_place(swept, spec.tenant, spec.request_id);
    if let Some(door) = found.found {
        let booking = Booking {
            spec,
            door,
            version: 0,
            accepted_order: state.next_order as u64,
            status: Status::Held { expires_at: (now + spec.lifetime) as u32 },
        };
        let after = model::put(swept, booking);
        match model::place_of(swept, spec.tenant, spec.request_id) {
            Some(i) => assert(after[i] == booking),
            None => assert(after[swept.len() as int] == booking),
        }
        assert(has_room(doors, state.bookings, None, now, spec, door as int));
        assert(suits(doors[door as int], spec));
    }
}

/// A search that meets no conflict and finds no door has met no door that suits.
proof fn lemma_search_open(
    doors: Seq<Door>,
    bookings: Seq<Booking>,
    but: Option<(u16, u64)>,
    spec: HoldSpec,
    n: nat,
)
    requires
        n <= doors.len(),
    ensures
        ({
            let found = model::search(doors, bookings, but, spec, n);
            found.found is None && found.time is None && found.capacity is None <==> forall|d: int|
                0 <= d < n ==> !suits(#[trigger] doors[d], spec)
        }),
    decreases n,
{
    if n > 0 {
        lemma_search_open(doors, bookings, but, spec, (n - 1) as nat);
        assert(suits(doors[n - 1], spec) == model::compatible(doors[n - 1], spec));
    }
}

/// Every booking that is held or confirmed is for a door that is high enough, and cold
/// if the delivery must be.
pub open spec fn well_housed(state: State) -> bool {
    forall|i: int|
        0 <= i < state.bookings.len() && ((#[trigger] state.bookings[i]).status is Held
            || state.bookings[i].status is Confirmed) ==> {
            let booking = state.bookings[i];
            &&& 0 <= booking.door < state.doors.len()
            &&& state.doors[booking.door as int].height >= booking.spec.height
            &&& booking.spec.refrigerated ==> state.doors[booking.door as int].refrigerated
        }
}

/// Every command keeps deliveries at doors that are high enough and, where they must
/// be, cold.
pub proof fn commands_keep_bookings_well_housed(state: State, command: Command)
    requires
        forall|d: int| 0 <= d < state.doors.len() ==> (#[trigger] state.doors[d]).id == d,
        well_housed(state),
    ensures
        well_housed(model::after(state, command)),
{
    if is_new(state, command) {
        let now = model::now_of(command);
        let swept = model::sweep(state.bookings, now);
        let next = model::after(state, command);
        assert forall|i: int| 0 <= i < swept.len() implies #[trigger] swept[i] == model::swept(
            state.bookings[i],
            now,
        ) by {}
        assert(well_housed(State { bookings: swept, ..state }));
        match command {
            Command::Hold { spec, .. } => {
                lemma_search_suits(state.doors, swept, None, spec, state.doors.len());
                authority::lemma_place(swept, spec.tenant, spec.request_id);
            },
            Command::Confirm { tenant, request_id, .. } => {
                authority::lemma_place(swept, tenant, request_id);
            },
            Command::Cancel { tenant, request_id, .. } => {
                authority::lemma_place(swept, tenant, request_id);
            },
            Command::Reschedule { tenant, request_id, arrival, duration, .. } => {
                authority::lemma_place(swept, tenant, request_id);
                if let Some(i) = model::place_of(swept, tenant, request_id) {
                    lemma_search_suits(
                        state.doors,
                        swept,
                        Some((tenant, request_id)),
                        HoldSpec { arrival, duration, ..swept[i].spec },
                        state.doors.len(),
                    );
                }
            },
            Command::Expire { .. } => {},
        }
    }
}

proof fn lemma_search_suits(
    doors: Seq<Door>,
    bookings: Seq<Booking>,
    but: Option<(u16, u64)>,
    spec: HoldSpec,
    n: nat,
)
    requires
        n <= doors.len(),
        forall|i: int| 0 <= i < doors.len() ==> (#[trigger] doors[i]).id == i,
    ensures
        model::search(doors, bookings, but, spec, n).found matches Some(door) ==> door < n
            && suits(doors[door as int], spec),
    decreases n,
{
    if n > 0 {
        lemma_search_suits(doors, bookings, but, spec, (n - 1) as nat);
    }
}

/// Whatever has been commanded since nothing was booked, every booking that is held or
/// confirmed is for a door that suits it.
pub proof fn bookings_are_always_well_housed(doors: Seq<Door>, commands: Seq<Command>)
    requires
        forall|d: int| 0 <= d < doors.len() ==> (#[trigger] doors[d]).id == d,
    ensures
        laws::after_all(authority::fresh(doors), commands).doors == doors,
        well_housed(laws::after_all(authority::fresh(doors), commands)),
    decreases commands.len(),
{
    if commands.len() > 0 {
        let front = commands.drop_last();
        bookings_are_always_well_housed(doors, front);
        commands_keep_bookings_well_housed(
            laws::after_all(authority::fresh(doors), front),
            commands.last(),
        );
    }
}

/// The pallets of the bookings that are held or confirmed at a door in an interval.
pub open spec fn pallets_booked(bookings: Seq<Booking>, door: int, interval: int) -> nat
    decreases bookings.len(),
{
    if bookings.len() == 0 {
        0
    } else {
        let last = bookings.last();
        pallets_booked(bookings.drop_last(), door, interval) + if (last.status is Held
            || last.status is Confirmed) && there(last, door, interval) {
            last.spec.pallets as nat
        } else {
            0
        }
    }
}

/// No two bookings have one key, no door is booked for more pallets than it takes, and no
/// two confirmed bookings have a door in one interval.
pub open spec fn not_overbooked(state: State) -> bool {
    &&& forall|i: int, j: int|
        0 <= i < j < state.bookings.len() ==> key(#[trigger] state.bookings[i]) != key(
            #[trigger] state.bookings[j],
        )
    &&& forall|d: int, interval: int|
        0 <= d < state.doors.len() ==> #[trigger] pallets_booked(state.bookings, d, interval)
            <= state.doors[d].pallet_capacity
    &&& forall|i: int, j: int, d: int, interval: int|
        0 <= i < j < state.bookings.len() && 0 <= d < state.doors.len() && #[trigger] there(
            state.bookings[i],
            d,
            interval,
        ) && #[trigger] there(state.bookings[j], d, interval) ==> !(state.bookings[i].status
            is Confirmed && state.bookings[j].status is Confirmed)
}

proof fn lemma_booked(bookings: Seq<Booking>, door: u16, interval: int)
    ensures
        model::load(bookings, None, door, interval) == pallets_booked(
            bookings,
            door as int,
            interval,
        ),
    decreases bookings.len(),
{
    let amounts = model::pallets_at(bookings, None, door, interval);
    if bookings.len() > 0 {
        let front = bookings.drop_last();
        lemma_booked(front, door, interval);
        assert(amounts.drop_last() =~= model::pallets_at(front, None, door, interval));
        assert(amounts.last() == if model::occupies(bookings.last(), None, door, interval) {
            bookings.last().spec.pallets as nat
        } else {
            0
        });
    }
}

proof fn lemma_not_overbooked(state: State)
    requires
        state.doors.len() <= u16::MAX,
        forall|d: int| 0 <= d < state.doors.len() ==> (#[trigger] state.doors[d]).id == d,
    ensures
        laws::safe(state) <==> not_overbooked(state),
{
    let (doors, bookings) = (state.doors, state.bookings);
    assert forall|d: int, interval: int| 0 <= d < doors.len() implies #[trigger] pallets_booked(
        bookings,
        d,
        interval,
    ) == model::load(bookings, None, doors[d].id, interval) by {
        lemma_booked(bookings, doors[d].id, interval);
    }
    if laws::safe(state) {
        assert forall|i: int, j: int| 0 <= i < j < bookings.len() implies key(
            #[trigger] bookings[i],
        ) != key(#[trigger] bookings[j]) by {
            assert(!model::has_key(
                bookings[i],
                bookings[j].spec.tenant,
                bookings[j].spec.request_id,
            ));
        }
        assert forall|d: int, interval: int| 0 <= d < doors.len() implies #[trigger] pallets_booked(
            bookings,
            d,
            interval,
        ) <= doors[d].pallet_capacity by {
            assert(laws::safe_at(bookings, doors[d], interval));
        }
        assert forall|i: int, j: int, d: int, interval: int|
            0 <= i < j < bookings.len() && 0 <= d < doors.len() && #[trigger] there(
                bookings[i],
                d,
                interval,
            ) && #[trigger] there(bookings[j], d, interval) implies !(bookings[i].status
            is Confirmed && bookings[j].status is Confirmed) by {
            assert(laws::safe_at(bookings, doors[d], interval));
            assert(!(laws::confirmed_at(bookings[i], doors[d].id, interval) && laws::confirmed_at(
                bookings[j],
                doors[d].id,
                interval,
            )));
        }
    }
    if not_overbooked(state) {
        assert forall|i: int, j: int| 0 <= i < j < bookings.len() implies !model::has_key(
            #[trigger] bookings[i],
            (#[trigger] bookings[j]).spec.tenant,
            bookings[j].spec.request_id,
        ) by {
            assert(key(bookings[i]) != key(bookings[j]));
        }
        assert forall|d: int, interval: int| 0 <= d < doors.len() implies #[trigger] laws::safe_at(
            bookings,
            doors[d],
            interval,
        ) by {
            assert(pallets_booked(bookings, d, interval) <= doors[d].pallet_capacity);
            assert forall|i: int, j: int| 0 <= i < j < bookings.len() implies !(
            laws::confirmed_at(#[trigger] bookings[i], doors[d].id, interval)
                && laws::confirmed_at(#[trigger] bookings[j], doors[d].id, interval)) by {
                if laws::confirmed_at(bookings[i], doors[d].id, interval) && laws::confirmed_at(
                    bookings[j],
                    doors[d].id,
                    interval,
                ) {
                    assert(there(bookings[i], d, interval) && there(bookings[j], d, interval));
                }
            }
        }
    }
}

/// No command books a door for more pallets than it takes in any interval, nor confirms
/// two bookings for it there.
pub proof fn commands_never_overbook(state: State, command: Command)
    requires
        model::consistent(state),
        laws::measurable(state.doors),
        not_overbooked(state),
    ensures
        not_overbooked(model::after(state, command)),
{
    lemma_not_overbooked(state);
    lemma_not_overbooked(model::after(state, command));
    laws::commands_keep_doors_safe(state, command);
}

/// A booking as it stands at a moment: a hold whose time has come is over.
pub open spec fn by_now(booking: Booking, now: u32) -> Booking {
    if booking.status is Held && !alive(booking, now) {
        Booking { status: Status::Expired, ..booking }
    } else {
        booking
    }
}

/// A command changes its own booking at most; every other one stays as it was, but that
/// holds whose time has come are over. One that is refused leaves its own booking so too,
/// and is numbered and remembered like any other.
pub proof fn commands_touch_their_own_booking(state: State, command: Command, i: int)
    requires
        is_new(state, command),
        0 <= i < state.bookings.len(),
        !model::answer(state, command).accepted || match command {
            Command::Hold { spec, .. } => key(state.bookings[i]) != (spec.tenant, spec.request_id),
            Command::Confirm { tenant, request_id, .. } => key(state.bookings[i]) != (
                tenant,
                request_id,
            ),
            Command::Cancel { tenant, request_id, .. } => key(state.bookings[i]) != (
                tenant,
                request_id,
            ),
            Command::Reschedule { tenant, request_id, .. } => key(state.bookings[i]) != (
                tenant,
                request_id,
            ),
            Command::Expire { .. } => true,
        },
    ensures
        ({
            let next = model::after(state, command);
            let told = model::answer(state, command);
            &&& next.bookings.len() >= state.bookings.len()
            &&& next.bookings[i] == by_now(state.bookings[i], model::now_of(command))
            &&& next.doors == state.doors
            &&& next.audits.len() == state.audits.len() + 1
            &&& next.audits.last().outcome == told
            &&& !told.accepted ==> next.bookings.len() == state.bookings.len()
        }),
{
    let now = model::now_of(command);
    let swept = model::sweep(state.bookings, now);
    assert(swept[i] == model::swept(state.bookings[i], now));
    match command {
        Command::Hold { spec, .. } => {
            authority::lemma_place(swept, spec.tenant, spec.request_id);
        },
        Command::Confirm { tenant, request_id, .. } => {
            authority::lemma_place(swept, tenant, request_id);
            lemma_swept_not_due(state.bookings, now, tenant, request_id);
        },
        Command::Cancel { tenant, request_id, .. } => {
            authority::lemma_place(swept, tenant, request_id);
            lemma_swept_not_due(state.bookings, now, tenant, request_id);
        },
        Command::Reschedule { tenant, request_id, .. } => {
            authority::lemma_place(swept, tenant, request_id);
            lemma_swept_not_due(state.bookings, now, tenant, request_id);
        },
        Command::Expire { .. } => {},
    }
}

proof fn lemma_swept_not_due(bookings: Seq<Booking>, now: u32, tenant: u16, request_id: u64)
    ensures
        model::place_of(model::sweep(bookings, now), tenant, request_id) matches Some(i)
            ==> !model::due(model::sweep(bookings, now)[i], now),
{
    let swept = model::sweep(bookings, now);
    authority::lemma_place(swept, tenant, request_id);
    if let Some(i) = model::place_of(swept, tenant, request_id) {
        assert(swept[i] == model::swept(bookings[i], now));
    }
}

/// The booking that a key names.
pub open spec fn names(state: State, tenant: u16, request_id: u64, i: int) -> bool {
    &&& 0 <= i < state.bookings.len()
    &&& key(state.bookings[i]) == (tenant, request_id)
    &&& forall|j: int|
        0 <= j < state.bookings.len() && j != i ==> key(#[trigger] state.bookings[j]) != (
            tenant,
            request_id,
        )
}

proof fn lemma_named(state: State, tenant: u16, request_id: u64, now: u32, i: int)
    requires
        names(state, tenant, request_id, i),
    ensures
        model::place_of(model::sweep(state.bookings, now), tenant, request_id) == Some(i),
        model::sweep(state.bookings, now)[i] == model::swept(state.bookings[i], now),
{
    let swept = model::sweep(state.bookings, now);
    authority::lemma_place(swept, tenant, request_id);
    assert forall|j: int| 0 <= j < swept.len() implies model::has_key(
        #[trigger] swept[j],
        tenant,
        request_id,
    ) == (key(state.bookings[j]) == (tenant, request_id)) by {
        assert(swept[j] == model::swept(state.bookings[j], now));
    }
    assert(model::has_key(swept[i], tenant, request_id));
    if let Some(j) = model::place_of(swept, tenant, request_id) {
        assert(key(state.bookings[j]) == (tenant, request_id));
    }
}

/// A booking is confirmed exactly if it is confirmed already, or held until later while
/// no other confirmed booking has its door in any of its intervals.
pub proof fn living_holds_are_confirmed(
    state: State,
    tenant: u16,
    request_id: u64,
    now: u32,
    i: int,
)
    requires
        model::consistent(state),
        is_new(state, Command::Confirm { tenant, request_id, now }),
        names(state, tenant, request_id, i),
    ensures
        ({
            let command = Command::Confirm { tenant, request_id, now };
            let told = model::answer(state, command);
            let booking = state.bookings[i];
            &&& told.accepted <==> booking.status is Confirmed || alive(booking, now) && forall|
                interval: int,
            |
                booking.spec.arrival <= interval < booking.spec.arrival + booking.spec.duration
                    ==> !#[trigger] confirmed_there(
                    state.bookings,
                    Some((tenant, request_id)),
                    booking.door as int,
                    interval,
                )
            &&& told.accepted ==> model::after(state, command).bookings[i] == (Booking {
                status: Status::Confirmed,
                ..booking
            })
        }),
{
    let booking = state.bookings[i];
    let but = Some((tenant, request_id));
    let swept = model::sweep(state.bookings, now);
    lemma_named(state, tenant, request_id, now, i);
    lemma_first_taken(
        swept,
        but,
        booking.door,
        booking.spec.arrival as int,
        booking.spec.duration as nat,
    );
    assert forall|interval: int| #[trigger]
        confirmed_there(state.bookings, but, booking.door as int, interval) <==> model::taken(
            swept,
            but,
            booking.door,
            interval,
        ) by {
        lemma_confirmed(state.bookings, but, now, booking.door, interval);
    }
    if model::first_taken(
        swept,
        but,
        booking.door,
        booking.spec.arrival as int,
        booking.spec.duration as nat,
    ) is Some {
        let t = choose|t: int|
            booking.spec.arrival <= t < booking.spec.arrival + booking.spec.duration
                && #[trigger] model::taken(swept, but, booking.door, t);
        assert(confirmed_there(state.bookings, but, booking.door as int, t));
    }
}

proof fn lemma_first_taken(
    bookings: Seq<Booking>,
    but: Option<(u16, u64)>,
    door: u16,
    from: int,
    n: nat,
)
    ensures
        model::first_taken(bookings, but, door, from, n) is Some <==> exists|t: int|
            from <= t < from + n && #[trigger] model::taken(bookings, but, door, t),
    decreases n,
{
    if n > 0 {
        lemma_first_taken(bookings, but, door, from, (n - 1) as nat);
        let last = model::taken(bookings, but, door, from + n - 1);
    }
}

/// A booking is cancelled exactly if it still counts.
pub proof fn living_bookings_are_cancelled(
    state: State,
    tenant: u16,
    request_id: u64,
    now: u32,
    i: int,
)
    requires
        is_new(state, Command::Cancel { tenant, request_id, now }),
        names(state, tenant, request_id, i),
    ensures
        ({
            let command = Command::Cancel { tenant, request_id, now };
            let told = model::answer(state, command);
            &&& told.accepted <==> alive(state.bookings[i], now)
            &&& told.accepted ==> model::after(state, command).bookings[i] == (Booking {
                status: Status::Cancelled,
                ..state.bookings[i]
            })
        }),
{
    lemma_named(state, tenant, request_id, now, i);
}

/// A booking is moved exactly if the command knows its version, the new stay lasts one to
/// eight intervals, the booking still counts, and some door has room for it, its own stay
/// left out; it then gets the first such door and the next version.
pub proof fn living_bookings_are_moved(
    state: State,
    tenant: u16,
    request_id: u64,
    expected_version: u32,
    arrival: u32,
    duration: u8,
    now: u32,
    i: int,
)
    requires
        model::consistent(state),
        laws::measurable(state.doors),
        is_new(
            state,
            Command::Reschedule { tenant, request_id, expected_version, arrival, duration, now },
        ),
        names(state, tenant, request_id, i),
        state.bookings[i].version < u32::MAX,
    ensures
        ({
            let command = Command::Reschedule {
                tenant,
                request_id,
                expected_version,
                arrival,
                duration,
                now,
            };
            let told = model::answer(state, command);
            let booking = state.bookings[i];
            let wanted = HoldSpec { arrival, duration, ..booking.spec };
            let but = Some((tenant, request_id));
            &&& told.accepted <==> 1 <= duration <= 8 && booking.version == expected_version
                && alive(booking, now) && exists|d: int| #[trigger]
                has_room(state.doors, state.bookings, but, now, wanted, d)
            &&& told.accepted ==> {
                &&& told.door is Some
                &&& first_room(state.doors, state.bookings, but, now, wanted, told.door->0 as int)
                &&& model::after(state, command).bookings[i] == (Booking {
                    spec: wanted,
                    door: told.door->0,
                    version: (booking.version + 1) as u32,
                    ..booking
                })
            }
        }),
{
    let booking = state.bookings[i];
    let wanted = HoldSpec { arrival, duration, ..booking.spec };
    let but = Some((tenant, request_id));
    lemma_named(state, tenant, request_id, now, i);
    lemma_search_room(state.doors, state.bookings, but, now, wanted, state.doors.len());
    let swept = model::sweep(state.bookings, now);
    let found = model::search(state.doors, swept, but, wanted, state.doors.len());
    if let Some(door) = found.found {
        assert(has_room(state.doors, state.bookings, but, now, wanted, door as int));
    }
}

/// A command that names no booking is refused.
pub proof fn unknown_bookings_are_refused(state: State, command: Command)
    requires
        is_new(state, command),
        match command {
            Command::Confirm { tenant, request_id, .. } => forall|j: int|
                0 <= j < state.bookings.len() ==> key(#[trigger] state.bookings[j]) != (
                    tenant,
                    request_id,
                ),
            Command::Cancel { tenant, request_id, .. } => forall|j: int|
                0 <= j < state.bookings.len() ==> key(#[trigger] state.bookings[j]) != (
                    tenant,
                    request_id,
                ),
            Command::Reschedule { tenant, request_id, .. } => forall|j: int|
                0 <= j < state.bookings.len() ==> key(#[trigger] state.bookings[j]) != (
                    tenant,
                    request_id,
                ),
            _ => false,
        },
    ensures
        !model::answer(state, command).accepted,
        model::answer(state, command).code == "booking_not_found"@,
{
    let now = model::now_of(command);
    let swept = model::sweep(state.bookings, now);
    let (tenant, request_id) = match command {
        Command::Confirm { tenant, request_id, .. } => (tenant, request_id),
        Command::Cancel { tenant, request_id, .. } => (tenant, request_id),
        Command::Reschedule { tenant, request_id, .. } => (tenant, request_id),
        _ => (0, 0),
    };
    authority::lemma_place(swept, tenant, request_id);
    if let Some(j) = model::place_of(swept, tenant, request_id) {
        assert(swept[j] == model::swept(state.bookings[j], now));
        assert(key(state.bookings[j]) != (tenant, request_id));
    }
}

proof fn lemma_one_crowds(bookings: Seq<Booking>, door: u16, interval: int, i: int)
    requires
        0 <= i < bookings.len(),
        laws::confirmed_at(bookings[i], door, interval),
    ensures
        inspect::crowd(bookings, door, interval) >= 1,
    decreases bookings.len(),
{
    reveal(Seq::filter);
    if i < bookings.len() - 1 {
        lemma_one_crowds(bookings.drop_last(), door, interval, i);
    }
}

proof fn lemma_two_crowd(bookings: Seq<Booking>, door: u16, interval: int, i: int, j: int)
    requires
        0 <= i < j < bookings.len(),
        laws::confirmed_at(bookings[i], door, interval),
        laws::confirmed_at(bookings[j], door, interval),
    ensures
        inspect::crowd(bookings, door, interval) >= 2,
    decreases bookings.len(),
{
    reveal(Seq::filter);
    if j < bookings.len() - 1 {
        lemma_two_crowd(bookings.drop_last(), door, interval, i, j);
    } else {
        lemma_one_crowds(bookings.drop_last(), door, interval, i);
    }
}

proof fn lemma_horizon(bookings: Seq<Booking>, i: int)
    requires
        0 <= i < bookings.len(),
    ensures
        bookings[i].spec.arrival + bookings[i].spec.duration <= inspect::horizon(bookings),
    decreases bookings.len(),
{
    if i < bookings.len() - 1 {
        lemma_horizon(bookings.drop_last(), i);
    }
}

proof fn lemma_nobody_there(bookings: Seq<Booking>, door: int, interval: int)
    requires
        forall|i: int| 0 <= i < bookings.len() ==> !there(#[trigger] bookings[i], door, interval),
    ensures
        pallets_booked(bookings, door, interval) == 0,
    decreases bookings.len(),
{
    if bookings.len() > 0 {
        let front = bookings.drop_last();
        assert forall|i: int| 0 <= i < front.len() implies !there(
            #[trigger] front[i],
            door,
            interval,
        ) by {
            assert(!there(bookings[i], door, interval));
        }
        lemma_nobody_there(front, door, interval);
        assert(!there(bookings[bookings.len() - 1], door, interval));
    }
}

proof fn lemma_no_fault(bookings: Seq<Booking>, door: Door, n: nat, interval: int)
    requires
        inspect::first_fault(bookings, door, n) is None,
        0 <= interval < n,
    ensures
        inspect::fault_at(bookings, door, interval) is None,
    decreases n,
{
    if interval < n - 1 {
        lemma_no_fault(bookings, door, (n - 1) as nat, interval);
    }
}

proof fn lemma_no_door_fault(state: State, n: nat, d: int)
    requires
        inspect::first_door_fault(state, n) is None,
        0 <= d < n,
    ensures
        inspect::first_fault(
            state.bookings,
            state.doors[d],
            inspect::horizon(state.bookings),
        ) is None,
    decreases n,
{
    if d < n - 1 {
        lemma_no_door_fault(state, (n - 1) as nat, d);
    }
}

proof fn lemma_inspected(state: State, d: int, interval: int)
    requires
        inspect::first_door_fault(state, state.doors.len()) is None,
        0 <= d < state.doors.len(),
        state.doors[d].id == d,
    ensures
        laws::safe_at(state.bookings, state.doors[d], interval),
{
    let (bookings, door) = (state.bookings, state.doors[d]);
    lemma_booked(bookings, door.id, interval);
    lemma_no_door_fault(state, state.doors.len(), d);
    if 0 <= interval < inspect::horizon(bookings) {
        lemma_no_fault(bookings, door, inspect::horizon(bookings), interval);
        assert forall|i: int, j: int| 0 <= i < j < bookings.len() implies !(laws::confirmed_at(
            #[trigger] bookings[i],
            door.id,
            interval,
        ) && laws::confirmed_at(#[trigger] bookings[j], door.id, interval)) by {
            if laws::confirmed_at(bookings[i], door.id, interval) && laws::confirmed_at(
                bookings[j],
                door.id,
                interval,
            ) {
                lemma_two_crowd(bookings, door.id, interval, i, j);
            }
        }
    } else {
        assert forall|i: int| 0 <= i < bookings.len() implies !there(
            #[trigger] bookings[i],
            d,
            interval,
        ) by {
            lemma_horizon(bookings, i);
        }
        lemma_nobody_there(bookings, d, interval);
        assert forall|i: int, j: int| 0 <= i < j < bookings.len() implies !(laws::confirmed_at(
            #[trigger] bookings[i],
            door.id,
            interval,
        ) && laws::confirmed_at(#[trigger] bookings[j], door.id, interval)) by {
            assert(!there(bookings[i], d, interval));
        }
    }
}

/// The check finds nothing where no door is overbooked, and only there.
pub proof fn only_overbooked_doors_fail_inspection(state: State)
    requires
        state.doors.len() <= u16::MAX,
        forall|d: int| 0 <= d < state.doors.len() ==> (#[trigger] state.doors[d]).id == d,
        forall|i: int, j: int|
            0 <= i < j < state.bookings.len() ==> key(#[trigger] state.bookings[i]) != key(
                #[trigger] state.bookings[j],
            ),
    ensures
        inspect::first_door_fault(state, state.doors.len()) is None <==> not_overbooked(state),
{
    lemma_not_overbooked(state);
    if inspect::first_door_fault(state, state.doors.len()) is None {
        assert(laws::distinct(state.bookings)) by {
            assert forall|i: int, j: int| 0 <= i < j < state.bookings.len() implies !model::has_key(
                #[trigger] state.bookings[i],
                (#[trigger] state.bookings[j]).spec.tenant,
                state.bookings[j].spec.request_id,
            ) by {
                assert(key(state.bookings[i]) != key(state.bookings[j]));
            }
        }
        assert forall|d: int, interval: int| 0 <= d < state.doors.len() implies #[trigger] laws::safe_at(
            state.bookings,
            state.doors[d],
            interval,
        ) by {
            lemma_inspected(state, d, interval);
        }
    }
    if not_overbooked(state) {
        inspect::safe_state_passes_inspection(state, state.doors.len());
    }
}

} // verus!
