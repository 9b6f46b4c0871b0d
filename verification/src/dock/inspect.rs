//! Checking what the authority holds, door by door and interval by interval.

use vstd::prelude::*;
use crate::dock::authority;
use crate::dock::authority::Authority;
use crate::dock::laws;
use crate::dock::model;
use crate::dock::model::{Booking, Door, State, Status};
use crate::seqs;
use crate::text;
use crate::text::push_decimal;

verus! {

/// How many confirmed bookings take up a door in an interval.
pub open spec fn crowd(bookings: Seq<Booking>, door: u16, interval: int) -> nat {
    bookings.filter(|booking: Booking| laws::confirmed_at(booking, door, interval)).len()
}

/// The interval after the last booking.
pub open spec fn horizon(bookings: Seq<Booking>) -> nat
    decreases bookings.len(),
{
    if bookings.len() == 0 {
        0
    } else {
        let end = (bookings.last().spec.arrival + bookings.last().spec.duration) as nat;
        let before = horizon(bookings.drop_last());
        if end > before {
            end
        } else {
            before
        }
    }
}

/// What is wrong with a door in an interval.
pub open spec fn fault_at(bookings: Seq<Booking>, door: Door, interval: int) -> Option<Seq<char>> {
    let used = model::load(bookings, None, door.id, interval);
    let confirmed = crowd(bookings, door.id, interval);
    let place = "door "@ + text::decimal(door.id as nat) + " interval "@ + text::decimal(
        interval as nat,
    );
    if used > door.pallet_capacity {
        Some(
            place + " uses "@ + text::decimal(used) + ">"@ + text::decimal(
                door.pallet_capacity as nat,
            ),
        )
    } else if confirmed > 1 {
        Some(place + " has "@ + text::decimal(confirmed) + " confirmed bookings"@)
    } else {
        None
    }
}

/// The first fault of a door before interval `n`.
pub open spec fn first_fault(bookings: Seq<Booking>, door: Door, n: nat) -> Option<Seq<char>>
    decreases n,
{
    if n == 0 {
        None
    } else {
        match first_fault(bookings, door, (n - 1) as nat) {
            Some(fault) => Some(fault),
            None => fault_at(bookings, door, n - 1),
        }
    }
}

/// The first fault among the first `n` doors.
pub open spec fn first_door_fault(state: State, n: nat) -> Option<Seq<char>>
    decreases n,
{
    if n == 0 {
        None
    } else {
        match first_door_fault(state, (n - 1) as nat) {
            Some(fault) => Some(fault),
            None => first_fault(state.bookings, state.doors[n - 1], horizon(state.bookings)),
        }
    }
}

proof fn lemma_fault_stays(bookings: Seq<Booking>, door: Door, n: nat, m: nat)
    requires
        n <= m,
        first_fault(bookings, door, n) is Some,
    ensures
        first_fault(bookings, door, m) == first_fault(bookings, door, n),
    decreases m,
{
    if n < m {
        lemma_fault_stays(bookings, door, n, (m - 1) as nat);
    }
}

proof fn lemma_door_fault_stays(state: State, n: nat, m: nat)
    requires
        n <= m,
        first_door_fault(state, n) is Some,
    ensures
        first_door_fault(state, m) == first_door_fault(state, n),
    decreases m,
{
    if n < m {
        lemma_door_fault_stays(state, n, (m - 1) as nat);
    }
}

fn find_horizon(bookings: &Vec<Booking>) -> (end: u32)
    requires
        authority::bounded(bookings@),
    ensures
        end == horizon(bookings@),
{
    let mut end: u32 = 0;
    let mut i: usize = 0;
    assert(bookings@.take(0) =~= Seq::<Booking>::empty());
    while i < bookings.len()
        invariant
            i <= bookings@.len(),
            authority::bounded(bookings@),
            end == horizon(bookings@.take(i as int)),
        decreases bookings@.len() - i,
    {
        assert(bookings@.take(i + 1).drop_last() =~= bookings@.take(i as int));
        let spec = bookings[i].spec;
        let own: u32 = spec.arrival + spec.duration as u32;
        if own > end {
            end = own;
        }
        i = i + 1;
    }
    assert(bookings@.take(bookings@.len() as int) =~= bookings@);
    end
}

fn find_fault(bookings: &Vec<Booking>, door: &Door, interval: u32) -> (fault: Option<String>)
    requires
        authority::bounded(bookings@),
        bookings@.len() <= u32::MAX,
    ensures
        match fault {
            Some(fault) => fault_at(bookings@, *door, interval as int) == Some(fault@),
            None => fault_at(bookings@, *door, interval as int) is None,
        },
{
    let ghost terms = model::pallets_at(bookings@, None, door.id, interval as int);
    let ghost sealed = |booking: Booking| laws::confirmed_at(booking, door.id, interval as int);
    let mut used: u64 = 0;
    let mut confirmed: u64 = 0;
    let mut i: usize = 0;
    proof {
        assert(terms.take(0) =~= Seq::<nat>::empty());
        reveal(Seq::filter);
        assert(bookings@.take(0).filter(sealed).len() == 0);
    }
    while i < bookings.len()
        invariant
            i <= bookings@.len() <= u32::MAX,
            authority::bounded(bookings@),
            terms == model::pallets_at(bookings@, None, door.id, interval as int),
            sealed == |booking: Booking| laws::confirmed_at(booking, door.id, interval as int),
            used == seqs::sum(terms.take(i as int)),
            used <= i * 0xffff,
            confirmed == bookings@.take(i as int).filter(sealed).len(),
            confirmed <= i,
        decreases bookings@.len() - i,
    {
        proof {
            seqs::lemma_sum_take(terms, i as int);
            reveal(Seq::filter);
            assert(bookings@.take(i + 1).drop_last() =~= bookings@.take(i as int));
        }
        let booking = &bookings[i];
        if authority::occupies(booking, None, door.id, interval) {
            used = used + booking.spec.pallets as u64;
            if let Status::Confirmed = booking.status {
                confirmed = confirmed + 1;
            }
        }
        i = i + 1;
    }
    assert(terms.take(terms.len() as int) =~= terms);
    assert(bookings@.take(bookings@.len() as int) =~= bookings@);
    if used <= door.pallet_capacity as u64 && confirmed <= 1 {
        return None;
    }
    let mut fault = "door ".to_owned();
    push_decimal(&mut fault, door.id as u64);
    fault.append(" interval ");
    push_decimal(&mut fault, interval as u64);
    if used > door.pallet_capacity as u64 {
        fault.append(" uses ");
        push_decimal(&mut fault, used);
        fault.append(">");
        push_decimal(&mut fault, door.pallet_capacity as u64);
    } else {
        fault.append(" has ");
        push_decimal(&mut fault, confirmed);
        fault.append(" confirmed bookings");
    }
    Some(fault)
}

fn find_first_fault(bookings: &Vec<Booking>, door: &Door, end: u32) -> (fault: Option<String>)
    requires
        authority::bounded(bookings@),
        bookings@.len() <= u32::MAX,
    ensures
        match fault {
            Some(fault) => first_fault(bookings@, *door, end as nat) == Some(fault@),
            None => first_fault(bookings@, *door, end as nat) is None,
        },
{
    let mut n: u32 = 0;
    while n < end
        invariant
            n <= end,
            authority::bounded(bookings@),
            bookings@.len() <= u32::MAX,
            first_fault(bookings@, *door, n as nat) is None,
        decreases end - n,
    {
        if let Some(fault) = find_fault(bookings, door, n) {
            proof {
                lemma_fault_stays(bookings@, *door, (n + 1) as nat, end as nat);
            }
            return Some(fault);
        }
        n = n + 1;
    }
    None
}

impl Authority {
    /// Looks for a door that is overbooked or confirmed twice. That every decision
    /// has its audit is part of being well formed.
    pub fn check_invariants(&self) -> (result: Result<(), String>)
        requires
            self.well_formed(),
            self@.bookings.len() <= u32::MAX,
        ensures
            match result {
                Ok(_) => first_door_fault(self@, self@.doors.len()) is None,
                Err(fault) => first_door_fault(self@, self@.doors.len()) == Some(fault@),
            },
    {
        let bookings = self.bookings();
        let doors = self.doors();
        let end = find_horizon(bookings);
        let mut n: usize = 0;
        while n < doors.len()
            invariant
                n <= doors@.len(),
                doors@ == self@.doors,
                bookings@ == self@.bookings,
                end == horizon(bookings@),
                authority::bounded(bookings@),
                bookings@.len() <= u32::MAX,
                first_door_fault(self@, n as nat) is None,
            decreases doors@.len() - n,
        {
            if let Some(fault) = find_first_fault(bookings, &doors[n], end) {
                proof {
                    lemma_door_fault_stays(self@, (n + 1) as nat, doors@.len());
                }
                return Err(fault);
            }
            n = n + 1;
        }
        Ok(())
    }
}

proof fn lemma_crowd(bookings: Seq<Booking>, door: u16, interval: int)
    requires
        laws::exclusive(bookings, door, interval),
    ensures
        crowd(bookings, door, interval) <= 1,
    decreases bookings.len(),
{
    reveal(Seq::filter);
    if bookings.len() > 0 {
        let front = bookings.drop_last();
        assert(laws::exclusive(front, door, interval)) by {
            assert forall|i: int, j: int| 0 <= i < j < front.len() implies !(laws::confirmed_at(
                #[trigger] front[i],
                door,
                interval,
            ) && laws::confirmed_at(#[trigger] front[j], door, interval)) by {
                assert(!(laws::confirmed_at(bookings[i], door, interval) && laws::confirmed_at(
                    bookings[j],
                    door,
                    interval,
                )));
            }
        }
        lemma_crowd(front, door, interval);
        if laws::confirmed_at(bookings.last(), door, interval) {
            lemma_no_crowd(front, door, interval);
        }
    }
}

proof fn lemma_no_crowd(front: Seq<Booking>, door: u16, interval: int)
    requires
        forall|i: int| 0 <= i < front.len() ==> !laws::confirmed_at(#[trigger] front[i], door, interval),
    ensures
        crowd(front, door, interval) == 0,
    decreases front.len(),
{
    reveal(Seq::filter);
    if front.len() > 0 {
        assert(!laws::confirmed_at(front[front.len() - 1], door, interval));
        assert forall|i: int| 0 <= i < front.drop_last().len() implies !laws::confirmed_at(
            #[trigger] front.drop_last()[i],
            door,
            interval,
        ) by {
            assert(!laws::confirmed_at(front[i], door, interval));
        }
        lemma_no_crowd(front.drop_last(), door, interval);
    }
}

/// The check finds nothing where every door is safe.
pub proof fn safe_state_passes_inspection(state: State, n: nat)
    requires
        laws::safe(state),
        n <= state.doors.len(),
    ensures
        first_door_fault(state, n) is None,
    decreases n,
{
    if n > 0 {
        safe_state_passes_inspection(state, (n - 1) as nat);
        lemma_safe_door(state, n - 1, horizon(state.bookings));
    }
}

proof fn lemma_safe_door(state: State, d: int, n: nat)
    requires
        laws::safe(state),
        0 <= d < state.doors.len(),
    ensures
        first_fault(state.bookings, state.doors[d], n) is None,
    decreases n,
{
    if n > 0 {
        lemma_safe_door(state, d, (n - 1) as nat);
        assert(laws::safe_at(state.bookings, state.doors[d], n - 1));
        lemma_crowd(state.bookings, state.doors[d].id, n - 1);
    }
}

} // verus!
