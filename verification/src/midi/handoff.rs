//! Publication of prepared plans through two fixed slots, with delayed
//! reclamation of the plan that a running callback still reads.

use vstd::prelude::*;
use crate::midi::plan::{PlanView, PreparedPlan};

verus! {

#[derive(Clone, Copy, Debug, PartialEq, Eq, Structural)]
enum SlotState {
    Current,
    Retired,
}

struct PlanSlot {
    plan: PreparedPlan,
    generation: u64,
    state: SlotState,
    active_ticket: Option<u64>,
}

#[derive(Clone, Copy, Debug, PartialEq, Eq, Structural)]
pub struct PublishReceipt {
    pub generation: u64,
    pub digest: u64,
}

#[derive(Clone, Copy, Debug, PartialEq, Eq, Structural)]
pub struct ReadTicket {
    slot: usize,
    generation: u64,
    digest: u64,
    ticket_id: u64,
}

#[derive(Clone, Copy, Debug, PartialEq, Eq, Structural)]
pub struct PlanObservation {
    pub generation: u64,
    pub digest: u64,
}

#[derive(Clone, Copy, Debug, PartialEq, Eq, Structural)]
pub struct ReclaimedGeneration {
    pub generation: u64,
    pub digest: u64,
}

#[derive(Clone, Copy, Debug, PartialEq, Eq, Structural)]
pub enum PublishError {
    NoFreeSlot,
    GenerationExhausted,
}

#[derive(Clone, Copy, Debug, PartialEq, Eq, Structural)]
pub enum HandoffError {
    StaleTicket,
    ReaderAlreadyEnded,
}

/// One occupied slot: a complete plan, its generation, whether a newer plan
/// has replaced it, and the callback that reads it.
#[verifier::ext_equal]
pub struct SlotView {
    pub plan: PlanView,
    pub generation: u64,
    pub retired: bool,
    pub ticket: Option<u64>,
}

/// What a ticket pins.
pub struct TicketView {
    pub slot: usize,
    pub generation: u64,
    pub digest: u64,
    pub ticket_id: u64,
}

/// Both slots, which of them is current, and the counters.
#[verifier::ext_equal]
pub struct HandoffView {
    pub slots: Seq<Option<SlotView>>,
    pub current: Option<usize>,
    pub next_generation: u64,
    pub next_ticket: u64,
}

impl View for ReadTicket {
    type V = TicketView;

    closed spec fn view(&self) -> TicketView {
        TicketView {
            slot: self.slot,
            generation: self.generation,
            digest: self.digest,
            ticket_id: self.ticket_id,
        }
    }
}

spec fn slot_view(slot: Option<PlanSlot>) -> Option<SlotView> {
    match slot {
        Some(slot) => Some(
            SlotView {
                plan: slot.plan@,
                generation: slot.generation,
                retired: slot.state == SlotState::Retired,
                ticket: slot.active_ticket,
            },
        ),
        None => None,
    }
}

/// Two-slot fake-host handoff used to model publication and delayed reclamation.
///
/// This deliberately is not claimed to be a concurrent lock-free primitive: its
/// methods require exclusive access while reader boundaries are instrumented.
pub struct FixedHandoff {
    first: Option<PlanSlot>,
    second: Option<PlanSlot>,
    current: Option<usize>,
    next_generation: u64,
    next_ticket: u64,
}

impl View for FixedHandoff {
    type V = HandoffView;

    closed spec fn view(&self) -> HandoffView {
        HandoffView {
            slots: seq![slot_view(self.first), slot_view(self.second)],
            current: self.current,
            next_generation: self.next_generation,
            next_ticket: self.next_ticket,
        }
    }
}

/// The current slot is occupied and not retired, and holds the generation before
/// the next one; every other occupied slot is retired and older. While nothing is
/// current, nothing is held.
pub open spec fn valid_handoff(state: HandoffView) -> bool {
    &&& state.slots.len() == 2
    &&& (state.current matches Some(index) ==> index < 2 && state.slots[index as int] is Some
        && state.slots[index as int]->0.generation + 1 == state.next_generation)
    &&& (state.current is None ==> state.slots[0] is None && state.slots[1] is None)
    &&& forall|i: int|
        0 <= i < 2 && (#[trigger] state.slots[i]) is Some ==> {
            &&& state.slots[i]->0.retired == (state.current != Some(i as usize))
            &&& state.slots[i]->0.generation < state.next_generation
        }
    &&& (state.slots[0] is Some && state.slots[1] is Some ==> state.slots[0]->0.generation
        != state.slots[1]->0.generation)
}

/// The first free slot, if any.
pub open spec fn free_slot(state: HandoffView) -> Option<usize> {
    if state.slots[0] is None {
        Some(0usize)
    } else if state.slots[1] is None {
        Some(1usize)
    } else {
        None
    }
}

pub open spec fn retire(slot: Option<SlotView>) -> Option<SlotView> {
    match slot {
        Some(slot) => Some(SlotView { retired: true, ..slot }),
        None => None,
    }
}

/// Why a publication is refused, if it is.
pub open spec fn publish_error(state: HandoffView) -> Option<PublishError> {
    if free_slot(state) is None {
        Some(PublishError::NoFreeSlot)
    } else if state.next_generation == u64::MAX {
        Some(PublishError::GenerationExhausted)
    } else {
        None
    }
}

/// The handoff after `plan` went into the free slot.
pub open spec fn published(state: HandoffView, plan: PlanView) -> HandoffView {
    let free = free_slot(state)->0;
    let retired = match state.current {
        Some(index) => state.slots.update(index as int, retire(state.slots[index as int])),
        None => state.slots,
    };
    HandoffView {
        slots: retired.update(
            free as int,
            Some(
                SlotView {
                    plan,
                    generation: state.next_generation,
                    retired: false,
                    ticket: None,
                },
            ),
        ),
        current: Some(free),
        next_generation: (state.next_generation + 1) as u64,
        next_ticket: state.next_ticket,
    }
}

/// The slot that the ticket names, if it still holds the same plan.
pub open spec fn named_slot(state: HandoffView, ticket: TicketView) -> Option<SlotView> {
    if ticket.slot < 2 && state.slots[ticket.slot as int] is Some && state.slots[ticket.slot as int]
        ->0.generation == ticket.generation && state.slots[ticket.slot as int]->0.plan.digest
        == ticket.digest {
        state.slots[ticket.slot as int]
    } else {
        None
    }
}

/// The slot that the ticket pins.
pub open spec fn pinned(state: HandoffView, ticket: TicketView) -> Option<SlotView> {
    match named_slot(state, ticket) {
        Some(slot) => if slot.ticket == Some(ticket.ticket_id) {
            Some(slot)
        } else {
            None
        },
        None => None,
    }
}

/// The handoff with the slot's reader set.
pub open spec fn with_reader(state: HandoffView, index: int, reader: Option<u64>) -> HandoffView {
    HandoffView {
        slots: state.slots.update(
            index,
            Some(SlotView { ticket: reader, ..state.slots[index]->0 }),
        ),
        ..state
    }
}

/// A retired plan that nothing reads.
pub open spec fn reclaimable(slot: Option<SlotView>) -> bool {
    slot is Some && slot->0.retired && slot->0.ticket is None
}

/// The slot that reclamation empties, if any.
pub open spec fn reclaim_index(state: HandoffView) -> Option<int> {
    if reclaimable(state.slots[0]) {
        Some(0int)
    } else if reclaimable(state.slots[1]) {
        Some(1int)
    } else {
        None
    }
}

impl FixedHandoff {
    pub open spec fn wf(self) -> bool {
        valid_handoff(self@)
    }

    #[must_use]
    pub fn new() -> (handoff: Self)
        ensures
            handoff.wf(),
            handoff@ == (HandoffView {
                slots: seq![None, None],
                current: None,
                next_generation: 1,
                next_ticket: 1,
            }),
    {
        FixedHandoff {
            first: None,
            second: None,
            current: None,
            next_generation: 1,
            next_ticket: 1,
        }
    }

    /// Control-thread publication into the free fixed slot.
    pub fn publish(&mut self, plan: PreparedPlan) -> (result: Result<PublishReceipt, PublishError>)
        requires
            old(self).wf(),
        ensures
            final(self).wf(),
            match result {
                Ok(receipt) => {
                    &&& publish_error(old(self)@) is None
                    &&& final(self)@ == published(old(self)@, plan@)
                    &&& receipt.generation == old(self)@.next_generation
                    &&& receipt.digest == plan@.digest
                },
                Err(error) => {
                    &&& publish_error(old(self)@) == Some(error)
                    &&& final(self)@ == old(self)@
                },
            },
    {
        let free: usize = if self.first.is_none() {
            0
        } else if self.second.is_none() {
            1
        } else {
            return Err(PublishError::NoFreeSlot);
        };
        let generation = self.next_generation;
        if generation == u64::MAX {
            return Err(PublishError::GenerationExhausted);
        }
        let ghost before = self@;
        self.next_generation = generation + 1;
        let digest = plan.digest();
        let slot = Some(
            PlanSlot { plan, generation, state: SlotState::Current, active_ticket: None },
        );
        if free == 0 {
            self.second = Self::retired(self.second.take());
            self.first = slot;
        } else {
            self.first = Self::retired(self.first.take());
            self.second = slot;
        }
        self.current = Some(free);
        assert(self@.slots =~= published(before, plan@).slots);
        Ok(PublishReceipt { generation, digest })
    }

    fn retired(slot: Option<PlanSlot>) -> (retired: Option<PlanSlot>)
        ensures
            slot_view(retired) == retire(slot_view(slot)),
    {
        match slot {
            Some(mut slot) => {
                slot.state = SlotState::Retired;
                Some(slot)
            },
            None => None,
        }
    }

    fn slot(&self, index: usize) -> (slot: &Option<PlanSlot>)
        requires
            index < 2,
        ensures
            slot_view(*slot) == self@.slots[index as int],
    {
        if index == 0 {
            &self.first
        } else {
            &self.second
        }
    }

    fn set_reader(&mut self, index: usize, reader: Option<u64>)
        requires
            index < 2,
            old(self)@.slots[index as int] is Some,
        ensures
            final(self)@ == with_reader(old(self)@, index as int, reader),
    {
        let ghost before = self@;
        let taken = if index == 0 {
            self.first.take()
        } else {
            self.second.take()
        };
        if let Some(mut slot) = taken {
            slot.active_ticket = reader;
            if index == 0 {
                self.first = Some(slot);
            } else {
                self.second = Some(slot);
            }
        }
        assert(self@.slots =~= with_reader(before, index as int, reader).slots);
    }

    /// Instruments the point where the single fake audio thread captures a slot.
    pub fn begin_callback(&mut self) -> (ticket: Option<ReadTicket>)
        requires
            old(self).wf(),
        ensures
            final(self).wf(),
            match ticket {
                Some(ticket) => {
                    &&& old(self)@.current is Some
                    &&& old(self)@.slots[old(self)@.current->0 as int]->0.ticket is None
                    &&& ticket@ == (TicketView {
                        slot: old(self)@.current->0,
                        generation: old(self)@.slots[old(self)@.current->0 as int]->0.generation,
                        digest: old(self)@.slots[old(self)@.current->0 as int]->0.plan.digest,
                        ticket_id: old(self)@.next_ticket,
                    })
                    &&& final(self)@ == (HandoffView {
                        next_ticket: old(self)@.next_ticket.wrapping_add(1),
                        ..with_reader(
                            old(self)@,
                            old(self)@.current->0 as int,
                            Some(old(self)@.next_ticket),
                        )
                    })
                },
                None => {
                    &&& (old(self)@.current is None || old(self)@.slots[old(self)@.current->0 as int]->0.ticket is Some)
                    &&& final(self)@ == old(self)@
                },
            },
    {
        let slot_index = match self.current {
            Some(index) => index,
            None => {
                return None;
            },
        };
        let (generation, digest) = match self.slot(slot_index) {
            Some(slot) => {
                if slot.active_ticket.is_some() {
                    return None;
                }
                (slot.generation, slot.plan.digest())
            },
            None => {
                return None;
            },
        };
        let ticket_id = self.next_ticket;
        self.set_reader(slot_index, Some(ticket_id));
        self.next_ticket = ticket_id.wrapping_add(1);
        Some(ReadTicket { slot: slot_index, generation, digest, ticket_id })
    }

    fn ticket_slot(&self, ticket: ReadTicket) -> (result: Result<&PlanSlot, HandoffError>)
        ensures
            match result {
                Ok(slot) => pinned(self@, ticket@) is Some && slot_view(Some(*slot)) == pinned(
                    self@,
                    ticket@,
                ),
                Err(error) => error == HandoffError::StaleTicket && pinned(self@, ticket@) is None,
            },
    {
        if ticket.slot >= 2 {
            return Err(HandoffError::StaleTicket);
        }
        match self.slot(ticket.slot) {
            Some(slot) => {
                let pins = match slot.active_ticket {
                    Some(reader) => reader == ticket.ticket_id,
                    None => false,
                };
                if slot.generation != ticket.generation || slot.plan.digest() != ticket.digest
                    || !pins {
                    return Err(HandoffError::StaleTicket);
                }
                Ok(slot)
            },
            None => Err(HandoffError::StaleTicket),
        }
    }

    /// Copies the two identity fields; neither can come from another slot.
    pub fn observe(&self, ticket: ReadTicket) -> (result: Result<PlanObservation, HandoffError>)
        ensures
            match pinned(self@, ticket@) {
                Some(slot) => result == Ok::<PlanObservation, HandoffError>(
                    PlanObservation { generation: slot.generation, digest: slot.plan.digest },
                ),
                None => result == Err::<PlanObservation, HandoffError>(HandoffError::StaleTicket),
            },
    {
        match self.ticket_slot(ticket) {
            Ok(slot) => Ok(
                PlanObservation { generation: slot.generation, digest: slot.plan.digest() },
            ),
            Err(error) => Err(error),
        }
    }

    /// Uses the pinned immutable plan in a fake callback.
    pub fn with_plan<R, F: FnOnce(&PreparedPlan) -> R>(
        &self,
        ticket: ReadTicket,
        operation: F,
    ) -> (result: Result<R, HandoffError>)
        requires
            forall|plan: &PreparedPlan|
                pinned(self@, ticket@) is Some && plan@ == pinned(self@, ticket@)->0.plan
                    ==> call_requires(operation, (plan,)),
        ensures
            match result {
                Ok(value) => pinned(self@, ticket@) is Some && exists|plan: &PreparedPlan|
                    plan@ == pinned(self@, ticket@)->0.plan && call_ensures(
                        operation,
                        (plan,),
                        value,
                    ),
                Err(error) => error == HandoffError::StaleTicket && pinned(self@, ticket@) is None,
            },
    {
        match self.ticket_slot(ticket) {
            Ok(slot) => {
                let plan = &slot.plan;
                Ok(operation(plan))
            },
            Err(error) => Err(error),
        }
    }

    /// Releases one fake callback ticket.
    pub fn end_callback(&mut self, ticket: ReadTicket) -> (result: Result<(), HandoffError>)
        requires
            old(self).wf(),
        ensures
            final(self).wf(),
            match named_slot(old(self)@, ticket@) {
                Some(slot) => if slot.ticket == Some(ticket@.ticket_id) {
                    result is Ok && final(self)@ == with_reader(
                        old(self)@,
                        ticket@.slot as int,
                        None,
                    )
                } else {
                    result == Err::<(), HandoffError>(HandoffError::ReaderAlreadyEnded) && final(self)@ == old(self)@
                },
                None => result == Err::<(), HandoffError>(HandoffError::StaleTicket) && final(self)@ == old(self)@,
            },
    {
        if ticket.slot >= 2 {
            return Err(HandoffError::StaleTicket);
        }
        let reads = match self.slot(ticket.slot) {
            Some(slot) => {
                if slot.generation != ticket.generation || slot.plan.digest() != ticket.digest {
                    return Err(HandoffError::StaleTicket);
                }
                match slot.active_ticket {
                    Some(reader) => reader == ticket.ticket_id,
                    None => false,
                }
            },
            None => {
                return Err(HandoffError::StaleTicket);
            },
        };
        if reads {
            self.set_reader(ticket.slot, None);
            Ok(())
        } else {
            Err(HandoffError::ReaderAlreadyEnded)
        }
    }

    /// Removes at most one unpinned retired plan on the control thread.
    pub fn reclaim_retired_control(&mut self) -> (reclaimed: Option<ReclaimedGeneration>)
        requires
            old(self).wf(),
        ensures
            final(self).wf(),
            match reclaim_index(old(self)@) {
                Some(index) => {
                    &&& reclaimed == Some(
                        ReclaimedGeneration {
                            generation: old(self)@.slots[index]->0.generation,
                            digest: old(self)@.slots[index]->0.plan.digest,
                        },
                    )
                    &&& final(self)@ == (HandoffView {
                        slots: old(self)@.slots.update(index, None),
                        ..old(self)@
                    })
                },
                None => reclaimed is None && final(self)@ == old(self)@,
            },
    {
        let ghost before = self@;
        let taken = if Self::is_reclaimable(&self.first) {
            self.first.take()
        } else if Self::is_reclaimable(&self.second) {
            self.second.take()
        } else {
            return None;
        };
        match taken {
            Some(slot) => {
                assert(self@.slots =~= before.slots.update(reclaim_index(before)->0, None));
                Some(
                    ReclaimedGeneration { generation: slot.generation, digest: slot.plan.digest() },
                )
            },
            None => None,
        }
    }

    fn is_reclaimable(slot: &Option<PlanSlot>) -> (free: bool)
        ensures
            free == reclaimable(slot_view(*slot)),
    {
        match slot {
            Some(slot) => slot.state == SlotState::Retired && slot.active_ticket.is_none(),
            None => false,
        }
    }

    #[must_use]
    pub fn current_generation(&self) -> (generation: Option<u64>)
        requires
            self.wf(),
        ensures
            generation == (match self@.current {
                Some(index) => Some(self@.slots[index as int]->0.generation),
                None => None,
            }),
    {
        match self.current {
            Some(index) => match self.slot(index) {
                Some(slot) => Some(slot.generation),
                None => None,
            },
            None => None,
        }
    }

    #[must_use]
    pub fn current_digest(&self) -> (digest: Option<u64>)
        requires
            self.wf(),
        ensures
            digest == (match self@.current {
                Some(index) => Some(self@.slots[index as int]->0.plan.digest),
                None => None,
            }),
    {
        match self.current {
            Some(index) => match self.slot(index) {
                Some(slot) => Some(slot.plan.digest()),
                None => None,
            },
            None => None,
        }
    }
}

impl Default for FixedHandoff {
    fn default() -> (handoff: Self)
        ensures
            handoff.wf(),
            handoff@ == (HandoffView {
                slots: seq![None, None],
                current: None,
                next_generation: 1,
                next_ticket: 1,
            }),
    {
        Self::new()
    }
}

/// A reader that began before a publication goes on observing its own complete
/// generation: the plan it pins is neither replaced nor altered.
pub proof fn publication_keeps_pinned_plan(
    state: HandoffView,
    ticket: TicketView,
    plan: PlanView,
)
    requires
        valid_handoff(state),
        pinned(state, ticket) is Some,
        publish_error(state) is None,
    ensures
        pinned(published(state, plan), ticket) is Some,
        pinned(published(state, plan), ticket)->0.plan == pinned(state, ticket)->0.plan,
        pinned(published(state, plan), ticket)->0.generation == pinned(
            state,
            ticket,
        )->0.generation,
{
}

/// What reclamation takes is older than the current plan, which it leaves in
/// place.
pub proof fn reclaimed_generation_is_older(state: HandoffView)
    requires
        valid_handoff(state),
        reclaim_index(state) is Some,
    ensures
        state.current is Some,
        state.current != Some(reclaim_index(state)->0 as usize),
        state.slots[reclaim_index(state)->0]->0.generation
            < state.slots[state.current->0 as int]->0.generation,
{
}

/// Reclamation never takes a pinned plan, and what it takes was retired.
pub proof fn reclamation_spares_readers(state: HandoffView, ticket: TicketView)
    requires
        valid_handoff(state),
        pinned(state, ticket) is Some,
        reclaim_index(state) is Some,
    ensures
        reclaim_index(state)->0 != ticket.slot,
        state.slots[reclaim_index(state)->0]->0.retired,
        state.current != Some(reclaim_index(state)->0 as usize),
{
}

/// A ticket that has been ended cannot be ended or used again.
pub proof fn ended_ticket_is_spent(state: HandoffView, ticket: TicketView)
    requires
        valid_handoff(state),
        pinned(state, ticket) is Some,
    ensures
        ({
            let after = with_reader(state, ticket.slot as int, None);
            &&& pinned(after, ticket) is None
            &&& named_slot(after, ticket) is Some
            &&& named_slot(after, ticket)->0.ticket != Some(ticket.ticket_id)
        }),
{
}

/// Publication into a handoff without readers can always be followed by the
/// reclamation of exactly the plan it replaced, after which nothing is left to
/// reclaim.
pub proof fn replaced_plan_is_reclaimed_once(state: HandoffView, plan: PlanView)
    requires
        valid_handoff(state),
        state.current is Some,
        state.slots[state.current->0 as int]->0.ticket is None,
        publish_error(state) is None,
    ensures
        ({
            let next = published(state, plan);
            let index = reclaim_index(next);
            &&& index == Some(state.current->0 as int)
            &&& next.slots[index->0]->0.generation == state.slots[state.current->0 as int]
                ->0.generation
            &&& reclaim_index(
                HandoffView { slots: next.slots.update(index->0, None), ..next },
            ) is None
        }),
{
}

/// Generations grow: a published plan is newer than every plan in the slots.
pub proof fn publication_is_newest(state: HandoffView, plan: PlanView, i: int)
    requires
        valid_handoff(state),
        publish_error(state) is None,
        0 <= i < 2,
        state.slots[i] is Some,
    ensures
        valid_handoff(published(state, plan)),
        state.slots[i]->0.generation < published(state, plan).slots[published(
            state,
            plan,
        ).current->0 as int]->0.generation,
{
}

/// A plan can be published while a slot is free and generations are left, and not
/// otherwise. It is then the current one, unread and under the next generation; the plan
/// before it is retired and kept as it was.
pub proof fn published_plans_become_current(state: HandoffView, plan: PlanView)
    requires
        valid_handoff(state),
    ensures
        publish_error(state) is None <==> (state.slots[0] is None || state.slots[1] is None)
            && state.next_generation < u64::MAX,
        publish_error(state) is None ==> {
            let after = published(state, plan);
            let current = after.slots[after.current->0 as int]->0;
            &&& after.current is Some
            &&& state.slots[after.current->0 as int] is None
            &&& current.plan == plan
            &&& current.generation == state.next_generation
            &&& !current.retired
            &&& current.ticket is None
            &&& after.next_generation == state.next_generation + 1
            &&& after.next_ticket == state.next_ticket
            &&& state.current matches Some(index) ==> {
                let (before, kept) = (state.slots[index as int]->0, after.slots[index as int]->0);
                &&& after.slots[index as int] is Some
                &&& kept.retired
                &&& kept.plan == before.plan
                &&& kept.generation == before.generation
                &&& kept.ticket == before.ticket
            }
        },
{
}

/// A ticket pins a plan only in its own slot, under its own generation and digest, and
/// while the slot is read under its number.
pub proof fn tickets_pin_their_own_plan(state: HandoffView, ticket: TicketView)
    requires
        valid_handoff(state),
    ensures
        pinned(state, ticket) is Some <==> {
            &&& ticket.slot < 2
            &&& state.slots[ticket.slot as int] is Some
            &&& state.slots[ticket.slot as int]->0.generation == ticket.generation
            &&& state.slots[ticket.slot as int]->0.plan.digest == ticket.digest
            &&& state.slots[ticket.slot as int]->0.ticket == Some(ticket.ticket_id)
        },
        pinned(state, ticket) is Some ==> pinned(state, ticket)
            == state.slots[ticket.slot as int],
{
}

} // verus!
