//! Items, borrowers, events, and the states that events lead through.

use vstd::prelude::*;
use crate::text;
use crate::text::{push_decimal, quoted};

verus! {

#[derive(Clone, Debug, PartialEq, Eq)]
pub struct Item {
    pub id: String,
    pub asset_tag: String,
    pub serial: String,
    pub name: String,
    pub nickname: String,
    pub source_row: String,
}

#[derive(Clone, Debug, PartialEq, Eq)]
pub struct Borrower {
    pub id: String,
    pub name: String,
    pub source_row: String,
}

#[derive(Clone, Debug, PartialEq, Eq)]
pub enum EventKind {
    Checkout { borrower_id: String, due_day: u32 },
    Return,
    RepairStart { reason: String },
    RepairFinish,
    Retire { reason: String },
}

#[derive(Clone, Debug, PartialEq, Eq)]
pub struct Event {
    pub id: String,
    pub sequence: u64,
    pub at_day: u32,
    pub item_id: String,
    pub kind: EventKind,
    pub source_row: String,
}

#[derive(Clone, Debug, PartialEq, Eq)]
pub enum ItemState {
    Available,
    CheckedOut { borrower_id: String, due_day: u32 },
    InRepair { reason: String },
    Retired { reason: String },
}

/// What is kept of one item: its events in order, and where they have led.
#[derive(Clone, Debug, PartialEq, Eq)]
pub struct Projection {
    pub state: ItemState,
    pub history: Vec<Event>,
}

/// The kind of an event as plain values.
pub enum Kind {
    Checkout { borrower_id: Seq<char>, due_day: u32 },
    Return,
    RepairStart { reason: Seq<char> },
    RepairFinish,
    Retire { reason: Seq<char> },
}

/// The state of an item as plain values.
pub enum Standing {
    Available,
    CheckedOut { borrower_id: Seq<char>, due_day: u32 },
    InRepair { reason: Seq<char> },
    Retired { reason: Seq<char> },
}

/// An event as plain values.
pub struct Notice {
    pub id: Seq<char>,
    pub sequence: u64,
    pub at_day: u32,
    pub item_id: Seq<char>,
    pub kind: Kind,
    pub source_row: Seq<char>,
}

impl View for EventKind {
    type V = Kind;

    open spec fn view(&self) -> Kind {
        match self {
            EventKind::Checkout { borrower_id, due_day } => Kind::Checkout {
                borrower_id: borrower_id@,
                due_day: *due_day,
            },
            EventKind::Return => Kind::Return,
            EventKind::RepairStart { reason } => Kind::RepairStart { reason: reason@ },
            EventKind::RepairFinish => Kind::RepairFinish,
            EventKind::Retire { reason } => Kind::Retire { reason: reason@ },
        }
    }
}

impl View for ItemState {
    type V = Standing;

    open spec fn view(&self) -> Standing {
        match self {
            ItemState::Available => Standing::Available,
            ItemState::CheckedOut { borrower_id, due_day } => Standing::CheckedOut {
                borrower_id: borrower_id@,
                due_day: *due_day,
            },
            ItemState::InRepair { reason } => Standing::InRepair { reason: reason@ },
            ItemState::Retired { reason } => Standing::Retired { reason: reason@ },
        }
    }
}

impl View for Event {
    type V = Notice;

    open spec fn view(&self) -> Notice {
        Notice {
            id: self.id@,
            sequence: self.sequence,
            at_day: self.at_day,
            item_id: self.item_id@,
            kind: self.kind@,
            source_row: self.source_row@,
        }
    }
}

pub open spec fn notices(events: Seq<Event>) -> Seq<Notice> {
    events.map_values(|event: Event| event@)
}

/// How a state is shown.
pub open spec fn shown_state(state: Standing) -> Seq<char> {
    match state {
        Standing::Available => "Available"@,
        Standing::CheckedOut { borrower_id, due_day } => "CheckedOut { borrower_id: "@
            + text::quoted_text(borrower_id) + ", due_day: "@ + text::decimal(due_day as nat)
            + " }"@,
        Standing::InRepair { reason } => "InRepair { reason: "@ + text::quoted_text(reason)
            + " }"@,
        Standing::Retired { reason } => "Retired { reason: "@ + text::quoted_text(reason) + " }"@,
    }
}

/// How the kind of an event is shown.
pub open spec fn shown_kind(kind: Kind) -> Seq<char> {
    match kind {
        Kind::Checkout { borrower_id, due_day } => "Checkout { borrower_id: "@
            + text::quoted_text(borrower_id) + ", due_day: "@ + text::decimal(due_day as nat)
            + " }"@,
        Kind::Return => "Return"@,
        Kind::RepairStart { reason } => "RepairStart { reason: "@ + text::quoted_text(reason)
            + " }"@,
        Kind::RepairFinish => "RepairFinish"@,
        Kind::Retire { reason } => "Retire { reason: "@ + text::quoted_text(reason) + " }"@,
    }
}

/// Where an event leads from a state, or why it cannot happen.
pub open spec fn next_state(state: Standing, kind: Kind) -> Result<Standing, Seq<char>> {
    match (state, kind) {
        (Standing::Available, Kind::Checkout { borrower_id, due_day }) => Ok(
            Standing::CheckedOut { borrower_id, due_day },
        ),
        (Standing::CheckedOut { .. }, Kind::Return) => Ok(Standing::Available),
        (Standing::Available, Kind::RepairStart { reason }) => Ok(Standing::InRepair { reason }),
        (Standing::InRepair { .. }, Kind::RepairFinish) => Ok(Standing::Available),
        (Standing::Available, Kind::Retire { reason }) => Ok(Standing::Retired { reason }),
        (Standing::Retired { .. }, _) => Err("item is retired"@),
        _ => Err(
            "impossible transition: "@ + shown_state(state) + " -> "@ + shown_kind(kind),
        ),
    }
}

fn push_with_day(out: &mut String, opening: &str, borrower_id: &str, due_day: u32)
    ensures
        final(out)@ == old(out)@ + (opening@ + text::quoted_text(borrower_id@) + ", due_day: "@
            + text::decimal(due_day as nat) + " }"@),
{
    let ghost before = out@;
    out.append(opening);
    out.append(quoted(borrower_id).as_str());
    out.append(", due_day: ");
    push_decimal(out, due_day as u64);
    out.append(" }");
    assert(out@ =~= before + (opening@ + text::quoted_text(borrower_id@) + ", due_day: "@
        + text::decimal(due_day as nat) + " }"@));
}

fn push_with_reason(out: &mut String, opening: &str, reason: &str)
    ensures
        final(out)@ == old(out)@ + (opening@ + text::quoted_text(reason@) + " }"@),
{
    let ghost before = out@;
    out.append(opening);
    out.append(quoted(reason).as_str());
    out.append(" }");
    assert(out@ =~= before + (opening@ + text::quoted_text(reason@) + " }"@));
}

fn push_state(out: &mut String, state: &ItemState)
    ensures
        final(out)@ == old(out)@ + shown_state(state@),
{
    match state {
        ItemState::Available => out.append("Available"),
        ItemState::CheckedOut { borrower_id, due_day } => push_with_day(
            out,
            "CheckedOut { borrower_id: ",
            borrower_id.as_str(),
            *due_day,
        ),
        ItemState::InRepair { reason } => push_with_reason(
            out,
            "InRepair { reason: ",
            reason.as_str(),
        ),
        ItemState::Retired { reason } => push_with_reason(
            out,
            "Retired { reason: ",
            reason.as_str(),
        ),
    }
}

fn push_kind(out: &mut String, kind: &EventKind)
    ensures
        final(out)@ == old(out)@ + shown_kind(kind@),
{
    match kind {
        EventKind::Checkout { borrower_id, due_day } => push_with_day(
            out,
            "Checkout { borrower_id: ",
            borrower_id.as_str(),
            *due_day,
        ),
        EventKind::Return => out.append("Return"),
        EventKind::RepairStart { reason } => push_with_reason(
            out,
            "RepairStart { reason: ",
            reason.as_str(),
        ),
        EventKind::RepairFinish => out.append("RepairFinish"),
        EventKind::Retire { reason } => push_with_reason(
            out,
            "Retire { reason: ",
            reason.as_str(),
        ),
    }
}

/// The text of a result that tells of a state.
pub open spec fn outcome(result: Result<ItemState, String>) -> Result<Standing, Seq<char>> {
    match result {
        Ok(state) => Ok(state@),
        Err(error) => Err(error@),
    }
}

/// Where an event leads from a state, or why it cannot happen.
pub fn transition(state: &ItemState, kind: &EventKind) -> (result: Result<ItemState, String>)
    ensures
        outcome(result) == next_state(state@, kind@),
{
    match (state, kind) {
        (ItemState::Available, EventKind::Checkout { borrower_id, due_day }) => Ok(
            ItemState::CheckedOut {
                borrower_id: borrower_id.as_str().to_owned(),
                due_day: *due_day,
            },
        ),
        (ItemState::CheckedOut { .. }, EventKind::Return) => Ok(ItemState::Available),
        (ItemState::Available, EventKind::RepairStart { reason }) => Ok(
            ItemState::InRepair { reason: reason.as_str().to_owned() },
        ),
        (ItemState::InRepair { .. }, EventKind::RepairFinish) => Ok(ItemState::Available),
        (ItemState::Available, EventKind::Retire { reason }) => Ok(
            ItemState::Retired { reason: reason.as_str().to_owned() },
        ),
        (ItemState::Retired { .. }, _) => Err("item is retired".to_owned()),
        _ => {
            let mut error = "impossible transition: ".to_owned();
            push_state(&mut error, state);
            error.append(" -> ");
            push_kind(&mut error, kind);
            Err(error)
        },
    }
}

/// Where the first `n` events lead, or why they cannot have happened.
pub open spec fn replayed(events: Seq<Notice>, n: nat) -> Result<Standing, Seq<char>>
    decreases n,
{
    if n == 0 {
        Ok(Standing::Available)
    } else {
        match replayed(events, (n - 1) as nat) {
            Ok(state) => {
                let event = events[n - 1];
                match next_state(state, event.kind) {
                    Ok(next) => Ok(next),
                    Err(error) => Err(event.id + " at "@ + event.source_row + ": "@ + error),
                }
            },
            Err(error) => Err(error),
        }
    }
}

/// Once events cannot have happened, more of them change nothing.
pub proof fn lemma_replay_stuck(events: Seq<Notice>, n: nat, m: nat)
    requires
        n <= m,
        replayed(events, n) is Err,
    ensures
        replayed(events, m) == replayed(events, n),
    decreases m,
{
    if n < m {
        lemma_replay_stuck(events, n, (m - 1) as nat);
    }
}

/// What leads where depends on the events up to there alone.
pub proof fn lemma_replay_prefix(a: Seq<Notice>, b: Seq<Notice>, n: nat)
    requires
        forall|i: int| 0 <= i < n ==> a[i] == b[i],
    ensures
        replayed(a, n) == replayed(b, n),
    decreases n,
{
    if n > 0 {
        lemma_replay_prefix(a, b, (n - 1) as nat);
    }
}

/// Where events lead, starting from an available item.
pub fn replay(events: &[Event]) -> (result: Result<ItemState, String>)
    ensures
        outcome(result) == replayed(notices(events@), events@.len()),
{
    let ghost all = notices(events@);
    let mut state = ItemState::Available;
    let mut i: usize = 0;
    while i < events.len()
        invariant
            i <= events@.len(),
            all == notices(events@),
            replayed(all, i as nat) == Ok::<Standing, Seq<char>>(state@),
        decreases events@.len() - i,
    {
        let event = &events[i];
        assert(all[i as int] == event@);
        match transition(&state, &event.kind) {
            Ok(next) => {
                state = next;
            },
            Err(error) => {
                let mut told = event.id.as_str().to_owned();
                told.append(" at ");
                told.append(event.source_row.as_str());
                told.append(": ");
                told.append(error.as_str());
                proof {
                    assert(replayed(all, (i + 1) as nat) == Err::<Standing, Seq<char>>(told@));
                    lemma_replay_stuck(all, (i + 1) as nat, events@.len());
                }
                return Err(told);
            },
        }
        i = i + 1;
    }
    Ok(state)
}

pub fn copy_kind(kind: &EventKind) -> (copy: EventKind)
    ensures
        copy@ == kind@,
{
    match kind {
        EventKind::Checkout { borrower_id, due_day } => EventKind::Checkout {
            borrower_id: borrower_id.as_str().to_owned(),
            due_day: *due_day,
        },
        EventKind::Return => EventKind::Return,
        EventKind::RepairStart { reason } => EventKind::RepairStart {
            reason: reason.as_str().to_owned(),
        },
        EventKind::RepairFinish => EventKind::RepairFinish,
        EventKind::Retire { reason } => EventKind::Retire { reason: reason.as_str().to_owned() },
    }
}

pub fn copy_event(event: &Event) -> (copy: Event)
    ensures
        copy@ == event@,
{
    Event {
        id: event.id.as_str().to_owned(),
        sequence: event.sequence,
        at_day: event.at_day,
        item_id: event.item_id.as_str().to_owned(),
        kind: copy_kind(&event.kind),
        source_row: event.source_row.as_str().to_owned(),
    }
}

/// An event may stand before another in a history.
pub open spec fn no_later(a: Notice, b: Notice) -> bool {
    a.sequence < b.sequence || (a.sequence == b.sequence && text::text_le(a.id, b.id))
}

/// A history with an event put behind all that may stand before it.
pub open spec fn placed(history: Seq<Notice>, event: Notice) -> Seq<Notice>
    decreases history.len(),
{
    if history.len() == 0 || no_later(history.last(), event) {
        history.push(event)
    } else {
        placed(history.drop_last(), event).push(history.last())
    }
}

/// A history in order, equals as they came.
pub open spec fn arranged(history: Seq<Notice>) -> Seq<Notice>
    decreases history.len(),
{
    if history.len() == 0 {
        history
    } else {
        placed(arranged(history.drop_last()), history.last())
    }
}

/// The first event of an id, or the end.
pub open spec fn first_with_id(history: Seq<Notice>, id: Seq<char>, from: int) -> int
    decreases history.len() - from,
{
    if from < 0 || from >= history.len() || history[from].id == id {
        from
    } else {
        first_with_id(history, id, from + 1)
    }
}

/// A history without the first event of an id.
pub open spec fn without(history: Seq<Notice>, id: Seq<char>) -> Seq<Notice> {
    let at = first_with_id(history, id, 0);
    if at < history.len() {
        history.remove(at)
    } else {
        history
    }
}

/// A history after an event came or went a number of times, not yet in order.
pub open spec fn adjusted(history: Seq<Notice>, event: Notice, added: nat, removed: nat) -> Seq<
    Notice,
>
    decreases added + removed,
{
    if added > 0 {
        adjusted(history, event, (added - 1) as nat, removed).push(event)
    } else if removed > 0 {
        without(adjusted(history, event, added, (removed - 1) as nat), event.id)
    } else {
        history
    }
}

/// The history of an item after an event came `delta` times, or went.
pub open spec fn stepped(history: Seq<Notice>, event: Notice, delta: int) -> Seq<Notice> {
    arranged(
        if delta > 0 {
            adjusted(history, event, delta as nat, 0)
        } else {
            adjusted(history, event, 0, (-delta) as nat)
        },
    )
}

fn place(history: &mut Vec<Event>, event: Event)
    ensures
        notices(final(history)@) == placed(notices(old(history)@), event@),
{
    let ghost before = notices(history@);
    let mut at: usize = history.len();
    proof {
        assert(before.take(at as int) =~= before);
        assert(before.skip(at as int) =~= Seq::empty());
        assert(placed(before, event@) =~= placed(before.take(at as int), event@) + before.skip(
            at as int,
        ));
    }
    while at > 0
        invariant_except_break
            at <= history@.len(),
        invariant
            at <= history@.len(),
            before == notices(history@),
            placed(before, event@) == placed(before.take(at as int), event@) + before.skip(
                at as int,
            ),
        ensures
            at == 0 || no_later(before[at - 1], event@),
        decreases at,
    {
        let last = &history[at - 1];
        assert(before[at - 1] == last@);
        if last.sequence < event.sequence || (last.sequence == event.sequence
            && text::is_text_le(last.id.as_str(), event.id.as_str())) {
            break;
        }
        proof {
            let front = before.take(at as int);
            assert(front.drop_last() =~= before.take(at - 1));
            assert(front.last() == before[at - 1]);
            assert(placed(front, event@) == placed(before.take(at - 1), event@).push(
                before[at - 1],
            ));
            assert(placed(before.take(at - 1), event@).push(before[at - 1]) + before.skip(at as int)
                =~= placed(before.take(at - 1), event@) + before.skip(at - 1));
        }
        at = at - 1;
    }
    let ghost told = event@;
    proof {
        let front = before.take(at as int);
        if at > 0 {
            assert(front.last() == before[at - 1]);
        }
        assert(placed(front, told) == front.push(told));
    }
    history.insert(at, event);
    assert(notices(history@) =~= before.take(at as int).push(told) + before.skip(at as int));
}

fn find_id(history: &Vec<Event>, id: &str) -> (at: usize)
    ensures
        at == first_with_id(notices(history@), id@, 0),
        at <= history@.len(),
{
    let ghost all = notices(history@);
    let mut i: usize = 0;
    while i < history.len()
        invariant
            i <= history@.len(),
            all == notices(history@),
            first_with_id(all, id@, 0) == first_with_id(all, id@, i as int),
        decreases history@.len() - i,
    {
        assert(all[i as int] == history@[i as int]@);
        if text::same_text(history[i].id.as_str(), id) {
            return i;
        }
        i = i + 1;
    }
    i
}

/// Takes an event that came `delta` times, or went, into what is kept of its item.
pub fn projection_step(projection: &mut Projection, event: &Event, delta: isize)
    requires
        replayed(
            stepped(notices(old(projection).history@), event@, delta as int),
            stepped(notices(old(projection).history@), event@, delta as int).len(),
        ) is Ok,
    ensures
        notices(final(projection).history@) == stepped(
            notices(old(projection).history@),
            event@,
            delta as int,
        ),
        Ok::<Standing, Seq<char>>(final(projection).state@) == replayed(
            notices(final(projection).history@),
            final(projection).history@.len(),
        ),
{
    let ghost start = notices(projection.history@);
    let mut raw: Vec<Event> = Vec::new();
    std::mem::swap(&mut raw, &mut projection.history);
    if delta > 0 {
        let mut i: isize = 0;
        while i < delta
            invariant
                0 <= i <= delta,
                notices(raw@) == adjusted(start, event@, i as nat, 0),
            decreases delta - i,
        {
            let ghost held = raw@;
            raw.push(copy_event(event));
            assert(notices(raw@) =~= notices(held).push(event@));
            i = i + 1;
        }
    } else {
        let mut i: isize = 0;
        while i > delta
            invariant
                delta <= i <= 0,
                notices(raw@) == adjusted(start, event@, 0, (-i) as nat),
            decreases i - delta,
        {
            let ghost held = raw@;
            let at: usize = find_id(&raw, event.id.as_str());
            if at < raw.len() {
                let _gone = raw.remove(at);
                assert(notices(raw@) =~= notices(held).remove(at as int));
            }
            i = i - 1;
        }
    }
    let ghost unordered = notices(raw@);
    let mut history: Vec<Event> = Vec::new();
    assert(unordered.take(0) =~= Seq::empty());
    assert(notices(history@) =~= Seq::empty());
    let mut i: usize = 0;
    while i < raw.len()
        invariant
            i <= raw@.len(),
            unordered == notices(raw@),
            notices(history@) == arranged(unordered.take(i as int)),
        decreases raw@.len() - i,
    {
        proof {
            assert(unordered.take(i + 1).drop_last() =~= unordered.take(i as int));
            assert(unordered.take(i + 1).last() == raw@[i as int]@);
        }
        place(&mut history, copy_event(&raw[i]));
        i = i + 1;
    }
    assert(unordered.take(i as int) =~= unordered);
    match replay(history.as_slice()) {
        Ok(state) => {
            projection.state = state;
        },
        Err(_) => {
            assert(notices(history@).len() == history@.len());
            assert(false);
        },
    }
    projection.history = history;
}

} // verus!
