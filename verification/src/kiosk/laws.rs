//! What holds of the desk as a whole.

use vstd::prelude::*;
use crate::kiosk::import;
use crate::kiosk::model;
use crate::kiosk::model::{Kind, Notice, Standing};
use crate::kiosk::store;
use crate::kiosk::store::{Article, Desk, Person};
use crate::seqs;

verus! {

/// The events of a sound desk rise in sequence, and no two share an id.
pub proof fn accepted_events_are_told_apart(desk: Desk)
    requires
        store::is_sound(desk),
    ensures
        import::rises(desk.events),
        forall|i: int, j: int|
            0 <= i < j < desk.events.len() ==> (#[trigger] desk.events[i]).id != (
            #[trigger] desk.events[j]).id,
{
    let events = desk.events;
    assert forall|i: int, j: int| 0 <= i < j < events.len() implies (
    #[trigger] events[i]).sequence < (#[trigger] events[j]).sequence && events[i].id
        != events[j].id by {
        assert(store::was_acceptable(desk, j));
        import::lemma_latest_bounds(events.take(j), i);
        assert(events.take(j)[i] == events[i]);
    }
}

/// Whatever the desk accepted of an item can be replayed, and leads to the state
/// that the desk keeps of it.
pub proof fn accepted_histories_replay(desk: Desk, item_id: Seq<char>, n: nat)
    requires
        store::is_sound(desk),
        n <= desk.events.len(),
    ensures
        ({
            let history = store::history_of(desk.events.take(n as int), item_id);
            model::replayed(history, history.len()) == Ok::<Standing, Seq<char>>(
                store::standing(desk.events, item_id, n),
            )
        }),
    decreases n,
{
    let events = desk.events;
    let of_item = |event: Notice| event.item_id == item_id;
    if n == 0 {
        reveal(Seq::filter);
        assert(events.take(0) =~= Seq::empty());
    } else {
        let before = store::history_of(events.take(n - 1), item_id);
        let after = store::history_of(events.take(n as int), item_id);
        let event = events[n - 1];
        accepted_histories_replay(desk, item_id, (n - 1) as nat);
        seqs::lemma_filter_step(events, of_item, n - 1);
        assert(before == events.take(n - 1).filter(of_item));
        assert(after == events.take(n as int).filter(of_item));
        if event.item_id == item_id {
            assert(store::was_acceptable(desk, n - 1));
            import::lemma_standing_prefix(events.take(n - 1), events, item_id, (n - 1) as nat);
            model::lemma_replay_prefix(before, after, before.len());
            assert(after.last() == event);
        }
    }
}

/// A day on which everything has happened shows the state that the desk keeps.
pub proof fn the_last_day_shows_the_current_state(desk: Desk, item_id: Seq<char>, day: u32)
    requires
        store::is_sound(desk),
        store::history_of(desk.events, item_id).len() > 0,
        forall|i: int|
            0 <= i < desk.events.len() && (#[trigger] desk.events[i]).item_id == item_id
                ==> desk.events[i].at_day <= day,
    ensures
        store::state_on(desk.events, item_id, day) == Some(
            store::standing(desk.events, item_id, desk.events.len()),
        ),
{
    let events = desk.events;
    accepted_histories_replay(desk, item_id, events.len());
    assert(events.take(events.len() as int) =~= events);
    lemma_same_filter(
        events,
        |event: Notice| event.item_id == item_id,
        |event: Notice| event.item_id == item_id && event.at_day <= day,
    );
}

proof fn lemma_same_filter(
    events: Seq<Notice>,
    a: spec_fn(Notice) -> bool,
    b: spec_fn(Notice) -> bool,
)
    requires
        forall|i: int| 0 <= i < events.len() ==> a(#[trigger] events[i]) == b(events[i]),
    ensures
        events.filter(a) == events.filter(b),
    decreases events.len(),
{
    reveal(Seq::filter);
    if events.len() > 0 {
        let front = events.drop_last();
        assert forall|i: int| 0 <= i < front.len() implies a(#[trigger] front[i]) == b(
            front[i],
        ) by {
            assert(front[i] == events[i]);
        }
        assert(a(events[events.len() - 1]) == b(events[events.len() - 1]));
        lemma_same_filter(front, a, b);
    }
}

/// An item that is retired stays as it is: no event of it is accepted any more.
pub proof fn retired_items_stay_retired(desk: Desk, item_id: Seq<char>, n: nat, m: nat)
    requires
        store::is_sound(desk),
        n <= m <= desk.events.len(),
        store::standing(desk.events, item_id, n) is Retired,
    ensures
        store::standing(desk.events, item_id, m) == store::standing(desk.events, item_id, n),
        forall|i: int| n <= i < m ==> (#[trigger] desk.events[i]).item_id != item_id,
    decreases m,
{
    if n < m {
        retired_items_stay_retired(desk, item_id, n, (m - 1) as nat);
        let events = desk.events;
        assert(store::was_acceptable(desk, m - 1));
        import::lemma_standing_prefix(events.take(m - 1), events, item_id, (m - 1) as nat);
        assert(events[m - 1].item_id != item_id);
        assert forall|i: int| n <= i < m implies (#[trigger] desk.events[i]).item_id != item_id by {
            if i < m - 1 {
            }
        }
    }
}

/// Importing the events of a sound desk once more takes them all, in the same order.
pub proof fn a_rebuild_takes_everything_again(
    items: Seq<Article>,
    borrowers: Seq<Person>,
    events: Seq<Notice>,
    n: nat,
)
    requires
        store::is_sound(Desk { items, borrowers, events }),
        n <= events.len(),
    ensures
        import::sifted(items, borrowers, events, n).accepted == events.take(n as int),
        import::sifted(items, borrowers, events, n).rejected.len() == 0,
    decreases n,
{
    let desk = Desk { items, borrowers, events };
    if n > 0 {
        a_rebuild_takes_everything_again(items, borrowers, events, (n - 1) as nat);
        assert(store::was_acceptable(desk, n - 1));
        assert(events.take(n as int) =~= events.take(n - 1).push(events[n - 1]));
    }
}

/// An import judges every row as the desk would: whatever it accepts, the desk would
/// have accepted one by one, and whatever it rejects, it rejects for the desk's own
/// reason.
pub proof fn imports_judge_as_the_desk_does(
    items: Seq<Article>,
    borrowers: Seq<Person>,
    candidates: Seq<Notice>,
    n: nat,
)
    requires
        n < candidates.len(),
    ensures
        store::is_sound(
            Desk {
                items,
                borrowers,
                events: import::sifted(items, borrowers, candidates, n).accepted,
            },
        ),
        ({
            let before = import::sifted(items, borrowers, candidates, n);
            let after = import::sifted(items, borrowers, candidates, n + 1);
            let event = candidates[n as int];
            match store::verdict(items, borrowers, before.accepted, event) {
                Ok(()) => after.accepted == before.accepted.push(event) && after.rejected
                    == before.rejected,
                Err(error) => after.accepted == before.accepted && after.rejected
                    == before.rejected.push(import::Refused { row: event.source_row, error }),
            }
        }),
{
    import::lemma_sifted_sound(items, borrowers, candidates, n);
}

/// Taking an acceptable event into what is kept of its item puts it behind the
/// others.
pub proof fn a_step_appends(desk: Desk, event: Notice)
    requires
        store::is_sound(desk),
        store::verdict(desk.items, desk.borrowers, desk.events, event) is Ok,
    ensures
        model::stepped(store::history_of(desk.events, event.item_id), event, 1)
            == store::history_of(desk.events.push(event), event.item_id),
{
    let of_item = |other: Notice| other.item_id == event.item_id;
    let after = desk.events.push(event);
    let history = store::history_of(desk.events, event.item_id);
    assert(history == desk.events.filter(of_item));
    seqs::lemma_filter_step(after, of_item, desk.events.len() as int);
    assert(after.take(desk.events.len() as int) =~= desk.events);
    assert(after.take(after.len() as int) =~= after);
    assert(store::history_of(after, event.item_id) == history.push(event));
    store::lemma_sound_push(desk, event);
    accepted_events_are_told_apart(Desk { events: after, ..desk });
    lemma_filter_rises(after, of_item);
    let wide = history.push(event);
    assert(import::rises(wide));
    lemma_arranged(wide);
    reveal_with_fuel(model::adjusted, 2);
    assert(model::adjusted(history, event, 1, 0) == wide);
}

/// What is picked from rising numbers rises.
proof fn lemma_filter_rises(events: Seq<Notice>, keep: spec_fn(Notice) -> bool)
    requires
        import::rises(events),
    ensures
        import::rises(events.filter(keep)),
        forall|i: int|
            0 <= i < events.filter(keep).len() ==> events.contains(
                #[trigger] events.filter(keep)[i],
            ),
    decreases events.len(),
{
    reveal(Seq::filter);
    if events.len() > 0 {
        let front = events.drop_last();
        assert(import::rises(front));
        lemma_filter_rises(front, keep);
        let kept = events.filter(keep);
        assert forall|i: int| 0 <= i < kept.len() implies events.contains(#[trigger] kept[i]) by {
            if i < front.filter(keep).len() {
                assert(front.contains(front.filter(keep)[i]));
                let k = choose|k: int| 0 <= k < front.len() && front[k] == front.filter(keep)[i];
                assert(events[k] == kept[i]);
            } else {
                assert(events[events.len() - 1] == kept[i]);
            }
        }
        assert forall|i: int, j: int| 0 <= i < j < kept.len() implies (
        #[trigger] kept[i]).sequence < (#[trigger] kept[j]).sequence by {
            if j < front.filter(keep).len() {
                assert(front.filter(keep)[i].sequence < front.filter(keep)[j].sequence);
            } else {
                assert(front.contains(front.filter(keep)[i]));
                let k = choose|k: int| 0 <= k < front.len() && front[k] == front.filter(keep)[i];
                assert(events[k].sequence < events[events.len() - 1].sequence);
            }
        }
    }
}

/// A history with rising numbers is in order.
proof fn lemma_arranged(history: Seq<Notice>)
    requires
        import::rises(history),
    ensures
        model::arranged(history) == history,
    decreases history.len(),
{
    if history.len() > 0 {
        let front = history.drop_last();
        assert(import::rises(front));
        lemma_arranged(front);
        if front.len() > 0 {
            assert(history[history.len() - 2].sequence < history[history.len() - 1].sequence);
            assert(front.last() == history[history.len() - 2]);
        }
        assert(front.push(history.last()) =~= history);
    }
}

/// Event `i` is the last of an item among the first `n`; none is if `i` is below zero.
pub open spec fn is_last_of(events: Seq<Notice>, item_id: Seq<char>, n: nat, i: int) -> bool {
    &&& -1 <= i < n <= events.len()
    &&& i >= 0 ==> events[i].item_id == item_id
    &&& forall|j: int| i < j < n ==> (#[trigger] events[j]).item_id != item_id
}

/// The state of an item is what its last event left: it is out with whoever took it
/// last until it is back, in repair until the repair is finished, and retired for good.
pub proof fn the_last_event_tells_the_state(desk: Desk, item_id: Seq<char>, n: nat, i: int)
    requires
        store::is_sound(desk),
        is_last_of(desk.events, item_id, n, i),
    ensures
        store::standing(desk.events, item_id, n) == if i < 0 {
            Standing::Available
        } else {
            match desk.events[i].kind {
                Kind::Checkout { borrower_id, due_day } => Standing::CheckedOut {
                    borrower_id,
                    due_day,
                },
                Kind::Return => Standing::Available,
                Kind::RepairStart { reason } => Standing::InRepair { reason },
                Kind::RepairFinish => Standing::Available,
                Kind::Retire { reason } => Standing::Retired { reason },
            }
        },
    decreases n,
{
    if n > 0 {
        if i < n - 1 {
            the_last_event_tells_the_state(desk, item_id, (n - 1) as nat, i);
            assert(desk.events[n - 1].item_id != item_id);
        } else {
            assert(store::was_acceptable(desk, i));
            import::lemma_standing_prefix(desk.events.take(i), desk.events, item_id, i as nat);
        }
    }
}

/// Whether an event fits behind the last one of its item: an item is lent, repaired or
/// retired only while it is at hand, comes back only after it was lent, and leaves
/// repair only after it was put there.
pub open spec fn follows(events: Seq<Notice>, i: int, kind: Kind) -> bool {
    match kind {
        Kind::Return => i >= 0 && events[i].kind is Checkout,
        Kind::RepairFinish => i >= 0 && events[i].kind is RepairStart,
        _ => i < 0 || events[i].kind is Return || events[i].kind is RepairFinish,
    }
}

/// The desk accepts an event exactly if its id is new, its number is above all others,
/// its item and borrower are known, and it fits behind the last event of its item.
pub proof fn only_what_can_happen_is_accepted(desk: Desk, event: Notice, i: int)
    requires
        store::is_sound(desk),
        is_last_of(desk.events, event.item_id, desk.events.len(), i),
    ensures
        store::verdict(desk.items, desk.borrowers, desk.events, event) is Ok <==> {
            &&& forall|j: int|
                0 <= j < desk.events.len() ==> (#[trigger] desk.events[j]).id != event.id
                    && desk.events[j].sequence < event.sequence
            &&& exists|k: int| 0 <= k < desk.items.len() && (#[trigger] desk.items[k]).id
                == event.item_id
            &&& event.kind matches Kind::Checkout { borrower_id, .. } ==> exists|k: int|
                0 <= k < desk.borrowers.len() && (#[trigger] desk.borrowers[k]).id == borrower_id
            &&& follows(desk.events, i, event.kind)
        },
{
    let events = desk.events;
    the_last_event_tells_the_state(desk, event.item_id, events.len(), i);
    if events.len() > 0 {
        lemma_latest_held(events);
    }
    assert forall|j: int| 0 <= j < events.len() && store::latest(events) is Some implies (
    #[trigger] events[j]).sequence <= store::latest(events)->0 by {
        import::lemma_latest_bounds(events, j);
    }
    if store::has_id(events, event.id) {
        let j = choose|j: int| 0 <= j < events.len() && (#[trigger] events[j]).id == event.id;
        assert(events[j].id == event.id);
    }
    if store::has_sequence(events, event.sequence) {
        let j = choose|j: int|
            0 <= j < events.len() && (#[trigger] events[j]).sequence == event.sequence;
        assert(events[j].sequence == event.sequence);
    }
}

proof fn lemma_latest_held(events: Seq<Notice>)
    requires
        events.len() > 0,
    ensures
        store::latest(events) is Some,
        exists|j: int|
            0 <= j < events.len() && (#[trigger] events[j]).sequence == store::latest(events)->0,
    decreases events.len(),
{
    let front = events.drop_last();
    if front.len() > 0 {
        lemma_latest_held(front);
        let j = choose|j: int|
            0 <= j < front.len() && (#[trigger] front[j]).sequence == store::latest(front)->0;
        assert(events[j] == front[j]);
    }
    assert(events[events.len() - 1] == events.last());
}

/// A day shows an item as it stood after its events up to that day, where no later one
/// bears an earlier day.
pub proof fn a_day_shows_what_had_happened(desk: Desk, item_id: Seq<char>, day: u32, n: nat)
    requires
        store::is_sound(desk),
        n <= desk.events.len(),
        exists|i: int| 0 <= i < desk.events.len() && (#[trigger] desk.events[i]).item_id == item_id,
        forall|i: int|
            0 <= i < desk.events.len() && (#[trigger] desk.events[i]).item_id == item_id ==> (
            desk.events[i].at_day <= day <==> i < n),
    ensures
        store::state_on(desk.events, item_id, day) == Some(
            store::standing(desk.events, item_id, n),
        ),
{
    let events = desk.events;
    let of_item = |event: Notice| event.item_id == item_id;
    let until = |event: Notice| event.item_id == item_id && event.at_day <= day;
    accepted_histories_replay(desk, item_id, n);
    lemma_filter_front(events, of_item, until, n, events.len());
    assert(events.take(events.len() as int) =~= events);
    assert(events.filter(until) == events.take(n as int).filter(of_item));
    let i = choose|i: int| 0 <= i < events.len() && (#[trigger] events[i]).item_id == item_id;
    lemma_filter_holds(events, of_item, i);
}

proof fn lemma_filter_holds(events: Seq<Notice>, keep: spec_fn(Notice) -> bool, i: int)
    requires
        0 <= i < events.len(),
        keep(events[i]),
    ensures
        events.filter(keep).len() > 0,
    decreases events.len(),
{
    reveal(Seq::filter);
    if i < events.len() - 1 {
        lemma_filter_holds(events.drop_last(), keep, i);
    }
}

proof fn lemma_filter_front(
    events: Seq<Notice>,
    a: spec_fn(Notice) -> bool,
    b: spec_fn(Notice) -> bool,
    n: nat,
    m: nat,
)
    requires
        n <= m <= events.len(),
        forall|i: int| 0 <= i < m ==> (b(#[trigger] events[i]) <==> a(events[i]) && i < n),
    ensures
        events.take(m as int).filter(b) == events.take(n as int).filter(a),
    decreases m,
{
    if n < m {
        lemma_filter_front(events, a, b, n, (m - 1) as nat);
        seqs::lemma_filter_step(events, b, m - 1);
        assert(!b(events[m - 1]));
    } else {
        let front = events.take(n as int);
        assert forall|i: int| 0 <= i < front.len() implies a(#[trigger] front[i]) == b(
            front[i],
        ) by {
            assert(front[i] == events[i]);
        }
        lemma_same_filter(front, a, b);
    }
}

/// A row put in is what the desk then has under its id, and every other row stays.
pub proof fn a_row_replaces_the_one_of_its_id(items: Seq<Article>, item: Article)
    ensures
        ({
            let after = store::with_item(items, item);
            &&& after.contains(item)
            &&& store::knows_item(items, item.id) ==> after.len() == items.len()
            &&& !store::knows_item(items, item.id) ==> after == items.push(item)
            &&& forall|i: int|
                0 <= i < items.len() && (#[trigger] items[i]).id != item.id ==> after[i] == items[i]
        }),
{
    lemma_item_place(items, item.id, 0);
    let at = store::item_place(items, item.id, 0);
    let after = store::with_item(items, item);
    if at < items.len() {
        assert(after[at] == item);
        assert(items[at].id == item.id);
    } else {
        assert(after[items.len() as int] == item);
    }
}

proof fn lemma_item_place(items: Seq<Article>, id: Seq<char>, from: int)
    requires
        0 <= from <= items.len(),
    ensures
        from <= store::item_place(items, id, from) <= items.len(),
        store::item_place(items, id, from) < items.len() ==> items[store::item_place(
            items,
            id,
            from,
        )].id == id,
        forall|i: int| from <= i < store::item_place(items, id, from) ==> (#[trigger] items[i]).id
            != id,
    decreases items.len() - from,
{
    if from < items.len() && items[from].id != id {
        lemma_item_place(items, id, from + 1);
    }
}

} // verus!
