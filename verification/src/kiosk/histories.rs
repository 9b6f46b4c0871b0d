//! How the history of an item changes when events come and go.

use vstd::prelude::*;
use crate::kiosk::model;
use crate::kiosk::model::Notice;
use crate::kiosk::store;
use crate::kiosk::store::Person;
use crate::text;

verus! {

/// How often an event stands in a history.
pub open spec fn times(history: Seq<Notice>, event: Notice) -> nat
    decreases history.len(),
{
    if history.len() == 0 {
        0
    } else {
        times(history.drop_last(), event) + if history.last() == event {
            1nat
        } else {
            0
        }
    }
}

/// How many events of a history have an id.
pub open spec fn named(history: Seq<Notice>, id: Seq<char>) -> nat
    decreases history.len(),
{
    if history.len() == 0 {
        0
    } else {
        named(history.drop_last(), id) + if history.last().id == id {
            1nat
        } else {
            0
        }
    }
}

/// Events by number, and by id where they share one.
pub open spec fn in_time_order(history: Seq<Notice>) -> bool {
    forall|i: int, j: int|
        0 <= i < j < history.len() ==> (#[trigger] history[i]).sequence < (
        #[trigger] history[j]).sequence || (history[i].sequence == history[j].sequence
            && text::text_le(history[i].id, history[j].id))
}

proof fn lemma_times_push(history: Seq<Notice>, last: Notice, event: Notice, id: Seq<char>)
    ensures
        times(history.push(last), event) == times(history, event) + if last == event {
            1nat
        } else {
            0
        },
        named(history.push(last), id) == named(history, id) + if last.id == id {
            1nat
        } else {
            0
        },
{
    assert(history.push(last).drop_last() =~= history);
}

proof fn lemma_times_remove(history: Seq<Notice>, at: int, event: Notice, id: Seq<char>)
    requires
        0 <= at < history.len(),
    ensures
        times(history, event) == times(history.remove(at), event) + if history[at] == event {
            1nat
        } else {
            0
        },
        named(history, id) == named(history.remove(at), id) + if history[at].id == id {
            1nat
        } else {
            0
        },
    decreases history.len(),
{
    let front = history.drop_last();
    if at == history.len() - 1 {
        assert(history.remove(at) =~= front);
    } else {
        lemma_times_remove(front, at, event, id);
        assert(history.remove(at) =~= front.remove(at).push(history.last()));
        lemma_times_push(front.remove(at), history.last(), event, id);
    }
}

proof fn lemma_placed(history: Seq<Notice>, event: Notice, other: Notice, id: Seq<char>)
    requires
        in_time_order(history),
    ensures
        times(model::placed(history, event), other) == times(history.push(event), other),
        named(model::placed(history, event), id) == named(history.push(event), id),
        in_time_order(model::placed(history, event)),
        forall|i: int|
            0 <= i < model::placed(history, event).len() ==> #[trigger] model::placed(
                history,
                event,
            )[i] == event || history.contains(model::placed(history, event)[i]),
    decreases history.len(),
{
    lemma_times_push(history, event, other, id);
    let after = model::placed(history, event);
    if history.len() == 0 || model::no_later(history.last(), event) {
        assert forall|i: int, j: int| 0 <= i < j < after.len() implies (
        #[trigger] after[i]).sequence < (#[trigger] after[j]).sequence || (after[i].sequence
            == after[j].sequence && text::text_le(after[i].id, after[j].id)) by {
            if j == history.len() {
                if i < history.len() - 1 {
                    assert(history[i].sequence <= history[history.len() - 1].sequence);
                    if history[i].sequence == event.sequence {
                        text::lemma_text_transitive(
                            history[i].id,
                            history[history.len() - 1].id,
                            event.id,
                        );
                    }
                }
            } else {
                assert(after[i] == history[i] && after[j] == history[j]);
            }
        }
        assert forall|i: int| 0 <= i < after.len() implies #[trigger] after[i] == event
            || history.contains(after[i]) by {
            if i < history.len() {
                assert(history[i] == after[i]);
            }
        }
    } else {
        let front = history.drop_last();
        let last = history.last();
        let before = model::placed(front, event);
        assert(in_time_order(front)) by {
            assert forall|i: int, j: int| 0 <= i < j < front.len() implies (
            #[trigger] front[i]).sequence < (#[trigger] front[j]).sequence || (front[i].sequence
                == front[j].sequence && text::text_le(front[i].id, front[j].id)) by {
                assert(history[i] == front[i] && history[j] == front[j]);
            }
        }
        lemma_placed(front, event, other, id);
        lemma_times_push(before, last, other, id);
        lemma_times_push(front, event, other, id);
        text::lemma_text_total(last.id, event.id);
        assert forall|i: int| 0 <= i < before.len() implies (#[trigger] before[i]).sequence
            < last.sequence || (before[i].sequence == last.sequence && text::text_le(
            before[i].id,
            last.id,
        )) by {
            if before[i] != event {
                assert(front.contains(before[i]));
                let k = choose|k: int| 0 <= k < front.len() && front[k] == before[i];
                assert(history[k] == front[k]);
                assert(history[history.len() - 1] == last);
            }
        }
        assert forall|i: int, j: int| 0 <= i < j < after.len() implies (
        #[trigger] after[i]).sequence < (#[trigger] after[j]).sequence || (after[i].sequence
            == after[j].sequence && text::text_le(after[i].id, after[j].id)) by {
            assert(after[i] == before[i]);
            if j < before.len() {
                assert(after[j] == before[j]);
            }
        }
        assert forall|i: int| 0 <= i < after.len() implies #[trigger] after[i] == event
            || history.contains(after[i]) by {
            if i < before.len() {
                assert(after[i] == before[i]);
                if before[i] != event {
                    assert(front.contains(before[i]));
                    let k = choose|k: int| 0 <= k < front.len() && front[k] == before[i];
                    assert(history[k] == before[i]);
                }
            } else {
                assert(history[history.len() - 1] == after[i]);
            }
        }
    }
}

/// Arranging puts a history in order and neither adds nor loses an event.
pub proof fn arranged_histories_stand_in_order(
    history: Seq<Notice>,
    event: Notice,
    id: Seq<char>,
)
    ensures
        in_time_order(model::arranged(history)),
        times(model::arranged(history), event) == times(history, event),
        named(model::arranged(history), id) == named(history, id),
    decreases history.len(),
{
    if history.len() > 0 {
        let front = history.drop_last();
        arranged_histories_stand_in_order(front, event, id);
        lemma_placed(model::arranged(front), history.last(), event, id);
        lemma_times_push(model::arranged(front), history.last(), event, id);
    }
}

proof fn lemma_first_with_id(history: Seq<Notice>, id: Seq<char>, from: int)
    requires
        0 <= from <= history.len(),
    ensures
        from <= model::first_with_id(history, id, from) <= history.len(),
        model::first_with_id(history, id, from) < history.len()
            ==> history[model::first_with_id(history, id, from)].id == id,
        forall|i: int|
            from <= i < model::first_with_id(history, id, from) ==> (#[trigger] history[i]).id
                != id,
    decreases history.len() - from,
{
    if from < history.len() && history[from].id != id {
        lemma_first_with_id(history, id, from + 1);
    }
}

proof fn lemma_nobody_named(history: Seq<Notice>, id: Seq<char>)
    requires
        forall|i: int| 0 <= i < history.len() ==> (#[trigger] history[i]).id != id,
    ensures
        named(history, id) == 0,
    decreases history.len(),
{
    if history.len() > 0 {
        let front = history.drop_last();
        assert forall|i: int| 0 <= i < front.len() implies (#[trigger] front[i]).id != id by {
            assert(history[i] == front[i]);
        }
        lemma_nobody_named(front, id);
        assert(history[history.len() - 1] == history.last());
    }
}

proof fn lemma_without(history: Seq<Notice>, id: Seq<char>, other: Notice)
    ensures
        named(model::without(history, id), id) == (if named(history, id) > 0 {
            (named(history, id) - 1) as nat
        } else {
            0
        }),
        other.id != id ==> times(model::without(history, id), other) == times(history, other),
{
    lemma_first_with_id(history, id, 0);
    let at = model::first_with_id(history, id, 0);
    if at < history.len() {
        lemma_times_remove(history, at, other, id);
    } else {
        lemma_nobody_named(history, id);
    }
}

proof fn lemma_added(history: Seq<Notice>, event: Notice, n: nat, other: Notice, id: Seq<char>)
    ensures
        times(model::adjusted(history, event, n, 0), other) == times(history, other) + if other
            == event {
            n
        } else {
            0
        },
    decreases n,
{
    if n > 0 {
        lemma_added(history, event, (n - 1) as nat, other, id);
        lemma_times_push(
            model::adjusted(history, event, (n - 1) as nat, 0),
            event,
            other,
            id,
        );
    }
}

proof fn lemma_removed(history: Seq<Notice>, event: Notice, n: nat, other: Notice)
    ensures
        named(model::adjusted(history, event, 0, n), event.id) == (if named(history, event.id) > n {
            (named(history, event.id) - n) as nat
        } else {
            0
        }),
        other.id != event.id ==> times(model::adjusted(history, event, 0, n), other) == times(
            history,
            other,
        ),
    decreases n,
{
    if n > 0 {
        lemma_removed(history, event, (n - 1) as nat, other);
        lemma_without(
            model::adjusted(history, event, 0, (n - 1) as nat),
            event.id,
            other,
        );
    }
}

/// An event that comes some times stands in the history so many times more, one that goes
/// leaves so many events of its id fewer there, every other event stays, and the history
/// stands in order.
pub proof fn events_come_and_go(history: Seq<Notice>, event: Notice, delta: int, other: Notice)
    ensures
        ({
            let after = model::stepped(history, event, delta);
            &&& in_time_order(after)
            &&& delta > 0 ==> times(after, event) == times(history, event) + delta
            &&& delta > 0 && other != event ==> times(after, other) == times(history, other)
            &&& delta <= 0 && other.id != event.id ==> times(after, other) == times(history, other)
            &&& delta <= 0 ==> named(after, event.id) == (if named(history, event.id) + delta > 0 {
                named(history, event.id) + delta
            } else {
                0
            })
        }),
{
    if delta > 0 {
        let wide = model::adjusted(history, event, delta as nat, 0);
        lemma_added(history, event, delta as nat, event, event.id);
        lemma_added(history, event, delta as nat, other, event.id);
        arranged_histories_stand_in_order(wide, event, event.id);
        arranged_histories_stand_in_order(wide, other, event.id);
    } else {
        let narrow = model::adjusted(history, event, 0, (-delta) as nat);
        lemma_removed(history, event, (-delta) as nat, other);
        arranged_histories_stand_in_order(narrow, other, event.id);
    }
}

proof fn lemma_borrower_place(borrowers: Seq<Person>, id: Seq<char>, from: int)
    requires
        0 <= from <= borrowers.len(),
    ensures
        from <= store::borrower_place(borrowers, id, from) <= borrowers.len(),
        store::borrower_place(borrowers, id, from) < borrowers.len()
            ==> borrowers[store::borrower_place(borrowers, id, from)].id == id,
        forall|i: int|
            from <= i < store::borrower_place(borrowers, id, from) ==> (
            #[trigger] borrowers[i]).id != id,
    decreases borrowers.len() - from,
{
    if from < borrowers.len() && borrowers[from].id != id {
        lemma_borrower_place(borrowers, id, from + 1);
    }
}

/// A borrower put in is whom the desk then knows by that id, and every other one stays.
pub proof fn a_borrower_replaces_the_one_of_that_id(borrowers: Seq<Person>, borrower: Person)
    ensures
        ({
            let after = store::with_borrower(borrowers, borrower);
            &&& after.contains(borrower)
            &&& store::knows_borrower(borrowers, borrower.id) ==> after.len() == borrowers.len()
            &&& !store::knows_borrower(borrowers, borrower.id) ==> after == borrowers.push(borrower)
            &&& forall|i: int|
                0 <= i < borrowers.len() && (#[trigger] borrowers[i]).id != borrower.id ==> after[i]
                    == borrowers[i]
        }),
{
    lemma_borrower_place(borrowers, borrower.id, 0);
    let at = store::borrower_place(borrowers, borrower.id, 0);
    let after = store::with_borrower(borrowers, borrower);
    if at < borrowers.len() {
        assert(after[at] == borrower);
        assert(borrowers[at].id == borrower.id);
    } else {
        assert(after[borrowers.len() as int] == borrower);
    }
}

} // verus!
