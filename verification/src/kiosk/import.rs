//! Taking many events into the books at once.

use vstd::prelude::*;
use crate::kiosk::model;
use crate::kiosk::model::{
    Borrower, Event, EventKind, Item, ItemState, Notice, copy_event, transition,
};
use crate::kiosk::store;
use crate::kiosk::store::{Article, Desk, Person, order_error, sequence_error};
use crate::text;
use crate::text::{joined, rank_texts};

verus! {

/// A row that was not taken, and why.
pub struct Refused {
    pub row: Seq<char>,
    pub error: Seq<char>,
}

/// What became of some rows.
pub struct Sifted {
    pub accepted: Seq<Notice>,
    pub rejected: Seq<Refused>,
}

/// What becomes of the first `n` candidates, each judged after those accepted
/// before it.
pub open spec fn sifted(
    items: Seq<Article>,
    borrowers: Seq<Person>,
    candidates: Seq<Notice>,
    n: nat,
) -> Sifted
    decreases n,
{
    if n == 0 {
        Sifted { accepted: Seq::empty(), rejected: Seq::empty() }
    } else {
        let before = sifted(items, borrowers, candidates, (n - 1) as nat);
        let event = candidates[n - 1];
        match store::verdict(items, borrowers, before.accepted, event) {
            Ok(()) => Sifted { accepted: before.accepted.push(event), ..before },
            Err(error) => Sifted {
                rejected: before.rejected.push(Refused { row: event.source_row, error }),
                ..before
            },
        }
    }
}

pub open spec fn refusals(rejected: Seq<(String, String)>) -> Seq<Refused> {
    rejected.map_values(|row: (String, String)| Refused { row: row.0@, error: row.1@ })
}

/// Sequence numbers rise strictly.
pub open spec fn rises(events: Seq<Notice>) -> bool {
    forall|i: int, j: int|
        0 <= i < j < events.len() ==> (#[trigger] events[i]).sequence < (
        #[trigger] events[j]).sequence
}

/// Of rising numbers the last is the greatest.
pub proof fn lemma_latest(events: Seq<Notice>)
    requires
        rises(events),
    ensures
        events.len() == 0 ==> store::latest(events) is None,
        events.len() > 0 ==> store::latest(events) == Some(events.last().sequence),
    decreases events.len(),
{
    if events.len() > 0 {
        assert(rises(events.drop_last()));
        lemma_latest(events.drop_last());
        if events.len() > 1 {
            assert(events[events.len() - 2].sequence < events[events.len() - 1].sequence);
        }
    }
}

/// The greatest number is no smaller than any other.
pub proof fn lemma_latest_bounds(events: Seq<Notice>, i: int)
    requires
        0 <= i < events.len(),
    ensures
        store::latest(events) is Some,
        events[i].sequence <= store::latest(events)->0,
    decreases events.len(),
{
    if i < events.len() - 1 {
        lemma_latest_bounds(events.drop_last(), i);
    }
}

/// An acceptable event keeps the numbers rising.
pub proof fn lemma_rises_push(
    items: Seq<Article>,
    borrowers: Seq<Person>,
    events: Seq<Notice>,
    event: Notice,
)
    requires
        rises(events),
        store::verdict(items, borrowers, events, event) is Ok,
    ensures
        rises(events.push(event)),
{
    let after = events.push(event);
    assert forall|i: int, j: int| 0 <= i < j < after.len() implies (#[trigger] after[i]).sequence
        < (#[trigger] after[j]).sequence by {
        if j == events.len() {
            lemma_latest_bounds(events, i);
        }
    }
}

/// What is accepted rises.
pub proof fn lemma_sifted_rises(
    items: Seq<Article>,
    borrowers: Seq<Person>,
    candidates: Seq<Notice>,
    n: nat,
)
    requires
        n <= candidates.len(),
    ensures
        rises(sifted(items, borrowers, candidates, n).accepted),
    decreases n,
{
    if n > 0 {
        lemma_sifted_rises(items, borrowers, candidates, (n - 1) as nat);
        let before = sifted(items, borrowers, candidates, (n - 1) as nat);
        if store::verdict(items, borrowers, before.accepted, candidates[n - 1]) is Ok {
            lemma_rises_push(items, borrowers, before.accepted, candidates[n - 1]);
        }
    }
}

/// The state of an item after one more event.
pub proof fn lemma_standing_push(events: Seq<Notice>, event: Notice, item_id: Seq<char>)
    ensures
        store::standing(events.push(event), item_id, (events.len() + 1) as nat) == (
        if event.item_id == item_id {
            match model::next_state(
                store::standing(events, item_id, events.len()),
                event.kind,
            ) {
                Ok(next) => next,
                Err(_) => store::standing(events, item_id, events.len()),
            }
        } else {
            store::standing(events, item_id, events.len())
        }),
{
    lemma_standing_prefix(events, events.push(event), item_id, events.len());
}

/// The state of an item depends on the events up to then alone.
pub proof fn lemma_standing_prefix(
    a: Seq<Notice>,
    b: Seq<Notice>,
    item_id: Seq<char>,
    n: nat,
)
    requires
        forall|i: int| 0 <= i < n ==> a[i] == b[i],
    ensures
        store::standing(a, item_id, n) == store::standing(b, item_id, n),
    decreases n,
{
    if n > 0 {
        lemma_standing_prefix(a, b, item_id, (n - 1) as nat);
    }
}

/// Whether one of the accepted events has a sequence number.
fn is_sequence_known(accepted: &Vec<Event>, sequence: u64) -> (known: bool)
    requires
        rises(model::notices(accepted@)),
    ensures
        known == store::has_sequence(model::notices(accepted@), sequence),
{
    let ghost all = model::notices(accepted@);
    let mut low: usize = 0;
    let mut high: usize = accepted.len();
    while low < high
        invariant
            low <= high <= accepted@.len(),
            all == model::notices(accepted@),
            rises(all),
            forall|k: int| 0 <= k < low ==> (#[trigger] all[k]).sequence < sequence,
            forall|k: int| high <= k < all.len() ==> (#[trigger] all[k]).sequence > sequence,
        decreases high - low,
    {
        let middle: usize = low + (high - low) / 2;
        let found: u64 = accepted[middle].sequence;
        assert(all[middle as int] == accepted@[middle as int]@);
        if found == sequence {
            return true;
        }
        if found < sequence {
            low = middle + 1;
        } else {
            high = middle;
        }
    }
    false
}

/// The known texts among ranked ones: those whose rank is that of one of the first
/// `count`.
fn known_ranks(ranks: &Vec<usize>, count: usize) -> (known: Vec<bool>)
    requires
        count <= ranks@.len(),
        forall|i: int| 0 <= i < ranks@.len() ==> (#[trigger] ranks@[i]) < ranks@.len(),
    ensures
        known@.len() == ranks@.len(),
        forall|r: int|
            0 <= r < known@.len() ==> (#[trigger] known@[r] <==> exists|i: int|
                0 <= i < count && #[trigger] ranks@[i] == r),
{
    let mut known: Vec<bool> = Vec::new();
    let mut r: usize = 0;
    while r < ranks.len()
        invariant
            r == known@.len() <= ranks@.len(),
            forall|k: int| 0 <= k < r ==> !#[trigger] known@[k],
        decreases ranks@.len() - r,
    {
        known.push(false);
        r = r + 1;
    }
    let mut i: usize = 0;
    while i < count
        invariant
            i <= count <= ranks@.len() == known@.len(),
            forall|i: int| 0 <= i < ranks@.len() ==> (#[trigger] ranks@[i]) < ranks@.len(),
            forall|r: int|
                0 <= r < known@.len() ==> (#[trigger] known@[r] <==> exists|k: int|
                    0 <= k < i && #[trigger] ranks@[k] == r),
        decreases count - i,
    {
        let ghost before = known@;
        known.set(ranks[i], true);
        proof {
            assert forall|r: int| 0 <= r < known@.len() implies (#[trigger] known@[r] <==> exists|
                k: int,
            |
                0 <= k < i + 1 && #[trigger] ranks@[k] == r) by {
                if r == ranks@[i as int] {
                    assert(ranks@[i as int] == r);
                } else {
                    assert(known@[r] == before[r]);
                }
            }
        }
        i = i + 1;
    }
    known
}

/// The borrower that an event names, or an empty text.
fn named_borrower(event: &Event) -> (id: &str)
    ensures
        event@.kind is Checkout ==> id@ == event@.kind->borrower_id,
{
    match &event.kind {
        EventKind::Checkout { borrower_id, .. } => borrower_id.as_str(),
        _ => "",
    }
}

/// Takes the candidates in turn, each judged after those accepted before it: the
/// accepted events, and for every other its row and why it was not taken.
#[verifier::rlimit(60)]
pub fn validate_fixture(items: &[Item], borrowers: &[Borrower], candidates: &[Event]) -> (result: (
    Vec<Event>,
    Vec<(String, String)>,
))
    ensures
        model::notices(result.0@) == sifted(
            store::articles(items@),
            store::people(borrowers@),
            model::notices(candidates@),
            candidates@.len(),
        ).accepted,
        refusals(result.1@) == sifted(
            store::articles(items@),
            store::people(borrowers@),
            model::notices(candidates@),
            candidates@.len(),
        ).rejected,
{
    let ghost stock = store::articles(items@);
    let ghost persons = store::people(borrowers@);
    let ghost all = model::notices(candidates@);
    let mut item_texts: Vec<&str> = Vec::new();
    let mut i: usize = 0;
    while i < items.len()
        invariant
            i == item_texts@.len() <= items@.len(),
            stock == store::articles(items@),
            forall|k: int| 0 <= k < i ==> (#[trigger] item_texts@[k])@ == stock[k].id,
        decreases items@.len() - i,
    {
        item_texts.push(items[i].id.as_str());
        i = i + 1;
    }
    let mut borrower_texts: Vec<&str> = Vec::new();
    i = 0;
    while i < borrowers.len()
        invariant
            i == borrower_texts@.len() <= borrowers@.len(),
            persons == store::people(borrowers@),
            forall|k: int| 0 <= k < i ==> (#[trigger] borrower_texts@[k])@ == persons[k].id,
        decreases borrowers@.len() - i,
    {
        borrower_texts.push(borrowers[i].id.as_str());
        i = i + 1;
    }
    let mut id_texts: Vec<&str> = Vec::new();
    i = 0;
    while i < candidates.len()
        invariant
            i == id_texts@.len() <= candidates@.len(),
            item_texts@.len() == items@.len() + i,
            borrower_texts@.len() == borrowers@.len() + i,
            stock == store::articles(items@),
            persons == store::people(borrowers@),
            all == model::notices(candidates@),
            forall|k: int| 0 <= k < i ==> (#[trigger] id_texts@[k])@ == all[k].id,
            forall|k: int|
                0 <= k < items@.len() ==> (#[trigger] item_texts@[k])@ == stock[k].id,
            forall|k: int|
                items@.len() <= k < item_texts@.len() ==> (#[trigger] item_texts@[k])@ == all[k
                    - items@.len()].item_id,
            forall|k: int|
                0 <= k < borrowers@.len() ==> (#[trigger] borrower_texts@[k])@ == persons[k].id,
            forall|k: int|
                borrowers@.len() <= k < borrower_texts@.len() && all[k - borrowers@.len()].kind is Checkout
                    ==> (#[trigger] borrower_texts@[k])@ == all[k
                    - borrowers@.len()].kind->borrower_id,
        decreases candidates@.len() - i,
    {
        assert(all[i as int] == candidates@[i as int]@);
        id_texts.push(candidates[i].id.as_str());
        item_texts.push(candidates[i].item_id.as_str());
        borrower_texts.push(named_borrower(&candidates[i]));
        i = i + 1;
    }
    let id_ranks = rank_texts(&id_texts);
    let item_ranks = rank_texts(&item_texts);
    let borrower_ranks = rank_texts(&borrower_texts);
    let items_known = known_ranks(&item_ranks, items.len());
    let borrowers_known = known_ranks(&borrower_ranks, borrowers.len());
    let mut seen = known_ranks(&id_ranks, 0);
    let mut states: Vec<ItemState> = Vec::new();
    i = 0;
    while i < item_ranks.len()
        invariant
            i == states@.len() <= item_ranks@.len(),
            forall|k: int| 0 <= k < i ==> (#[trigger] states@[k])@ is Available,
        decreases item_ranks@.len() - i,
    {
        states.push(ItemState::Available);
        i = i + 1;
    }
    let mut accepted: Vec<Event> = Vec::new();
    let mut rejected: Vec<(String, String)> = Vec::new();
    let item_count: usize = items.len();
    let borrower_count: usize = borrowers.len();
    let item_total: usize = item_texts.len();
    let borrower_total: usize = borrower_texts.len();
    proof {
        assert(model::notices(accepted@) =~= Seq::empty());
        assert(refusals(rejected@) =~= Seq::empty());
        assert forall|k: int| 0 <= k < all.len() implies (#[trigger] items_known@[item_ranks@[k
            + item_count] as int] <==> store::knows_item(stock, all[k].item_id)) by {
            lemma_known_items(
                item_ranks@,
                item_texts@,
                items_known@,
                stock,
                k + item_count,
                all[k].item_id,
            );
        }
        assert forall|k: int| 0 <= k < all.len() && all[k].kind is Checkout implies (
        #[trigger] borrowers_known@[borrower_ranks@[k + borrower_count] as int]
            <==> store::knows_borrower(persons, all[k].kind->borrower_id)) by {
            lemma_known_borrowers(
                borrower_ranks@,
                borrower_texts@,
                borrowers_known@,
                persons,
                k + borrower_count,
                all[k].kind->borrower_id,
            );
        }
    }
    i = 0;
    while i < candidates.len()
        invariant
            i <= candidates@.len() == all.len(),
            all == model::notices(candidates@),
            item_count == items@.len(),
            borrower_count == borrowers@.len(),
            id_texts@.len() == all.len(),
            item_texts@.len() == item_count + all.len() == item_total,
            borrower_texts@.len() == borrower_count + all.len() == borrower_total,
            text::ranks_of(id_ranks@, id_texts@),
            text::ranks_of(item_ranks@, item_texts@),
            text::ranks_of(borrower_ranks@, borrower_texts@),
            seen@.len() == id_ranks@.len(),
            states@.len() == item_ranks@.len() == items_known@.len(),
            borrowers_known@.len() == borrower_ranks@.len(),
            forall|k: int| 0 <= k < all.len() ==> (#[trigger] id_texts@[k])@ == all[k].id,
            forall|k: int|
                item_count <= k < item_texts@.len() ==> (#[trigger] item_texts@[k])@ == all[k
                    - item_count].item_id,
            forall|k: int|
                0 <= k < all.len() ==> (#[trigger] items_known@[item_ranks@[k + item_count] as int]
                    <==> store::knows_item(stock, all[k].item_id)),
            forall|k: int|
                0 <= k < all.len() && all[k].kind is Checkout ==> (
                #[trigger] borrowers_known@[borrower_ranks@[k + borrower_count] as int]
                    <==> store::knows_borrower(persons, all[k].kind->borrower_id)),
            model::notices(accepted@) == sifted(stock, persons, all, i as nat).accepted,
            refusals(rejected@) == sifted(stock, persons, all, i as nat).rejected,
            rises(model::notices(accepted@)),
            forall|k: int|
                0 <= k < all.len() ==> (#[trigger] seen@[id_ranks@[k] as int] <==> store::has_id(
                    model::notices(accepted@),
                    all[k].id,
                )),
            forall|k: int|
                0 <= k < all.len() ==> (#[trigger] states@[item_ranks@[k + item_count] as int])@
                    == store::standing(
                    model::notices(accepted@),
                    all[k].item_id,
                    accepted@.len(),
                ),
        decreases candidates@.len() - i,
    {
        let event = &candidates[i];
        let ghost before = model::notices(accepted@);
        let id_rank: usize = id_ranks[i];
        let item_rank: usize = item_ranks[i + item_count];
        let borrower_rank: usize = borrower_ranks[i + borrower_count];
        proof {
            assert(all[i as int] == event@);
            lemma_latest(before);
            assert(seen@[id_ranks@[i as int] as int] <==> store::has_id(before, event@.id));
            assert(states@[item_ranks@[i + item_count] as int]@ == store::standing(
                before,
                event@.item_id,
                before.len(),
            ));
            assert(items_known@[item_ranks@[i + item_count] as int] <==> store::knows_item(
                stock,
                event@.item_id,
            ));
            if event@.kind is Checkout {
                assert(borrowers_known@[borrower_ranks@[i + borrower_count] as int]
                    <==> store::knows_borrower(persons, event@.kind->borrower_id));
            }
        }
        let mut refusal: Option<String> = None;
        if seen[id_rank] {
            refusal = Some(joined("duplicate event id ", event.id.as_str()));
        } else if is_sequence_known(&accepted, event.sequence) {
            refusal = Some(sequence_error(event.sequence));
        } else if accepted.len() > 0 && event.sequence <= accepted[accepted.len() - 1].sequence {
            assert(before.last() == accepted@[accepted@.len() - 1]@);
            refusal = Some(order_error(event.sequence, accepted[accepted.len() - 1].sequence));
        } else if !items_known[item_rank] {
            refusal = Some(joined("unknown item ", event.item_id.as_str()));
        } else {
            proof {
                if accepted@.len() > 0 {
                    assert(before.last() == accepted@[accepted@.len() - 1]@);
                }
            }
            if let EventKind::Checkout { borrower_id, .. } = &event.kind {
                if !borrowers_known[borrower_rank] {
                    refusal = Some(joined("unknown borrower ", borrower_id.as_str()));
                }
            }
        }
        if refusal.is_none() {
            match transition(&states[item_rank], &event.kind) {
                Ok(next) => {
                    let ghost held_seen = seen@;
                    let ghost held_states = states@;
                    let ghost held = accepted@;
                    assert(store::verdict(stock, persons, before, event@) is Ok);
                    seen.set(id_rank, true);
                    states.set(item_rank, next);
                    let taken = copy_event(event);
                    let ghost taken_view = taken@;
                    accepted.push(taken);
                    proof {
                        let after = model::notices(accepted@);
                        assert(after =~= before.push(taken_view));
                        lemma_rises_push(stock, persons, before, event@);
                        assert(after[before.len() as int].id == event@.id);
                        assert forall|k: int| 0 <= k < all.len() implies (
                        #[trigger] seen@[id_ranks@[k] as int] <==> store::has_id(
                            after,
                            all[k].id,
                        )) by {
                            assert(id_texts@[k]@ == all[k].id && id_texts@[i as int]@
                                == all[i as int].id);
                            assert(id_ranks@[k] == id_ranks@[i as int] <==> all[k].id == event@.id);
                            lemma_has_id_push(before, event@, all[k].id);
                            assert(held_seen[id_ranks@[k] as int] <==> store::has_id(
                                before,
                                all[k].id,
                            ));
                        }
                        assert forall|k: int| 0 <= k < all.len() implies (
                        #[trigger] states@[item_ranks@[k + item_count] as int])@
                            == store::standing(after, all[k].item_id, accepted@.len()) by {
                            assert(item_texts@[k + item_count]@ == all[k].item_id);
                            assert(item_texts@[i + item_count]@ == all[i as int].item_id);
                            assert(item_ranks@[k + item_count] == item_ranks@[i + item_count]
                                <==> all[k].item_id == event@.item_id);
                            lemma_standing_push(before, event@, all[k].item_id);
                            assert(held_states[item_ranks@[k + item_count] as int]@
                                == store::standing(before, all[k].item_id, before.len()));
                        }
                    }
                },
                Err(error) => {
                    refusal = Some(error);
                },
            }
        }
        if let Some(error) = refusal {
            let ghost held = rejected@;
            let ghost why = error@;
            assert(store::verdict(stock, persons, before, event@) == Err::<(), Seq<char>>(why));
            rejected.push((event.source_row.as_str().to_owned(), error));
            assert(refusals(rejected@) =~= refusals(held).push(
                Refused { row: event@.source_row, error: why },
            ));
        }
        i = i + 1;
    }
    (accepted, rejected)
}

proof fn lemma_has_id_push(events: Seq<Notice>, event: Notice, id: Seq<char>)
    ensures
        store::has_id(events.push(event), id) <==> store::has_id(events, id) || event.id == id,
{
    let after = events.push(event);
    if store::has_id(events, id) {
        let i = choose|i: int| 0 <= i < events.len() && (#[trigger] events[i]).id == id;
        assert(after[i].id == id);
    }
    if event.id == id {
        assert(after[events.len() as int].id == id);
    }
    if store::has_id(after, id) && event.id != id {
        let i = choose|i: int| 0 <= i < after.len() && (#[trigger] after[i]).id == id;
        assert(events[i].id == id);
    }
}

proof fn lemma_known_items(
    ranks: Seq<usize>,
    texts: Seq<&str>,
    known: Seq<bool>,
    stock: Seq<Article>,
    place: int,
    id: Seq<char>,
)
    requires
        text::ranks_of(ranks, texts),
        stock.len() <= texts.len(),
        known.len() == ranks.len(),
        0 <= place < texts.len(),
        texts[place]@ == id,
        forall|k: int| 0 <= k < stock.len() ==> (#[trigger] texts[k])@ == stock[k].id,
        forall|r: int|
            0 <= r < known.len() ==> (#[trigger] known[r] <==> exists|i: int|
                0 <= i < stock.len() && #[trigger] ranks[i] == r),
    ensures
        known[ranks[place] as int] <==> store::knows_item(stock, id),
{
    let rank = ranks[place] as int;
    if known[rank] {
        let i = choose|i: int| 0 <= i < stock.len() && #[trigger] ranks[i] == rank;
        assert(texts[i]@ == texts[place]@);
        assert(stock[i].id == id);
    }
    if store::knows_item(stock, id) {
        let i = choose|i: int| 0 <= i < stock.len() && (#[trigger] stock[i]).id == id;
        assert(texts[i]@ == stock[i].id);
        assert(ranks[i] == ranks[place]);
    }
}

proof fn lemma_known_borrowers(
    ranks: Seq<usize>,
    texts: Seq<&str>,
    known: Seq<bool>,
    persons: Seq<Person>,
    place: int,
    id: Seq<char>,
)
    requires
        text::ranks_of(ranks, texts),
        persons.len() <= texts.len(),
        known.len() == ranks.len(),
        0 <= place < texts.len(),
        texts[place]@ == id,
        forall|k: int| 0 <= k < persons.len() ==> (#[trigger] texts[k])@ == persons[k].id,
        forall|r: int|
            0 <= r < known.len() ==> (#[trigger] known[r] <==> exists|i: int|
                0 <= i < persons.len() && #[trigger] ranks[i] == r),
    ensures
        known[ranks[place] as int] <==> store::knows_borrower(persons, id),
{
    let rank = ranks[place] as int;
    if known[rank] {
        let i = choose|i: int| 0 <= i < persons.len() && #[trigger] ranks[i] == rank;
        assert(texts[i]@ == texts[place]@);
        assert(persons[i].id == id);
    }
    if store::knows_borrower(persons, id) {
        let i = choose|i: int| 0 <= i < persons.len() && (#[trigger] persons[i]).id == id;
        assert(texts[i]@ == persons[i].id);
        assert(ranks[i] == ranks[place]);
    }
}

/// What is accepted makes a sound desk.
pub proof fn lemma_sifted_sound(
    items: Seq<Article>,
    borrowers: Seq<Person>,
    candidates: Seq<Notice>,
    n: nat,
)
    requires
        n <= candidates.len(),
    ensures
        store::is_sound(
            Desk { items, borrowers, events: sifted(items, borrowers, candidates, n).accepted },
        ),
    decreases n,
{
    if n > 0 {
        lemma_sifted_sound(items, borrowers, candidates, (n - 1) as nat);
        let before = sifted(items, borrowers, candidates, (n - 1) as nat);
        let desk = Desk { items, borrowers, events: before.accepted };
        if store::verdict(items, borrowers, before.accepted, candidates[n - 1]) is Ok {
            store::lemma_sound_push(desk, candidates[n - 1]);
        }
    }
}

} // verus!
