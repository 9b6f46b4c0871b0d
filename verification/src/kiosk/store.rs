//! The desk's books: what is stocked, who borrows, and the events accepted so far.

use vstd::prelude::*;
use crate::kiosk::model;
use crate::kiosk::model::{
    Borrower, Event, EventKind, Item, ItemState, Notice, Projection, Standing, copy_event, replay,
    transition,
};
use crate::seqs;
use crate::text;
use crate::text::{joined, push_decimal, same_text};

verus! {

/// An item as plain values.
pub struct Article {
    pub id: Seq<char>,
    pub asset_tag: Seq<char>,
    pub serial: Seq<char>,
    pub name: Seq<char>,
    pub nickname: Seq<char>,
    pub source_row: Seq<char>,
}

impl View for Item {
    type V = Article;

    open spec fn view(&self) -> Article {
        Article {
            id: self.id@,
            asset_tag: self.asset_tag@,
            serial: self.serial@,
            name: self.name@,
            nickname: self.nickname@,
            source_row: self.source_row@,
        }
    }
}

/// A borrower as plain values.
pub struct Person {
    pub id: Seq<char>,
    pub name: Seq<char>,
    pub source_row: Seq<char>,
}

impl View for Borrower {
    type V = Person;

    open spec fn view(&self) -> Person {
        Person { id: self.id@, name: self.name@, source_row: self.source_row@ }
    }
}

pub open spec fn articles(items: Seq<Item>) -> Seq<Article> {
    items.map_values(|item: Item| item@)
}

pub open spec fn people(borrowers: Seq<Borrower>) -> Seq<Person> {
    borrowers.map_values(|borrower: Borrower| borrower@)
}

pub open spec fn knows_item(items: Seq<Article>, id: Seq<char>) -> bool {
    exists|i: int| 0 <= i < items.len() && (#[trigger] items[i]).id == id
}

pub open spec fn knows_borrower(borrowers: Seq<Person>, id: Seq<char>) -> bool {
    exists|i: int| 0 <= i < borrowers.len() && (#[trigger] borrowers[i]).id == id
}

pub open spec fn has_id(events: Seq<Notice>, id: Seq<char>) -> bool {
    exists|i: int| 0 <= i < events.len() && (#[trigger] events[i]).id == id
}

pub open spec fn has_sequence(events: Seq<Notice>, sequence: u64) -> bool {
    exists|i: int| 0 <= i < events.len() && (#[trigger] events[i]).sequence == sequence
}

/// The greatest sequence number.
pub open spec fn latest(events: Seq<Notice>) -> Option<u64>
    decreases events.len(),
{
    if events.len() == 0 {
        None
    } else {
        match latest(events.drop_last()) {
            Some(sequence) if sequence > events.last().sequence => Some(sequence),
            _ => Some(events.last().sequence),
        }
    }
}

/// The state of an item after the first `n` events.
pub open spec fn standing(events: Seq<Notice>, item_id: Seq<char>, n: nat) -> Standing
    decreases n,
{
    if n == 0 {
        Standing::Available
    } else {
        let before = standing(events, item_id, (n - 1) as nat);
        let event = events[n - 1];
        if event.item_id == item_id {
            match model::next_state(before, event.kind) {
                Ok(next) => next,
                Err(_) => before,
            }
        } else {
            before
        }
    }
}

/// Whether an event may be accepted after others, or why not.
pub open spec fn verdict(
    items: Seq<Article>,
    borrowers: Seq<Person>,
    accepted: Seq<Notice>,
    event: Notice,
) -> Result<(), Seq<char>> {
    if has_id(accepted, event.id) {
        Err("duplicate event id "@ + event.id)
    } else if has_sequence(accepted, event.sequence) {
        Err("duplicate event sequence "@ + text::decimal(event.sequence as nat))
    } else if latest(accepted) is Some && event.sequence <= latest(accepted)->0 {
        Err(
            "out-of-order event sequence "@ + text::decimal(event.sequence as nat)
                + "; latest accepted sequence is "@ + text::decimal(latest(accepted)->0 as nat),
        )
    } else if !knows_item(items, event.item_id) {
        Err("unknown item "@ + event.item_id)
    } else if event.kind is Checkout && !knows_borrower(borrowers, event.kind->borrower_id) {
        Err("unknown borrower "@ + event.kind->borrower_id)
    } else {
        match model::next_state(standing(accepted, event.item_id, accepted.len()), event.kind) {
            Ok(_) => Ok(()),
            Err(error) => Err(error),
        }
    }
}

/// What the desk holds.
pub struct Desk {
    pub items: Seq<Article>,
    pub borrowers: Seq<Person>,
    pub events: Seq<Notice>,
}

/// An event was acceptable when it came.
pub open spec fn was_acceptable(desk: Desk, k: int) -> bool {
    verdict(desk.items, desk.borrowers, desk.events.take(k), desk.events[k]) is Ok
}

/// Every event was acceptable when it came.
pub open spec fn is_sound(desk: Desk) -> bool {
    forall|k: int| 0 <= k < desk.events.len() ==> #[trigger] was_acceptable(desk, k)
}

/// A row put in place of the first of its id, or behind the others.
pub open spec fn with_item(items: Seq<Article>, item: Article) -> Seq<Article> {
    let at = item_place(items, item.id, 0);
    if at < items.len() {
        items.update(at, item)
    } else {
        items.push(item)
    }
}

pub open spec fn item_place(items: Seq<Article>, id: Seq<char>, from: int) -> int
    decreases items.len() - from,
{
    if from < 0 || from >= items.len() || items[from].id == id {
        from
    } else {
        item_place(items, id, from + 1)
    }
}

/// The rows after the first `n` of some more were put in.
pub open spec fn with_items(items: Seq<Article>, more: Seq<Article>, n: nat) -> Seq<Article>
    decreases n,
{
    if n == 0 {
        items
    } else {
        with_item(with_items(items, more, (n - 1) as nat), more[n - 1])
    }
}

/// A row put in place of the first of its id, or behind the others.
pub open spec fn with_borrower(borrowers: Seq<Person>, borrower: Person) -> Seq<Person> {
    let at = borrower_place(borrowers, borrower.id, 0);
    if at < borrowers.len() {
        borrowers.update(at, borrower)
    } else {
        borrowers.push(borrower)
    }
}

pub open spec fn borrower_place(borrowers: Seq<Person>, id: Seq<char>, from: int) -> int
    decreases borrowers.len() - from,
{
    if from < 0 || from >= borrowers.len() || borrowers[from].id == id {
        from
    } else {
        borrower_place(borrowers, id, from + 1)
    }
}

/// The rows after the first `n` of some more were put in.
pub open spec fn with_borrowers(borrowers: Seq<Person>, more: Seq<Person>, n: nat) -> Seq<Person>
    decreases n,
{
    if n == 0 {
        borrowers
    } else {
        with_borrower(with_borrowers(borrowers, more, (n - 1) as nat), more[n - 1])
    }
}

proof fn lemma_item_place(items: Seq<Article>, id: Seq<char>, from: int)
    requires
        0 <= from <= items.len(),
    ensures
        from <= item_place(items, id, from) <= items.len(),
        item_place(items, id, from) < items.len() ==> items[item_place(items, id, from)].id == id,
    decreases items.len() - from,
{
    if from < items.len() && items[from].id != id {
        lemma_item_place(items, id, from + 1);
    }
}

proof fn lemma_borrower_place(borrowers: Seq<Person>, id: Seq<char>, from: int)
    requires
        0 <= from <= borrowers.len(),
    ensures
        from <= borrower_place(borrowers, id, from) <= borrowers.len(),
        borrower_place(borrowers, id, from) < borrowers.len() ==> borrowers[borrower_place(
            borrowers,
            id,
            from,
        )].id == id,
    decreases borrowers.len() - from,
{
    if from < borrowers.len() && borrowers[from].id != id {
        lemma_borrower_place(borrowers, id, from + 1);
    }
}

/// An item is known after rows were put in exactly when it was, or is among them.
pub proof fn lemma_items_known(items: Seq<Article>, more: Seq<Article>, n: nat, id: Seq<char>)
    requires
        n <= more.len(),
    ensures
        knows_item(with_items(items, more, n), id) <==> knows_item(items, id) || knows_item(
            more.take(n as int),
            id,
        ),
    decreases n,
{
    if n > 0 {
        let before = with_items(items, more, (n - 1) as nat);
        let item = more[n - 1];
        let after = with_item(before, item);
        let at = item_place(before, item.id, 0);
        lemma_items_known(items, more, (n - 1) as nat, id);
        lemma_item_place(before, item.id, 0);
        assert(after[at] == item);
        if knows_item(before, id) {
            let i = choose|i: int| 0 <= i < before.len() && (#[trigger] before[i]).id == id;
            assert(after[i].id == id);
        }
        if knows_item(after, id) {
            let i = choose|i: int| 0 <= i < after.len() && (#[trigger] after[i]).id == id;
            if i != at {
                assert(before[i].id == id);
            } else {
                assert(more.take(n as int)[n - 1].id == id);
            }
        }
        if knows_item(more.take(n - 1), id) {
            let i = choose|i: int|
                0 <= i < more.take(n - 1).len() && (#[trigger] more.take(n - 1)[i]).id == id;
            assert(more.take(n as int)[i].id == id);
        }
        if knows_item(more.take(n as int), id) {
            let i = choose|i: int|
                0 <= i < more.take(n as int).len() && (#[trigger] more.take(n as int)[i]).id == id;
            if i < n - 1 {
                assert(more.take(n - 1)[i].id == id);
            }
        }
    }
}

/// A borrower is known after rows were put in exactly when they were, or are among
/// them.
pub proof fn lemma_borrowers_known(
    borrowers: Seq<Person>,
    more: Seq<Person>,
    n: nat,
    id: Seq<char>,
)
    requires
        n <= more.len(),
    ensures
        knows_borrower(with_borrowers(borrowers, more, n), id) <==> knows_borrower(borrowers, id)
            || knows_borrower(more.take(n as int), id),
    decreases n,
{
    if n > 0 {
        let before = with_borrowers(borrowers, more, (n - 1) as nat);
        let borrower = more[n - 1];
        let after = with_borrower(before, borrower);
        let at = borrower_place(before, borrower.id, 0);
        lemma_borrowers_known(borrowers, more, (n - 1) as nat, id);
        lemma_borrower_place(before, borrower.id, 0);
        assert(after[at] == borrower);
        if knows_borrower(before, id) {
            let i = choose|i: int| 0 <= i < before.len() && (#[trigger] before[i]).id == id;
            assert(after[i].id == id);
        }
        if knows_borrower(after, id) {
            let i = choose|i: int| 0 <= i < after.len() && (#[trigger] after[i]).id == id;
            if i != at {
                assert(before[i].id == id);
            } else {
                assert(more.take(n as int)[n - 1].id == id);
            }
        }
        if knows_borrower(more.take(n - 1), id) {
            let i = choose|i: int|
                0 <= i < more.take(n - 1).len() && (#[trigger] more.take(n - 1)[i]).id == id;
            assert(more.take(n as int)[i].id == id);
        }
        if knows_borrower(more.take(n as int), id) {
            let i = choose|i: int|
                0 <= i < more.take(n as int).len() && (#[trigger] more.take(n as int)[i]).id == id;
            if i < n - 1 {
                assert(more.take(n - 1)[i].id == id);
            }
        }
    }
}

/// Whoever is known more leaves accepted what was.
pub proof fn lemma_more_known(
    items: Seq<Article>,
    borrowers: Seq<Person>,
    more_items: Seq<Article>,
    more_borrowers: Seq<Person>,
    events: Seq<Notice>,
)
    requires
        is_sound(Desk { items, borrowers, events }),
        forall|id: Seq<char>| #[trigger] knows_item(items, id) ==> knows_item(more_items, id),
        forall|id: Seq<char>| #[trigger]
            knows_borrower(borrowers, id) ==> knows_borrower(more_borrowers, id),
    ensures
        is_sound(Desk { items: more_items, borrowers: more_borrowers, events }),
{
    let before = Desk { items, borrowers, events };
    let after = Desk { items: more_items, borrowers: more_borrowers, events };
    assert forall|k: int| 0 <= k < after.events.len() implies #[trigger] was_acceptable(
        after,
        k,
    ) by {
        assert(was_acceptable(before, k));
    }
}

/// The events of an item.
pub open spec fn history_of(events: Seq<Notice>, item_id: Seq<char>) -> Seq<Notice> {
    events.filter(|event: Notice| event.item_id == item_id)
}

/// The events of an item up to a day.
pub open spec fn history_until(events: Seq<Notice>, item_id: Seq<char>, day: u32) -> Seq<Notice> {
    events.filter(|event: Notice| event.item_id == item_id && event.at_day <= day)
}

/// The state of an item on a day, where its events up to then lead anywhere.
pub open spec fn state_on(events: Seq<Notice>, item_id: Seq<char>, day: u32) -> Option<Standing> {
    if history_of(events, item_id).len() == 0 {
        None
    } else {
        let until = history_until(events, item_id, day);
        match model::replayed(until, until.len()) {
            Ok(state) => Some(state),
            Err(_) => None,
        }
    }
}

/// The text of a result that tells of an error.
pub open spec fn told(result: Result<(), String>) -> Result<(), Seq<char>> {
    match result {
        Ok(()) => Ok(()),
        Err(error) => Err(error@),
    }
}

pub(crate) fn sequence_error(sequence: u64) -> (error: String)
    ensures
        error@ == "duplicate event sequence "@ + text::decimal(sequence as nat),
{
    let mut error = "duplicate event sequence ".to_owned();
    push_decimal(&mut error, sequence);
    error
}

pub(crate) fn order_error(sequence: u64, latest: u64) -> (error: String)
    ensures
        error@ == "out-of-order event sequence "@ + text::decimal(sequence as nat)
            + "; latest accepted sequence is "@ + text::decimal(latest as nat),
{
    let mut error = "out-of-order event sequence ".to_owned();
    push_decimal(&mut error, sequence);
    error.append("; latest accepted sequence is ");
    push_decimal(&mut error, latest);
    error
}

fn copy_item(item: &Item) -> (copy: Item)
    ensures
        copy@ == item@,
{
    Item {
        id: item.id.as_str().to_owned(),
        asset_tag: item.asset_tag.as_str().to_owned(),
        serial: item.serial.as_str().to_owned(),
        name: item.name.as_str().to_owned(),
        nickname: item.nickname.as_str().to_owned(),
        source_row: item.source_row.as_str().to_owned(),
    }
}

fn copy_borrower(borrower: &Borrower) -> (copy: Borrower)
    ensures
        copy@ == borrower@,
{
    Borrower {
        id: borrower.id.as_str().to_owned(),
        name: borrower.name.as_str().to_owned(),
        source_row: borrower.source_row.as_str().to_owned(),
    }
}

fn put_item(items: &mut Vec<Item>, item: &Item)
    ensures
        articles(final(items)@) == with_item(articles(old(items)@), item@),
{
    let ghost all = articles(items@);
    let mut i: usize = 0;
    while i < items.len() && !same_text(items[i].id.as_str(), item.id.as_str())
        invariant
            i <= items@.len(),
            all == articles(items@),
            item_place(all, item@.id, 0) == item_place(all, item@.id, i as int),
        decreases items@.len() - i,
    {
        assert(all[i as int] == items@[i as int]@);
        i = i + 1;
    }
    proof {
        if i < items@.len() {
            assert(all[i as int] == items@[i as int]@);
        }
    }
    if i < items.len() {
        items.set(i, copy_item(item));
        assert(articles(items@) =~= all.update(i as int, item@));
    } else {
        items.push(copy_item(item));
        assert(articles(items@) =~= all.push(item@));
    }
}

fn put_borrower(borrowers: &mut Vec<Borrower>, borrower: &Borrower)
    ensures
        people(final(borrowers)@) == with_borrower(people(old(borrowers)@), borrower@),
{
    let ghost all = people(borrowers@);
    let mut i: usize = 0;
    while i < borrowers.len() && !same_text(borrowers[i].id.as_str(), borrower.id.as_str())
        invariant
            i <= borrowers@.len(),
            all == people(borrowers@),
            borrower_place(all, borrower@.id, 0) == borrower_place(all, borrower@.id, i as int),
        decreases borrowers@.len() - i,
    {
        assert(all[i as int] == borrowers@[i as int]@);
        i = i + 1;
    }
    proof {
        if i < borrowers@.len() {
            assert(all[i as int] == borrowers@[i as int]@);
        }
    }
    if i < borrowers.len() {
        borrowers.set(i, copy_borrower(borrower));
        assert(people(borrowers@) =~= all.update(i as int, borrower@));
    } else {
        borrowers.push(copy_borrower(borrower));
        assert(people(borrowers@) =~= all.push(borrower@));
    }
}

/// The desk.
#[derive(Clone, Debug, PartialEq, Eq)]
pub struct Kiosk {
    items: Vec<Item>,
    borrowers: Vec<Borrower>,
    events: Vec<Event>,
}

impl View for Kiosk {
    type V = Desk;

    closed spec fn view(&self) -> Desk {
        Desk {
            items: articles(self.items@),
            borrowers: people(self.borrowers@),
            events: model::notices(self.events@),
        }
    }
}

impl Kiosk {
    /// A desk that holds nothing.
    pub fn new() -> (kiosk: Kiosk)
        ensures
            kiosk@ == (Desk {
                items: Seq::empty(),
                borrowers: Seq::empty(),
                events: Seq::empty(),
            }),
            is_sound(kiosk@),
    {
        let kiosk = Kiosk { items: Vec::new(), borrowers: Vec::new(), events: Vec::new() };
        proof {
            assert(kiosk@.items =~= Seq::empty());
            assert(kiosk@.borrowers =~= Seq::empty());
            assert(kiosk@.events =~= Seq::empty());
        }
        kiosk
    }

    pub fn items(&self) -> (items: &Vec<Item>)
        ensures
            articles(items@) == self@.items,
    {
        &self.items
    }

    pub fn borrowers(&self) -> (borrowers: &Vec<Borrower>)
        ensures
            people(borrowers@) == self@.borrowers,
    {
        &self.borrowers
    }

    pub fn events(&self) -> (events: &Vec<Event>)
        ensures
            model::notices(events@) == self@.events,
    {
        &self.events
    }

    /// Takes items and borrowers into the books, each in place of an earlier one of
    /// the same id.
    pub fn insert_masters(&mut self, items: &[Item], borrowers: &[Borrower])
        requires
            is_sound(old(self)@),
        ensures
            final(self)@ == (Desk {
                items: with_items(old(self)@.items, articles(items@), items@.len()),
                borrowers: with_borrowers(
                    old(self)@.borrowers,
                    people(borrowers@),
                    borrowers@.len(),
                ),
                events: old(self)@.events,
            }),
            is_sound(final(self)@),
    {
        let ghost start = self@;
        let ghost more_items = articles(items@);
        let ghost more_borrowers = people(borrowers@);
        let mut i: usize = 0;
        while i < items.len()
            invariant
                i <= items@.len(),
                more_items == articles(items@),
                articles(self.items@) == with_items(start.items, more_items, i as nat),
                people(self.borrowers@) == start.borrowers,
                model::notices(self.events@) == start.events,
            decreases items@.len() - i,
        {
            assert(more_items[i as int] == items@[i as int]@);
            put_item(&mut self.items, &items[i]);
            i = i + 1;
        }
        let mut j: usize = 0;
        while j < borrowers.len()
            invariant
                j <= borrowers@.len(),
                more_borrowers == people(borrowers@),
                articles(self.items@) == with_items(start.items, more_items, items@.len()),
                people(self.borrowers@) == with_borrowers(
                    start.borrowers,
                    more_borrowers,
                    j as nat,
                ),
                model::notices(self.events@) == start.events,
            decreases borrowers@.len() - j,
        {
            assert(more_borrowers[j as int] == borrowers@[j as int]@);
            put_borrower(&mut self.borrowers, &borrowers[j]);
            j = j + 1;
        }
        proof {
            assert forall|id: Seq<char>| #[trigger] knows_item(start.items, id) implies knows_item(
                self@.items,
                id,
            ) by {
                lemma_items_known(start.items, more_items, items@.len(), id);
            }
            assert forall|id: Seq<char>| #[trigger]
                knows_borrower(start.borrowers, id) implies knows_borrower(self@.borrowers, id) by {
                lemma_borrowers_known(start.borrowers, more_borrowers, borrowers@.len(), id);
            }
            lemma_more_known(
                start.items,
                start.borrowers,
                self@.items,
                self@.borrowers,
                start.events,
            );
        }
    }

    fn is_item_known(&self, id: &str) -> (known: bool)
        ensures
            known == knows_item(self@.items, id@),
    {
        let ghost all = self@.items;
        let mut i: usize = 0;
        while i < self.items.len()
            invariant
                i <= self.items@.len(),
                all == articles(self.items@),
                forall|k: int| 0 <= k < i ==> (#[trigger] all[k]).id != id@,
            decreases self.items@.len() - i,
        {
            assert(all[i as int] == self.items@[i as int]@);
            if same_text(self.items[i].id.as_str(), id) {
                return true;
            }
            i = i + 1;
        }
        false
    }

    fn is_borrower_known(&self, id: &str) -> (known: bool)
        ensures
            known == knows_borrower(self@.borrowers, id@),
    {
        let ghost all = self@.borrowers;
        let mut i: usize = 0;
        while i < self.borrowers.len()
            invariant
                i <= self.borrowers@.len(),
                all == people(self.borrowers@),
                forall|k: int| 0 <= k < i ==> (#[trigger] all[k]).id != id@,
            decreases self.borrowers@.len() - i,
        {
            assert(all[i as int] == self.borrowers@[i as int]@);
            if same_text(self.borrowers[i].id.as_str(), id) {
                return true;
            }
            i = i + 1;
        }
        false
    }

    fn is_event_known(&self, id: &str) -> (known: bool)
        ensures
            known == has_id(self@.events, id@),
    {
        let ghost all = self@.events;
        let mut i: usize = 0;
        while i < self.events.len()
            invariant
                i <= self.events@.len(),
                all == model::notices(self.events@),
                forall|k: int| 0 <= k < i ==> (#[trigger] all[k]).id != id@,
            decreases self.events@.len() - i,
        {
            assert(all[i as int] == self.events@[i as int]@);
            if same_text(self.events[i].id.as_str(), id) {
                return true;
            }
            i = i + 1;
        }
        false
    }

    /// The state of an item.
    fn current_state(&self, item_id: &str) -> (state: ItemState)
        ensures
            state@ == standing(self@.events, item_id@, self@.events.len()),
    {
        let ghost all = self@.events;
        let mut state = ItemState::Available;
        let mut i: usize = 0;
        while i < self.events.len()
            invariant
                i <= self.events@.len(),
                all == model::notices(self.events@),
                state@ == standing(all, item_id@, i as nat),
            decreases self.events@.len() - i,
        {
            assert(all[i as int] == self.events@[i as int]@);
            if same_text(self.events[i].item_id.as_str(), item_id) {
                if let Ok(next) = transition(&state, &self.events[i].kind) {
                    state = next;
                }
            }
            i = i + 1;
        }
        state
    }

    /// Whether an event may be accepted, or why not.
    pub fn validate_event(&self, event: &Event) -> (result: Result<(), String>)
        ensures
            told(result) == verdict(self@.items, self@.borrowers, self@.events, event@),
    {
        let ghost all = self@.events;
        if self.is_event_known(event.id.as_str()) {
            return Err(joined("duplicate event id ", event.id.as_str()));
        }
        let mut newest: Option<u64> = None;
        let mut i: usize = 0;
        assert(all.take(0) =~= Seq::empty());
        while i < self.events.len()
            invariant
                i <= self.events@.len(),
                all == model::notices(self.events@),
                all == self@.events,
                !has_id(all, event@.id),
                newest == latest(all.take(i as int)),
                forall|k: int| 0 <= k < i ==> (#[trigger] all[k]).sequence != event.sequence,
            decreases self.events@.len() - i,
        {
            let sequence: u64 = self.events[i].sequence;
            assert(all[i as int] == self.events@[i as int]@);
            if sequence == event.sequence {
                assert(has_sequence(all, event@.sequence));
                return Err(sequence_error(sequence));
            }
            proof {
                assert(all.take(i + 1).drop_last() =~= all.take(i as int));
                assert(all.take(i + 1).last() == all[i as int]);
            }
            newest = match newest {
                Some(known) if known > sequence => Some(known),
                _ => Some(sequence),
            };
            i = i + 1;
        }
        assert(all.take(i as int) =~= all);
        if let Some(known) = newest {
            if event.sequence <= known {
                return Err(order_error(event.sequence, known));
            }
        }
        if !self.is_item_known(event.item_id.as_str()) {
            return Err(joined("unknown item ", event.item_id.as_str()));
        }
        if let EventKind::Checkout { borrower_id, .. } = &event.kind {
            if !self.is_borrower_known(borrower_id.as_str()) {
                return Err(joined("unknown borrower ", borrower_id.as_str()));
            }
        }
        let state = self.current_state(event.item_id.as_str());
        match transition(&state, &event.kind) {
            Ok(_) => Ok(()),
            Err(error) => Err(error),
        }
    }

    /// Accepts an event, or tells why not and changes nothing.
    pub fn apply_event(&mut self, event: Event) -> (result: Result<(), String>)
        requires
            is_sound(old(self)@),
        ensures
            told(result) == verdict(
                old(self)@.items,
                old(self)@.borrowers,
                old(self)@.events,
                event@,
            ),
            match result {
                Ok(()) => final(self)@ == (Desk {
                    events: old(self)@.events.push(event@),
                    ..old(self)@
                }),
                Err(_) => *final(self) == *old(self),
            },
            is_sound(final(self)@),
    {
        let ghost start = self@;
        if let Err(error) = self.validate_event(&event) {
            return Err(error);
        }
        let ghost told = event@;
        self.events.push(event);
        proof {
            assert(self@.events =~= start.events.push(told));
            lemma_sound_push(start, told);
        }
        Ok(())
    }

    /// Takes events into the books that are known to be acceptable one after another.
    pub fn insert_events(&mut self, events: &[Event])
        requires
            is_sound(
                Desk { events: old(self)@.events + model::notices(events@), ..old(self)@ },
            ),
        ensures
            final(self)@ == (Desk {
                events: old(self)@.events + model::notices(events@),
                ..old(self)@
            }),
            is_sound(final(self)@),
    {
        let ghost start = self@;
        let ghost more = model::notices(events@);
        let mut i: usize = 0;
        assert(self@.events =~= start.events + more.take(0));
        while i < events.len()
            invariant
                i <= events@.len() == more.len(),
                more == model::notices(events@),
                self@.items == start.items,
                self@.borrowers == start.borrowers,
                self@.events == start.events + more.take(i as int),
            decreases events@.len() - i,
        {
            let ghost held = self@.events;
            let event = copy_event(&events[i]);
            let ghost taken = event@;
            self.events.push(event);
            proof {
                assert(self@.events =~= held.push(taken));
                assert(more.take(i + 1) =~= more.take(i as int).push(more[i as int]));
                assert(self@.events =~= start.events + more.take(i + 1));
            }
            i = i + 1;
        }
        assert(more.take(i as int) =~= more);
    }

    /// The state of an item on a day, where its events up to then lead anywhere.
    pub fn state_at(&self, item_id: &str, at_day: u32) -> (state: Option<ItemState>)
        ensures
            match state {
                Some(state) => state_on(self@.events, item_id@, at_day) == Some(state@),
                None => state_on(self@.events, item_id@, at_day) is None,
            },
    {
        let ghost all = self@.events;
        let ghost of_item = |event: Notice| event.item_id == item_id@;
        let ghost until_day = |event: Notice| event.item_id == item_id@ && event.at_day <= at_day;
        let mut known: bool = false;
        let mut until: Vec<Event> = Vec::new();
        let mut i: usize = 0;
        proof {
            assert(all.take(0) =~= Seq::empty());
            reveal(Seq::filter);
            assert(model::notices(until@) =~= Seq::empty());
        }
        while i < self.events.len()
            invariant
                i <= self.events@.len(),
                all == model::notices(self.events@),
                of_item == (|event: Notice| event.item_id == item_id@),
                until_day == (|event: Notice| event.item_id == item_id@ && event.at_day <= at_day),
                known == (all.take(i as int).filter(of_item).len() > 0),
                model::notices(until@) == all.take(i as int).filter(until_day),
            decreases self.events@.len() - i,
        {
            proof {
                assert(all[i as int] == self.events@[i as int]@);
                seqs::lemma_filter_step(all, of_item, i as int);
                seqs::lemma_filter_step(all, until_day, i as int);
            }
            let event = &self.events[i];
            if same_text(event.item_id.as_str(), item_id) {
                known = true;
                if event.at_day <= at_day {
                    let ghost held = until@;
                    until.push(copy_event(event));
                    assert(model::notices(until@) =~= model::notices(held).push(event@));
                }
            }
            i = i + 1;
        }
        assert(all.take(i as int) =~= all);
        assert(history_of(all, item_id@) == all.filter(of_item));
        assert(history_until(all, item_id@, at_day) == all.filter(until_day));
        if !known {
            return None;
        }
        assert(model::notices(until@).len() == until@.len());
        match replay(until.as_slice()) {
            Ok(state) => Some(state),
            Err(_) => None,
        }
    }

    /// What is kept of an item that something happened to.
    pub fn projection(&self, item_id: &str) -> (projection: Option<Projection>)
        ensures
            match projection {
                Some(projection) => {
                    &&& model::notices(projection.history@) == history_of(self@.events, item_id@)
                    &&& projection.history@.len() > 0
                    &&& projection.state@ == standing(self@.events, item_id@, self@.events.len())
                },
                None => history_of(self@.events, item_id@).len() == 0,
            },
    {
        let ghost all = self@.events;
        let ghost of_item = |event: Notice| event.item_id == item_id@;
        let mut history: Vec<Event> = Vec::new();
        let mut i: usize = 0;
        proof {
            assert(all.take(0) =~= Seq::empty());
            reveal(Seq::filter);
            assert(model::notices(history@) =~= Seq::empty());
        }
        while i < self.events.len()
            invariant
                i <= self.events@.len(),
                all == model::notices(self.events@),
                of_item == (|event: Notice| event.item_id == item_id@),
                model::notices(history@) == all.take(i as int).filter(of_item),
            decreases self.events@.len() - i,
        {
            proof {
                assert(all[i as int] == self.events@[i as int]@);
                seqs::lemma_filter_step(all, of_item, i as int);
            }
            if same_text(self.events[i].item_id.as_str(), item_id) {
                let ghost held = history@;
                let event = copy_event(&self.events[i]);
                let ghost told = event@;
                history.push(event);
                assert(model::notices(history@) =~= model::notices(held).push(told));
            }
            i = i + 1;
        }
        assert(all.take(i as int) =~= all);
        assert(history_of(all, item_id@) == all.filter(of_item));
        assert(model::notices(history@).len() == history@.len());
        if history.len() == 0 {
            return None;
        }
        Some(Projection { state: self.current_state(item_id), history })
    }
}

/// A sound desk stays sound with one more acceptable event.
pub proof fn lemma_sound_push(desk: Desk, event: Notice)
    requires
        is_sound(desk),
        verdict(desk.items, desk.borrowers, desk.events, event) is Ok,
    ensures
        is_sound(Desk { events: desk.events.push(event), ..desk }),
{
    let after = Desk { events: desk.events.push(event), ..desk };
    assert forall|k: int| 0 <= k < after.events.len() implies #[trigger] was_acceptable(
        after,
        k,
    ) by {
        assert(after.events.take(k) =~= desk.events.take(k));
        if k < desk.events.len() {
            assert(was_acceptable(desk, k));
        } else {
            assert(desk.events.take(k) =~= desk.events);
        }
    }
}

} // verus!
