//! A desk with many items, borrowers and events, made up.

use vstd::prelude::*;
use crate::chars::{chars_of, text_of};
use crate::kiosk::import;
use crate::kiosk::import::validate_fixture;
use crate::kiosk::model;
use crate::kiosk::model::{Borrower, Event, EventKind, Item, Kind, Notice};
use crate::kiosk::store;
use crate::kiosk::store::{Article, Desk, Kiosk, Person};
use crate::text;
use crate::text::{push_decimal, push_padded};

verus! {

pub const ITEM_COUNT: usize = 8_000;

pub const BORROWER_COUNT: usize = 1_200;

pub const PAIR_COUNT: usize = 50_000;

/// The name, the nickname and the initials of a sort of item.
pub open spec fn sort_of(index: nat) -> (Seq<char>, Seq<char>, Seq<char>) {
    if index % 8 == 0 {
        ("Cordless Drill"@, "blue drill"@, "CD"@)
    } else if index % 8 == 1 {
        ("Soldering Iron"@, "hot pencil"@, "SI"@)
    } else if index % 8 == 2 {
        ("Socket Set"@, "ratchet box"@, "SS"@)
    } else if index % 8 == 3 {
        ("Circular Saw"@, "round saw"@, "CS"@)
    } else if index % 8 == 4 {
        ("Multimeter"@, "meter"@, "MM"@)
    } else if index % 8 == 5 {
        ("Sewing Machine"@, "stitcher"@, "SM"@)
    } else if index % 8 == 6 {
        ("Pipe Wrench"@, "red wrench"@, "PW"@)
    } else {
        ("Heat Gun"@, "hot blower"@, "HG"@)
    }
}

/// The name, the nickname and the initials of a sort of item.
pub fn item_names(index: usize) -> (names: (&'static str, &'static str, &'static str))
    ensures
        (names.0@, names.1@, names.2@) == sort_of(index as nat),
{
    match index % 8 {
        0 => ("Cordless Drill", "blue drill", "CD"),
        1 => ("Soldering Iron", "hot pencil", "SI"),
        2 => ("Socket Set", "ratchet box", "SS"),
        3 => ("Circular Saw", "round saw", "CS"),
        4 => ("Multimeter", "meter", "MM"),
        5 => ("Sewing Machine", "stitcher", "SM"),
        6 => ("Pipe Wrench", "red wrench", "PW"),
        _ => ("Heat Gun", "hot blower", "HG"),
    }
}

pub open spec fn item_id(index: nat) -> Seq<char> {
    "item-"@ + text::padded(index, 5)
}

pub open spec fn borrower_id(index: nat) -> Seq<char> {
    "borrower-"@ + text::padded(index, 4)
}

pub open spec fn event_id(sequence: nat) -> Seq<char> {
    "event-"@ + text::padded(sequence, 6)
}

pub open spec fn event_row(line: nat) -> Seq<char> {
    "events.csv:"@ + text::decimal(line)
}

pub open spec fn item_at(index: nat) -> Article {
    Article {
        id: item_id(index),
        asset_tag: "RC-"@ + text::padded(index, 5),
        serial: "SN"@ + text::padded(index, 8),
        name: sort_of(index).0 + " "@ + text::padded(index, 5),
        nickname: sort_of(index).1 + " "@ + text::padded(index, 5),
        source_row: "items.csv:"@ + text::decimal(index + 2),
    }
}

pub open spec fn borrower_at(index: nat) -> Person {
    Person {
        id: borrower_id(index),
        name: "Borrower "@ + text::padded(index, 4),
        source_row: "borrowers.csv:"@ + text::decimal(index + 2),
    }
}

/// The event of a sequence number: items go out and come back in turn.
pub open spec fn event_at(sequence: nat) -> Notice {
    let pair = sequence / 2;
    let day = (pair * 2 / 500) as u32;
    if sequence % 2 == 0 {
        Notice {
            id: event_id(sequence),
            sequence: sequence as u64,
            at_day: day,
            item_id: item_id(pair % 8_000),
            kind: Kind::Checkout {
                borrower_id: borrower_id(pair % 1_200),
                due_day: (day + 14) as u32,
            },
            source_row: event_row(sequence + 2),
        }
    } else {
        Notice {
            id: event_id(sequence),
            sequence: sequence as u64,
            at_day: (day + 1) as u32,
            item_id: item_id(pair % 8_000),
            kind: Kind::Return,
            source_row: event_row(sequence + 2),
        }
    }
}

/// Four events that are not acceptable after the others.
pub open spec fn unacceptable() -> Seq<Notice> {
    seq![
        Notice {
            id: event_id(0),
            sequence: 100_000,
            at_day: 300,
            item_id: item_id(0),
            kind: Kind::Checkout { borrower_id: borrower_id(0), due_day: 314 },
            source_row: "events.csv:100002"@,
        },
        Notice {
            id: "event-bad-item"@,
            sequence: 100_001,
            at_day: 300,
            item_id: "item-missing"@,
            kind: Kind::RepairStart { reason: "broken"@ },
            source_row: "events.csv:100003"@,
        },
        Notice {
            id: "event-bad-borrower"@,
            sequence: 100_002,
            at_day: 300,
            item_id: item_id(1),
            kind: Kind::Checkout { borrower_id: "borrower-missing"@, due_day: 314 },
            source_row: "events.csv:100004"@,
        },
        Notice {
            id: "event-bad-transition"@,
            sequence: 100_003,
            at_day: 300,
            item_id: item_id(2),
            kind: Kind::Return,
            source_row: "events.csv:100005"@,
        },
    ]
}

pub open spec fn all_items() -> Seq<Article> {
    Seq::new(8_000, |i: int| item_at(i as nat))
}

pub open spec fn all_borrowers() -> Seq<Person> {
    Seq::new(1_200, |i: int| borrower_at(i as nat))
}

pub open spec fn all_events() -> Seq<Notice> {
    Seq::new(100_000, |i: int| event_at(i as nat))
}

fn numbered(prefix: &str, number: usize, width: u32) -> (label: String)
    ensures
        label@ == prefix@ + text::padded(number as nat, width as nat),
{
    let mut label = prefix.to_owned();
    push_padded(&mut label, number as u64, width);
    label
}

fn spaced(name: &str, number: usize) -> (label: String)
    ensures
        label@ == name@ + " "@ + text::padded(number as nat, 5),
{
    let mut label = name.to_owned();
    label.append(" ");
    push_padded(&mut label, number as u64, 5);
    label
}

fn row(file: &str, line: usize) -> (label: String)
    ensures
        label@ == file@ + text::decimal(line as nat),
{
    let mut label = file.to_owned();
    push_decimal(&mut label, line as u64);
    label
}

fn make_item(index: usize) -> (item: Item)
    requires
        index < ITEM_COUNT,
    ensures
        item@ == item_at(index as nat),
{
    let names = item_names(index);
    Item {
        id: numbered("item-", index, 5),
        asset_tag: numbered("RC-", index, 5),
        serial: numbered("SN", index, 8),
        name: spaced(names.0, index),
        nickname: spaced(names.1, index),
        source_row: row("items.csv:", index + 2),
    }
}

fn make_borrower(index: usize) -> (borrower: Borrower)
    requires
        index < BORROWER_COUNT,
    ensures
        borrower@ == borrower_at(index as nat),
{
    Borrower {
        id: numbered("borrower-", index, 4),
        name: numbered("Borrower ", index, 4),
        source_row: row("borrowers.csv:", index + 2),
    }
}

fn make_event(sequence: usize) -> (event: Event)
    requires
        sequence < 2 * PAIR_COUNT,
    ensures
        event@ == event_at(sequence as nat),
{
    let pair: usize = sequence / 2;
    let day: u32 = (pair * 2 / 500) as u32;
    if sequence % 2 == 0 {
        Event {
            id: numbered("event-", sequence, 6),
            sequence: sequence as u64,
            at_day: day,
            item_id: numbered("item-", pair % 8_000, 5),
            kind: EventKind::Checkout {
                borrower_id: numbered("borrower-", pair % 1_200, 4),
                due_day: day + 14,
            },
            source_row: row("events.csv:", sequence + 2),
        }
    } else {
        Event {
            id: numbered("event-", sequence, 6),
            sequence: sequence as u64,
            at_day: day + 1,
            item_id: numbered("item-", pair % 8_000, 5),
            kind: EventKind::Return,
            source_row: row("events.csv:", sequence + 2),
        }
    }
}

fn make_unacceptable() -> (events: Vec<Event>)
    ensures
        model::notices(events@) == unacceptable(),
{
    let mut events: Vec<Event> = Vec::new();
    events.push(
        Event {
            id: numbered("event-", 0, 6),
            sequence: 100_000,
            at_day: 300,
            item_id: numbered("item-", 0, 5),
            kind: EventKind::Checkout { borrower_id: numbered("borrower-", 0, 4), due_day: 314 },
            source_row: "events.csv:100002".to_owned(),
        },
    );
    events.push(
        Event {
            id: "event-bad-item".to_owned(),
            sequence: 100_001,
            at_day: 300,
            item_id: "item-missing".to_owned(),
            kind: EventKind::RepairStart { reason: "broken".to_owned() },
            source_row: "events.csv:100003".to_owned(),
        },
    );
    events.push(
        Event {
            id: "event-bad-borrower".to_owned(),
            sequence: 100_002,
            at_day: 300,
            item_id: numbered("item-", 1, 5),
            kind: EventKind::Checkout { borrower_id: "borrower-missing".to_owned(), due_day: 314 },
            source_row: "events.csv:100004".to_owned(),
        },
    );
    events.push(
        Event {
            id: "event-bad-transition".to_owned(),
            sequence: 100_003,
            at_day: 300,
            item_id: numbered("item-", 2, 5),
            kind: EventKind::Return,
            source_row: "events.csv:100005".to_owned(),
        },
    );
    assert(model::notices(events@) =~= unacceptable());
    events
}

/// Items, borrowers, acceptable events and events that are not.
pub fn fixture() -> (made: (Vec<Item>, Vec<Borrower>, Vec<Event>, Vec<Event>))
    ensures
        store::articles(made.0@) == all_items(),
        store::people(made.1@) == all_borrowers(),
        model::notices(made.2@) == all_events(),
        model::notices(made.3@) == unacceptable(),
{
    let mut items: Vec<Item> = Vec::new();
    let mut i: usize = 0;
    while i < ITEM_COUNT
        invariant
            i <= ITEM_COUNT,
            i == items@.len(),
            forall|k: int| 0 <= k < i ==> (#[trigger] items@[k])@ == item_at(k as nat),
        decreases ITEM_COUNT - i,
    {
        items.push(make_item(i));
        i = i + 1;
    }
    let mut borrowers: Vec<Borrower> = Vec::new();
    i = 0;
    while i < BORROWER_COUNT
        invariant
            i <= BORROWER_COUNT,
            i == borrowers@.len(),
            forall|k: int| 0 <= k < i ==> (#[trigger] borrowers@[k])@ == borrower_at(k as nat),
        decreases BORROWER_COUNT - i,
    {
        borrowers.push(make_borrower(i));
        i = i + 1;
    }
    let mut events: Vec<Event> = Vec::new();
    i = 0;
    while i < 2 * PAIR_COUNT
        invariant
            i <= 2 * PAIR_COUNT,
            i == events@.len(),
            forall|k: int| 0 <= k < i ==> (#[trigger] events@[k])@ == event_at(k as nat),
        decreases 2 * PAIR_COUNT - i,
    {
        events.push(make_event(i));
        i = i + 1;
    }
    proof {
        assert(store::articles(items@) =~= all_items());
        assert(store::people(borrowers@) =~= all_borrowers());
        assert(model::notices(events@) =~= all_events());
    }
    (items, borrowers, events, make_unacceptable())
}

/// What an import did.
#[derive(Clone, Debug, PartialEq, Eq)]
pub struct ImportSummary {
    pub accepted_events: usize,
    pub rejected_rows: Vec<(String, String)>,
}

/// What becomes of the rows made up, good and bad.
pub open spec fn outcome_of_import() -> import::Sifted {
    let candidates = all_events() + unacceptable();
    import::sifted(all_items(), all_borrowers(), candidates, candidates.len())
}

/// Fills a desk with what is made up, and tells of the rows that were not taken;
/// the last of them had no event in it.
pub fn import_fixture() -> (imported: (Kiosk, ImportSummary))
    ensures
        imported.0@ == (Desk {
            items: store::with_items(Seq::empty(), all_items(), 8_000),
            borrowers: store::with_borrowers(Seq::empty(), all_borrowers(), 1_200),
            events: outcome_of_import().accepted,
        }),
        store::is_sound(imported.0@),
        imported.1.accepted_events == outcome_of_import().accepted.len(),
        import::refusals(imported.1.rejected_rows@) == outcome_of_import().rejected.push(
            import::Refused {
                row: "events.csv:100006"@,
                error: "malformed row: missing event id"@,
            },
        ),
{
    let (items, borrowers, events, mut bad) = fixture();
    let mut candidates = events;
    candidates.append(&mut bad);
    assert(model::notices(candidates@) =~= all_events() + unacceptable());
    let (accepted, mut rejected_rows) = validate_fixture(
        items.as_slice(),
        borrowers.as_slice(),
        candidates.as_slice(),
    );
    let ghost rows = rejected_rows@;
    rejected_rows.push(
        ("events.csv:100006".to_owned(), "malformed row: missing event id".to_owned()),
    );
    proof {
        assert(import::refusals(rejected_rows@) =~= import::refusals(rows).push(
            import::Refused {
                row: "events.csv:100006"@,
                error: "malformed row: missing event id"@,
            },
        ));
        assert(store::articles(items@).len() == items@.len());
        assert(store::people(borrowers@).len() == borrowers@.len());
        assert(model::notices(candidates@).len() == candidates@.len());
        assert(model::notices(accepted@).len() == accepted@.len());
    }
    let mut kiosk = Kiosk::new();
    kiosk.insert_masters(items.as_slice(), borrowers.as_slice());
    proof {
        let stock = all_items();
        let persons = all_borrowers();
        import::lemma_sifted_sound(
            stock,
            persons,
            all_events() + unacceptable(),
            (all_events() + unacceptable()).len(),
        );
        assert forall|id: Seq<char>| #[trigger] store::knows_item(
            stock,
            id,
        ) implies store::knows_item(kiosk@.items, id) by {
            store::lemma_items_known(Seq::empty(), stock, stock.len(), id);
            assert(stock.take(stock.len() as int) =~= stock);
        }
        assert forall|id: Seq<char>| #[trigger] store::knows_borrower(
            persons,
            id,
        ) implies store::knows_borrower(kiosk@.borrowers, id) by {
            store::lemma_borrowers_known(Seq::empty(), persons, persons.len(), id);
            assert(persons.take(persons.len() as int) =~= persons);
        }
        store::lemma_more_known(
            stock,
            persons,
            kiosk@.items,
            kiosk@.borrowers,
            model::notices(accepted@),
        );
        assert(kiosk@.events + model::notices(accepted@) =~= model::notices(accepted@));
    }
    kiosk.insert_events(accepted.as_slice());
    (kiosk, ImportSummary { accepted_events: accepted.len(), rejected_rows })
}

/// The item that a query of the search trial is about.
pub open spec fn golden_item(query_index: nat) -> nat {
    (query_index * 157) % 8_000
}

/// What the search trial asks for: a tag, a serial number, initials, a misspelt
/// nickname or a name.
pub open spec fn golden_text(query_index: nat) -> Seq<char> {
    let item = golden_item(query_index);
    let (name, nickname, letters) = sort_of(item);
    if query_index % 5 == 0 {
        "RC-"@ + text::padded(item, 5)
    } else if query_index % 5 == 1 {
        "SN"@ + text::padded(item, 8)
    } else if query_index % 5 == 2 {
        letters + " "@ + text::padded(item, 5)
    } else if query_index % 5 == 3 {
        nickname.drop_last() + " "@ + text::padded(item, 5)
    } else {
        name + " "@ + text::padded(item, 5)
    }
}

/// A query of the search trial, and the item that it is about.
pub fn golden_query(query_index: usize) -> (query: (String, String))
    requires
        query_index * 157 <= usize::MAX,
    ensures
        query.0@ == golden_text(query_index as nat),
        query.1@ == item_id(golden_item(query_index as nat)),
{
    let item: usize = (query_index * 157) % 8_000;
    let (name, nickname, letters) = item_names(item);
    let mut wanted = "item-".to_owned();
    push_padded(&mut wanted, item as u64, 5);
    let mut asked;
    if query_index % 5 == 0 {
        asked = "RC-".to_owned();
        push_padded(&mut asked, item as u64, 5);
        return (asked, wanted);
    }
    if query_index % 5 == 1 {
        asked = "SN".to_owned();
        push_padded(&mut asked, item as u64, 8);
        return (asked, wanted);
    }
    if query_index % 5 == 2 {
        asked = letters.to_owned();
    } else if query_index % 5 == 3 {
        let mut spelt = chars_of(nickname);
        proof {
            lemma_nicknames(golden_item(query_index as nat));
        }
        let _ = spelt.pop();
        asked = text_of(&spelt);
        assert(asked@ =~= nickname@.drop_last());
    } else {
        asked = name.to_owned();
    }
    asked.append(" ");
    push_padded(&mut asked, item as u64, 5);
    (asked, wanted)
}

proof fn lemma_nicknames(index: nat)
    ensures
        sort_of(index).1.len() > 0,
{
    reveal_strlit("blue drill");
    reveal_strlit("hot pencil");
    reveal_strlit("ratchet box");
    reveal_strlit("round saw");
    reveal_strlit("meter");
    reveal_strlit("stitcher");
    reveal_strlit("red wrench");
    reveal_strlit("hot blower");
}

} // verus!
