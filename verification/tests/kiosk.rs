use workshop::kiosk::fixture::{fixture, import_fixture, item_names, golden_query};
use workshop::kiosk::import::validate_fixture;
use workshop::kiosk::model::{
    projection_step, replay, transition, Borrower, Event, EventKind, Item, ItemState, Projection,
};
use workshop::kiosk::search::{edit_distance, initials, normalize, search};
use workshop::kiosk::store::Kiosk;

fn seed_small() -> Kiosk {
    let mut kiosk = Kiosk::new();
    let item = Item {
        id: "item-00001".to_string(),
        asset_tag: "RC-00001".to_string(),
        serial: "SN00000001".to_string(),
        name: "Cordless Drill 00001".to_string(),
        nickname: "blue drill 00001".to_string(),
        source_row: "items.csv:2".to_string(),
    };
    let borrower = Borrower {
        id: "borrower-0001".to_string(),
        name: "Alex".to_string(),
        source_row: "borrowers.csv:2".to_string(),
    };
    kiosk.insert_masters(&[item], &[borrower]);
    kiosk
}

fn event(id: &str, sequence: u64, at_day: u32, kind: EventKind) -> Event {
    Event {
        id: id.to_string(),
        sequence,
        at_day,
        item_id: "item-00001".to_string(),
        kind,
        source_row: format!("events.csv:{}", sequence + 2),
    }
}

fn checkout(due_day: u32) -> EventKind {
    EventKind::Checkout {
        borrower_id: "borrower-0001".to_string(),
        due_day,
    }
}

#[test]
fn transition_table_and_rejections_are_atomic() {
    let mut kiosk = seed_small();
    let cases = [
        event("checkout", 1, 1, checkout(14)),
        event("return", 2, 2, EventKind::Return),
        event(
            "repair",
            3,
            3,
            EventKind::RepairStart {
                reason: "switch".to_string(),
            },
        ),
        event("repair-finish", 4, 4, EventKind::RepairFinish),
        event(
            "retire",
            5,
            5,
            EventKind::Retire {
                reason: "unsafe".to_string(),
            },
        ),
    ];
    for event in cases {
        kiosk.apply_event(event).expect("legal transition");
    }
    assert!(matches!(
        kiosk.state_at("item-00001", 99),
        Some(ItemState::Retired { .. })
    ));

    for invalid in [
        event("retire", 6, 6, EventKind::Return),
        Event {
            item_id: "missing".to_string(),
            id: "unknown-item".to_string(),
            ..event("unused", 7, 7, EventKind::Return)
        },
        event(
            "unknown-borrower",
            8,
            8,
            EventKind::Checkout {
                borrower_id: "missing".to_string(),
                due_day: 9,
            },
        ),
    ] {
        let before = kiosk.clone();
        assert!(kiosk.apply_event(invalid).is_err());
        assert_eq!(before, kiosk);
    }
}

#[test]
fn reopening_and_historical_query_are_exact() {
    let mut kiosk = seed_small();
    kiosk
        .apply_event(event("checkout", 1, 10, checkout(24)))
        .expect("checkout");
    kiosk
        .apply_event(event("return", 2, 20, EventKind::Return))
        .expect("return");
    let mut reopened = Kiosk::new();
    reopened.insert_masters(kiosk.items(), kiosk.borrowers());
    for accepted in kiosk.events() {
        reopened.apply_event(accepted.clone()).expect("accepted before");
    }
    assert_eq!(kiosk, reopened);
    assert_eq!(
        reopened.state_at("item-00001", 15),
        Some(ItemState::CheckedOut {
            borrower_id: "borrower-0001".to_string(),
            due_day: 24
        })
    );
    assert_eq!(
        reopened.state_at("item-00001", 20),
        Some(ItemState::Available)
    );
}

#[test]
fn fixture_validation_reports_every_bad_row() {
    let (items, borrowers, mut events, rejected) = fixture();
    events.extend(rejected);
    let (accepted, rejected) = validate_fixture(&items, &borrowers, &events);
    assert_eq!(accepted.len(), 100_000);
    assert_eq!(rejected.len(), 4);
    assert!(rejected
        .iter()
        .any(|(_, error)| error.contains("duplicate")));
    assert!(rejected
        .iter()
        .any(|(_, error)| error.contains("unknown item")));
    assert!(rejected
        .iter()
        .any(|(_, error)| error.contains("unknown borrower")));
    assert!(rejected
        .iter()
        .any(|(_, error)| error.contains("impossible transition")));
}

#[test]
fn live_append_order_rejections_do_not_mutate_and_writer_remains_usable() {
    let mut kiosk = seed_small();
    kiosk
        .apply_event(event("checkout-sequence-10", 10, 10, checkout(24)))
        .expect("initial checkout");

    let invalid = [
        (
            event("return-sequence-5", 5, 12, EventKind::Return),
            "out-of-order event sequence 5; latest accepted sequence is 10",
        ),
        (
            event("return-sequence-10", 10, 12, EventKind::Return),
            "duplicate event sequence 10",
        ),
    ];
    for (event, expected_error) in invalid {
        let before = kiosk.clone();
        assert_eq!(kiosk.apply_event(event), Err(expected_error.to_string()));
        assert_eq!(kiosk, before);
        assert_eq!(
            kiosk.state_at("item-00001", 99),
            Some(ItemState::CheckedOut {
                borrower_id: "borrower-0001".to_string(),
                due_day: 24,
            })
        );
    }

    kiosk
        .apply_event(event("return-sequence-11", 11, 12, EventKind::Return))
        .expect("subsequent valid return");
    assert_eq!(
        kiosk.state_at("item-00001", 99),
        Some(ItemState::Available)
    );
    assert_eq!(kiosk.events().len(), 2);
    assert_eq!(
        kiosk
            .projection("item-00001")
            .expect("item projection")
            .history
            .len(),
        2
    );
}

#[test]
fn import_enforces_the_same_append_order_rule() {
    let (fixture_items, fixture_borrowers, _, _) = fixture();
    let items = vec![fixture_items[1].clone()];
    let borrowers = vec![fixture_borrowers[1].clone()];
    let candidates = vec![
        event(
            "checkout-sequence-10",
            10,
            10,
            EventKind::Checkout {
                borrower_id: borrowers[0].id.clone(),
                due_day: 24,
            },
        ),
        event("return-sequence-5", 5, 12, EventKind::Return),
        event("return-sequence-10", 10, 12, EventKind::Return),
        event("return-sequence-11", 11, 12, EventKind::Return),
    ];
    let (accepted, rejected) = validate_fixture(&items, &borrowers, &candidates);
    assert_eq!(
        accepted
            .iter()
            .map(|event| event.sequence)
            .collect::<Vec<_>>(),
        vec![10, 11]
    );
    assert_eq!(
        rejected,
        vec![
            (
                "events.csv:7".to_string(),
                "out-of-order event sequence 5; latest accepted sequence is 10".to_string()
            ),
            (
                "events.csv:12".to_string(),
                "duplicate event sequence 10".to_string()
            )
        ]
    );
}

#[test]
fn normalized_search_resolves_to_canonical_item() {
    let kiosk = seed_small();
    assert_eq!(search(&kiosk, "RC-00001", 5)[0], "item-00001");
    assert!(search(&kiosk, "blue dril 00001", 5).contains(&"item-00001".to_string()));
}

#[test]
fn transitions_tell_why_they_are_impossible() {
    let out = ItemState::CheckedOut {
        borrower_id: "b\"1".to_string(),
        due_day: 7,
    };
    assert_eq!(
        transition(&out, &EventKind::RepairStart { reason: "x".to_string() }),
        Err(
            "impossible transition: CheckedOut { borrower_id: \"b\\\"1\", due_day: 7 } -> RepairStart { reason: \"x\" }"
                .to_string()
        )
    );
    let gone = ItemState::Retired {
        reason: "old".to_string(),
    };
    assert_eq!(
        transition(&gone, &EventKind::Return),
        Err("item is retired".to_string())
    );
    assert_eq!(
        replay(&[event("r", 1, 1, EventKind::RepairFinish)]),
        Err("r at events.csv:3: impossible transition: Available -> RepairFinish".to_string())
    );
    for state in [
        ItemState::Available,
        ItemState::InRepair { reason: "a\nb".to_string() },
    ] {
        for kind in [
            EventKind::Return,
            EventKind::RepairFinish,
            checkout(3),
            EventKind::Retire { reason: "é".to_string() },
        ] {
            match transition(&state, &kind) {
                Ok(_) => {}
                Err(error) => {
                    assert_eq!(error, format!("impossible transition: {state:?} -> {kind:?}"))
                }
            }
        }
    }
}

#[test]
fn every_reason_for_a_refusal_is_told() {
    let mut kiosk = seed_small();
    kiosk.apply_event(event("a", 4, 1, checkout(2))).unwrap();
    let told = |event: Event| kiosk.validate_event(&event).unwrap_err();
    assert_eq!(told(event("a", 9, 1, EventKind::Return)), "duplicate event id a");
    assert_eq!(
        told(event("b", 4, 1, EventKind::Return)),
        "duplicate event sequence 4"
    );
    assert_eq!(
        told(event("b", 3, 1, EventKind::Return)),
        "out-of-order event sequence 3; latest accepted sequence is 4"
    );
    assert_eq!(
        told(Event {
            item_id: "nowhere".to_string(),
            ..event("b", 5, 1, EventKind::Return)
        }),
        "unknown item nowhere"
    );
    assert_eq!(
        told(event(
            "b",
            5,
            1,
            EventKind::Checkout {
                borrower_id: "nobody".to_string(),
                due_day: 2
            }
        )),
        "unknown borrower nobody"
    );
    assert!(told(event("b", 5, 1, EventKind::RepairFinish)).starts_with("impossible transition"));
    assert_eq!(kiosk.validate_event(&event("b", 5, 1, EventKind::Return)), Ok(()));
}

#[test]
fn steps_keep_a_history_in_order_and_can_be_undone() {
    let mut kept = Projection {
        state: ItemState::Available,
        history: vec![],
    };
    let out = event("out", 1, 1, checkout(9));
    let back = event("back", 2, 3, EventKind::Return);
    projection_step(&mut kept, &out, 1);
    assert!(matches!(kept.state, ItemState::CheckedOut { .. }));
    let between = kept.clone();
    projection_step(&mut kept, &back, 1);
    assert_eq!(kept.state, ItemState::Available);
    assert_eq!(kept.history, vec![out.clone(), back.clone()]);
    projection_step(&mut kept, &back, -1);
    assert_eq!(kept, between);
    projection_step(&mut kept, &back, -1);
    assert_eq!(kept, between);
}

#[test]
fn a_rebuild_gives_the_same_desk() {
    let (kiosk, summary) = import_fixture();
    assert_eq!(summary.accepted_events, 100_000);
    assert_eq!(summary.rejected_rows.len(), 5);
    assert_eq!(
        summary.rejected_rows[4],
        (
            "events.csv:100006".to_string(),
            "malformed row: missing event id".to_string()
        )
    );
    let (accepted, rejected) =
        validate_fixture(kiosk.items(), kiosk.borrowers(), kiosk.events());
    assert_eq!(&accepted, kiosk.events());
    assert!(rejected.is_empty());
}

#[test]
fn texts_are_compared_letter_by_letter() {
    assert_eq!(normalize("RC-00 1 é Q"), "rc001q");
    assert_eq!(initials("Éa  bC\tx"), "ébx");
    assert_eq!(initials("İz"), "i\u{307}");
    assert_eq!(edit_distance("kitten", "sitting"), 3);
    assert_eq!(edit_distance("", "abc"), 3);
    assert_eq!(edit_distance("abc", ""), 3);
    assert_eq!(edit_distance("", ""), 0);
    assert_eq!(item_names(9), ("Soldering Iron", "hot pencil", "SI"));
}

#[test]
fn the_nearest_items_come_first() {
    let mut kiosk = seed_small();
    let saw = Item {
        id: "item-00000".to_string(),
        asset_tag: "RC-00000".to_string(),
        serial: "SN00000000".to_string(),
        name: "Circular Saw 00000".to_string(),
        nickname: "round saw 00000".to_string(),
        source_row: "items.csv:1".to_string(),
    };
    kiosk.insert_masters(&[saw], &[]);
    assert_eq!(search(&kiosk, "RC-00001", 5), ["item-00001", "item-00000"]);
    assert_eq!(search(&kiosk, "RC-00000", 5), ["item-00000", "item-00001"]);
    assert_eq!(search(&kiosk, "RC-00000", 1), ["item-00000"]);
    assert_eq!(search(&kiosk, "", 5), ["item-00000", "item-00001"]);
    assert!(search(&Kiosk::new(), "drill", 3).is_empty());
}

#[test]
fn golden_queries_ask_for_their_items() {
    let asked = |index: usize| golden_query(index).0;
    assert_eq!(asked(0), "RC-00000");
    assert_eq!(asked(1), "SN00000157");
    assert_eq!(asked(2), "SS 00314");
    assert_eq!(asked(3), "hot blowe 00471");
    assert_eq!(asked(4), "Multimeter 00628");
    assert_eq!(golden_query(51).1, "item-00007");
}
