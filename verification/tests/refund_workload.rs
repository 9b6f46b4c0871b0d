use workshop::refund::model::Event;
use workshop::refund::reconcile::reconcile;
use workshop::refund::reference::reference_reconcile;
use workshop::refund::workload::{deterministic_shuffle, generate_representative};

#[test]
fn representative_generator_has_exact_disclosed_shape() {
    let snapshot = generate_representative(20_260_813);
    assert_eq!(snapshot.returns.len(), 25_000);
    assert_eq!(
        snapshot
            .returns
            .iter()
            .map(|r| r.lines.len())
            .sum::<usize>(),
        70_000
    );
    assert_eq!(snapshot.events.len(), 250_000);
    let parcels = snapshot
        .events
        .iter()
        .filter_map(|event| match event {
            Event::WarehouseScan {
                return_id,
                parcel_id,
                ..
            }
            | Event::Carrier {
                return_id,
                parcel_id,
                ..
            } => Some((return_id, parcel_id)),
            _ => None,
        })
        .collect::<std::collections::BTreeSet<_>>()
        .len();
    assert_eq!(parcels, 40_000);
    assert_eq!(
        snapshot
            .returns
            .iter()
            .filter(|authorization| authorization.return_id.starts_with("adv-return-"))
            .count(),
        500
    );
    assert!(
        snapshot
            .returns
            .iter()
            .flat_map(|authorization| &authorization.lines)
            .filter(|line| {
                line.authorized_qty == 2
                    && (line.paid_subtotal_cents + line.tax_cents - line.discount_cents) % 2 == 1
            })
            .count()
            >= 100,
        "representative data must exercise remainder-cent allocation"
    );
}

/// Shuffles by some seeds, each held against the report on the snapshot as it was made.
fn assert_shuffles_agree(seeds: std::ops::Range<u64>) {
    let snapshot = generate_representative(20_260_813);
    let expected = reconcile(&snapshot).unwrap();
    for seed in seeds {
        let mut shuffled = snapshot.clone();
        deterministic_shuffle(&mut shuffled, seed);
        assert_eq!(reconcile(&shuffled).unwrap(), expected);
    }
}

#[test]
fn ten_deterministic_shuffles_are_byte_identical() {
    assert_shuffles_agree(0..4);
}

#[test]
fn ten_deterministic_shuffles_from_the_fifth_to_the_seventh() {
    assert_shuffles_agree(4..7);
}

#[test]
fn ten_deterministic_shuffles_from_the_eighth_to_the_last() {
    assert_shuffles_agree(7..10);
}

#[test]
fn representative_candidate_and_reference_agree_exactly() {
    let snapshot = generate_representative(20_260_813);
    assert_eq!(
        reconcile(&snapshot).unwrap(),
        reference_reconcile(&snapshot).unwrap()
    );
}

#[test]
fn the_seed_controls_only_the_ingestion_identities() {
    let (a, b) = (generate_representative(1), generate_representative(2));
    assert_eq!(a.snapshot_id, "representative");
    assert_eq!(b.snapshot_id, "representative");
    assert_eq!(format!("{:?}", a.returns), format!("{:?}", b.returns));
    assert_eq!(a.events.len(), b.events.len());
    assert_ne!(
        format!("{:?}", &a.events[..100]),
        format!("{:?}", &b.events[..100])
    );
    assert!(a
        .events
        .iter()
        .zip(&b.events)
        .all(|(x, y)| x.event_id() == y.event_id() && x.return_id() == y.return_id()));
}
