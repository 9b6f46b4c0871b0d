use workshop::refund::model::{AuthorizedLine, Event, PaymentStatus, ReturnAuthorization, Snapshot};
use workshop::refund::reconcile::reconcile;
use workshop::refund::reference::reference_reconcile;
use workshop::refund::verify::verify_report;
use workshop::refund::workload::deterministic_shuffle;

fn line() -> AuthorizedLine {
    AuthorizedLine {
        line_id: "line-1".into(),
        sku: "sku-1".into(),
        authorized_qty: 1,
        paid_subtotal_cents: 1_000,
        tax_cents: 80,
        discount_cents: 80,
        prior_successful_refund_cents: 0,
    }
}

fn authorization() -> ReturnAuthorization {
    ReturnAuthorization {
        return_id: "return-1".into(),
        captured_cents: 1_000,
        lines: vec![line()],
    }
}

fn scan(event_id: &str, quantity: u32) -> Event {
    Event::WarehouseScan {
        event_id: event_id.into(),
        source_system_id: "warehouse-east".into(),
        source_timestamp: 10,
        ingestion_id: 10,
        return_id: "return-1".into(),
        parcel_id: "parcel-1".into(),
        sku: "sku-1".into(),
        quantity,
    }
}

fn scan_for(event_id: &str, return_id: &str, parcel_id: &str, sku: &str, quantity: u32) -> Event {
    Event::WarehouseScan {
        event_id: event_id.into(),
        source_system_id: "warehouse-east".into(),
        source_timestamp: 10,
        ingestion_id: 10,
        return_id: return_id.into(),
        parcel_id: parcel_id.into(),
        sku: sku.into(),
        quantity,
    }
}

fn payment(event_id: &str, refund_id: &str, status: PaymentStatus) -> Event {
    Event::PaymentResult {
        event_id: event_id.into(),
        source_system_id: "payment-provider".into(),
        source_timestamp: 20,
        ingestion_id: 20,
        return_id: "return-1".into(),
        line_id: "line-1".into(),
        refund_id: refund_id.into(),
        amount_cents: 1_000,
        status,
    }
}

#[test]
fn conflicting_retry_is_quarantined_and_changes_no_proposed_refund() {
    let snapshot = Snapshot {
        snapshot_id: "fixture-conflict".into(),
        returns: vec![authorization()],
        events: vec![scan("scan-conflict", 1), scan("scan-conflict", 2)],
    };

    let report = reconcile(&snapshot).expect("valid snapshot should reconcile");

    assert_eq!(report.summary.proposed_cents, 0);
    assert_eq!(report.summary.conflicting_event_ids, 1);
    assert_eq!(report.returns[0].lines[0].proposed_quantity, 0);
    assert_eq!(report.returns[0].lines[0].proposed_cents, 0);
    assert_eq!(report.returns[0].disposition, "review");
    assert_eq!(report.returns[0].review_codes, ["conflicting_event_id"]);
}

#[test]
fn payment_status_contract_has_distinct_states() {
    assert_ne!(PaymentStatus::Successful, PaymentStatus::Failed);
    assert_ne!(PaymentStatus::Failed, PaymentStatus::Pending);
}

#[test]
fn split_parcels_conserve_quantity_and_allocate_remainder_cents_deterministically() {
    let mut auth = authorization();
    auth.lines[0].authorized_qty = 2;
    auth.lines[0].paid_subtotal_cents = 1_001;
    auth.captured_cents = 1_001;
    let snapshot = Snapshot {
        snapshot_id: "fixture-split".into(),
        returns: vec![auth],
        events: vec![
            scan_for("scan-b", "return-1", "parcel-b", "sku-1", 1),
            scan_for("scan-a", "return-1", "parcel-a", "sku-1", 1),
        ],
    };

    let report = reconcile(&snapshot).unwrap();
    let line = &report.returns[0].lines[0];
    assert_eq!(line.accepted_scan_quantity, 2);
    assert_eq!(line.review_scan_quantity, 0);
    assert_eq!(line.proposed_quantity, 2);
    assert_eq!(line.proposed_cents, 1_001);
    assert_eq!(line.provenance_event_ids, ["scan-a", "scan-b"]);
}

#[test]
fn exact_retry_is_idempotent_and_event_order_does_not_change_bytes() {
    let events = vec![scan("scan-1", 1), scan("scan-1", 1)];
    let forward = Snapshot {
        snapshot_id: "fixture-idempotent".into(),
        returns: vec![authorization()],
        events: events.clone(),
    };
    let reverse = Snapshot {
        snapshot_id: "fixture-idempotent".into(),
        returns: vec![authorization()],
        events: events.into_iter().rev().collect(),
    };

    let forward_report = reconcile(&forward).unwrap();
    let reverse_report = reconcile(&reverse).unwrap();
    assert_eq!(forward_report, reverse_report);
    assert_eq!(
        reconcile(&forward).unwrap().summary.exact_duplicate_events,
        1
    );
    assert_eq!(reconcile(&forward).unwrap().summary.proposed_cents, 1_000);
}

#[test]
fn correction_before_target_in_input_supersedes_only_that_scan() {
    let mut auth = authorization();
    auth.lines[0].authorized_qty = 2;
    auth.lines[0].paid_subtotal_cents = 2_000;
    auth.captured_cents = 2_000;
    let correction = Event::Correction {
        event_id: "correction-1".into(),
        source_system_id: "warehouse-east".into(),
        source_timestamp: 11,
        ingestion_id: 1,
        return_id: "return-1".into(),
        target_event_id: "scan-target".into(),
        replacement_sku: "sku-1".into(),
        replacement_quantity: 1,
    };
    let snapshot = Snapshot {
        snapshot_id: "fixture-correction".into(),
        returns: vec![auth],
        events: vec![
            correction,
            scan_for("scan-target", "return-1", "parcel-a", "sku-1", 2),
        ],
    };

    let report = reconcile(&snapshot).unwrap();
    let line = &report.returns[0].lines[0];
    assert_eq!(line.proposed_quantity, 1);
    assert_eq!(line.proposed_cents, 1_000);
    assert_eq!(line.provenance_event_ids, ["correction-1", "scan-target"]);
}

#[test]
fn excess_and_unknown_units_are_reviewed_but_never_refunded() {
    let snapshot = Snapshot {
        snapshot_id: "fixture-unmatched".into(),
        returns: vec![authorization()],
        events: vec![
            scan_for("scan-known", "return-1", "parcel-a", "sku-1", 2),
            scan_for("scan-unknown", "return-1", "parcel-b", "sku-other", 1),
        ],
    };

    let report = reconcile(&snapshot).unwrap();
    let plan = &report.returns[0];
    assert_eq!(plan.lines[0].proposed_quantity, 1);
    assert_eq!(plan.lines[0].review_scan_quantity, 1);
    assert_eq!(plan.unmatched_scan_quantity, 1);
    assert_eq!(plan.lines[0].proposed_cents, 1_000);
    assert_eq!(plan.disposition, "review");
    assert_eq!(plan.review_codes, ["excess_quantity", "unauthorized_sku"]);
}

#[test]
fn payment_results_distinguish_success_pending_and_failure() {
    let base = Snapshot {
        snapshot_id: "fixture-payment".into(),
        returns: vec![authorization()],
        events: vec![scan("scan-1", 1)],
    };

    let mut failed = base.clone();
    failed
        .events
        .push(payment("payment-failed", "refund-1", PaymentStatus::Failed));
    assert_eq!(reconcile(&failed).unwrap().summary.proposed_cents, 1_000);

    let mut pending = base.clone();
    pending.events.push(payment(
        "payment-pending",
        "refund-1",
        PaymentStatus::Pending,
    ));
    let pending_report = reconcile(&pending).unwrap();
    assert_eq!(pending_report.summary.proposed_cents, 0);
    assert_eq!(
        pending_report.returns[0].review_codes,
        ["payment_inconclusive"]
    );

    let mut successful_then_delayed_pending = base;
    successful_then_delayed_pending.events.extend([
        payment("payment-success", "refund-1", PaymentStatus::Successful),
        payment("payment-delayed", "refund-1", PaymentStatus::Pending),
    ]);
    let successful_report = reconcile(&successful_then_delayed_pending).unwrap();
    assert_eq!(successful_report.summary.proposed_cents, 0);
    assert_eq!(
        successful_report.returns[0].review_codes,
        ["payment_already_successful"]
    );
}

#[test]
fn line_and_return_payment_caps_are_never_exceeded() {
    let authorization = ReturnAuthorization {
        return_id: "return-1".into(),
        captured_cents: 1_000,
        lines: vec![
            AuthorizedLine {
                line_id: "line-a".into(),
                sku: "sku-a".into(),
                authorized_qty: 1,
                paid_subtotal_cents: 700,
                tax_cents: 0,
                discount_cents: 0,
                prior_successful_refund_cents: 100,
            },
            AuthorizedLine {
                line_id: "line-b".into(),
                sku: "sku-b".into(),
                authorized_qty: 1,
                paid_subtotal_cents: 700,
                tax_cents: 0,
                discount_cents: 0,
                prior_successful_refund_cents: 0,
            },
        ],
    };
    let snapshot = Snapshot {
        snapshot_id: "fixture-caps".into(),
        returns: vec![authorization],
        events: vec![
            scan_for("scan-a", "return-1", "parcel-a", "sku-a", 1),
            scan_for("scan-b", "return-1", "parcel-b", "sku-b", 1),
        ],
    };

    let report = reconcile(&snapshot).unwrap();
    assert_eq!(report.returns[0].lines[0].proposed_quantity, 0);
    assert_eq!(report.returns[0].lines[0].proposed_cents, 0);
    assert_eq!(report.returns[0].lines[1].proposed_quantity, 1);
    assert_eq!(report.returns[0].lines[1].proposed_cents, 700);
    assert_eq!(report.summary.proposed_cents, 700);
    assert_eq!(
        report.returns[0].review_codes,
        ["insufficient_whole_unit_capacity"]
    );
}

#[test]
fn cap_smaller_than_one_unit_never_emits_a_partially_funded_quantity() {
    let authorization = ReturnAuthorization {
        return_id: "return-1".into(),
        captured_cents: 400,
        lines: vec![AuthorizedLine {
            line_id: "line-1".into(),
            sku: "sku-1".into(),
            authorized_qty: 2,
            paid_subtotal_cents: 1_001,
            tax_cents: 0,
            discount_cents: 0,
            prior_successful_refund_cents: 0,
        }],
    };
    let snapshot = Snapshot {
        snapshot_id: "fixture-sub-unit-cap".into(),
        returns: vec![authorization],
        events: vec![scan("scan-1", 1)],
    };

    let report = reconcile(&snapshot).unwrap();
    let line = &report.returns[0].lines[0];
    assert_eq!(line.accepted_scan_quantity, 1);
    assert_eq!(line.proposed_quantity, 0);
    assert_eq!(line.proposed_cents, 0);
    assert!(line.proposed_cents <= 400);
    assert_eq!(report.summary.proposed_quantity, 0);
    assert_eq!(report.summary.proposed_cents, 0);
    assert_eq!(report.returns[0].disposition, "review");
    assert_eq!(
        report.returns[0].review_codes,
        ["insufficient_whole_unit_capacity"]
    );
}

#[test]
fn reference_and_candidate_agree_on_disclosed_adversarial_fixture() {
    let snapshot = Snapshot {
        snapshot_id: "fixture-reference".into(),
        returns: vec![authorization()],
        events: vec![
            scan_for("scan-known", "return-1", "parcel-a", "sku-1", 2),
            scan_for("scan-unknown", "return-1", "parcel-b", "sku-other", 1),
        ],
    };
    assert_eq!(
        reconcile(&snapshot).unwrap(),
        reference_reconcile(&snapshot).unwrap()
    );
}

#[test]
fn independent_verifier_rejects_tampered_provenance_even_when_totals_still_balance() {
    let snapshot = Snapshot {
        snapshot_id: "fixture-verifier".into(),
        returns: vec![authorization()],
        events: vec![scan("scan-1", 1)],
    };
    let mut report = reconcile(&snapshot).unwrap();
    report.returns[0].lines[0]
        .provenance_event_ids
        .push("fabricated-event".into());

    assert!(verify_report(&snapshot, &report).is_err());
}

fn second_authorization() -> ReturnAuthorization {
    let mut line = line();
    line.line_id = "line-2".into();
    ReturnAuthorization {
        return_id: "return-2".into(),
        captured_cents: 1_000,
        lines: vec![line],
    }
}

#[test]
fn a_correction_that_names_a_foreign_scan_is_reviewed_by_both_algorithms() {
    let snapshot = Snapshot {
        snapshot_id: "fixture-foreign".into(),
        returns: vec![authorization(), second_authorization()],
        events: vec![
            scan_for("scan-1", "return-1", "parcel-1", "sku-1", 1),
            Event::Correction {
                event_id: "correction-1".into(),
                source_system_id: "warehouse-east".into(),
                source_timestamp: 11,
                ingestion_id: 11,
                return_id: "return-2".into(),
                target_event_id: "scan-1".into(),
                replacement_sku: "sku-1".into(),
                replacement_quantity: 5,
            },
        ],
    };
    let report = reconcile(&snapshot).unwrap();
    assert!(report
        .returns
        .iter()
        .any(|plan| plan.review_codes == ["correction_return_mismatch"]));
    assert_eq!(report.returns[0].lines[0].accepted_scan_quantity, 1);
    assert_eq!(reference_reconcile(&snapshot).unwrap(), report);
    assert!(verify_report(&snapshot, &report).is_ok());
}

#[test]
fn a_shuffled_snapshot_is_valid_and_gives_the_same_report() {
    let snapshot = Snapshot {
        snapshot_id: "fixture-order".into(),
        returns: vec![authorization(), second_authorization()],
        events: vec![
            scan("scan-1", 1),
            scan("scan-1", 1),
            scan_for("scan-2", "return-2", "parcel-2", "sku-1", 1),
            payment("payment-1", "refund-1", PaymentStatus::Pending),
        ],
    };
    let expected = reconcile(&snapshot).unwrap();
    for seed in 0..20 {
        let mut shuffled = snapshot.clone();
        deterministic_shuffle(&mut shuffled, seed);
        assert_eq!(reconcile(&shuffled).unwrap(), expected);
    }
}

#[test]
fn the_reference_reads_retries_and_conflicts_as_the_candidate_does() {
    let mut contested = scan("scan-2", 1);
    if let Event::WarehouseScan { quantity, .. } = &mut contested {
        *quantity = 7;
    }
    let snapshot = Snapshot {
        snapshot_id: "fixture-identities".into(),
        returns: vec![authorization(), second_authorization()],
        events: vec![
            scan("scan-3", 1),
            scan("scan-2", 1),
            scan("scan-1", 1),
            contested,
            scan("scan-3", 1),
            scan("scan-3", 1),
        ],
    };
    let report = reference_reconcile(&snapshot).unwrap();
    assert_eq!(report.summary.input_event_count, 6);
    assert_eq!(report.summary.accepted_unique_events, 2);
    assert_eq!(report.summary.exact_duplicate_events, 2);
    assert_eq!(report.summary.conflicting_event_ids, 1);
    assert_eq!(report.summary.review_returns, 1);
    let rows: Vec<(&str, usize, &str)> = report
        .event_accounting
        .iter()
        .map(|row| {
            (
                row.event_id.as_str(),
                row.input_occurrences,
                row.disposition.as_str(),
            )
        })
        .collect();
    assert_eq!(
        rows,
        vec![
            ("scan-1", 1, "accepted"),
            ("scan-2", 2, "quarantined_conflict"),
            ("scan-3", 3, "accepted_with_exact_retries"),
        ]
    );
    assert_eq!(reconcile(&snapshot).unwrap(), report);
}
