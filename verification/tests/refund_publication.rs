use workshop::refund::model::{
    AuthorizedLine, Event, FailPoint, PaymentStatus, ReturnAuthorization, Snapshot,
};
use workshop::refund::publication::{injected, temporary_name, Injection, Step, INJECTED_EXIT};
use workshop::refund::reconcile::reconcile;
use workshop::refund::reference::reference_reconcile;

fn two_returns(cents: u64) -> Snapshot {
    let mut returns = Vec::new();
    let mut events = Vec::new();
    for index in 0..2 {
        let return_id = format!("return-{index}");
        let sku = format!("sku-{index}");
        returns.push(ReturnAuthorization {
            return_id: return_id.clone(),
            captured_cents: cents,
            lines: vec![AuthorizedLine {
                line_id: format!("line-{index}"),
                sku: sku.clone(),
                authorized_qty: 1,
                paid_subtotal_cents: cents,
                tax_cents: 0,
                discount_cents: 0,
                prior_successful_refund_cents: 0,
            }],
        });
        events.push(Event::WarehouseScan {
            event_id: format!("scan-{index}"),
            source_system_id: "warehouse-east".into(),
            source_timestamp: 1,
            ingestion_id: index,
            return_id,
            parcel_id: format!("parcel-{index}"),
            sku,
            quantity: 1,
        });
    }
    Snapshot {
        snapshot_id: "overflow-fixture".into(),
        returns,
        events,
    }
}

fn with_payment(return_id: &str, line_id: &str) -> Snapshot {
    let mut snapshot = two_returns(700);
    snapshot.events.push(Event::PaymentResult {
        event_id: "payment-invalid-line".into(),
        source_system_id: "payment-provider".into(),
        source_timestamp: 2,
        ingestion_id: 2,
        return_id: return_id.into(),
        line_id: line_id.into(),
        refund_id: "refund-1".into(),
        amount_cents: 700,
        status: PaymentStatus::Pending,
    });
    snapshot
}

#[test]
fn cents_that_overflow_the_report_are_refused() {
    let error = reconcile(&two_returns(u64::MAX)).unwrap_err();
    assert!(error.contains("report proposed cents overflow"));
    assert!(reference_reconcile(&two_returns(u64::MAX)).is_err());
    let report = reconcile(&two_returns(700)).unwrap();
    assert_eq!(report.summary.proposed_cents, 1_400);
}

#[test]
fn payments_of_unknown_and_foreign_lines_are_refused() {
    for snapshot in [
        with_payment("return-0", "line-missing"),
        with_payment("return-0", "line-1"),
    ] {
        let error = reconcile(&snapshot).unwrap_err();
        assert!(error.contains("payment result references line"));
    }
    assert!(reconcile(&with_payment("return-0", "line-0")).is_ok());
}

#[test]
fn scanned_units_are_accepted_reviewed_or_unmatched() {
    let mut snapshot = two_returns(700);
    for (event_id, sku, quantity) in [("scan-excess", "sku-0", 4), ("scan-unknown", "sku-x", 3)] {
        snapshot.events.push(Event::WarehouseScan {
            event_id: event_id.into(),
            source_system_id: "warehouse-east".into(),
            source_timestamp: 2,
            ingestion_id: 9,
            return_id: "return-0".into(),
            parcel_id: "parcel-9".into(),
            sku: sku.into(),
            quantity,
        });
    }
    let report = reconcile(&snapshot).unwrap();
    let plan = &report.returns[0];
    assert_eq!(plan.lines[0].accepted_scan_quantity, 1);
    assert_eq!(plan.lines[0].review_scan_quantity, 4);
    assert_eq!(plan.unmatched_scan_quantity, 3);
    assert_eq!(plan.disposition, "review");
}

#[test]
fn each_failpoint_strikes_at_its_step() {
    let fails = |failpoint, step, message: &str| {
        assert_eq!(
            injected(failpoint, step),
            Injection::Fail(message.to_string())
        );
    };
    for step in [Step::Start, Step::TemporaryComplete] {
        assert_eq!(injected(FailPoint::Never, step), Injection::Proceed);
    }
    fails(
        FailPoint::BeforeOutputCreation,
        Step::Start,
        "injected failure before output creation",
    );
    fails(
        FailPoint::AfterTemporaryComplete,
        Step::TemporaryComplete,
        "injected failure after temporary output is complete",
    );
    fails(
        FailPoint::BeforePublish,
        Step::TemporaryComplete,
        "injected failure immediately before publication",
    );
    assert_eq!(INJECTED_EXIT, 86);
    assert_eq!(
        injected(FailPoint::ExitBeforeOutputCreation, Step::Start),
        Injection::Exit(86)
    );
    for failpoint in [
        FailPoint::ExitAfterTemporaryComplete,
        FailPoint::ExitBeforePublish,
    ] {
        assert_eq!(injected(failpoint, Step::Start), Injection::Proceed);
        assert_eq!(
            injected(failpoint, Step::TemporaryComplete),
            Injection::Exit(86)
        );
    }
}

#[test]
fn temporary_files_stand_beside_their_report() {
    assert_eq!(
        temporary_name(Some("report.json"), 7),
        ".report.json.tmp-7"
    );
    assert_eq!(temporary_name(None, 120), ".report.tmp-120");
}
