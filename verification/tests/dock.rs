use workshop::dock::authority::Authority;
use workshop::dock::model::{Command, HoldSpec, Status};

#[test]
fn exact_retry_and_payload_mismatch_are_distinct() {
    let mut state = Authority::one_warehouse();
    let spec = HoldSpec {
        tenant: 1,
        request_id: 2,
        arrival: 4,
        duration: 2,
        pallets: 4,
        height: 1,
        refrigerated: false,
        priority: 1,
        lifetime: 10,
    };
    let original = state.execute(&Command::Hold {
        spec: spec.clone(),
        now: 0,
    });
    let retry = state.execute(&Command::Hold {
        spec: spec.clone(),
        now: 9,
    });
    assert_eq!(original, retry);
    let mismatch = state.execute(&Command::Hold {
        spec: HoldSpec { pallets: 5, ..spec },
        now: 9,
    });
    assert_eq!(mismatch.code, "request_id_payload_mismatch");
    assert_eq!(state.audits().len(), 1);
}

#[test]
fn expiry_wins_at_equality() {
    let mut state = Authority::one_warehouse();
    let spec = HoldSpec {
        tenant: 1,
        request_id: 3,
        arrival: 8,
        duration: 1,
        pallets: 4,
        height: 1,
        refrigerated: false,
        priority: 1,
        lifetime: 15,
    };
    assert!(state.execute(&Command::Hold { spec, now: 10 }).accepted);
    assert_eq!(
        state
            .execute(&Command::Confirm {
                tenant: 1,
                request_id: 3,
                now: 25
            })
            .code,
        "expired_hold"
    );
}

#[test]
fn reschedule_version_and_command_identity_are_checked() {
    let mut state = Authority::one_warehouse();
    let spec = HoldSpec {
        tenant: 1,
        request_id: 4,
        arrival: 8,
        duration: 1,
        pallets: 4,
        height: 1,
        refrigerated: false,
        priority: 1,
        lifetime: 15,
    };
    assert!(state.execute(&Command::Hold { spec, now: 10 }).accepted);
    let changed = state.execute(&Command::Reschedule {
        tenant: 1,
        request_id: 4,
        expected_version: 0,
        arrival: 20,
        duration: 2,
        now: 11,
    });
    assert_eq!(changed.code, "booking_rescheduled");
    let reused_operation = state.execute(&Command::Reschedule {
        tenant: 1,
        request_id: 4,
        expected_version: 0,
        arrival: 21,
        duration: 2,
        now: 12,
    });
    assert_eq!(reused_operation.code, "request_id_payload_mismatch");

    let distinct_wrong_version = state.execute(&Command::Reschedule {
        tenant: 1,
        request_id: 4,
        expected_version: 99,
        arrival: 22,
        duration: 2,
        now: 12,
    });
    assert_eq!(distinct_wrong_version.code, "stale_reschedule_version");
}

#[test]
fn expired_hold_releases_capacity_without_an_explicit_sweep() {
    let mut state = Authority::one_door(10);
    let expired = HoldSpec {
        tenant: 1,
        request_id: 10,
        arrival: 20,
        duration: 1,
        pallets: 10,
        height: 1,
        refrigerated: false,
        priority: 1,
        lifetime: 5,
    };
    assert!(
        state
            .execute(&Command::Hold {
                spec: expired,
                now: 10
            })
            .accepted
    );

    let replacement = HoldSpec {
        tenant: 1,
        request_id: 11,
        arrival: 20,
        duration: 1,
        pallets: 10,
        height: 1,
        refrigerated: false,
        priority: 1,
        lifetime: 5,
    };
    assert!(
        state
            .execute(&Command::Hold {
                spec: replacement,
                now: 15
            })
            .accepted
    );
    assert!(matches!(state.booking(1, 10).unwrap().status, Status::Expired));
}

#[test]
fn reschedule_ignores_unrelated_hold_expired_at_command_time() {
    let mut state = Authority::one_door(10);
    let moving = HoldSpec {
        tenant: 1,
        request_id: 20,
        arrival: 10,
        duration: 1,
        pallets: 6,
        height: 1,
        refrigerated: false,
        priority: 1,
        lifetime: 15,
    };
    let blocker = HoldSpec {
        tenant: 1,
        request_id: 21,
        arrival: 30,
        duration: 1,
        pallets: 10,
        height: 1,
        refrigerated: false,
        priority: 1,
        lifetime: 1,
    };
    assert!(
        state
            .execute(&Command::Hold {
                spec: moving,
                now: 0
            })
            .accepted
    );
    assert!(
        state
            .execute(&Command::Hold {
                spec: blocker,
                now: 0
            })
            .accepted
    );

    let changed = state.execute(&Command::Reschedule {
        tenant: 1,
        request_id: 20,
        expected_version: 0,
        arrival: 30,
        duration: 1,
        now: 1,
    });
    assert_eq!(changed.code, "booking_rescheduled");
    assert!(matches!(state.booking(1, 21).unwrap().status, Status::Expired));
}

#[test]
fn invalid_reschedule_durations_do_not_mutate_booking_or_version() {
    for duration in [0, 9] {
        let mut state = Authority::one_door(10);
        let original = HoldSpec {
            tenant: 1,
            request_id: 30,
            arrival: 10,
            duration: 2,
            pallets: 6,
            height: 1,
            refrigerated: false,
            priority: 1,
            lifetime: 15,
        };
        assert!(
            state
                .execute(&Command::Hold {
                    spec: original,
                    now: 0
                })
                .accepted
        );
        let before = state.booking(1, 30).unwrap();

        let rejected = state.execute(&Command::Reschedule {
            tenant: 1,
            request_id: 30,
            expected_version: 0,
            arrival: 40,
            duration,
            now: 1,
        });
        assert_eq!(rejected.code, "invalid_request");
        assert_eq!(state.booking(1, 30).unwrap(), before);
    }
}


fn plain_hold(request_id: u64) -> HoldSpec {
    HoldSpec {
        tenant: 1,
        request_id,
        arrival: 4,
        duration: 2,
        pallets: 4,
        height: 1,
        refrigerated: false,
        priority: 1,
        lifetime: 10,
    }
}

#[test]
fn a_retry_across_other_commands_is_replayed_and_expires_nothing() {
    let mut state = Authority::one_warehouse();
    let spec = plain_hold(2);
    let original = state.execute(&Command::Hold { spec, now: 0 });
    assert!(original.accepted);
    state.execute(&Command::Hold {
        spec: plain_hold(3),
        now: 1,
    });
    state.execute(&Command::Confirm {
        tenant: 1,
        request_id: 3,
        now: 2,
    });
    state.execute(&Command::Cancel {
        tenant: 9,
        request_id: 9,
        now: 3,
    });
    let (bookings, audits) = (state.bookings().clone(), state.audits().len());
    assert_eq!(state.execute(&Command::Hold { spec, now: 500 }), original);
    for other in [
        HoldSpec { arrival: 5, ..spec },
        HoldSpec { duration: 3, ..spec },
        HoldSpec { height: 2, ..spec },
        HoldSpec {
            refrigerated: true,
            ..spec
        },
        HoldSpec { priority: 2, ..spec },
        HoldSpec { lifetime: 11, ..spec },
    ] {
        let refused = state.execute(&Command::Hold {
            spec: other,
            now: 500,
        });
        assert_eq!(refused.code, "request_id_payload_mismatch");
        assert!(!refused.accepted);
    }
    assert_eq!(state.bookings(), &bookings);
    assert_eq!(state.audits().len(), audits);
    assert_eq!(
        state.booking(1, 2).map(|booking| booking.status),
        Some(Status::Held { expires_at: 10 })
    );
}

#[test]
fn a_sweep_that_reuses_an_identity_at_another_time_is_refused() {
    let mut state = Authority::one_warehouse();
    let first = state.execute(&Command::Expire {
        sweep_id: 1,
        now: 5,
    });
    assert_eq!(first.code, "expiry_sweep_applied");
    assert_eq!(first.interval, Some(0));
    let retry = Command::Expire {
        sweep_id: 1,
        now: 5,
    };
    assert_eq!(state.execute(&retry), first);
    let other = Command::Expire {
        sweep_id: 1,
        now: 6,
    };
    assert_eq!(state.execute(&other).code, "request_id_payload_mismatch");
}

#[test]
fn refusals_need_no_room_on_the_clock() {
    let mut state = Authority::one_warehouse();
    let late = HoldSpec {
        arrival: u32::MAX,
        duration: 9,
        ..plain_hold(1)
    };
    let ill_timed = Command::Hold {
        spec: late,
        now: u32::MAX,
    };
    assert!(state.within_limits(&ill_timed));
    assert_eq!(state.execute(&ill_timed).code, "invalid_request");
    let tall = Command::Hold {
        spec: HoldSpec {
            height: 200,
            duration: 2,
            request_id: 2,
            ..late
        },
        now: u32::MAX,
    };
    assert!(state.within_limits(&tall));
    assert_eq!(state.execute(&tall).code, "no_compatible_door");
    let unknown = Command::Reschedule {
        tenant: 8,
        request_id: 8,
        expected_version: u32::MAX,
        arrival: u32::MAX,
        duration: 4,
        now: 0,
    };
    assert!(state.within_limits(&unknown));
    assert_eq!(state.execute(&unknown).code, "booking_not_found");
    assert!(
        state
            .execute(&Command::Hold {
                spec: plain_hold(7),
                now: 0
            })
            .accepted
    );
    let stale = Command::Reschedule {
        tenant: 1,
        request_id: 7,
        expected_version: u32::MAX,
        arrival: u32::MAX,
        duration: 4,
        now: 0,
    };
    assert!(state.within_limits(&stale));
    assert_eq!(state.execute(&stale).code, "stale_reschedule_version");
    let overflowing = Command::Hold {
        spec: HoldSpec {
            arrival: u32::MAX,
            ..plain_hold(11)
        },
        now: 0,
    };
    assert!(!state.within_limits(&overflowing));
    let endless = Command::Hold {
        spec: plain_hold(12),
        now: u32::MAX,
    };
    assert!(!state.within_limits(&endless));
}
