use workshop::midi::plan::{prepare_plan, Event, EventKind, PlanSpec, PreparedPlan, TempoNode};
use workshop::midi::scheduler::{CallbackError, Discontinuity, HostBlock, ScheduledEvent, Scheduler};

fn plan() -> PreparedPlan {
    let events = (0_i64..64)
        .map(|pulse| Event {
            pulse,
            stable_id: (pulse as u64) + 1,
            kind: EventKind::ControlChange {
                channel: 0,
                controller: 1,
                value: u8::try_from(pulse).expect("fixture value fits"),
            },
        })
        .collect();
    prepare_plan(PlanSpec {
        origin_pulse: 0,
        origin_frame: 0,
        sample_rate: 48_000,
        tempo_nodes: vec![TempoNode {
            pulse: 0,
            micros_per_quarter: 20_000,
        }],
        events,
    })
    .expect("instrumentation plan")
}

#[test]
fn forced_invalid_callback_inputs_return_flags_without_unwinding() {
    let plan = plan();
    let mut scheduler = Scheduler::new(8);
    let mut output = [ScheduledEvent::empty(); 8];
    let invalid = [
        (
            HostBlock {
                token: 1,
                start_frame: 0,
                length: 0,
                sample_rate: 48_000,
                discontinuity: Discontinuity::Continuous,
            },
            CallbackError::EmptyBlock,
        ),
        (
            HostBlock {
                token: 2,
                start_frame: 0,
                length: 2_049,
                sample_rate: 48_000,
                discontinuity: Discontinuity::Continuous,
            },
            CallbackError::BlockTooLarge,
        ),
        (
            HostBlock {
                token: 3,
                start_frame: 0,
                length: 1,
                sample_rate: 12_345,
                discontinuity: Discontinuity::Continuous,
            },
            CallbackError::UnsupportedSampleRate,
        ),
        (
            HostBlock {
                token: 4,
                start_frame: 0,
                length: 1,
                sample_rate: 96_000,
                discontinuity: Discontinuity::Continuous,
            },
            CallbackError::PlanSampleRateMismatch,
        ),
        (
            HostBlock {
                token: 5,
                start_frame: i64::MAX,
                length: 1,
                sample_rate: 48_000,
                discontinuity: Discontinuity::Continuous,
            },
            CallbackError::FrameRangeOverflow,
        ),
    ];

    for (host, expected) in invalid {
        let result = scheduler.schedule(&plan, host, &mut output);
        assert_eq!(result.error, Some(expected));
    }

    let mut empty_output = [];
    let result = scheduler.schedule(
        &plan,
        HostBlock {
            token: 6,
            start_frame: 0,
            length: 1,
            sample_rate: 48_000,
            discontinuity: Discontinuity::Continuous,
        },
        &mut empty_output,
    );
    assert_eq!(result.written, 0);
    assert!(result.overflowed);
}

#[test]
fn one_hundred_thousand_callbacks_run_without_an_error() {
    let plan = plan();
    let mut scheduler = Scheduler::new(8);
    let mut output = [ScheduledEvent::empty(); 8];
    for iteration in 0_u64..100_000 {
        let host = HostBlock {
            token: iteration + 1,
            start_frame: i64::try_from(iteration % 64).expect("bounded frame fits"),
            length: 1,
            sample_rate: 48_000,
            discontinuity: Discontinuity::Continuous,
        };
        let result = scheduler.schedule(&plan, host, &mut output);
        assert_eq!(result.error, None);
    }
}
