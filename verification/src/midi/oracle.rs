//! Slow allocating rational oracle.
//!
//! This module intentionally has a conversion and a block selection of its
//! own. It does not call the scheduler's preparation or timestamp helpers.

use vstd::prelude::*;
use crate::midi::plan;
use crate::midi::plan::{PlanSpec, PreparedEvent, TempoNode, FRAME_DENOMINATOR};
use crate::midi::scheduler;
use crate::midi::scheduler::{HostBlock, ScheduledEvent};
use crate::sorting;
use crate::sorting::sort;

verus! {

#[derive(Clone, Copy, Debug, PartialEq, Eq, Structural)]
pub enum OracleError {
    EmptyTempoMap,
    PulseBeforeOrigin,
    FrameOverflow,
}

#[derive(Clone, Debug, PartialEq, Eq)]
pub struct OraclePlan {
    sample_rate: u32,
    events: Vec<PreparedEvent>,
}

pub struct OraclePlanView {
    pub sample_rate: u32,
    pub events: Seq<PreparedEvent>,
}

impl View for OraclePlan {
    type V = OraclePlanView;

    closed spec fn view(&self) -> OraclePlanView {
        OraclePlanView { sample_rate: self.sample_rate, events: self.events@ }
    }
}

pub open spec fn fits_i128(value: int) -> bool {
    i128::MIN <= value <= i128::MAX
}

/// The accumulator after one tempo segment, unless 128 bits do not hold it.
pub open spec fn segment_sum(accumulator: int, distance: int, micros: int, rate: int) -> Option<
    int,
> {
    let segment = distance * micros * rate;
    if fits_i128(segment) && fits_i128(accumulator + segment) {
        Some(accumulator + segment)
    } else {
        None
    }
}

/// The accumulator at `target`, walking the tempo nodes from `i` on with the
/// tempo `micros` in effect since `start`.
pub open spec fn walked(
    nodes: Seq<TempoNode>,
    rate: int,
    target: int,
    i: int,
    accumulator: int,
    start: int,
    micros: int,
) -> Option<int>
    decreases nodes.len() - i,
{
    if i >= nodes.len() {
        segment_sum(accumulator, target - start, micros, rate)
    } else {
        let edge = nodes[i].pulse as int;
        let end = if target <= edge {
            target
        } else {
            edge
        };
        match segment_sum(accumulator, end - start, micros, rate) {
            None => None,
            Some(next) => if target <= edge {
                Some(next)
            } else {
                walked(
                    nodes,
                    rate,
                    target,
                    i + 1,
                    next,
                    edge,
                    nodes[i].micros_per_quarter as int,
                )
            },
        }
    }
}

/// The oracle's frame for a pulse.
pub open spec fn oracle_frame_of(spec: PlanSpec, target: i64) -> Result<i64, OracleError> {
    if target < spec.origin_pulse {
        Err(OracleError::PulseBeforeOrigin)
    } else if spec.tempo_nodes@.len() == 0 {
        Err(OracleError::EmptyTempoMap)
    } else {
        match walked(
            spec.tempo_nodes@,
            spec.sample_rate as int,
            target as int,
            1,
            spec.origin_frame * FRAME_DENOMINATOR,
            spec.origin_pulse as int,
            spec.tempo_nodes@[0].micros_per_quarter as int,
        ) {
            None => Err(OracleError::FrameOverflow),
            Some(numerator) => {
                let frame = numerator / (FRAME_DENOMINATOR as int);
                if i64::MIN <= frame <= i64::MAX {
                    Ok(frame as i64)
                } else {
                    Err(OracleError::FrameOverflow)
                }
            },
        }
    }
}

/// Every event of the input at the oracle's frame.
pub open spec fn oracle_converted(spec: PlanSpec) -> Seq<PreparedEvent> {
    spec.events@.map_values(
        |event: crate::midi::plan::Event|
            PreparedEvent {
                frame: oracle_frame_of(spec, event.pulse)->Ok_0,
                stable_id: event.stable_id,
                kind: event.kind,
            },
    )
}

impl OraclePlan {
    /// Converts every event independently with the slow rational baseline.
    ///
    /// An empty tempo map is an error, whatever the events are. Otherwise the first
    /// event that precedes the declared origin, or whose exact frame does not fit in
    /// a signed 64-bit value, decides the error.
    pub fn from_spec(spec: &PlanSpec) -> (result: Result<Self, OracleError>)
        ensures
            spec.tempo_nodes@.len() == 0 ==> result == Err::<OraclePlan, OracleError>(
                OracleError::EmptyTempoMap,
            ),
            spec.tempo_nodes@.len() > 0 ==> match result {
                Ok(plan) => {
                    &&& forall|i: int|
                        0 <= i < spec.events@.len() ==> oracle_frame_of(
                            *spec,
                            (#[trigger] spec.events@[i]).pulse,
                        ) is Ok
                    &&& plan@.sample_rate == spec.sample_rate
                    &&& sorting::arranges(plan@.events, oracle_converted(*spec))
                },
                Err(error) => exists|i: int|
                    0 <= i < spec.events@.len() && oracle_frame_of(
                        *spec,
                        (#[trigger] spec.events@[i]).pulse,
                    ) == Err::<i64, OracleError>(error) && forall|j: int|
                        0 <= j < i ==> oracle_frame_of(
                            *spec,
                            (#[trigger] spec.events@[j]).pulse,
                        ) is Ok,
            },
    {
        if spec.tempo_nodes.len() == 0 {
            return Err(OracleError::EmptyTempoMap);
        }
        let mut events: Vec<PreparedEvent> = Vec::new();
        let mut i: usize = 0;
        while i < spec.events.len()
            invariant
                i <= spec.events@.len(),
                spec.tempo_nodes@.len() > 0,
                forall|j: int|
                    0 <= j < i ==> oracle_frame_of(*spec, (#[trigger] spec.events@[j]).pulse) is Ok,
                events@ == oracle_converted(*spec).take(i as int),
            decreases spec.events@.len() - i,
        {
            let event = spec.events[i];
            match oracle_frame(spec, event.pulse) {
                Ok(frame) => {
                    events.push(
                        PreparedEvent { frame, stable_id: event.stable_id, kind: event.kind },
                    );
                    assert(events@ =~= oracle_converted(*spec).take(i + 1));
                },
                Err(error) => {
                    assert(oracle_frame_of(*spec, spec.events@[i as int].pulse) is Err);
                    return Err(error);
                },
            }
            i = i + 1;
        }
        assert(events@ =~= oracle_converted(*spec));
        Ok(OraclePlan { sample_rate: spec.sample_rate, events: sort(&events) })
    }
}

#[derive(Clone, Copy, Debug, PartialEq, Eq, Structural)]
pub struct OracleRunner {
    last_token: Option<u64>,
}

/// Whether the oracle serves the block, after it served the given token last.
pub open spec fn served(last: Option<u64>, plan: OraclePlanView, block: HostBlock) -> bool {
    &&& last != Some(block.token)
    &&& block.sample_rate == plan.sample_rate
    &&& block.length > 0
    &&& block.start_frame + block.length <= i64::MAX
}

/// What the oracle emits for a block that it serves.
pub open spec fn emitted(plan: OraclePlanView, block: HostBlock) -> Seq<ScheduledEvent> {
    scheduler::block_events(
        plan.events,
        block.start_frame as int,
        block.length as int,
    ).map_values(|event: PreparedEvent| scheduler::placed(event, block.start_frame))
}

impl View for OracleRunner {
    type V = Option<u64>;

    closed spec fn view(&self) -> Option<u64> {
        self.last_token
    }
}

impl Default for OracleRunner {
    fn default() -> (runner: Self)
        ensures
            runner@ == None::<u64>,
    {
        Self::new()
    }
}

impl OracleRunner {
    #[must_use]
    pub fn new() -> (runner: Self)
        ensures
            runner@ == None::<u64>,
    {
        OracleRunner { last_token: None }
    }

    /// Every event of the block, in plan order; nothing for a repeated token or
    /// a block that the plan cannot serve.
    pub fn schedule(&mut self, plan: &OraclePlan, block: HostBlock) -> (output: Vec<ScheduledEvent>)
        ensures
            served(old(self)@, plan@, block) ==> final(self)@ == Some(block.token) && output@
                == emitted(plan@, block),
            !served(old(self)@, plan@, block) ==> final(self)@ == old(self)@ && output@.len() == 0,
    {
        let repeated = match self.last_token {
            Some(token) => token == block.token,
            None => false,
        };
        if repeated || block.sample_rate != plan.sample_rate || block.length == 0 {
            return Vec::new();
        }
        let end: i64 = match block.start_frame.checked_add(block.length as i64) {
            Some(end) => end,
            None => {
                return Vec::new();
            },
        };
        self.last_token = Some(block.token);
        let ghost start = block.start_frame as int;
        let ghost length = block.length as int;
        let ghost place = |event: PreparedEvent| scheduler::placed(event, block.start_frame);
        let mut output: Vec<ScheduledEvent> = Vec::new();
        let mut i: usize = 0;
        proof {
            reveal(Seq::filter);
            assert(plan.events@.take(0) =~= Seq::<PreparedEvent>::empty());
            assert(output@ =~= scheduler::block_events(plan.events@.take(0), start, length).map_values(place));
        }
        while i < plan.events.len()
            invariant
                i <= plan.events@.len(),
                start == block.start_frame,
                length == block.length,
                end == start + length,
                place == (|event: PreparedEvent| scheduler::placed(event, block.start_frame)),
                output@ == scheduler::block_events(plan.events@.take(i as int), start, length).map_values(
                    place,
                ),
            decreases plan.events@.len() - i,
        {
            let event = plan.events[i];
            let ghost before = scheduler::block_events(plan.events@.take(i as int), start, length);
            let ghost after = scheduler::block_events(plan.events@.take(i + 1), start, length);
            proof {
                reveal(Seq::filter);
                assert(plan.events@.take(i + 1).drop_last() =~= plan.events@.take(i as int));
            }
            if event.frame >= block.start_frame && event.frame < end {
                output.push(
                    ScheduledEvent {
                        absolute_frame: event.frame,
                        frame_offset: (event.frame - block.start_frame) as u32,
                        stable_id: event.stable_id,
                        kind: event.kind,
                        synthetic: false,
                    },
                );
                assert(after =~= before.push(event));
                assert(after.map_values(place) =~= before.map_values(place).push(place(event)));
            } else {
                assert(after =~= before);
            }
            i = i + 1;
        }
        assert(plan.events@.take(plan.events@.len() as int) =~= plan.events@);
        output
    }
}

fn oracle_frame(spec: &PlanSpec, target_pulse: i64) -> (frame: Result<i64, OracleError>)
    ensures
        frame == oracle_frame_of(*spec, target_pulse),
{
    if target_pulse < spec.origin_pulse {
        return Err(OracleError::PulseBeforeOrigin);
    }
    if spec.tempo_nodes.len() == 0 {
        return Err(OracleError::EmptyTempoMap);
    }
    let mut numerator: i128 = spec.origin_frame as i128 * FRAME_DENOMINATOR;
    let mut segment_start: i64 = spec.origin_pulse;
    let mut micros: u32 = spec.tempo_nodes[0].micros_per_quarter;
    let ghost whole = walked(
        spec.tempo_nodes@,
        spec.sample_rate as int,
        target_pulse as int,
        1,
        spec.origin_frame * FRAME_DENOMINATOR,
        spec.origin_pulse as int,
        spec.tempo_nodes@[0].micros_per_quarter as int,
    );
    let mut i: usize = 1;
    while i < spec.tempo_nodes.len()
        invariant
            1 <= i <= spec.tempo_nodes@.len(),
            target_pulse >= spec.origin_pulse,
            whole == walked(
                spec.tempo_nodes@,
                spec.sample_rate as int,
                target_pulse as int,
                i as int,
                numerator as int,
                segment_start as int,
                micros as int,
            ),
            oracle_frame_of(*spec, target_pulse) == (match whole {
                None => Err(OracleError::FrameOverflow),
                Some(numerator) => {
                    let frame = numerator / (FRAME_DENOMINATOR as int);
                    if i64::MIN <= frame <= i64::MAX {
                        Ok(frame as i64)
                    } else {
                        Err(OracleError::FrameOverflow)
                    }
                },
            }),
        decreases spec.tempo_nodes@.len() - i,
    {
        let next = spec.tempo_nodes[i];
        let segment_end: i64 = if target_pulse <= next.pulse {
            target_pulse
        } else {
            next.pulse
        };
        match oracle_add(numerator, segment_end, segment_start, micros, spec.sample_rate) {
            Some(sum) => {
                numerator = sum;
            },
            None => {
                return Err(OracleError::FrameOverflow);
            },
        }
        if target_pulse <= next.pulse {
            return oracle_integer_frame(numerator);
        }
        segment_start = next.pulse;
        micros = next.micros_per_quarter;
        i = i + 1;
    }
    match oracle_add(numerator, target_pulse, segment_start, micros, spec.sample_rate) {
        Some(sum) => oracle_integer_frame(sum),
        None => Err(OracleError::FrameOverflow),
    }
}

fn oracle_add(
    accumulator: i128,
    end_pulse: i64,
    start_pulse: i64,
    micros: u32,
    sample_rate: u32,
) -> (sum: Option<i128>)
    ensures
        match sum {
            Some(sum) => segment_sum(
                accumulator as int,
                end_pulse - start_pulse,
                micros as int,
                sample_rate as int,
            ) == Some(sum as int),
            None => segment_sum(
                accumulator as int,
                end_pulse - start_pulse,
                micros as int,
                sample_rate as int,
            ) is None,
        },
{
    let distance: i128 = end_pulse as i128 - start_pulse as i128;
    let weight: i128 = micros as i128;
    proof {
        assert(-0x1_0000_0000_0000_0000 * 0xffff_ffff <= distance * weight
            <= 0x1_0000_0000_0000_0000 * 0xffff_ffff) by (nonlinear_arith)
            requires
                -0x1_0000_0000_0000_0000 <= distance <= 0x1_0000_0000_0000_0000,
                0 <= weight <= 0xffff_ffff,
        ;
    }
    let product: i128 = distance * weight;
    match product.checked_mul(sample_rate as i128) {
        Some(segment) => accumulator.checked_add(segment),
        None => None,
    }
}

fn oracle_integer_frame(numerator: i128) -> (frame: Result<i64, OracleError>)
    ensures
        frame == (if i64::MIN <= numerator as int / (FRAME_DENOMINATOR as int) <= i64::MAX {
            Ok::<i64, OracleError>((numerator as int / (FRAME_DENOMINATOR as int)) as i64)
        } else {
            Err(OracleError::FrameOverflow)
        }),
{
    match numerator.checked_div_euclid(FRAME_DENOMINATOR) {
        Some(frame) => {
            if frame < i64::MIN as i128 || frame > i64::MAX as i128 {
                Err(OracleError::FrameOverflow)
            } else {
                Ok(frame as i64)
            }
        },
        None => Err(OracleError::FrameOverflow),
    }
}

} // verus!
