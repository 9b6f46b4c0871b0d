//! Deterministic command sequences.

use vstd::prelude::*;
use crate::dock::model::{Command, HoldSpec};

verus! {

/// One step of the linear congruential generator.
pub open spec fn next(state: u64) -> u64 {
    state.wrapping_mul(6_364_136_223_846_793_005).wrapping_add(1_442_695_040_888_963_407)
}

/// A generator of numbers that are the same for the same seed.
#[derive(Clone, Copy)]
pub struct Lcg {
    pub state: u64,
}

impl Lcg {
    pub fn range(&mut self, upper: u64) -> (drawn: u64)
        requires
            upper > 0,
        ensures
            final(self).state == next(old(self).state),
            drawn == next(old(self).state) % upper,
    {
        self.state = self.state.wrapping_mul(6_364_136_223_846_793_005).wrapping_add(
            1_442_695_040_888_963_407,
        );
        self.state % upper
    }
}

/// What has been generated so far.
#[verifier::ext_equal]
pub struct Draft {
    pub state: u64,
    pub specs: Seq<HoldSpec>,
    pub commands: Seq<Command>,
}

/// The generator after `n` steps.
pub open spec fn stepped(state: u64, n: nat) -> u64
    decreases n,
{
    if n == 0 {
        state
    } else {
        next(stepped(state, (n - 1) as nat))
    }
}

/// A new hold, from the next eight numbers.
pub open spec fn drawn_spec(state: u64, request_id: u64) -> HoldSpec {
    HoldSpec {
        tenant: (stepped(state, 1) % 4 + 1) as u16,
        request_id,
        arrival: (stepped(state, 2) % 96) as u32,
        duration: (stepped(state, 3) % 8 + 1) as u8,
        pallets: (stepped(state, 4) % 18 + 1) as u16,
        height: (stepped(state, 5) % 3 + 1) as u8,
        refrigerated: stepped(state, 6) % 5 == 0,
        priority: (stepped(state, 7) % 4) as u8,
        lifetime: (stepped(state, 8) % 15 + 1) as u32,
    }
}

/// The draft with command `index` added.
pub open spec fn extended(draft: Draft, index: nat) -> Draft {
    let now = (index / 6) as u32;
    let kind = index % 10;
    let chosen = draft.specs[(next(draft.state) as nat % draft.specs.len()) as int];
    if kind < 5 {
        let spec = drawn_spec(draft.state, draft.specs.len() as u64);
        Draft {
            state: stepped(draft.state, 8),
            specs: draft.specs.push(spec),
            commands: draft.commands.push(Command::Hold { spec, now }),
        }
    } else if kind == 9 || draft.specs.len() == 0 {
        Draft {
            commands: draft.commands.push(Command::Expire { sweep_id: index as u64, now }),
            ..draft
        }
    } else if kind == 5 {
        Draft {
            state: next(draft.state),
            commands: draft.commands.push(Command::Hold { spec: chosen, now }),
            ..draft
        }
    } else if kind == 6 {
        Draft {
            state: next(draft.state),
            commands: draft.commands.push(
                Command::Confirm {
                    tenant: chosen.tenant,
                    request_id: chosen.request_id,
                    now,
                },
            ),
            ..draft
        }
    } else if kind == 7 {
        Draft {
            state: stepped(draft.state, 4),
            commands: draft.commands.push(
                Command::Reschedule {
                    tenant: chosen.tenant,
                    request_id: chosen.request_id,
                    expected_version: (stepped(draft.state, 2) % 3) as u32,
                    arrival: (stepped(draft.state, 3) % 96) as u32,
                    duration: (stepped(draft.state, 4) % 8 + 1) as u8,
                    now,
                },
            ),
            ..draft
        }
    } else {
        Draft {
            state: next(draft.state),
            commands: draft.commands.push(
                Command::Cancel {
                    tenant: chosen.tenant,
                    request_id: chosen.request_id,
                    now,
                },
            ),
            ..draft
        }
    }
}

/// The first `n` commands of a seed.
pub open spec fn drafted(seed: u64, n: nat) -> Draft
    decreases n,
{
    if n == 0 {
        Draft {
            state: seed ^ 0x9e37_79b9_7f4a_7c15u64,
            specs: Seq::empty(),
            commands: Seq::empty(),
        }
    } else {
        extended(drafted(seed, (n - 1) as nat), (n - 1) as nat)
    }
}

fn draw_spec(rng: &mut Lcg, request_id: u64) -> (spec: HoldSpec)
    ensures
        spec == drawn_spec(old(rng).state, request_id),
        final(rng).state == stepped(old(rng).state, 8),
{
    proof {
        reveal_with_fuel(stepped, 9);
    }
    let tenant: u16 = (rng.range(4) + 1) as u16;
    let arrival: u32 = rng.range(96) as u32;
    let duration: u8 = (rng.range(8) + 1) as u8;
    let pallets: u16 = (rng.range(18) + 1) as u16;
    let height: u8 = (rng.range(3) + 1) as u8;
    let refrigerated = rng.range(5) == 0;
    let priority: u8 = rng.range(4) as u8;
    let lifetime: u32 = (rng.range(15) + 1) as u32;
    HoldSpec {
        tenant,
        request_id,
        arrival,
        duration,
        pallets,
        height,
        refrigerated,
        priority,
        lifetime,
    }
}

fn random_spec(rng: &mut Lcg, specs: &Vec<HoldSpec>) -> (spec: HoldSpec)
    requires
        specs@.len() > 0,
    ensures
        spec == specs@[(next(old(rng).state) as nat % specs@.len()) as int],
        final(rng).state == next(old(rng).state),
{
    let index: usize = rng.range(specs.len() as u64) as usize;
    specs[index]
}

/// Generates the commands of a seed.
pub fn fixture(seed: u64, len: usize) -> (commands: Vec<Command>)
    requires
        len <= u32::MAX,
    ensures
        commands@ == drafted(seed, len as nat).commands,
        commands@.len() == len,
{
    let mut rng = Lcg { state: seed ^ 0x9e37_79b9_7f4a_7c15 };
    let mut commands: Vec<Command> = Vec::new();
    let mut specs: Vec<HoldSpec> = Vec::new();
    let mut index: usize = 0;
    while index < len
        invariant
            index <= len <= u32::MAX,
            commands@.len() == index,
            specs@.len() <= index,
            (Draft { state: rng.state, specs: specs@, commands: commands@ }) == drafted(
                seed,
                index as nat,
            ),
        decreases len - index,
    {
        let ghost before = Draft { state: rng.state, specs: specs@, commands: commands@ };
        let now: u32 = (index / 6) as u32;
        let kind: usize = index % 10;
        proof {
            reveal_with_fuel(stepped, 5);
        }
        let command = if kind < 5 {
            let spec = draw_spec(&mut rng, specs.len() as u64);
            specs.push(spec);
            Command::Hold { spec, now }
        } else if kind == 9 || specs.len() == 0 {
            Command::Expire { sweep_id: index as u64, now }
        } else {
            let spec = random_spec(&mut rng, &specs);
            if kind == 5 {
                Command::Hold { spec, now }
            } else if kind == 6 {
                Command::Confirm { tenant: spec.tenant, request_id: spec.request_id, now }
            } else if kind == 7 {
                let expected_version: u32 = rng.range(3) as u32;
                let arrival: u32 = rng.range(96) as u32;
                let duration: u8 = (rng.range(8) + 1) as u8;
                Command::Reschedule {
                    tenant: spec.tenant,
                    request_id: spec.request_id,
                    expected_version,
                    arrival,
                    duration,
                    now,
                }
            } else {
                Command::Cancel { tenant: spec.tenant, request_id: spec.request_id, now }
            }
        };
        commands.push(command);
        assert((Draft { state: rng.state, specs: specs@, commands: commands@ }) =~= extended(
            before,
            index as nat,
        ));
        index = index + 1;
    }
    commands
}

} // verus!
