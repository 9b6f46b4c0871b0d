//! Replaying sample packets against two policies.

use vstd::prelude::*;
use crate::firewall::model;
use crate::firewall::model::{
    Condition, Decision, Example, Protocol, Ruling, ValidatedPolicy, Witness, evaluate,
};
use crate::firewall::validate;
use crate::firewall::validate::parse_packet;

verus! {

#[derive(Debug, Clone)]
pub struct SamplePacket {
    pub source_ip: String,
    pub protocol: Protocol,
    pub destination_port: u16,
}

#[derive(Debug, Clone)]
pub struct SampleReplayResult {
    pub sample_count: usize,
    pub changed_sample_count: usize,
    pub changed_samples: Vec<SampleReplayChange>,
    pub warning: String,
}

#[derive(Debug, Clone)]
pub struct SampleReplayChange {
    pub sample_index: usize,
    pub packet: Witness,
    pub old: Decision,
    pub proposed: Decision,
}

impl View for SamplePacket {
    type V = Example;

    open spec fn view(&self) -> Example {
        Example {
            source_ip: self.source_ip@,
            protocol: self.protocol,
            destination_port: self.destination_port,
        }
    }
}

pub open spec fn examples(samples: Seq<SamplePacket>) -> Seq<Example> {
    samples.map_values(|sample: SamplePacket| sample@)
}

/// A sample that is decided differently, as plain values.
pub struct Changed {
    pub index: int,
    pub packet: Example,
    pub old: Ruling,
    pub proposed: Ruling,
}

impl View for SampleReplayChange {
    type V = Changed;

    open spec fn view(&self) -> Changed {
        Changed {
            index: self.sample_index as int,
            packet: self.packet@,
            old: self.old@,
            proposed: self.proposed@,
        }
    }
}

pub open spec fn changes(list: Seq<SampleReplayChange>) -> Seq<Changed> {
    list.map_values(|change: SampleReplayChange| change@)
}

/// The first `n` samples that are decided differently, or what is wrong with the
/// first that is no packet.
pub open spec fn replayed(
    old: Seq<Condition>,
    new: Seq<Condition>,
    samples: Seq<Example>,
    n: nat,
) -> Result<Seq<Changed>, Seq<char>>
    decreases n,
{
    if n == 0 {
        Ok(Seq::empty())
    } else {
        match replayed(old, new, samples, (n - 1) as nat) {
            Err(error) => Err(error),
            Ok(before) => {
                let sample = samples[n - 1];
                match validate::packet_of(
                    sample.source_ip,
                    sample.protocol,
                    sample.destination_port,
                ) {
                    Err(error) => Err(error),
                    Ok(packet) => {
                        let was = model::decision_on(old, packet);
                        let now = model::decision_on(new, packet);
                        if was.action != now.action {
                            Ok(
                                before.push(
                                    Changed {
                                        index: n - 1,
                                        packet: sample,
                                        old: was,
                                        proposed: now,
                                    },
                                ),
                            )
                        } else {
                            Ok(before)
                        }
                    },
                }
            },
        }
    }
}

proof fn lemma_replay_stuck(
    old: Seq<Condition>,
    new: Seq<Condition>,
    samples: Seq<Example>,
    n: nat,
    m: nat,
)
    requires
        n <= m,
        replayed(old, new, samples, n) is Err,
    ensures
        replayed(old, new, samples, m) == replayed(old, new, samples, n),
    decreases m,
{
    if n < m {
        lemma_replay_stuck(old, new, samples, n, (m - 1) as nat);
    }
}

/// Replays sample packets. Samples never show that nothing changed.
pub fn replay_samples(
    old: &ValidatedPolicy,
    proposed: &ValidatedPolicy,
    samples: &[SamplePacket],
) -> (result: Result<SampleReplayResult, String>)
    ensures
        match result {
            Ok(told) => {
                &&& replayed(old@, proposed@, examples(samples@), samples@.len()) == Ok::<
                    Seq<Changed>,
                    Seq<char>,
                >(changes(told.changed_samples@))
                &&& told.sample_count == samples@.len()
                &&& told.changed_sample_count == told.changed_samples@.len()
                &&& told.warning@
                    == "sample replay is incomplete evidence and never establishes no semantic change"@
            },
            Err(error) => replayed(old@, proposed@, examples(samples@), samples@.len()) == Err::<
                Seq<Changed>,
                Seq<char>,
            >(error@),
        },
{
    let ghost all = examples(samples@);
    let mut changed_samples: Vec<SampleReplayChange> = Vec::new();
    let mut i: usize = 0;
    assert(changes(changed_samples@) =~= Seq::empty());
    while i < samples.len()
        invariant
            i <= samples@.len(),
            all == examples(samples@),
            replayed(old@, proposed@, all, i as nat) == Ok::<Seq<Changed>, Seq<char>>(
                changes(changed_samples@),
            ),
        decreases samples@.len() - i,
    {
        let sample = &samples[i];
        assert(all[i as int] == sample@);
        let packet = match parse_packet(
            sample.source_ip.as_str(),
            sample.protocol,
            sample.destination_port,
        ) {
            Ok(packet) => packet,
            Err(error) => {
                proof {
                    assert(replayed(old@, proposed@, all, (i + 1) as nat) == Err::<
                        Seq<Changed>,
                        Seq<char>,
                    >(error@));
                    lemma_replay_stuck(old@, proposed@, all, (i + 1) as nat, samples@.len());
                }
                return Err(error);
            },
        };
        let before = evaluate(old, packet);
        let after = evaluate(proposed, packet);
        if before.action != after.action {
            let ghost held = changed_samples@;
            let change = SampleReplayChange {
                sample_index: i,
                packet: Witness {
                    source_ip: sample.source_ip.as_str().to_owned(),
                    protocol: sample.protocol,
                    destination_port: sample.destination_port,
                },
                old: before,
                proposed: after,
            };
            let ghost told = change@;
            changed_samples.push(change);
            assert(changes(changed_samples@) =~= changes(held).push(told));
        }
        i = i + 1;
    }
    Ok(
        SampleReplayResult {
            sample_count: samples.len(),
            changed_sample_count: changed_samples.len(),
            changed_samples,
            warning: "sample replay is incomplete evidence and never establishes no semantic change".to_owned(),
        },
    )
}

} // verus!
