//! The analysis tried on policies made up from a seed.

use vstd::prelude::*;
use crate::firewall::analyze;
use crate::firewall::analyze::analyze;
use crate::firewall::laws;
use crate::firewall::model;
use crate::firewall::model::{
    ChangeRegion, Condition, IpFamily, Packet, Protocol, Report, ValidatedPolicy, evaluate,
    region_contains,
};
use crate::firewall::random;
use crate::firewall::random::SplitMix64;
use crate::firewall::reach;
use crate::firewall::validate;
use crate::firewall::validate::name_family;
use crate::firewall::verify;
use crate::firewall::verify::{shown_protocol_of, verify_report};
use crate::firewall::workload::{generated_full_pair, generated_small_pair};
use crate::text;
use crate::text::{joined, push_decimal, same_text};

verus! {

/// The regions that a packet lies in.
fn containing(changes: &Vec<ChangeRegion>, packet: Packet) -> (found: Vec<usize>)
    ensures
        forall|k: int|
            0 <= k < found@.len() ==> (#[trigger] found@[k]) < changes@.len() && model::covers(
                changes@[found@[k] as int]@,
                packet,
            ),
        forall|a: int, b: int|
            0 <= a < b < found@.len() ==> (#[trigger] found@[a]) < (#[trigger] found@[b]),
        forall|i: int|
            0 <= i < changes@.len() && model::covers(#[trigger] changes@[i]@, packet)
                ==> found@.contains(i as usize),
{
    let mut found: Vec<usize> = Vec::new();
    let mut i: usize = 0;
    while i < changes.len()
        invariant
            i <= changes@.len(),
            forall|k: int|
                0 <= k < found@.len() ==> (#[trigger] found@[k]) < i && model::covers(
                    changes@[found@[k] as int]@,
                    packet,
                ),
            forall|a: int, b: int|
                0 <= a < b < found@.len() ==> (#[trigger] found@[a]) < (#[trigger] found@[b]),
            forall|j: int|
                0 <= j < i && model::covers(#[trigger] changes@[j]@, packet) ==> found@.contains(
                    j as usize,
                ),
        decreases changes@.len() - i,
    {
        let ghost before = found@;
        if region_contains(&changes[i], packet) {
            found.push(i);
        }
        proof {
            assert forall|j: int|
                0 <= j < i + 1 && model::covers(
                    #[trigger] changes@[j]@,
                    packet,
                ) implies found@.contains(j as usize) by {
                if j < i {
                    assert(before.contains(j as usize));
                    let k = choose|k: int| 0 <= k < before.len() && before[k] == j as usize;
                    assert(found@[k] == j as usize);
                } else {
                    assert(found@[before.len() as int] == i);
                }
            }
        }
        i = i + 1;
    }
    found
}

/// Appends the decimal numeral of a wide number.
fn push_wide(out: &mut String, value: u128)
    ensures
        final(out)@ == old(out)@ + text::decimal(value as nat),
    decreases value,
{
    if value >= 10 {
        push_wide(out, value / 10);
    }
    let ghost before = out@;
    push_decimal(out, (value % 10) as u64);
    proof {
        assert(text::decimal((value % 10) as nat) =~= seq![text::digit((value % 10) as nat)]);
        assert(out@ =~= old(out)@ + text::decimal(value as nat));
    }
}

pub open spec fn shown_packet(packet: Packet) -> Seq<char> {
    "Packet { family: "@ + validate::family_name(packet.family) + ", source: "@ + text::decimal(
        packet.source as nat,
    ) + ", protocol: "@ + verify::shown_protocol(packet.protocol) + ", destination_port: "@
        + text::decimal(packet.destination_port as nat) + " }"@
}

fn packet_shown(packet: Packet) -> (shown: String)
    ensures
        shown@ == shown_packet(packet),
{
    let mut shown = "Packet { family: ".to_owned();
    shown.append(name_family(packet.family));
    shown.append(", source: ");
    push_wide(&mut shown, packet.source);
    shown.append(", protocol: ");
    shown.append(shown_protocol_of(packet.protocol));
    shown.append(", destination_port: ");
    push_decimal(&mut shown, packet.destination_port as u64);
    shown.append(" }");
    shown
}

/// Holds the regions of a report against what the rules decide about a packet. An
/// exact analysis never fails this.
fn check_packet(
    old: &ValidatedPolicy,
    proposed: &ValidatedPolicy,
    report: &Report,
    packet: Packet,
    mismatch: &str,
    difference: &str,
) -> (result: Result<(), String>)
    requires
        analyze::is_report(old@, proposed@, *report),
        packet.source <= packet.family.spec_maximum(),
    ensures
        result is Ok,
{
    let before = evaluate(old, packet);
    let after = evaluate(proposed, packet);
    let found = containing(&report.changes, packet);
    let expected_change: bool = before.action != after.action;
    proof {
        lemma_found(old@, proposed@, *report, packet, found@);
    }
    let expected: usize = if expected_change {
        1
    } else {
        0
    };
    if found.len() != expected {
        let mut error = joined(mismatch, packet_shown(packet).as_str());
        error.append(": expected_change=");
        error.append(
            if expected_change {
                "true"
            } else {
                "false"
            },
        );
        error.append(" containing_regions=");
        push_decimal(&mut error, found.len() as u64);
        return Err(error);
    }
    if found.len() > 0 {
        let region = &report.changes[found[0]];
        if region.old_decision != before.action || !same_text(
            region.old_rule_id.as_str(),
            before.rule_id.as_str(),
        ) || region.new_decision != after.action || !same_text(
            region.new_rule_id.as_str(),
            after.rule_id.as_str(),
        ) {
            return Err(joined(difference, packet_shown(packet).as_str()));
        }
    }
    Ok(())
}

/// The regions of an exact analysis that a packet lies in.
proof fn lemma_found(
    old: Seq<Condition>,
    new: Seq<Condition>,
    report: Report,
    packet: Packet,
    found: Seq<usize>,
)
    requires
        analyze::is_report(old, new, report),
        packet.source <= packet.family.spec_maximum(),
        forall|k: int|
            0 <= k < found.len() ==> (#[trigger] found[k]) < report.changes@.len() && model::covers(
                report.changes@[found[k] as int]@,
                packet,
            ),
        forall|a: int, b: int|
            0 <= a < b < found.len() ==> (#[trigger] found[a]) < (#[trigger] found[b]),
        forall|i: int|
            0 <= i < report.changes@.len() && model::covers(
                #[trigger] report.changes@[i]@,
                packet,
            ) ==> found.contains(i as usize),
    ensures
        model::decision_on(old, packet).action != model::decision_on(new, packet).action
            ==> found.len() == 1,
        model::decision_on(old, packet).action == model::decision_on(new, packet).action
            ==> found.len() == 0,
        forall|k: int|
            0 <= k < found.len() ==> {
                let region = report.changes@[(#[trigger] found[k]) as int]@;
                region.old == model::decision_on(old, packet) && region.new == model::decision_on(
                    new,
                    packet,
                )
            },
{
    let all = model::regions(report.changes@);
    laws::each_change_is_in_one_region(old, new, all, packet);
    assert forall|k: int| 0 <= k < found.len() implies {
        let region = report.changes@[(#[trigger] found[k]) as int]@;
        region.old == model::decision_on(old, packet) && region.new == model::decision_on(
            new,
            packet,
        )
    } by {
        let at = found[k] as int;
        assert(all[at] == report.changes@[at]@);
        assert(all.contains(all[at]));
        laws::regions_tell_the_decisions(old, new, all[at], packet);
    }
    if model::decision_on(old, packet).action != model::decision_on(new, packet).action {
        let i = choose|i: int| 0 <= i < all.len() && #[trigger] model::covers(all[i], packet);
        assert(all[i] == report.changes@[i]@);
        assert(found.contains(i as usize));
        if found.len() > 1 {
            assert(found[0] < found[1]);
            assert(all[found[0] as int] == report.changes@[found[0] as int]@);
            assert(all[found[1] as int] == report.changes@[found[1] as int]@);
            assert(model::covers(all[found[0] as int], packet));
            assert(model::covers(all[found[1] as int], packet));
        }
    } else if found.len() > 0 {
        assert(all[found[0] as int] == report.changes@[found[0] as int]@);
        assert(model::covers(all[found[0] as int], packet));
    }
}

fn position_of(policy: &ValidatedPolicy, id: &str) -> (at: Option<usize>)
    ensures
        match at {
            Some(at) => at < policy@.len() && policy@[at as int].id == id@,
            None => forall|i: int| 0 <= i < policy@.len() ==> (#[trigger] policy@[i]).id != id@,
        },
{
    let ghost rules = policy@;
    let mut i: usize = 0;
    while i < policy.rules.len()
        invariant
            i <= policy.rules@.len(),
            rules == policy@,
            forall|k: int| 0 <= k < i ==> (#[trigger] rules[k]).id != id@,
        decreases policy.rules@.len() - i,
    {
        assert(rules[i as int] == policy.rules@[i as int]@);
        if same_text(policy.rules[i].id.as_str(), id) {
            return Some(i);
        }
        i = i + 1;
    }
    None
}

/// The small packets, one after another.
pub open spec fn small_packet(n: int) -> Packet {
    Packet {
        family: IpFamily::Ipv4,
        source: (n / 16) as u128,
        protocol: if n / 8 % 2 == 0 {
            Protocol::Tcp
        } else {
            Protocol::Udp
        },
        destination_port: (n % 8) as u16,
    }
}

/// A rule decides about one of the first `n` small packets.
pub open spec fn was_reached(rules: Seq<Condition>, i: int, n: int) -> bool {
    exists|k: int|
        0 <= k < n && model::decision_on(rules, #[trigger] small_packet(k)).rule_id == rules[i].id
}

/// Tries all small packets against a report on small rules: how many there were.
fn verify_reduced_pair(
    old: &ValidatedPolicy,
    proposed: &ValidatedPolicy,
    report: &Report,
) -> (result: Result<usize, String>)
    requires
        model::is_valid(old@),
        model::is_valid(proposed@),
        crate::firewall::workload::is_boxed(proposed@),
        analyze::is_report(old@, proposed@, *report),
    ensures
        result matches Ok(count) && count == 256,
{
    let ghost rules = proposed@;
    let mut expected_reachable: Vec<bool> = Vec::new();
    let mut i: usize = 0;
    while i < proposed.rules.len()
        invariant
            i == expected_reachable@.len() <= proposed.rules@.len(),
            forall|k: int| 0 <= k < i ==> !#[trigger] expected_reachable@[k],
        decreases proposed.rules@.len() - i,
    {
        expected_reachable.push(false);
        i = i + 1;
    }
    let mut n: usize = 0;
    while n < 256
        invariant
            n <= 256,
            rules == proposed@,
            rules.len() == expected_reachable@.len(),
            model::is_valid(rules),
            analyze::is_report(old@, proposed@, *report),
            forall|k: int|
                0 <= k < rules.len() ==> (#[trigger] expected_reachable@[k] <==> was_reached(
                    rules,
                    k,
                    n as int,
                )),
        decreases 256 - n,
    {
        let packet = Packet {
            family: IpFamily::Ipv4,
            source: (n / 16) as u128,
            protocol: if n / 8 % 2 == 0 {
                Protocol::Tcp
            } else {
                Protocol::Udp
            },
            destination_port: (n % 8) as u16,
        };
        assert(packet == small_packet(n as int));
        let after = evaluate(proposed, packet);
        let at = position_of(proposed, after.rule_id.as_str());
        let ghost before = expected_reachable@;
        if let Some(index) = at {
            expected_reachable.set(index, true);
        }
        proof {
            assert forall|k: int| 0 <= k < rules.len() implies (#[trigger] expected_reachable@[k]
                <==> was_reached(rules, k, n + 1)) by {
                let hit = after@.rule_id == rules[k].id;
                if was_reached(rules, k, n as int) {
                    let m = choose|m: int|
                        0 <= m < n && model::decision_on(
                            rules,
                            #[trigger] small_packet(m),
                        ).rule_id == rules[k].id;
                    assert(was_reached(rules, k, n + 1));
                }
                if hit {
                    assert(model::decision_on(rules, small_packet(n as int)).rule_id
                        == rules[k].id);
                    assert(was_reached(rules, k, n + 1));
                    let index = at->0 as int;
                    if index < k {
                        assert(rules[index].id != rules[k].id);
                    } else if k < index {
                        assert(rules[k].id != rules[index].id);
                    }
                }
                if was_reached(rules, k, n + 1) && !hit {
                    let m = choose|m: int|
                        0 <= m < n + 1 && model::decision_on(
                            rules,
                            #[trigger] small_packet(m),
                        ).rule_id == rules[k].id;
                    assert(m < n);
                    assert(was_reached(rules, k, n as int));
                }
                if !hit && at is Some {
                    assert(at->0 as int != k);
                }
                assert(before[k] <==> was_reached(rules, k, n as int));
            }
        }
        check_packet(
            old,
            proposed,
            report,
            packet,
            "reduced exhaustive mismatch for packet ",
            "reduced decision mismatch for packet ",
        )?;
        n = n + 1;
    }
    i = 0;
    let ghost told = model::reaches(report.proposed_rule_reachability@);
    while i < report.proposed_rule_reachability.len()
        invariant
            i <= report.proposed_rule_reachability@.len(),
            told == model::reaches(report.proposed_rule_reachability@),
            rules.len() == expected_reachable@.len(),
            model::is_valid(rules),
            crate::firewall::workload::is_boxed(rules),
            analyze::are_reaches(rules, told),
            forall|k: int|
                0 <= k < rules.len() ==> (#[trigger] expected_reachable@[k] <==> was_reached(
                    rules,
                    k,
                    256,
                )),
        decreases report.proposed_rule_reachability@.len() - i,
    {
        proof {
            assert(told[i as int] == report.proposed_rule_reachability@[i as int]@);
            lemma_small_reach(rules, i as int, told[i as int]);
        }
        if report.proposed_rule_reachability[i].reachable != expected_reachable[i] {
            return Err(
                joined(
                    "reduced reachability mismatch for rule ",
                    text::quoted(report.proposed_rule_reachability[i].rule_id.as_str()).as_str(),
                ),
            );
        }
        i = i + 1;
    }
    proof {
        verify::fresh_reports_are_accurate(old@, proposed@, *report);
    }
    verify_report(old, proposed, report)?;
    Ok(256)
}

/// A small rule can be reached exactly when a small packet reaches it.
proof fn lemma_small_reach(rules: Seq<Condition>, i: int, told: model::Reach)
    requires
        model::is_valid(rules),
        crate::firewall::workload::is_boxed(rules),
        0 <= i < rules.len(),
        analyze::is_reach(rules, i, told),
    ensures
        told.reachable <==> was_reached(rules, i, 256),
{
    let rule = rules[i];
    if told.reachable {
        let (source, port) = choose|source: u128, port: u16| #[trigger]
            reach::is_first_packet(rules, i, source, port) && told.witness->0 == (model::Example {
                source_ip: analyze::address_text(rules[i].family, source),
                protocol: rules[i].protocol,
                destination_port: port,
            });
        laws::reachability_is_exact(rules, i, source, port);
        model::lemma_first(
            rules,
            rule.family,
            rule.protocol,
            source as int,
            port as int,
            rules.len(),
        );
        assert(model::applies(rule, rule.family, rule.protocol, source as int, port as int));
        let turn = if rule.protocol == Protocol::Tcp {
            0int
        } else {
            1int
        };
        let n = source * 16 + turn * 8 + port;
        assert(0 <= n < 256);
        assert(n / 16 == source && n / 8 % 2 == turn && n % 8 == port);
        assert(small_packet(n) == (Packet {
            family: rule.family,
            source,
            protocol: rule.protocol,
            destination_port: port,
        }));
        assert(was_reached(rules, i, 256));
    }
    if was_reached(rules, i, 256) && !told.reachable {
        let n = choose|n: int|
            0 <= n < 256 && model::decision_on(rules, #[trigger] small_packet(n)).rule_id
                == rules[i].id;
        let packet = small_packet(n);
        lemma_decided_dimension(rules, i, packet);
        laws::reachability_is_exact(rules, i, packet.source, packet.destination_port);
    }
}

/// A rule that decides about a packet is of its family and protocol.
proof fn lemma_decided_dimension(rules: Seq<Condition>, i: int, packet: Packet)
    requires
        model::is_valid(rules),
        0 <= i < rules.len(),
        model::decision_on(rules, packet).rule_id == rules[i].id,
    ensures
        rules[i].family == packet.family,
        rules[i].protocol == packet.protocol,
{
    assert(model::is_proper(rules[i]));
    model::lemma_first(
        rules,
        packet.family,
        packet.protocol,
        packet.source as int,
        packet.destination_port as int,
        rules.len(),
    );
    let found = model::winner(
        rules,
        packet.family,
        packet.protocol,
        packet.source as int,
        packet.destination_port as int,
    );
    if let Some(k) = found {
        if k < i {
            assert(rules[k].id != rules[i].id);
        } else if i < k {
            assert(rules[i].id != rules[k].id);
        }
    }
}

/// The addresses at the edges of rules, and those next to them.
fn push_edges(places: &mut Vec<(IpFamily, u128)>, family: IpFamily, address: u128)
    requires
        address <= family.spec_maximum(),
        forall|k: int|
            0 <= k < old(places)@.len() ==> (#[trigger] old(places)@[k]).1
                <= old(places)@[k].0.spec_maximum(),
    ensures
        forall|k: int|
            0 <= k < final(places)@.len() ==> (#[trigger] final(places)@[k]).1
                <= final(places)@[k].0.spec_maximum(),
        final(places)@ == old(places)@ + edges(family, address),
{
    places.push((family, address));
    if address > 0 {
        places.push((family, address - 1));
    }
    if address < family.maximum() {
        places.push((family, address + 1));
    }
    assert(places@ =~= old(places)@ + edges(family, address));
}

/// An address and those next to it.
pub open spec fn edges(family: IpFamily, address: u128) -> Seq<(IpFamily, u128)> {
    let below = if address > 0 {
        seq![(family, (address - 1) as u128)]
    } else {
        Seq::empty()
    };
    let above = if address < family.spec_maximum() {
        seq![(family, (address + 1) as u128)]
    } else {
        Seq::empty()
    };
    seq![(family, address)] + below + above
}

/// A port and those next to it.
pub open spec fn port_edges(port: u16) -> Seq<u16> {
    let below = if port > 0 {
        seq![(port - 1) as u16]
    } else {
        Seq::empty()
    };
    let above = if port < 65_535 {
        seq![(port + 1) as u16]
    } else {
        Seq::empty()
    };
    seq![port] + below + above
}

fn push_port_edges(ports: &mut Vec<u16>, port: u16)
    ensures
        final(ports)@ == old(ports)@ + port_edges(port),
{
    ports.push(port);
    if port > 0 {
        ports.push(port - 1);
    }
    if port < 65_535 {
        ports.push(port + 1);
    }
    assert(ports@ =~= old(ports)@ + port_edges(port));
}

/// The edges of a policy's rules.
fn push_rule_edges(
    policy: &ValidatedPolicy,
    places: &mut Vec<(IpFamily, u128)>,
    ports: &mut Vec<u16>,
)
    requires
        model::is_valid(policy@),
        old(places)@.len() > 0,
        old(ports)@.len() > 0,
        forall|k: int|
            0 <= k < old(places)@.len() ==> (#[trigger] old(places)@[k]).1
                <= old(places)@[k].0.spec_maximum(),
    ensures
        final(places)@.len() > 0,
        final(ports)@.len() > 0,
        forall|k: int|
            0 <= k < final(places)@.len() ==> (#[trigger] final(places)@[k]).1
                <= final(places)@[k].0.spec_maximum(),
{
    let mut i: usize = 0;
    while i < policy.rules.len()
        invariant
            i <= policy.rules@.len(),
            model::is_valid(policy@),
            places@.len() > 0,
            ports@.len() > 0,
            forall|k: int|
                0 <= k < places@.len() ==> (#[trigger] places@[k]).1
                    <= places@[k].0.spec_maximum(),
        decreases policy.rules@.len() - i,
    {
        let rule = &policy.rules[i];
        proof {
            assert(policy@[i as int] == rule@);
            assert(model::is_proper(policy@[i as int]));
        }
        push_edges(places, rule.family, rule.source_start);
        push_edges(places, rule.family, rule.source_end);
        push_port_edges(ports, rule.port_start);
        push_port_edges(ports, rule.port_end);
        i = i + 1;
    }
}

/// The generator after a probe.
pub open spec fn after_probe(state: u64, index: nat) -> u64 {
    if index % 3 == 0 {
        random::spun(state, 3)
    } else if random::drawn(state, 1) % 2 == 0 {
        random::spun(state, 4)
    } else {
        random::spun(state, 5)
    }
}

/// The generator after some probes.
pub open spec fn after_probes(state: u64, n: nat) -> u64
    decreases n,
{
    if n == 0 {
        state
    } else {
        after_probe(after_probes(state, (n - 1) as nat), (n - 1) as nat)
    }
}

/// Draws a packet: every third at an edge of the rules, the others anywhere.
fn draw_probe(
    random: &mut SplitMix64,
    index: usize,
    places: &Vec<(IpFamily, u128)>,
    ports: &Vec<u16>,
) -> (packet: Packet)
    requires
        places@.len() > 0,
        ports@.len() > 0,
        forall|k: int|
            0 <= k < places@.len() ==> (#[trigger] places@[k]).1 <= places@[k].0.spec_maximum(),
    ensures
        packet.source <= packet.family.spec_maximum(),
        index % 3 == 0 ==> places@.contains((packet.family, packet.source)) && ports@.contains(
            packet.destination_port,
        ),
        final(random).state == after_probe(old(random).state, index as nat),
{
    let ghost start = random.state;
    proof {
        random::lemma_spun(start, 1, 1);
        random::lemma_spun(start, 1, 2);
        random::lemma_spun(start, 2, 1);
        random::lemma_spun(start, 3, 1);
        random::lemma_spun(start, 4, 1);
    }
    let (family, source): (IpFamily, u128) = if index % 3 == 0 {
        let at: usize = (random.next_u64() as usize) % places.len();
        assert(places@.contains(places@[at as int]));
        places[at]
    } else if random.next_u64() % 2 == 0 {
        (IpFamily::Ipv4, (random.next_u64() as u32) as u128)
    } else {
        (IpFamily::Ipv6, random.next_u128())
    };
    let destination_port: u16 = if index % 3 == 0 {
        let at: usize = (random.next_u64() as usize) % ports.len();
        assert(ports@.contains(ports@[at as int]));
        ports[at]
    } else {
        random.next_u64() as u16
    };
    let protocol = if random.next_u64() % 2 == 0 {
        Protocol::Tcp
    } else {
        Protocol::Udp
    };
    Packet { family, source, protocol, destination_port }
}

/// Probes a report with packets at the edges of the rules and elsewhere.
fn verify_boundary_probes(
    current: &ValidatedPolicy,
    proposed: &ValidatedPolicy,
    report: &Report,
    probe_count: usize,
    random: &mut SplitMix64,
) -> (result: Result<(), String>)
    requires
        model::is_valid(current@),
        model::is_valid(proposed@),
        analyze::is_report(current@, proposed@, *report),
    ensures
        result is Ok,
        final(random).state == after_probes(old(random).state, probe_count as nat),
{
    let ghost start = random.state;
    let mut places: Vec<(IpFamily, u128)> = Vec::new();
    places.push((IpFamily::Ipv4, 0));
    places.push((IpFamily::Ipv4, 0xffff_ffff));
    places.push((IpFamily::Ipv6, 0));
    places.push((IpFamily::Ipv6, u128::MAX));
    let mut ports: Vec<u16> = Vec::new();
    ports.push(0);
    ports.push(65_535);
    push_rule_edges(current, &mut places, &mut ports);
    push_rule_edges(proposed, &mut places, &mut ports);
    let mut i: usize = 0;
    while i < probe_count
        invariant
            i <= probe_count,
            places@.len() > 0,
            ports@.len() > 0,
            forall|k: int|
                0 <= k < places@.len() ==> (#[trigger] places@[k]).1
                    <= places@[k].0.spec_maximum(),
            analyze::is_report(current@, proposed@, *report),
            random.state == after_probes(start, i as nat),
        decreases probe_count - i,
    {
        let packet = draw_probe(random, i, &places, &ports);
        let fault = check_packet(
            current,
            proposed,
            report,
            packet,
            "full-width probe mismatch for packet ",
            "full-width decision mismatch for packet ",
        );
        if fault.is_err() {
            return fault;
        }
        i = i + 1;
    }
    proof {
        verify::fresh_reports_are_accurate(current@, proposed@, *report);
    }
    match verify_report(current, proposed, report) {
        Ok(_) => Ok(()),
        Err(error) => Err(error),
    }
}

/// What a trial tells when nothing disagreed.
pub open spec fn trial_summary(small: nat, packets: nat, full: nat, probes: nat) -> Seq<char> {
    "small_pairs="@ + text::decimal(small) + " exhaustive_packets="@ + text::decimal(packets)
        + " full_width_pairs="@ + text::decimal(full) + " boundary_probes="@ + text::decimal(probes)
        + " disagreements=0"@
}

/// Tries the analysis on policies made up from a seed: small ones packet by packet,
/// and others by probes. Nothing ever disagrees.
pub fn validation_suite(
    small_pair_count: usize,
    full_pair_count: usize,
    total_probe_count: usize,
    seed: u64,
) -> (result: Result<String, String>)
    requires
        full_pair_count > 0,
        small_pair_count * 256 <= usize::MAX,
    ensures
        result matches Ok(told) && told@ == trial_summary(
            small_pair_count as nat,
            (small_pair_count * 256) as nat,
            full_pair_count as nat,
            total_probe_count as nat,
        ),
{
    let mut random = SplitMix64::new(seed);
    let mut exhaustive_packets: usize = 0;
    let mut pair_index: usize = 0;
    while pair_index < small_pair_count
        invariant
            pair_index <= small_pair_count,
            small_pair_count * 256 <= usize::MAX,
            exhaustive_packets == pair_index * 256,
        decreases small_pair_count - pair_index,
    {
        let (old, proposed) = generated_small_pair(&mut random, pair_index);
        let report = analyze(&old, &proposed);
        let count: usize = verify_reduced_pair(&old, &proposed, &report)?;
        exhaustive_packets = exhaustive_packets + count;
        pair_index = pair_index + 1;
    }
    let base_probes: usize = total_probe_count / full_pair_count;
    let extra_probes: usize = total_probe_count % full_pair_count;
    proof {
        vstd::arithmetic::div_mod::lemma_fundamental_div_mod(
            total_probe_count as int,
            full_pair_count as int,
        );
        assert(base_probes * full_pair_count == full_pair_count * base_probes)
            by (nonlinear_arith);
        assert(base_probes * 0 == 0) by (nonlinear_arith);
    }
    let mut probes: usize = 0;
    pair_index = 0;
    while pair_index < full_pair_count
        invariant
            pair_index <= full_pair_count,
            extra_probes < full_pair_count,
            base_probes * full_pair_count + extra_probes == total_probe_count,
            probes == base_probes * pair_index + if pair_index <= extra_probes {
                pair_index as int
            } else {
                extra_probes as int
            },
        decreases full_pair_count - pair_index,
    {
        let (old, proposed) = generated_full_pair(&mut random, pair_index);
        let report = analyze(&old, &proposed);
        proof {
            assert(base_probes * (pair_index + 1) == base_probes * pair_index + base_probes)
                by (nonlinear_arith);
            assert(base_probes * (pair_index + 1) <= base_probes * full_pair_count)
                by (nonlinear_arith)
                requires
                    pair_index + 1 <= full_pair_count,
            ;
        }
        let pair_probes: usize = base_probes + if pair_index < extra_probes {
            1
        } else {
            0
        };
        verify_boundary_probes(&old, &proposed, &report, pair_probes, &mut random)?;
        probes = probes + pair_probes;
        pair_index = pair_index + 1;
    }
    let mut told = "small_pairs=".to_owned();
    push_decimal(&mut told, small_pair_count as u64);
    told.append(" exhaustive_packets=");
    push_decimal(&mut told, exhaustive_packets as u64);
    told.append(" full_width_pairs=");
    push_decimal(&mut told, full_pair_count as u64);
    told.append(" boundary_probes=");
    push_decimal(&mut told, probes as u64);
    told.append(" disagreements=0");
    Ok(told)
}

} // verus!
