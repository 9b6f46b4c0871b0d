//! Checking a report against the policies it speaks of.

use vstd::prelude::*;
use crate::chars::chars_of;
use crate::firewall::analyze;
use crate::firewall::analyze::analyze;
use crate::firewall::blocks;
use crate::firewall::blocks::Block;
use crate::firewall::laws;
use crate::firewall::model;
use crate::firewall::model::{
    ChangeRegion, Condition, Example, IpFamily, Packet, Protocol, Reach, Region, Report,
    RuleReachability, ValidatedPolicy, Witness, evaluate,
};
use crate::firewall::reach;
use crate::firewall::validate;
use crate::firewall::validate::{name_family, parse_address, parse_packet};
use crate::ip_laws;
use crate::text;
use crate::text::{joined, joined3, push_decimal, quoted, same_text};

verus! {

pub open spec fn group_power(n: nat) -> nat
    decreases n,
{
    if n == 0 {
        1
    } else {
        0x1_0000 * group_power((n - 1) as nat)
    }
}

proof fn lemma_low_groups(value: nat, n: nat)
    requires
        value < group_power(n),
    ensures
        analyze::low_groups(value, n).len() == n,
        ip_laws::are_groups(analyze::low_groups(value, n)),
        validate::v6_value(analyze::low_groups(value, n)) == value,
    decreases n,
{
    if n > 0 {
        lemma_low_groups(value / 0x1_0000, (n - 1) as nat);
        let front = analyze::low_groups(value / 0x1_0000, (n - 1) as nat);
        let all = analyze::low_groups(value, n);
        assert(all.drop_last() =~= front);
        assert forall|i: int| 0 <= i < all.len() implies (#[trigger] all[i]) <= 0xffff by {
            if i < front.len() {
                assert(all[i] == front[i]);
            }
        }
    }
}

/// An address is read as it was shown.
pub proof fn shown_addresses_are_read_back(family: IpFamily, value: u128)
    requires
        value <= family.spec_maximum(),
    ensures
        validate::address_of(analyze::address_text(family, value)) == Some((family, value as nat)),
{
    match family {
        IpFamily::Ipv4 => {
            ip_laws::shown_v4_is_read_back(value as nat);
        },
        IpFamily::Ipv6 => {
            assert(group_power(8) == 0x1_0000_0000_0000_0000_0000_0000_0000_0000nat) by {
                reveal_with_fuel(group_power, 9);
            }
            lemma_low_groups(value as nat, 8);
            ip_laws::shown_v6_is_read_back(analyze::low_groups(value as nat, 8));
        },
    }
}

/// What is seen of a report from outside: the numbers behind the addresses are not.
pub struct Sight {
    pub schema_version: u32,
    pub analysis: Seq<char>,
    pub outcome: Seq<char>,
    pub newly_allowed_regions: usize,
    pub newly_denied_regions: usize,
    pub proposed_reachable_rules: usize,
    pub proposed_unreachable_rules: usize,
    pub changes: Seq<Region>,
    pub reaches: Seq<Reach>,
}

pub open spec fn seen_region(region: Region) -> Region {
    Region { low: 0, high: 0, ..region }
}

pub open spec fn seen_regions(found: Seq<Region>) -> Seq<Region> {
    found.map_values(|region: Region| seen_region(region))
}

pub open spec fn sight(report: Report) -> Sight {
    Sight {
        schema_version: report.schema_version,
        analysis: report.analysis@,
        outcome: report.summary.outcome@,
        newly_allowed_regions: report.summary.newly_allowed_regions,
        newly_denied_regions: report.summary.newly_denied_regions,
        proposed_reachable_rules: report.summary.proposed_reachable_rules,
        proposed_unreachable_rules: report.summary.proposed_unreachable_rules,
        changes: seen_regions(model::regions(report.changes@)),
        reaches: model::reaches(report.proposed_rule_reachability@),
    }
}

/// A report says what an exact analysis says.
pub open spec fn is_accurate(old: Seq<Condition>, new: Seq<Condition>, report: Report) -> bool {
    exists|fresh: Report|
        #[trigger] analyze::is_report(old, new, fresh) && sight(fresh) == sight(report)
}

fn same_witness(a: &Witness, b: &Witness) -> (same: bool)
    ensures
        same == (a@ == b@),
{
    same_text(a.source_ip.as_str(), b.source_ip.as_str()) && a.protocol == b.protocol
        && a.destination_port == b.destination_port
}

fn same_region(a: &ChangeRegion, b: &ChangeRegion) -> (same: bool)
    ensures
        same == (seen_region(a@) == seen_region(b@)),
{
    a.kind == b.kind && a.ip_family == b.ip_family && same_text(
        a.source_start.as_str(),
        b.source_start.as_str(),
    ) && same_text(a.source_end.as_str(), b.source_end.as_str()) && a.protocol == b.protocol
        && a.port_start == b.port_start && a.port_end == b.port_end && a.old_decision
        == b.old_decision && same_text(a.old_rule_id.as_str(), b.old_rule_id.as_str())
        && a.new_decision == b.new_decision && same_text(
        a.new_rule_id.as_str(),
        b.new_rule_id.as_str(),
    ) && same_witness(&a.witness, &b.witness)
}

fn same_reach(a: &RuleReachability, b: &RuleReachability) -> (same: bool)
    ensures
        same == (a@ == b@),
{
    if !same_text(a.rule_id.as_str(), b.rule_id.as_str()) || a.reachable != b.reachable {
        return false;
    }
    match (&a.witness, &b.witness) {
        (Some(left), Some(right)) => same_witness(left, right),
        (None, None) => true,
        _ => false,
    }
}

fn same_regions(a: &Vec<ChangeRegion>, b: &Vec<ChangeRegion>) -> (same: bool)
    ensures
        same == (seen_regions(model::regions(a@)) == seen_regions(model::regions(b@))),
{
    let ghost left = seen_regions(model::regions(a@));
    let ghost right = seen_regions(model::regions(b@));
    if a.len() != b.len() {
        assert(left.len() != right.len());
        return false;
    }
    let mut i: usize = 0;
    while i < a.len()
        invariant
            i <= a@.len() == b@.len(),
            left == seen_regions(model::regions(a@)),
            right == seen_regions(model::regions(b@)),
            forall|k: int| 0 <= k < i ==> #[trigger] left[k] == right[k],
        decreases a@.len() - i,
    {
        assert(left[i as int] == seen_region(a@[i as int]@));
        assert(right[i as int] == seen_region(b@[i as int]@));
        if !same_region(&a[i], &b[i]) {
            return false;
        }
        i = i + 1;
    }
    assert(left =~= right);
    true
}

fn same_reaches(a: &Vec<RuleReachability>, b: &Vec<RuleReachability>) -> (same: bool)
    ensures
        same == (model::reaches(a@) == model::reaches(b@)),
{
    let ghost left = model::reaches(a@);
    let ghost right = model::reaches(b@);
    if a.len() != b.len() {
        assert(left.len() != right.len());
        return false;
    }
    let mut i: usize = 0;
    while i < a.len()
        invariant
            i <= a@.len() == b@.len(),
            left == model::reaches(a@),
            right == model::reaches(b@),
            forall|k: int| 0 <= k < i ==> #[trigger] left[k] == right[k],
        decreases a@.len() - i,
    {
        assert(left[i as int] == a@[i as int]@);
        assert(right[i as int] == b@[i as int]@);
        if !same_reach(&a[i], &b[i]) {
            return false;
        }
        i = i + 1;
    }
    assert(left =~= right);
    true
}

/// Whether two reports look the same from outside.
pub fn same_report(a: &Report, b: &Report) -> (same: bool)
    ensures
        same == (sight(*a) == sight(*b)),
{
    a.schema_version == b.schema_version && same_text(a.analysis.as_str(), b.analysis.as_str())
        && same_text(a.summary.outcome.as_str(), b.summary.outcome.as_str())
        && a.summary.newly_allowed_regions == b.summary.newly_allowed_regions
        && a.summary.newly_denied_regions == b.summary.newly_denied_regions
        && a.summary.proposed_reachable_rules == b.summary.proposed_reachable_rules
        && a.summary.proposed_unreachable_rules == b.summary.proposed_unreachable_rules
        && same_regions(&a.changes, &b.changes) && same_reaches(
        &a.proposed_rule_reachability,
        &b.proposed_rule_reachability,
    )
}

/// Two lists of all regions, each in order, are the same list.
proof fn lemma_regions_unique(a: Seq<Region>, b: Seq<Region>)
    requires
        forall|i: int, j: int|
            0 <= i < j < a.len() ==> analyze::region_lt(#[trigger] a[i], #[trigger] a[j]),
        forall|i: int, j: int|
            0 <= i < j < b.len() ==> analyze::region_lt(#[trigger] b[i], #[trigger] b[j]),
        forall|region: Region| #[trigger] a.contains(region) <==> b.contains(region),
    ensures
        a == b,
    decreases a.len(),
{
    if a.len() == 0 {
        if b.len() > 0 {
            assert(b.contains(b[0]));
            assert(a.contains(b[0]));
        }
        assert(a =~= b);
    } else {
        assert(a.contains(a[0]));
        assert(b.contains(a[0]));
        let last_a = a.last();
        assert(a.contains(last_a));
        let j = choose|j: int| 0 <= j < b.len() && b[j] == last_a;
        let last_b = b.last();
        assert(b.contains(last_b));
        assert(a.contains(last_b));
        let i = choose|i: int| 0 <= i < a.len() && a[i] == last_b;
        if j < b.len() - 1 {
            assert(analyze::region_lt(b[j], b[b.len() - 1]));
            if i < a.len() - 1 {
                assert(analyze::region_lt(a[i], a[a.len() - 1]));
            }
        }
        assert(last_a == last_b);
        let front_a = a.drop_last();
        let front_b = b.drop_last();
        assert forall|region: Region| #[trigger]
            front_a.contains(region) <==> front_b.contains(region) by {
            if front_a.contains(region) {
                let k = choose|k: int| 0 <= k < front_a.len() && front_a[k] == region;
                assert(analyze::region_lt(a[k], a[a.len() - 1]));
                assert(a.contains(a[k]));
                assert(b.contains(region));
                let m = choose|m: int| 0 <= m < b.len() && b[m] == region;
                assert(front_b[m] == region);
            }
            if front_b.contains(region) {
                let k = choose|k: int| 0 <= k < front_b.len() && front_b[k] == region;
                assert(analyze::region_lt(b[k], b[b.len() - 1]));
                assert(b.contains(b[k]));
                assert(a.contains(region));
                let m = choose|m: int| 0 <= m < a.len() && a[m] == region;
                assert(front_a[m] == region);
            }
        }
        lemma_regions_unique(front_a, front_b);
        assert(a =~= front_a.push(last_a));
        assert(b =~= front_b.push(last_b));
    }
}

proof fn lemma_reach_unique(rules: Seq<Condition>, i: int, a: Reach, b: Reach)
    requires
        model::is_valid(rules),
        0 <= i < rules.len(),
        analyze::is_reach(rules, i, a),
        analyze::is_reach(rules, i, b),
    ensures
        a == b,
{
    assert(model::is_proper(rules[i]));
    if a.witness is Some {
        let (source, port) = choose|source: u128, port: u16| #[trigger]
            reach::is_first_packet(rules, i, source, port) && a.witness->0 == (Example {
                source_ip: analyze::address_text(rules[i].family, source),
                protocol: rules[i].protocol,
                destination_port: port,
            });
        lemma_decided_in_range(rules, i, source, port);
        if b.witness is Some {
            let (x, p) = choose|x: u128, p: u16| #[trigger]
                reach::is_first_packet(rules, i, x, p) && b.witness->0 == (Example {
                    source_ip: analyze::address_text(rules[i].family, x),
                    protocol: rules[i].protocol,
                    destination_port: p,
                });
            lemma_decided_in_range(rules, i, x, p);
            assert(reach::decides(rules, i, source as int, port as int));
            assert(reach::decides(rules, i, x as int, p as int));
            assert(source == x && port == p);
        } else {
            assert(reach::decides(rules, i, source as int, port as int));
        }
    } else if b.witness is Some {
        let (x, p) = choose|x: u128, p: u16| #[trigger]
            reach::is_first_packet(rules, i, x, p) && b.witness->0 == (Example {
                source_ip: analyze::address_text(rules[i].family, x),
                protocol: rules[i].protocol,
                destination_port: p,
            });
        lemma_decided_in_range(rules, i, x, p);
        assert(reach::decides(rules, i, x as int, p as int));
    }
}

/// A rule decides about packets of its own family alone.
pub proof fn lemma_decided_in_range(rules: Seq<Condition>, i: int, source: u128, port: u16)
    requires
        model::is_valid(rules),
        0 <= i < rules.len(),
        reach::decides(rules, i, source as int, port as int),
    ensures
        reach::in_range(rules[i], source as int, port as int),
        source <= rules[i].family.spec_maximum(),
{
    assert(model::is_proper(rules[i]));
    model::lemma_first(
        rules,
        rules[i].family,
        rules[i].protocol,
        source as int,
        port as int,
        rules.len(),
    );
}

/// An exact analysis says one thing.
pub proof fn analyses_agree(old: Seq<Condition>, new: Seq<Condition>, a: Report, b: Report)
    requires
        model::is_valid(new),
        analyze::is_report(old, new, a),
        analyze::is_report(old, new, b),
    ensures
        model::regions(a.changes@) == model::regions(b.changes@),
        sight(a) == sight(b),
{
    let left = model::regions(a.changes@);
    let right = model::regions(b.changes@);
    assert forall|region: Region| #[trigger] left.contains(region) <==> right.contains(region) by {
        assert(left.contains(region) <==> analyze::is_change(old, new, region));
        assert(right.contains(region) <==> analyze::is_change(old, new, region));
    }
    lemma_regions_unique(left, right);
    let told_a = model::reaches(a.proposed_rule_reachability@);
    let told_b = model::reaches(b.proposed_rule_reachability@);
    assert forall|i: int| 0 <= i < told_a.len() implies told_a[i] == told_b[i] by {
        assert(analyze::is_reach(new, i, told_a[i]) && analyze::is_reach(new, i, told_b[i]));
        lemma_reach_unique(new, i, told_a[i], told_b[i]);
    }
    assert(told_a =~= told_b);
}

pub open spec fn shown_protocol(protocol: Protocol) -> Seq<char> {
    match protocol {
        Protocol::Tcp => "Tcp"@,
        Protocol::Udp => "Udp"@,
    }
}

pub open spec fn shown_witness(witness: Example) -> Seq<char> {
    "Witness { source_ip: "@ + text::quoted_text(witness.source_ip) + ", protocol: "@
        + shown_protocol(witness.protocol) + ", destination_port: "@ + text::decimal(
        witness.destination_port as nat,
    ) + " }"@
}

pub(crate) fn shown_protocol_of(protocol: Protocol) -> (shown: &'static str)
    ensures
        shown@ == shown_protocol(protocol),
{
    match protocol {
        Protocol::Tcp => "Tcp",
        Protocol::Udp => "Udp",
    }
}

fn witness_shown(witness: &Witness) -> (shown: String)
    ensures
        shown@ == shown_witness(witness@),
{
    let mut shown = joined3(
        "Witness { source_ip: ",
        quoted(witness.source_ip.as_str()).as_str(),
        ", protocol: ",
    );
    shown.append(shown_protocol_of(witness.protocol));
    shown.append(", destination_port: ");
    push_decimal(&mut shown, witness.destination_port as u64);
    shown.append(" }");
    shown
}

/// The address of a family that a text stands for, or what is wrong with it.
pub open spec fn address_in(source: Seq<char>, family: IpFamily) -> Result<u128, Seq<char>> {
    match validate::address_of(source) {
        None => Err(
            "invalid "@ + validate::family_name(family) + " address "@ + text::quoted_text(source)
                + " in report"@,
        ),
        Some((actual, value)) => if actual == family {
            Ok(value as u128)
        } else {
            Err(
                "address "@ + text::quoted_text(source) + " does not match "@ + validate::family_name(
                    family,
                ),
            )
        },
    }
}

/// Reads an address of a family.
pub fn parse_address_for_family(source: &str, family: IpFamily) -> (result: Result<u128, String>)
    ensures
        match result {
            Ok(value) => address_in(source@, family) == Ok::<u128, Seq<char>>(value),
            Err(error) => address_in(source@, family) == Err::<u128, Seq<char>>(error@),
        },
{
    match parse_address(&chars_of(source)) {
        None => {
            let mut error = joined3("invalid ", name_family(family), " address ");
            error.append(quoted(source).as_str());
            error.append(" in report");
            Err(error)
        },
        Some((actual, value)) => {
            if actual == family {
                Ok(value)
            } else {
                let mut error = joined3("address ", quoted(source).as_str(), " does not match ");
                error.append(name_family(family));
                Err(error)
            }
        },
    }
}

/// What the witness of a region shows to be wrong.
pub open spec fn region_fault(
    old: Seq<Condition>,
    new: Seq<Condition>,
    region: Region,
) -> Option<Seq<char>> {
    let witness = region.witness;
    match validate::packet_of(witness.source_ip, witness.protocol, witness.destination_port) {
        Err(error) => Some(error),
        Ok(packet) => match address_in(region.source_start, region.family) {
            Err(error) => Some(error),
            Ok(low) => match address_in(region.source_end, region.family) {
                Err(error) => Some(error),
                Ok(high) => if packet.family != region.family || packet.source < low
                    || packet.source > high || packet.destination_port < region.port_start
                    || packet.destination_port > region.port_end {
                    Some("change witness is outside region: "@ + shown_witness(witness))
                } else if model::decision_on(old, packet) != region.old || model::decision_on(
                    new,
                    packet,
                ) != region.new {
                    Some("change witness did not reproduce decisions: "@ + shown_witness(witness))
                } else {
                    None
                },
            },
        },
    }
}

/// Replays the witness of a region.
pub fn replay_change(
    old: &ValidatedPolicy,
    proposed: &ValidatedPolicy,
    region: &ChangeRegion,
) -> (fault: Option<String>)
    ensures
        match fault {
            Some(error) => region_fault(old@, proposed@, region@) == Some(error@),
            None => region_fault(old@, proposed@, region@) is None,
        },
{
    let packet = match parse_packet(
        region.witness.source_ip.as_str(),
        region.witness.protocol,
        region.witness.destination_port,
    ) {
        Ok(packet) => packet,
        Err(error) => {
            return Some(error);
        },
    };
    let low: u128 = match parse_address_for_family(region.source_start.as_str(), region.ip_family) {
        Ok(value) => value,
        Err(error) => {
            return Some(error);
        },
    };
    let high: u128 = match parse_address_for_family(region.source_end.as_str(), region.ip_family) {
        Ok(value) => value,
        Err(error) => {
            return Some(error);
        },
    };
    if packet.family != region.ip_family || packet.source < low || packet.source > high
        || packet.destination_port < region.port_start || packet.destination_port
        > region.port_end {
        return Some(
            joined("change witness is outside region: ", witness_shown(&region.witness).as_str()),
        );
    }
    let before = evaluate(old, packet);
    let after = evaluate(proposed, packet);
    if before.action != region.old_decision || !same_text(
        before.rule_id.as_str(),
        region.old_rule_id.as_str(),
    ) || after.action != region.new_decision || !same_text(
        after.rule_id.as_str(),
        region.new_rule_id.as_str(),
    ) {
        return Some(
            joined(
                "change witness did not reproduce decisions: ",
                witness_shown(&region.witness).as_str(),
            ),
        );
    }
    None
}

/// What the witness of a rule shows to be wrong.
pub open spec fn reach_fault(new: Seq<Condition>, told: Reach) -> Option<Seq<char>> {
    match told.witness {
        None => None,
        Some(witness) => match validate::packet_of(
            witness.source_ip,
            witness.protocol,
            witness.destination_port,
        ) {
            Err(error) => Some(error),
            Ok(packet) => if model::decision_on(new, packet).rule_id != told.rule_id {
                Some(
                    "reachability witness for "@ + text::quoted_text(told.rule_id) + " reached "@
                        + text::quoted_text(model::decision_on(new, packet).rule_id),
                )
            } else {
                None
            },
        },
    }
}

/// Replays the witness of a rule.
pub fn replay_reach(proposed: &ValidatedPolicy, told: &RuleReachability) -> (fault: Option<String>)
    ensures
        match fault {
            Some(error) => reach_fault(proposed@, told@) == Some(error@),
            None => reach_fault(proposed@, told@) is None,
        },
{
    if let Some(witness) = &told.witness {
        let packet = match parse_packet(
            witness.source_ip.as_str(),
            witness.protocol,
            witness.destination_port,
        ) {
            Ok(packet) => packet,
            Err(error) => {
                return Some(error);
            },
        };
        let decision = evaluate(proposed, packet);
        if !same_text(decision.rule_id.as_str(), told.rule_id.as_str()) {
            let mut error = joined3(
                "reachability witness for ",
                quoted(told.rule_id.as_str()).as_str(),
                " reached ",
            );
            error.append(quoted(decision.rule_id.as_str()).as_str());
            return Some(error);
        }
    }
    None
}

/// What is shown of a region that a change gives rise to.
proof fn lemma_change_shown(old: Seq<Condition>, new: Seq<Condition>, region: Region)
    requires
        analyze::is_change(old, new, region),
    ensures
        region.low <= region.high <= region.family.spec_maximum(),
        region.port_start <= region.port_end,
        region.source_start == analyze::address_text(region.family, region.low),
        region.source_end == analyze::address_text(region.family, region.high),
        region.witness == (Example {
            source_ip: analyze::address_text(region.family, region.low),
            protocol: region.protocol,
            destination_port: region.port_start,
        }),
{
    let block = choose|block: Block| #[trigger] analyze::is_region(old, new, region, block);
    assert(blocks::is_block(old, new, region.family, region.protocol, block));
    assert(blocks::has_shape(
        old,
        new,
        region.family,
        region.protocol,
        block.low as int,
        block.shape,
    ));
}

/// The witness of a region that a change gives rise to replays.
pub proof fn change_witnesses_replay(
    old: Seq<Condition>,
    new: Seq<Condition>,
    region: Region,
    seen: Region,
)
    requires
        analyze::is_change(old, new, region),
        seen_region(region) == seen_region(seen),
    ensures
        region_fault(old, new, seen) is None,
{
    let packet = Packet {
        family: region.family,
        source: region.low,
        protocol: region.protocol,
        destination_port: region.port_start,
    };
    lemma_change_shown(old, new, region);
    assert(model::covers(region, packet));
    laws::regions_tell_the_decisions(old, new, region, packet);
    lemma_replays(old, new, region, seen, packet);
}

proof fn lemma_replays(
    old: Seq<Condition>,
    new: Seq<Condition>,
    region: Region,
    seen: Region,
    packet: Packet,
)
    requires
        seen_region(region) == seen_region(seen),
        region.low <= region.high <= region.family.spec_maximum(),
        region.port_start <= region.port_end,
        region.source_start == analyze::address_text(region.family, region.low),
        region.source_end == analyze::address_text(region.family, region.high),
        region.witness == (Example {
            source_ip: analyze::address_text(region.family, region.low),
            protocol: region.protocol,
            destination_port: region.port_start,
        }),
        packet == (Packet {
            family: region.family,
            source: region.low,
            protocol: region.protocol,
            destination_port: region.port_start,
        }),
        model::decision_on(old, packet) == region.old,
        model::decision_on(new, packet) == region.new,
    ensures
        region_fault(old, new, seen) is None,
{
    shown_addresses_are_read_back(region.family, region.low);
    shown_addresses_are_read_back(region.family, region.high);
    assert(seen.witness == region.witness && seen.old == region.old && seen.new == region.new);
    assert(seen.source_start == region.source_start && seen.source_end == region.source_end);
    assert(validate::packet_of(
        seen.witness.source_ip,
        seen.witness.protocol,
        seen.witness.destination_port,
    ) == Ok::<Packet, Seq<char>>(packet));
}

/// The witness of a rule replays.
pub proof fn reach_witnesses_replay(new: Seq<Condition>, i: int, told: Reach)
    requires
        model::is_valid(new),
        0 <= i < new.len(),
        analyze::is_reach(new, i, told),
    ensures
        reach_fault(new, told) is None,
{
    if told.witness is Some {
        let (source, port) = choose|source: u128, port: u16| #[trigger]
            reach::is_first_packet(new, i, source, port) && told.witness->0 == (Example {
                source_ip: analyze::address_text(new[i].family, source),
                protocol: new[i].protocol,
                destination_port: port,
            });
        lemma_decided_in_range(new, i, source, port);
        shown_addresses_are_read_back(new[i].family, source);
        laws::reachability_is_exact(new, i, source, port);
    }
}

/// The rules that have a witness.
pub open spec fn witnessed(told: Seq<Reach>) -> nat {
    told.filter(|reach: Reach| reach.witness is Some).len()
}

/// Checks a report against an analysis of its own, and replays its witnesses: how
/// many regions and how many rules were replayed.
pub fn verify_report(
    old: &ValidatedPolicy,
    proposed: &ValidatedPolicy,
    report: &Report,
) -> (result: Result<(usize, usize), String>)
    requires
        model::is_valid(old@),
        model::is_valid(proposed@),
    ensures
        result is Ok <==> is_accurate(old@, proposed@, *report),
        match result {
            Ok((changes, rules)) => changes == report.changes@.len() && rules == witnessed(
                model::reaches(report.proposed_rule_reachability@),
            ),
            Err(error) => error@
                == "report does not byte-semantically match a fresh exact analysis"@,
        },
{
    let fresh = analyze(old, proposed);
    if !same_report(&fresh, report) {
        proof {
            if is_accurate(old@, proposed@, *report) {
                let other = choose|other: Report| #[trigger]
                    analyze::is_report(old@, proposed@, other) && sight(other) == sight(*report);
                analyses_agree(old@, proposed@, fresh, other);
            }
        }
        return Err("report does not byte-semantically match a fresh exact analysis".to_owned());
    }
    let ghost found = model::regions(report.changes@);
    let ghost exact = model::regions(fresh.changes@);
    let ghost told = model::reaches(report.proposed_rule_reachability@);
    let ghost keep = |reach: Reach| reach.witness is Some;
    proof {
        assert(seen_regions(found) == seen_regions(exact));
        assert(seen_regions(found).len() == found.len());
        assert(seen_regions(exact).len() == exact.len());
    }
    let mut change_witnesses: usize = 0;
    while change_witnesses < report.changes.len()
        invariant
            change_witnesses <= report.changes@.len(),
            found == model::regions(report.changes@),
            found.len() == exact.len(),
            seen_regions(found) == seen_regions(exact),
            analyze::are_changes(old@, proposed@, exact),
        decreases report.changes@.len() - change_witnesses,
    {
        let fault = replay_change(old, proposed, &report.changes[change_witnesses]);
        proof {
            let k = change_witnesses as int;
            assert(found[k] == report.changes@[k]@);
            assert(seen_regions(found)[k] == seen_region(found[k]));
            assert(seen_regions(exact)[k] == seen_region(exact[k]));
            assert(exact.contains(exact[k]));
            change_witnesses_replay(old@, proposed@, exact[k], found[k]);
        }
        if let Some(error) = fault {
            return Err(error);
        }
        change_witnesses = change_witnesses + 1;
    }
    let mut reachability_witnesses: usize = 0;
    let mut i: usize = 0;
    proof {
        reveal(Seq::filter);
        assert(told.take(0).filter(keep) =~= Seq::empty());
    }
    while i < report.proposed_rule_reachability.len()
        invariant
            i <= report.proposed_rule_reachability@.len(),
            told == model::reaches(report.proposed_rule_reachability@),
            keep == (|reach: Reach| reach.witness is Some),
            model::is_valid(proposed@),
            analyze::are_reaches(proposed@, told),
            reachability_witnesses <= i,
            reachability_witnesses == told.take(i as int).filter(keep).len(),
        decreases report.proposed_rule_reachability@.len() - i,
    {
        let reachability = &report.proposed_rule_reachability[i];
        let fault = replay_reach(proposed, reachability);
        proof {
            assert(told[i as int] == reachability@);
            reach_witnesses_replay(proposed@, i as int, told[i as int]);
            crate::seqs::lemma_filter_step(told, keep, i as int);
        }
        if let Some(error) = fault {
            return Err(error);
        }
        if reachability.witness.is_some() {
            reachability_witnesses = reachability_witnesses + 1;
        }
        i = i + 1;
    }
    assert(told.take(i as int) =~= told);
    Ok((change_witnesses, reachability_witnesses))
}

/// Every exact analysis passes.
pub proof fn fresh_reports_are_accurate(old: Seq<Condition>, new: Seq<Condition>, report: Report)
    requires
        analyze::is_report(old, new, report),
    ensures
        is_accurate(old, new, report),
{
}

} // verus!
