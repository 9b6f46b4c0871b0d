//! What policies and reports mean for single packets.

use vstd::prelude::*;
use crate::firewall::analyze;
use crate::firewall::laws;
use crate::firewall::model;
use crate::firewall::model::{Action, ChangeKind, Condition, Packet, Reach, Region, Report};
use crate::firewall::reach;
use crate::firewall::validate;
use crate::firewall::validate::Entry;
use crate::firewall::verify;

verus! {

/// A rule names the family and protocol of a packet, and its ranges hold the packet's
/// source and port, their ends included.
pub open spec fn matches_packet(rule: Condition, packet: Packet) -> bool {
    &&& rule.family == packet.family
    &&& rule.protocol == packet.protocol
    &&& rule.source_start <= packet.source && packet.source <= rule.source_end
    &&& rule.port_start <= packet.destination_port && packet.destination_port <= rule.port_end
}

/// A rule matches a packet that no rule before it matches.
pub open spec fn is_first_match(rules: Seq<Condition>, packet: Packet, i: int) -> bool {
    &&& 0 <= i < rules.len()
    &&& matches_packet(rules[i], packet)
    &&& forall|k: int| 0 <= k < i ==> !matches_packet(#[trigger] rules[k], packet)
}

/// The first rule that matches a packet decides about it; a packet that none matches is
/// denied.
pub proof fn the_first_match_decides(rules: Seq<Condition>, packet: Packet)
    ensures
        forall|i: int| #[trigger]
            is_first_match(rules, packet, i) ==> model::decision_on(rules, packet).action
                == rules[i].action && model::decision_on(rules, packet).rule_id == rules[i].id,
        (forall|i: int| 0 <= i < rules.len() ==> !matches_packet(#[trigger] rules[i], packet))
            ==> model::decision_on(rules, packet).action == Action::Deny && model::decision_on(
            rules,
            packet,
        ).rule_id == "default-deny"@,
{
    let (f, t) = (packet.family, packet.protocol);
    let (x, p) = (packet.source as int, packet.destination_port as int);
    model::lemma_first(rules, f, t, x, p, rules.len());
    assert forall|i: int| 0 <= i < rules.len() implies model::applies(
        #[trigger] rules[i],
        f,
        t,
        x,
        p,
    ) == matches_packet(rules[i], packet) by {}
    assert forall|i: int| #[trigger] is_first_match(rules, packet, i) implies model::winner(
        rules,
        f,
        t,
        x,
        p,
    ) == Some(i) by {
        assert(model::applies(rules[i], f, t, x, p));
        if let Some(k) = model::winner(rules, f, t, x, p) {
            if k < i {
                assert(!matches_packet(rules[k], packet));
            }
        }
    }
}

/// A packet lies within the bounds of a region, their ends included.
pub open spec fn within(region: Region, packet: Packet) -> bool {
    &&& region.family == packet.family
    &&& region.protocol == packet.protocol
    &&& region.low <= packet.source && packet.source <= region.high
    &&& region.port_start <= packet.destination_port && packet.destination_port <= region.port_end
}

/// The regions of a report hold exactly the packets that one policy allows and the other
/// denies, each packet once; a region tells which way the decision went, and the rule on
/// either side.
pub proof fn regions_hold_the_changed_packets(
    old: Seq<Condition>,
    new: Seq<Condition>,
    found: Seq<Region>,
    packet: Packet,
)
    requires
        analyze::are_changes(old, new, found),
        packet.source <= packet.family.spec_maximum(),
    ensures
        (exists|i: int| 0 <= i < found.len() && #[trigger] within(found[i], packet)) <==> (
        model::decision_on(old, packet).action == Action::Allow) != (model::decision_on(
            new,
            packet,
        ).action == Action::Allow),
        forall|i: int| 0 <= i < found.len() && #[trigger] within(found[i], packet) ==> {
            &&& found[i].kind == ChangeKind::NewlyAllowed <==> model::decision_on(
                new,
                packet,
            ).action == Action::Allow
            &&& found[i].old.rule_id == model::decision_on(old, packet).rule_id
            &&& found[i].new.rule_id == model::decision_on(new, packet).rule_id
            &&& found[i].source_start == analyze::address_text(found[i].family, found[i].low)
            &&& found[i].source_end == analyze::address_text(found[i].family, found[i].high)
        },
        forall|i: int, j: int|
            0 <= i < j < found.len() ==> !(#[trigger] within(found[i], packet)
                && #[trigger] within(found[j], packet)),
{
    laws::each_change_is_in_one_region(old, new, found, packet);
    assert forall|i: int| 0 <= i < found.len() implies #[trigger] within(found[i], packet)
        == model::covers(found[i], packet) by {}
    assert forall|i: int| 0 <= i < found.len() && #[trigger] within(found[i], packet) implies {
        &&& found[i].kind == ChangeKind::NewlyAllowed <==> model::decision_on(new, packet).action
            == Action::Allow
        &&& found[i].old.rule_id == model::decision_on(old, packet).rule_id
        &&& found[i].new.rule_id == model::decision_on(new, packet).rule_id
        &&& found[i].source_start == analyze::address_text(found[i].family, found[i].low)
        &&& found[i].source_end == analyze::address_text(found[i].family, found[i].high)
    } by {
        assert(found.contains(found[i]));
        assert(model::covers(found[i], packet));
        laws::regions_tell_the_decisions(old, new, found[i], packet);
    }
    if (model::decision_on(old, packet).action == Action::Allow) != (model::decision_on(
        new,
        packet,
    ).action == Action::Allow) {
        let i = choose|i: int| 0 <= i < found.len() && #[trigger] model::covers(found[i], packet);
        assert(within(found[i], packet));
    }
    if exists|i: int| 0 <= i < found.len() && #[trigger] within(found[i], packet) {
        let i = choose|i: int| 0 <= i < found.len() && #[trigger] within(found[i], packet);
        assert(model::covers(found[i], packet));
    }
    assert forall|i: int, j: int| 0 <= i < j < found.len() implies !(#[trigger] within(
        found[i],
        packet,
    ) && #[trigger] within(found[j], packet)) by {
        if within(found[i], packet) && within(found[j], packet) {
            assert(model::covers(found[i], packet) && model::covers(found[j], packet));
        }
    }
}

proof fn lemma_decides(rules: Seq<Condition>, i: int, packet: Packet)
    requires
        0 <= i < rules.len(),
        packet.family == rules[i].family,
        packet.protocol == rules[i].protocol,
    ensures
        reach::decides(rules, i, packet.source as int, packet.destination_port as int)
            <==> is_first_match(rules, packet, i),
{
    let (f, t) = (packet.family, packet.protocol);
    let (x, p) = (packet.source as int, packet.destination_port as int);
    model::lemma_first(rules, f, t, x, p, rules.len());
    assert forall|k: int| 0 <= k < rules.len() implies model::applies(
        #[trigger] rules[k],
        f,
        t,
        x,
        p,
    ) == matches_packet(rules[k], packet) by {}
    if let Some(k) = model::winner(rules, f, t, x, p) {
        assert(model::applies(rules[k], f, t, x, p));
        if is_first_match(rules, packet, i) {
            if k < i {
                assert(!matches_packet(rules[k], packet));
            }
            assert(model::applies(rules[i], f, t, x, p));
        }
    } else if is_first_match(rules, packet, i) {
        assert(model::applies(rules[i], f, t, x, p));
    }
}

/// A rule is told to be reachable exactly if it is the first to match some packet; the
/// packet shown for it is then the one with the least source, and with the least port.
pub proof fn reachable_rules_have_packets(rules: Seq<Condition>, told: Seq<Reach>, i: int)
    requires
        model::is_valid(rules),
        analyze::are_reaches(rules, told),
        0 <= i < rules.len(),
    ensures
        told[i].rule_id == rules[i].id,
        told[i].reachable <==> exists|packet: Packet| #[trigger] is_first_match(rules, packet, i),
        told[i].reachable ==> exists|packet: Packet|
            {
                &&& #[trigger] is_first_match(rules, packet, i)
                &&& told[i].witness matches Some(shown)
                &&& shown.source_ip == analyze::address_text(packet.family, packet.source)
                &&& shown.protocol == packet.protocol
                &&& shown.destination_port == packet.destination_port
                &&& forall|other: Packet| #[trigger]
                    is_first_match(rules, other, i) ==> packet.source < other.source || (
                    packet.source == other.source && packet.destination_port
                        <= other.destination_port)
            },
{
    let (f, t) = (rules[i].family, rules[i].protocol);
    assert(analyze::is_reach(rules, i, told[i]));
    assert(model::is_proper(rules[i]));
    assert forall|packet: Packet| #[trigger] is_first_match(rules, packet, i) implies reach::decides(
        rules,
        i,
        packet.source as int,
        packet.destination_port as int,
    ) && reach::in_range(rules[i], packet.source as int, packet.destination_port as int) by {
        lemma_decides(rules, i, packet);
    }
    if told[i].witness is Some {
        let (source, port) = choose|source: u128, port: u16| #[trigger]
            reach::is_first_packet(rules, i, source, port) && told[i].witness->0 == (
            model::Example {
                source_ip: analyze::address_text(f, source),
                protocol: t,
                destination_port: port,
            });
        let packet = Packet { family: f, source, protocol: t, destination_port: port };
        lemma_decides(rules, i, packet);
        assert(is_first_match(rules, packet, i));
    }
}

/// A policy is accepted exactly if every rule has a name of its own that is not reserved,
/// ports in order, and a block that can be read.
pub proof fn only_proper_policies_are_accepted(label: Seq<char>, entries: Seq<Entry>, n: nat)
    requires
        n <= entries.len(),
    ensures
        validate::policy_errors(label, entries, n).len() == 0 <==> forall|i: int|
            0 <= i < n ==> {
                let entry = #[trigger] entries[i];
                &&& entry.id.len() > 0 && entry.id != "default-deny"@
                &&& forall|k: int| 0 <= k < i ==> (#[trigger] entries[k]).id != entry.id
                &&& entry.port_start <= entry.port_end
                &&& validate::cidr_of(entry.cidr, entry.family) is Ok
            },
    decreases n,
{
    if n > 0 {
        only_proper_policies_are_accepted(label, entries, (n - 1) as nat);
    }
}

/// Two regions are told alike.
pub open spec fn told_alike(a: Region, b: Region) -> bool {
    &&& a.kind == b.kind
    &&& a.family == b.family
    &&& a.source_start == b.source_start
    &&& a.source_end == b.source_end
    &&& a.protocol == b.protocol
    &&& a.port_start == b.port_start
    &&& a.port_end == b.port_end
    &&& a.old == b.old
    &&& a.new == b.new
    &&& a.witness == b.witness
}

/// A report that passes tells the changes, the rules that can be reached and the counts
/// that an exact analysis of the two policies tells.
pub proof fn reports_that_pass_tell_what_an_analysis_tells(
    old: Seq<Condition>,
    new: Seq<Condition>,
    report: Report,
    fresh: Report,
)
    requires
        model::is_valid(new),
        verify::is_accurate(old, new, report),
        analyze::is_report(old, new, fresh),
    ensures
        report.changes@.len() == fresh.changes@.len(),
        forall|i: int|
            0 <= i < fresh.changes@.len() ==> told_alike(
                (#[trigger] report.changes@[i])@,
                fresh.changes@[i]@,
            ),
        report.proposed_rule_reachability@.len() == fresh.proposed_rule_reachability@.len(),
        forall|i: int|
            0 <= i < fresh.proposed_rule_reachability@.len() ==> (
            #[trigger] report.proposed_rule_reachability@[i])@
                == fresh.proposed_rule_reachability@[i]@,
        report.schema_version == fresh.schema_version,
        report.analysis@ == fresh.analysis@,
        report.summary.outcome@ == fresh.summary.outcome@,
        report.summary.newly_allowed_regions == fresh.summary.newly_allowed_regions,
        report.summary.newly_denied_regions == fresh.summary.newly_denied_regions,
        report.summary.proposed_reachable_rules == fresh.summary.proposed_reachable_rules,
        report.summary.proposed_unreachable_rules == fresh.summary.proposed_unreachable_rules,
{
    let other = choose|other: Report|
        #[trigger] analyze::is_report(old, new, other) && verify::sight(other) == verify::sight(
            report,
        );
    verify::analyses_agree(old, new, other, fresh);
    let (a, b) = (verify::sight(report), verify::sight(fresh));
    assert(a == b);
    assert(a.changes.len() == report.changes@.len() && b.changes.len() == fresh.changes@.len());
    assert forall|i: int| 0 <= i < fresh.changes@.len() implies told_alike(
        (#[trigger] report.changes@[i])@,
        fresh.changes@[i]@,
    ) by {
        assert(a.changes[i] == b.changes[i]);
    }
    assert(a.reaches.len() == report.proposed_rule_reachability@.len());
    assert(b.reaches.len() == fresh.proposed_rule_reachability@.len());
    assert forall|i: int| 0 <= i < fresh.proposed_rule_reachability@.len() implies (
    #[trigger] report.proposed_rule_reachability@[i])@ == fresh.proposed_rule_reachability@[i]@ by {
        assert(a.reaches[i] == b.reaches[i]);
    }
}

} // verus!
