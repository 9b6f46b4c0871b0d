//! What holds of every change of policy.

use vstd::prelude::*;
use crate::firewall::analyze;
use crate::firewall::blocks;
use crate::firewall::blocks::{Block, Shape};
use crate::firewall::model;
use crate::firewall::model::{Condition, IpFamily, Packet, Protocol, Region};
use crate::firewall::reach;
use crate::firewall::runs;

verus! {

/// Where the ports with the deciders of a port begin.
proof fn lemma_run_start(
    old: Seq<Condition>,
    new: Seq<Condition>,
    family: IpFamily,
    protocol: Protocol,
    source: int,
    port: int,
) -> (start: int)
    requires
        0 <= port <= 65_535,
    ensures
        0 <= start <= port,
        forall|p: int|
            start <= p <= port ==> #[trigger] runs::deciders(old, new, family, protocol, source, p)
                == runs::deciders(old, new, family, protocol, source, port),
        start == 0 || runs::deciders(old, new, family, protocol, source, start - 1)
            != runs::deciders(old, new, family, protocol, source, port),
    decreases port,
{
    if port == 0 || runs::deciders(old, new, family, protocol, source, port - 1)
        != runs::deciders(old, new, family, protocol, source, port) {
        port
    } else {
        lemma_run_start(old, new, family, protocol, source, port - 1)
    }
}

/// Where the ports with the deciders of a port end.
proof fn lemma_run_end(
    old: Seq<Condition>,
    new: Seq<Condition>,
    family: IpFamily,
    protocol: Protocol,
    source: int,
    port: int,
) -> (end: int)
    requires
        0 <= port <= 65_535,
    ensures
        port <= end <= 65_535,
        forall|p: int|
            port <= p <= end ==> #[trigger] runs::deciders(old, new, family, protocol, source, p)
                == runs::deciders(old, new, family, protocol, source, port),
        end == 65_535 || runs::deciders(old, new, family, protocol, source, end + 1)
            != runs::deciders(old, new, family, protocol, source, port),
    decreases 65_535 - port,
{
    if port == 65_535 || runs::deciders(old, new, family, protocol, source, port + 1)
        != runs::deciders(old, new, family, protocol, source, port) {
        port
    } else {
        lemma_run_end(old, new, family, protocol, source, port + 1)
    }
}

/// Where the sources with a run of a shape begin.
proof fn lemma_block_low(
    old: Seq<Condition>,
    new: Seq<Condition>,
    family: IpFamily,
    protocol: Protocol,
    source: int,
    shape: Shape,
) -> (low: int)
    requires
        0 <= source,
        blocks::has_shape(old, new, family, protocol, source, shape),
    ensures
        0 <= low <= source,
        forall|x: int|
            low <= x <= source ==> #[trigger] blocks::has_shape(
                old,
                new,
                family,
                protocol,
                x,
                shape,
            ),
        low == 0 || !blocks::has_shape(old, new, family, protocol, low - 1, shape),
    decreases source,
{
    if source == 0 || !blocks::has_shape(old, new, family, protocol, source - 1, shape) {
        source
    } else {
        lemma_block_low(old, new, family, protocol, source - 1, shape)
    }
}

/// Where the sources with a run of a shape end.
proof fn lemma_block_high(
    old: Seq<Condition>,
    new: Seq<Condition>,
    family: IpFamily,
    protocol: Protocol,
    source: int,
    shape: Shape,
) -> (high: int)
    requires
        source <= family.spec_maximum(),
        blocks::has_shape(old, new, family, protocol, source, shape),
    ensures
        source <= high <= family.spec_maximum(),
        forall|x: int|
            source <= x <= high ==> #[trigger] blocks::has_shape(
                old,
                new,
                family,
                protocol,
                x,
                shape,
            ),
        high == family.spec_maximum() || !blocks::has_shape(
            old,
            new,
            family,
            protocol,
            high + 1,
            shape,
        ),
    decreases family.spec_maximum() - source,
{
    if source == family.spec_maximum() || !blocks::has_shape(
        old,
        new,
        family,
        protocol,
        source + 1,
        shape,
    ) {
        source
    } else {
        lemma_block_high(old, new, family, protocol, source + 1, shape)
    }
}

/// The block that a packet lies in.
proof fn lemma_block_around(
    old: Seq<Condition>,
    new: Seq<Condition>,
    packet: Packet,
) -> (block: Block)
    requires
        packet.source <= packet.family.spec_maximum(),
        model::decision_on(old, packet).action != model::decision_on(new, packet).action,
    ensures
        blocks::is_block(old, new, packet.family, packet.protocol, block),
        block.low <= packet.source <= block.high,
        block.shape.start <= packet.destination_port <= block.shape.end,
        block.shape.by == runs::deciders(
            old,
            new,
            packet.family,
            packet.protocol,
            packet.source as int,
            packet.destination_port as int,
        ),
{
    let f = packet.family;
    let t = packet.protocol;
    let x = packet.source as int;
    let p = packet.destination_port as int;
    let start = lemma_run_start(old, new, f, t, x, p);
    let end = lemma_run_end(old, new, f, t, x, p);
    let shape = Shape {
        start: start as u16,
        end: end as u16,
        by: runs::deciders(old, new, f, t, x, p),
    };
    assert forall|port: int| shape.start <= port <= shape.end implies #[trigger] runs::deciders(
        old,
        new,
        f,
        t,
        x,
        port,
    ) == shape.by by {
        if port <= p {
            assert(start <= port <= p);
        } else {
            assert(p <= port <= end);
        }
    }
    let low = lemma_block_low(old, new, f, t, x, shape);
    let high = lemma_block_high(old, new, f, t, x, shape);
    let block = Block { low: low as u128, high: high as u128, shape };
    assert forall|y: int| block.low <= y <= block.high implies #[trigger] blocks::has_shape(
        old,
        new,
        f,
        t,
        y,
        block.shape,
    ) by {
        if y <= x {
            assert(low <= y <= x);
        } else {
            assert(x <= y <= high);
        }
    }
    block
}

/// A region speaks truly of every packet in it: the decisions that it tells are
/// those of the two policies, and they differ.
pub proof fn regions_tell_the_decisions(
    old: Seq<Condition>,
    new: Seq<Condition>,
    region: Region,
    packet: Packet,
)
    requires
        analyze::is_change(old, new, region),
        model::covers(region, packet),
    ensures
        model::decision_on(old, packet) == region.old,
        model::decision_on(new, packet) == region.new,
        region.old.action != region.new.action,
{
    let block = choose|block: Block| #[trigger] analyze::is_region(old, new, region, block);
    assert(blocks::has_shape(
        old,
        new,
        region.family,
        region.protocol,
        packet.source as int,
        block.shape,
    ));
    assert(runs::deciders(
        old,
        new,
        region.family,
        region.protocol,
        packet.source as int,
        packet.destination_port as int,
    ) == block.shape.by);
}

/// A packet whose decision changes lies in exactly one region, and a packet whose
/// decision does not change lies in none.
pub proof fn each_change_is_in_one_region(
    old: Seq<Condition>,
    new: Seq<Condition>,
    found: Seq<Region>,
    packet: Packet,
)
    requires
        analyze::are_changes(old, new, found),
        packet.source <= packet.family.spec_maximum(),
    ensures
        model::decision_on(old, packet).action != model::decision_on(new, packet).action
            ==> exists|i: int|
            0 <= i < found.len() && #[trigger] model::covers(found[i], packet),
        forall|i: int, j: int|
            0 <= i < found.len() && 0 <= j < found.len() && #[trigger] model::covers(
                found[i],
                packet,
            ) && #[trigger] model::covers(found[j], packet) ==> i == j,
        model::decision_on(old, packet).action == model::decision_on(new, packet).action
            ==> forall|i: int|
            0 <= i < found.len() ==> !#[trigger] model::covers(found[i], packet),
{
    if model::decision_on(old, packet).action != model::decision_on(new, packet).action {
        let block = lemma_block_around(old, new, packet);
        let region = analyze::region_of(old, new, packet.family, packet.protocol, block);
        assert(analyze::is_region(old, new, region, block));
        assert(found.contains(region));
        let i = choose|i: int| 0 <= i < found.len() && found[i] == region;
        assert(model::covers(found[i], packet));
    }
    assert forall|i: int| 0 <= i < found.len() && #[trigger] model::covers(
        found[i],
        packet,
    ) implies model::decision_on(old, packet).action != model::decision_on(new, packet).action by {
        assert(found.contains(found[i]));
        regions_tell_the_decisions(old, new, found[i], packet);
    }
    assert forall|i: int, j: int|
        0 <= i < found.len() && 0 <= j < found.len() && #[trigger] model::covers(found[i], packet)
            && #[trigger] model::covers(found[j], packet) implies i == j by {
        assert(found.contains(found[i]) && found.contains(found[j]));
        let a = choose|a: Block| #[trigger] analyze::is_region(old, new, found[i], a);
        let b = choose|b: Block| #[trigger] analyze::is_region(old, new, found[j], b);
        analyze::lemma_one_block(
            old,
            new,
            packet.family,
            packet.protocol,
            a,
            b,
            packet.source as int,
            packet.destination_port as int,
        );
        assert(found[i] == found[j]);
        if i < j {
            assert(analyze::region_lt(found[i], found[j]));
        } else if j < i {
            assert(analyze::region_lt(found[j], found[i]));
        }
    }
}

/// A policy that stays as it is changes nothing.
pub proof fn same_policy_changes_nothing(rules: Seq<Condition>, found: Seq<Region>)
    requires
        analyze::are_changes(rules, rules, found),
    ensures
        found.len() == 0,
{
    if found.len() > 0 {
        let region = found[0];
        assert(found.contains(region));
        let block = choose|block: Block| #[trigger] analyze::is_region(rules, rules, region, block);
        assert(blocks::has_shape(
            rules,
            rules,
            region.family,
            region.protocol,
            block.low as int,
            block.shape,
        ));
        assert(runs::deciders(
            rules,
            rules,
            region.family,
            region.protocol,
            block.low as int,
            block.shape.start as int,
        ) == block.shape.by);
    }
}

/// The witness of a rule is a packet that the rule decides about, and a rule
/// without a witness decides about none.
pub proof fn reachability_is_exact(rules: Seq<Condition>, i: int, source: u128, port: u16)
    requires
        model::is_valid(rules),
        0 <= i < rules.len(),
    ensures
        reach::is_first_packet(rules, i, source, port) ==> model::decision_on(
            rules,
            Packet {
                family: rules[i].family,
                source,
                protocol: rules[i].protocol,
                destination_port: port,
            },
        ).rule_id == rules[i].id,
        reach::is_unreachable(rules, i) && source <= rules[i].family.spec_maximum()
            ==> model::decision_on(
            rules,
            Packet {
                family: rules[i].family,
                source,
                protocol: rules[i].protocol,
                destination_port: port,
            },
        ).rule_id != rules[i].id,
{
    let family = rules[i].family;
    let protocol = rules[i].protocol;
    model::lemma_first(rules, family, protocol, source as int, port as int, rules.len());
    assert(model::is_proper(rules[i]));
    if reach::is_unreachable(rules, i) && source <= family.spec_maximum() {
        assert(!reach::decides(rules, i, source as int, port as int));
        let found = model::winner(rules, family, protocol, source as int, port as int);
        if let Some(k) = found {
            assert(k != i);
            if k < i {
                assert(rules[k].id != rules[i].id);
            } else {
                assert(rules[i].id != rules[k].id);
            }
        }
    }
}

} // verus!
