//! The exact effect of a change of policy.

use vstd::prelude::*;
use crate::firewall::blocks;
use crate::firewall::blocks::{find_blocks, Area, Block};
use crate::firewall::grid;
use crate::firewall::grid::make_grid;
use crate::firewall::model;
use crate::firewall::model::{
    Action, ChangeKind, ChangeRegion, Condition, Decision, Example, IpFamily, Protocol, Reach,
    Region, Report, ReportSummary, RuleReachability, ValidatedPolicy, Witness,
};
use crate::firewall::reach;
use crate::firewall::reach::find_first_packets;
use crate::firewall::runs;
use crate::ip;
use crate::ip::{push_v4, push_v6};
use crate::sorting;
use crate::sorting::{sort, Ranked};

verus! {

/// The last `n` groups of sixteen bits of a number.
pub open spec fn low_groups(value: nat, n: nat) -> Seq<nat>
    decreases n,
{
    if n == 0 {
        Seq::empty()
    } else {
        low_groups(value / 0x1_0000, (n - 1) as nat).push(value % 0x1_0000)
    }
}

fn groups_of(value: u128, n: u8) -> (groups: Vec<u16>)
    ensures
        ip::group_views(groups@) == low_groups(value as nat, n as nat),
        groups@.len() == n,
    decreases n,
{
    if n == 0 {
        let groups: Vec<u16> = Vec::new();
        assert(ip::group_views(groups@) =~= Seq::empty());
        groups
    } else {
        let mut groups = groups_of(value / 0x1_0000, n - 1);
        let ghost before = groups@;
        groups.push((value % 0x1_0000) as u16);
        assert(ip::group_views(groups@) =~= ip::group_views(before).push(
            (value % 0x1_0000) as nat,
        ));
        groups
    }
}

/// An address as text.
pub open spec fn address_text(family: IpFamily, value: u128) -> Seq<char> {
    match family {
        IpFamily::Ipv4 => ip::v4_text(value as nat),
        IpFamily::Ipv6 => ip::v6_text(low_groups(value as nat, 8)),
    }
}

/// Shows an address.
pub fn format_address(family: IpFamily, value: u128) -> (shown: String)
    requires
        value <= family.spec_maximum(),
    ensures
        shown@ == address_text(family, value),
{
    let mut shown = String::new();
    match family {
        IpFamily::Ipv4 => {
            push_v4(&mut shown, value as u32);
        },
        IpFamily::Ipv6 => {
            let groups = groups_of(value, 8);
            push_v6(&mut shown, &groups);
        },
    }
    assert(shown@ =~= address_text(family, value));
    shown
}

/// What a block says of the packets in it.
pub open spec fn region_of(
    old: Seq<Condition>,
    new: Seq<Condition>,
    family: IpFamily,
    protocol: Protocol,
    block: Block,
) -> Region {
    let before = model::ruling(old, block.shape.by.old);
    let after = model::ruling(new, block.shape.by.new);
    Region {
        kind: if after.action == Action::Allow {
            ChangeKind::NewlyAllowed
        } else {
            ChangeKind::NewlyDenied
        },
        family,
        source_start: address_text(family, block.low),
        source_end: address_text(family, block.high),
        protocol,
        port_start: block.shape.start,
        port_end: block.shape.end,
        old: before,
        new: after,
        witness: Example {
            source_ip: address_text(family, block.low),
            protocol,
            destination_port: block.shape.start,
        },
        low: block.low,
        high: block.high,
    }
}

pub open spec fn family_rank(family: IpFamily) -> int {
    match family {
        IpFamily::Ipv4 => 0,
        IpFamily::Ipv6 => 1,
    }
}

pub open spec fn protocol_rank(protocol: Protocol) -> int {
    match protocol {
        Protocol::Tcp => 0,
        Protocol::Udp => 1,
    }
}

/// The order of regions: by family, source, protocol and port.
pub open spec fn region_lt(a: Region, b: Region) -> bool {
    if a.family != b.family {
        family_rank(a.family) < family_rank(b.family)
    } else if a.low != b.low {
        a.low < b.low
    } else if a.high != b.high {
        a.high < b.high
    } else if a.protocol != b.protocol {
        protocol_rank(a.protocol) < protocol_rank(b.protocol)
    } else if a.port_start != b.port_start {
        a.port_start < b.port_start
    } else {
        a.port_end < b.port_end
    }
}

/// A region that the change gives rise to.
pub open spec fn is_region(
    old: Seq<Condition>,
    new: Seq<Condition>,
    region: Region,
    block: Block,
) -> bool {
    blocks::is_block(old, new, region.family, region.protocol, block) && region == region_of(
        old,
        new,
        region.family,
        region.protocol,
        block,
    )
}

pub open spec fn is_change(old: Seq<Condition>, new: Seq<Condition>, region: Region) -> bool {
    exists|block: Block| #[trigger] is_region(old, new, region, block)
}

/// All regions that a change gives rise to, in order.
pub open spec fn are_changes(
    old: Seq<Condition>,
    new: Seq<Condition>,
    found: Seq<Region>,
) -> bool {
    &&& forall|i: int, j: int|
        0 <= i < j < found.len() ==> region_lt(#[trigger] found[i], #[trigger] found[j])
    &&& forall|region: Region| #[trigger] found.contains(region) <==> is_change(old, new, region)
}

/// A block with its family and protocol.
#[derive(Clone, Copy, Debug)]
pub struct Located {
    pub family: IpFamily,
    pub protocol: Protocol,
    pub area: Area,
}

fn rank_of_family(family: IpFamily) -> (rank: u8)
    ensures
        rank == family_rank(family),
{
    match family {
        IpFamily::Ipv4 => 0,
        IpFamily::Ipv6 => 1,
    }
}

fn rank_of_protocol(protocol: Protocol) -> (rank: u8)
    ensures
        rank == protocol_rank(protocol),
{
    match protocol {
        Protocol::Tcp => 0,
        Protocol::Udp => 1,
    }
}

impl Ranked for Located {
    open spec fn le(self, other: Self) -> bool {
        if self.family != other.family {
            family_rank(self.family) < family_rank(other.family)
        } else if self.area.low != other.area.low {
            self.area.low < other.area.low
        } else if self.area.high != other.area.high {
            self.area.high < other.area.high
        } else if self.protocol != other.protocol {
            protocol_rank(self.protocol) < protocol_rank(other.protocol)
        } else if self.area.run.start != other.area.run.start {
            self.area.run.start < other.area.run.start
        } else {
            self.area.run.end <= other.area.run.end
        }
    }

    proof fn le_total(a: Self, b: Self) {
    }

    proof fn le_transitive(a: Self, b: Self, c: Self) {
    }

    fn is_le(self, other: Self) -> bool {
        if self.family != other.family {
            rank_of_family(self.family) < rank_of_family(other.family)
        } else if self.area.low != other.area.low {
            self.area.low < other.area.low
        } else if self.area.high != other.area.high {
            self.area.high < other.area.high
        } else if self.protocol != other.protocol {
            rank_of_protocol(self.protocol) < rank_of_protocol(other.protocol)
        } else if self.area.run.start != other.area.run.start {
            self.area.run.start < other.area.run.start
        } else {
            self.area.run.end <= other.area.run.end
        }
    }
}

/// Blocks that have a packet in common are the same block.
pub proof fn lemma_one_block(
    old: Seq<Condition>,
    new: Seq<Condition>,
    family: IpFamily,
    protocol: Protocol,
    a: Block,
    b: Block,
    source: int,
    port: int,
)
    requires
        blocks::is_block(old, new, family, protocol, a),
        blocks::is_block(old, new, family, protocol, b),
        a.low <= source <= a.high,
        b.low <= source <= b.high,
        a.shape.start <= port <= a.shape.end,
        b.shape.start <= port <= b.shape.end,
    ensures
        a == b,
{
    assert(blocks::has_shape(old, new, family, protocol, source, a.shape));
    assert(blocks::has_shape(old, new, family, protocol, source, b.shape));
    assert(runs::deciders(old, new, family, protocol, source, port) == a.shape.by);
    assert(runs::deciders(old, new, family, protocol, source, port) == b.shape.by);
    if a.shape.start < b.shape.start {
        assert(runs::deciders(old, new, family, protocol, source, b.shape.start - 1)
            == a.shape.by);
    } else if b.shape.start < a.shape.start {
        assert(runs::deciders(old, new, family, protocol, source, a.shape.start - 1)
            == b.shape.by);
    }
    if a.shape.end < b.shape.end {
        assert(runs::deciders(old, new, family, protocol, source, a.shape.end + 1) == b.shape.by);
    } else if b.shape.end < a.shape.end {
        assert(runs::deciders(old, new, family, protocol, source, b.shape.end + 1) == a.shape.by);
    }
    assert(a.shape == b.shape);
    if a.low < b.low {
        assert(blocks::has_shape(old, new, family, protocol, b.low - 1, a.shape));
    } else if b.low < a.low {
        assert(blocks::has_shape(old, new, family, protocol, a.low - 1, b.shape));
    }
    if a.high < b.high {
        assert(blocks::has_shape(old, new, family, protocol, a.high + 1, b.shape));
    } else if b.high < a.high {
        assert(blocks::has_shape(old, new, family, protocol, b.high + 1, a.shape));
    }
}

/// A located block is one on which the change tells, and can be looked up.
pub open spec fn is_located(old: Seq<Condition>, new: Seq<Condition>, located: Located) -> bool {
    &&& blocks::is_block(
        old,
        new,
        located.family,
        located.protocol,
        blocks::block_of(located.area),
    )
    &&& located.area.run.old matches Some(i) ==> i < old.len()
    &&& located.area.run.new matches Some(i) ==> i < new.len()
}

pub open spec fn lists_block(
    list: Seq<Located>,
    family: IpFamily,
    protocol: Protocol,
    block: Block,
) -> bool {
    exists|k: int|
        0 <= k < list.len() && (#[trigger] list[k]).family == family && list[k].protocol == protocol
            && blocks::block_of(list[k].area) == block
}

/// The blocks of a family and a protocol are all listed.
pub open spec fn is_complete(
    list: Seq<Located>,
    old: Seq<Condition>,
    new: Seq<Condition>,
    family: IpFamily,
    protocol: Protocol,
) -> bool {
    forall|block: Block| #[trigger]
        blocks::is_block(old, new, family, protocol, block) ==> lists_block(
            list,
            family,
            protocol,
            block,
        )
}

proof fn lemma_listed_on(
    list: Seq<Located>,
    longer: Seq<Located>,
    old: Seq<Condition>,
    new: Seq<Condition>,
    family: IpFamily,
    protocol: Protocol,
)
    requires
        is_complete(list, old, new, family, protocol),
        list.len() <= longer.len(),
        forall|k: int| 0 <= k < list.len() ==> longer[k] == #[trigger] list[k],
    ensures
        is_complete(longer, old, new, family, protocol),
{
    assert forall|block: Block| #[trigger]
        blocks::is_block(old, new, family, protocol, block) implies lists_block(
        longer,
        family,
        protocol,
        block,
    ) by {
        assert(lists_block(list, family, protocol, block));
        let k = choose|k: int|
            0 <= k < list.len() && (#[trigger] list[k]).family == family && list[k].protocol
                == protocol && blocks::block_of(list[k].area) == block;
        assert(longer[k] == list[k]);
    }
}

/// Takes in the blocks of a family and a protocol, and what its rules reach.
fn analyze_dimension(
    before: &ValidatedPolicy,
    after: &ValidatedPolicy,
    family: IpFamily,
    protocol: Protocol,
    list: &mut Vec<Located>,
    first: &mut Vec<Option<(u128, u16)>>,
)
    requires
        model::is_valid(before@),
        model::is_valid(after@),
        old(first)@.len() == after@.len(),
        forall|k: int|
            0 <= k < old(list)@.len() ==> is_located(before@, after@, #[trigger] old(list)@[k])
                && !(old(list)@[k].family == family && old(list)@[k].protocol == protocol),
        old(list)@.no_duplicates(),
        forall|i: int|
            0 <= i < after@.len() && grid::in_dimension(#[trigger] after@[i], family, protocol)
                ==> old(first)@[i] is None,
    ensures
        reach::known_below(after@, family, protocol, final(first)@, family.spec_maximum() + 1),
        reach::others_kept(after@, family, protocol, old(first)@, final(first)@),
        final(list)@.no_duplicates(),
        old(list)@.len() <= final(list)@.len(),
        forall|k: int|
            0 <= k < old(list)@.len() ==> final(list)@[k] == #[trigger] old(list)@[k],
        forall|k: int|
            0 <= k < final(list)@.len() ==> is_located(before@, after@, #[trigger] final(list)@[k]),
        forall|k: int|
            old(list)@.len() <= k < final(list)@.len() ==> (#[trigger] final(list)@[k]).family
                == family && final(list)@[k].protocol == protocol,
        is_complete(final(list)@, before@, after@, family, protocol),
{
    let grid = make_grid(before, after, family, protocol);
    find_first_packets(
        &grid,
        first,
        Ghost(before@),
        Ghost(after@),
        Ghost(family),
        Ghost(protocol),
    );
    let found = find_blocks(before, after, family, protocol, &grid);
    let ghost given = list@;
    let mut k: usize = 0;
    while k < found.len()
        invariant
            k <= found@.len(),
            blocks::are_found(
                found@,
                before@,
                after@,
                family,
                protocol,
                family.spec_maximum() + 1,
            ),
            list@.len() == given.len() + k,
            given.no_duplicates(),
            forall|m: int| 0 <= m < given.len() ==> list@[m] == #[trigger] given[m],
            forall|m: int|
                0 <= m < given.len() ==> is_located(before@, after@, #[trigger] given[m]) && !(
                given[m].family == family && given[m].protocol == protocol),
            forall|m: int|
                given.len() <= m < list@.len() ==> #[trigger] list@[m] == (Located {
                    family,
                    protocol,
                    area: found@[m - given.len()],
                }),
        decreases found@.len() - k,
    {
        list.push(Located { family, protocol, area: found[k] });
        k = k + 1;
    }
    proof {
        assert forall|m: int| 0 <= m < list@.len() implies is_located(
            before@,
            after@,
            #[trigger] list@[m],
        ) by {
            if m < given.len() {
                assert(list@[m] == given[m]);
            } else {
                let z = m - given.len();
                assert(blocks::blocks_of(found@)[z] == blocks::block_of(found@[z]));
                assert(blocks::blocks_of(found@).contains(blocks::block_of(found@[z])));
                assert(found@[z].high <= family.spec_maximum());
            }
        }
        assert forall|a: int, b: int| 0 <= a < b < list@.len() implies list@[a] != list@[b] by {
            if b < given.len() {
                assert(list@[a] == given[a] && list@[b] == given[b]);
            } else if a < given.len() {
                assert(list@[a] == given[a]);
            } else {
                assert(found@[a - given.len()].high < found@[b - given.len()].high || found@[a
                    - given.len()].run.start < found@[b - given.len()].run.start);
            }
        }
        assert forall|block: Block| #[trigger]
            blocks::is_block(before@, after@, family, protocol, block) implies lists_block(
            list@,
            family,
            protocol,
            block,
        ) by {
            assert(blocks::blocks_of(found@).contains(block));
            let z = choose|z: int|
                0 <= z < blocks::blocks_of(found@).len() && blocks::blocks_of(found@)[z] == block;
            assert(list@[given.len() + z] == (Located { family, protocol, area: found@[z] }));
        }
    }
}

fn decide(policy: &ValidatedPolicy, place: Option<usize>) -> (decision: Decision)
    requires
        place matches Some(i) ==> i < policy@.len(),
    ensures
        decision@ == model::ruling(policy@, runs::place_view(place)),
{
    match place {
        Some(i) => {
            assert(policy@[i as int] == policy.rules@[i as int]@);
            Decision {
                action: policy.rules[i].action,
                rule_id: policy.rules[i].id.as_str().to_owned(),
            }
        },
        None => Decision { action: Action::Deny, rule_id: "default-deny".to_owned() },
    }
}

fn make_region(before: &ValidatedPolicy, after: &ValidatedPolicy, located: &Located) -> (region:
    ChangeRegion)
    requires
        is_located(before@, after@, *located),
    ensures
        region@ == region_of(
            before@,
            after@,
            located.family,
            located.protocol,
            blocks::block_of(located.area),
        ),
{
    let area = located.area;
    let old_decision = decide(before, area.run.old);
    let new_decision = decide(after, area.run.new);
    ChangeRegion {
        kind: if new_decision.action == Action::Allow {
            ChangeKind::NewlyAllowed
        } else {
            ChangeKind::NewlyDenied
        },
        ip_family: located.family,
        source_start: format_address(located.family, area.low),
        source_end: format_address(located.family, area.high),
        protocol: located.protocol,
        port_start: area.run.start,
        port_end: area.run.end,
        old_decision: old_decision.action,
        old_rule_id: old_decision.rule_id,
        new_decision: new_decision.action,
        new_rule_id: new_decision.rule_id,
        witness: Witness {
            source_ip: format_address(located.family, area.low),
            protocol: located.protocol,
            destination_port: area.run.start,
        },
        source_start_num: area.low,
        source_end_num: area.high,
    }
}

/// Puts blocks in order and says what they say.
fn make_regions(before: &ValidatedPolicy, after: &ValidatedPolicy, list: &Vec<Located>) -> (changes:
    Vec<ChangeRegion>)
    requires
        list@.no_duplicates(),
        forall|k: int|
            0 <= k < list@.len() ==> is_located(before@, after@, #[trigger] list@[k]),
        is_complete(list@, before@, after@, IpFamily::Ipv4, Protocol::Tcp),
        is_complete(list@, before@, after@, IpFamily::Ipv4, Protocol::Udp),
        is_complete(list@, before@, after@, IpFamily::Ipv6, Protocol::Tcp),
        is_complete(list@, before@, after@, IpFamily::Ipv6, Protocol::Udp),
    ensures
        are_changes(before@, after@, model::regions(changes@)),
{
    let sorted = sort(list);
    proof {
        list@.lemma_multiset_has_no_duplicates();
        sorted@.lemma_multiset_has_no_duplicates_conv();
        assert forall|k: int| 0 <= k < sorted@.len() implies is_located(
            before@,
            after@,
            #[trigger] sorted@[k],
        ) by {
            sorting::lemma_arranges_contains(sorted@, list@, sorted@[k]);
            assert(sorted@.contains(sorted@[k]));
            let m = choose|m: int| 0 <= m < list@.len() && list@[m] == sorted@[k];
            assert(is_located(before@, after@, list@[m]));
        }
    }
    let mut changes: Vec<ChangeRegion> = Vec::new();
    let mut k: usize = 0;
    while k < sorted.len()
        invariant
            k <= sorted@.len(),
            forall|m: int|
                0 <= m < sorted@.len() ==> is_located(before@, after@, #[trigger] sorted@[m]),
            changes@.len() == k,
            forall|m: int|
                0 <= m < k ==> (#[trigger] changes@[m])@ == region_of(
                    before@,
                    after@,
                    sorted@[m].family,
                    sorted@[m].protocol,
                    blocks::block_of(sorted@[m].area),
                ),
        decreases sorted@.len() - k,
    {
        assert(is_located(before@, after@, sorted@[k as int]));
        changes.push(make_region(before, after, &sorted[k]));
        k = k + 1;
    }
    proof {
        let found = model::regions(changes@);
        assert forall|i: int, j: int| 0 <= i < j < found.len() implies region_lt(
            #[trigger] found[i],
            #[trigger] found[j],
        ) by {
            assert(found[i] == changes@[i]@ && found[j] == changes@[j]@);
            let a = sorted@[i];
            let b = sorted@[j];
            assert(a.le(b));
            assert(a != b);
            assert(is_located(before@, after@, a) && is_located(before@, after@, b));
            if !region_lt(found[i], found[j]) {
                assert(a.family == b.family && a.protocol == b.protocol);
                assert(a.area.low == b.area.low && a.area.run.start == b.area.run.start);
                let x = blocks::block_of(a.area);
                let y = blocks::block_of(b.area);
                assert(blocks::has_shape(
                    before@,
                    after@,
                    a.family,
                    a.protocol,
                    x.low as int,
                    x.shape,
                ));
                assert(blocks::has_shape(
                    before@,
                    after@,
                    a.family,
                    a.protocol,
                    y.low as int,
                    y.shape,
                ));
                lemma_one_block(
                    before@,
                    after@,
                    a.family,
                    a.protocol,
                    x,
                    y,
                    x.low as int,
                    x.shape.start as int,
                );
                assert(runs::place_view(a.area.run.old) == runs::place_view(b.area.run.old));
                assert(runs::place_view(a.area.run.new) == runs::place_view(b.area.run.new));
                assert(a == b);
            }
        }
        assert forall|region: Region| #[trigger] found.contains(region) <==> is_change(
            before@,
            after@,
            region,
        ) by {
            if found.contains(region) {
                let m = choose|m: int| 0 <= m < found.len() && found[m] == region;
                assert(found[m] == changes@[m]@);
                assert(is_located(before@, after@, sorted@[m]));
                assert(is_region(before@, after@, region, blocks::block_of(sorted@[m].area)));
            }
            if is_change(before@, after@, region) {
                let block = choose|block: Block| #[trigger]
                    is_region(before@, after@, region, block);
                assert(lists_block(list@, region.family, region.protocol, block));
                let z = choose|z: int|
                    0 <= z < list@.len() && (#[trigger] list@[z]).family == region.family
                        && list@[z].protocol == region.protocol && blocks::block_of(list@[z].area)
                        == block;
                sorting::lemma_arranges_contains(sorted@, list@, list@[z]);
                assert(list@.contains(list@[z]));
                let m = choose|m: int| 0 <= m < sorted@.len() && sorted@[m] == list@[z];
                assert(found[m] == changes@[m]@);
                assert(found[m] == region);
            }
        }
    }
    changes
}

/// What is told of the reachability of a rule.
pub open spec fn is_reach(rules: Seq<Condition>, i: int, told: Reach) -> bool {
    &&& told.rule_id == rules[i].id
    &&& told.reachable == (told.witness is Some)
    &&& match told.witness {
        Some(witness) => exists|source: u128, port: u16| #[trigger]
            reach::is_first_packet(rules, i, source, port) && witness == (Example {
                source_ip: address_text(rules[i].family, source),
                protocol: rules[i].protocol,
                destination_port: port,
            }),
        None => reach::is_unreachable(rules, i),
    }
}

/// What is told of the reachability of all rules.
pub open spec fn are_reaches(rules: Seq<Condition>, told: Seq<Reach>) -> bool {
    &&& told.len() == rules.len()
    &&& forall|i: int| 0 <= i < told.len() ==> is_reach(rules, i, #[trigger] told[i])
}

fn make_reachability(after: &ValidatedPolicy, first: &Vec<Option<(u128, u16)>>) -> (list: Vec<
    RuleReachability,
>)
    requires
        first@.len() == after@.len(),
        forall|i: int|
            0 <= i < after@.len() ==> match #[trigger] first@[i] {
                Some((source, port)) => reach::is_first_packet(after@, i, source, port) && source
                    <= after@[i].family.spec_maximum(),
                None => reach::is_unreachable(after@, i),
            },
    ensures
        are_reaches(after@, model::reaches(list@)),
{
    let mut list: Vec<RuleReachability> = Vec::new();
    let mut i: usize = 0;
    while i < after.rules.len()
        invariant
            i <= after.rules@.len(),
            first@.len() == after@.len(),
            forall|k: int|
                0 <= k < after@.len() ==> match #[trigger] first@[k] {
                    Some((source, port)) => reach::is_first_packet(after@, k, source, port)
                        && source <= after@[k].family.spec_maximum(),
                    None => reach::is_unreachable(after@, k),
                },
            list@.len() == i,
            forall|k: int| 0 <= k < i ==> is_reach(after@, k, (#[trigger] list@[k])@),
        decreases after.rules@.len() - i,
    {
        let rule = &after.rules[i];
        assert(after@[i as int] == rule@);
        let witness: Option<Witness> = match first[i] {
            Some((source, port)) => {
                assert(first@[i as int] == Some((source, port)));
                Some(
                    Witness {
                        source_ip: format_address(rule.family, source),
                        protocol: rule.protocol,
                        destination_port: port,
                    },
                )
            },
            None => {
                assert(first@[i as int] is None);
                None
            },
        };
        let told = RuleReachability {
            rule_id: rule.id.as_str().to_owned(),
            reachable: witness.is_some(),
            witness,
        };
        proof {
            if let Some((source, port)) = first@[i as int] {
                assert(reach::is_first_packet(after@, i as int, source, port));
            }
            assert(is_reach(after@, i as int, told@));
        }
        list.push(told);
        i = i + 1;
    }
    proof {
        let shown = model::reaches(list@);
        assert forall|k: int| 0 <= k < shown.len() implies is_reach(
            after@,
            k,
            #[trigger] shown[k],
        ) by {
            assert(shown[k] == list@[k]@);
        }
    }
    list
}

pub open spec fn allowed_regions(found: Seq<Region>) -> nat {
    found.filter(|region: Region| region.kind == ChangeKind::NewlyAllowed).len()
}

pub open spec fn reached_rules(told: Seq<Reach>) -> nat {
    told.filter(|rule: Reach| rule.reachable).len()
}

/// What a change comes to.
pub open spec fn outcome_text(allowed: nat, denied: nat) -> Seq<char> {
    if allowed == 0 && denied == 0 {
        "exact-no-semantic-change"@
    } else if denied == 0 {
        "newly-allowed"@
    } else if allowed == 0 {
        "newly-denied"@
    } else {
        "newly-allowed-and-newly-denied"@
    }
}

/// A report tells the exact effect of a change.
pub open spec fn is_report(old: Seq<Condition>, new: Seq<Condition>, report: Report) -> bool {
    let found = model::regions(report.changes@);
    let told = model::reaches(report.proposed_rule_reachability@);
    let allowed = allowed_regions(found);
    let reached = reached_rules(told);
    &&& are_changes(old, new, found)
    &&& are_reaches(new, told)
    &&& report.schema_version == 1
    &&& report.analysis@
        == "exact ordered first-match over source CIDR, TCP/UDP, and destination-port interval; implicit default deny"@
    &&& report.summary.newly_allowed_regions == allowed
    &&& report.summary.newly_denied_regions == found.len() - allowed
    &&& report.summary.proposed_reachable_rules == reached
    &&& report.summary.proposed_unreachable_rules == told.len() - reached
    &&& report.summary.outcome@ == outcome_text(allowed, (found.len() - allowed) as nat)
}

fn count_allowed(changes: &Vec<ChangeRegion>) -> (count: usize)
    ensures
        count == allowed_regions(model::regions(changes@)),
        count <= changes@.len(),
{
    let ghost found = model::regions(changes@);
    let ghost keep = |region: Region| region.kind == ChangeKind::NewlyAllowed;
    let mut count: usize = 0;
    let mut i: usize = 0;
    assert(found.take(0).filter(keep) =~= Seq::empty());
    while i < changes.len()
        invariant
            i <= changes@.len(),
            found == model::regions(changes@),
            keep == (|region: Region| region.kind == ChangeKind::NewlyAllowed),
            count == found.take(i as int).filter(keep).len(),
            count <= i,
        decreases changes@.len() - i,
    {
        proof {
            assert(found[i as int] == changes@[i as int]@);
            crate::seqs::lemma_filter_step(found, keep, i as int);
        }
        if changes[i].kind == ChangeKind::NewlyAllowed {
            count = count + 1;
        }
        i = i + 1;
    }
    assert(found.take(found.len() as int) =~= found);
    count
}

fn count_reached(list: &Vec<RuleReachability>) -> (count: usize)
    ensures
        count == reached_rules(model::reaches(list@)),
        count <= list@.len(),
{
    let ghost told = model::reaches(list@);
    let ghost keep = |rule: Reach| rule.reachable;
    let mut count: usize = 0;
    let mut i: usize = 0;
    assert(told.take(0).filter(keep) =~= Seq::empty());
    while i < list.len()
        invariant
            i <= list@.len(),
            told == model::reaches(list@),
            keep == (|rule: Reach| rule.reachable),
            count == told.take(i as int).filter(keep).len(),
            count <= i,
        decreases list@.len() - i,
    {
        proof {
            assert(told[i as int] == list@[i as int]@);
            crate::seqs::lemma_filter_step(told, keep, i as int);
        }
        if list[i].reachable {
            count = count + 1;
        }
        i = i + 1;
    }
    assert(told.take(told.len() as int) =~= told);
    count
}

fn outcome_of(allowed: usize, denied: usize) -> (outcome: &'static str)
    ensures
        outcome@ == outcome_text(allowed as nat, denied as nat),
{
    if allowed == 0 && denied == 0 {
        "exact-no-semantic-change"
    } else if denied == 0 {
        "newly-allowed"
    } else if allowed == 0 {
        "newly-denied"
    } else {
        "newly-allowed-and-newly-denied"
    }
}

proof fn lemma_settled(
    rules: Seq<Condition>,
    family: IpFamily,
    protocol: Protocol,
    first: Seq<Option<(u128, u16)>>,
    i: int,
)
    requires
        model::is_valid(rules),
        first.len() == rules.len(),
        reach::known_below(rules, family, protocol, first, family.spec_maximum() + 1),
        0 <= i < rules.len(),
        grid::in_dimension(rules[i], family, protocol),
    ensures
        match first[i] {
            Some((source, port)) => reach::is_first_packet(rules, i, source, port) && source
                <= rules[i].family.spec_maximum(),
            None => reach::is_unreachable(rules, i),
        },
{
    assert(model::is_proper(rules[i]));
    match first[i] {
        Some((source, port)) => {
            assert(reach::is_first_packet(rules, i, source, port));
            model::lemma_first(
                rules,
                family,
                protocol,
                source as int,
                port as int,
                rules.len(),
            );
        },
        None => {
            assert(reach::unseen_below(rules, i, family.spec_maximum() + 1));
        },
    }
}

/// Finds the exact effect of a change of policy.
pub fn analyze(old: &ValidatedPolicy, proposed: &ValidatedPolicy) -> (report: Report)
    requires
        model::is_valid(old@),
        model::is_valid(proposed@),
    ensures
        is_report(old@, proposed@, report),
{
    let ghost rules = proposed@;
    let mut list: Vec<Located> = Vec::new();
    let mut first: Vec<Option<(u128, u16)>> = Vec::new();
    let mut i: usize = 0;
    while i < proposed.rules.len()
        invariant
            i <= proposed.rules@.len(),
            first@.len() == i,
            forall|k: int| 0 <= k < i ==> (#[trigger] first@[k]) is None,
        decreases proposed.rules@.len() - i,
    {
        first.push(None);
        i = i + 1;
    }
    assert(first@.len() == rules.len());
    analyze_dimension(old, proposed, IpFamily::Ipv4, Protocol::Tcp, &mut list, &mut first);
    let ghost list_a = list@;
    let ghost first_a = first@;
    analyze_dimension(old, proposed, IpFamily::Ipv4, Protocol::Udp, &mut list, &mut first);
    let ghost list_b = list@;
    let ghost first_b = first@;
    assert forall|k: int| 0 <= k < list_b.len() implies (#[trigger] list_b[k]).family
        == IpFamily::Ipv4 by {
        if k < list_a.len() {
            assert(list_b[k] == list_a[k]);
        }
    }
    analyze_dimension(old, proposed, IpFamily::Ipv6, Protocol::Tcp, &mut list, &mut first);
    let ghost list_c = list@;
    let ghost first_c = first@;
    assert forall|k: int| 0 <= k < list_c.len() implies (#[trigger] list_c[k]).family
        == IpFamily::Ipv4 || list_c[k].protocol == Protocol::Tcp by {
        if k < list_b.len() {
            assert(list_c[k] == list_b[k]);
        }
    }
    analyze_dimension(old, proposed, IpFamily::Ipv6, Protocol::Udp, &mut list, &mut first);
    proof {
        lemma_listed_on(list_a, list_b, old@, rules, IpFamily::Ipv4, Protocol::Tcp);
        lemma_listed_on(list_b, list_c, old@, rules, IpFamily::Ipv4, Protocol::Tcp);
        lemma_listed_on(list_c, list@, old@, rules, IpFamily::Ipv4, Protocol::Tcp);
        lemma_listed_on(list_b, list_c, old@, rules, IpFamily::Ipv4, Protocol::Udp);
        lemma_listed_on(list_c, list@, old@, rules, IpFamily::Ipv4, Protocol::Udp);
        lemma_listed_on(list_c, list@, old@, rules, IpFamily::Ipv6, Protocol::Tcp);
        assert forall|k: int| 0 <= k < rules.len() implies match #[trigger] first@[k] {
            Some((source, port)) => reach::is_first_packet(rules, k, source, port) && source
                <= rules[k].family.spec_maximum(),
            None => reach::is_unreachable(rules, k),
        } by {
            let rule = rules[k];
            if grid::in_dimension(rule, IpFamily::Ipv4, Protocol::Tcp) {
                lemma_settled(rules, IpFamily::Ipv4, Protocol::Tcp, first_a, k);
                assert(first_b[k] == first_a[k] && first_c[k] == first_b[k] && first@[k]
                    == first_c[k]);
            } else if grid::in_dimension(rule, IpFamily::Ipv4, Protocol::Udp) {
                lemma_settled(rules, IpFamily::Ipv4, Protocol::Udp, first_b, k);
                assert(first_c[k] == first_b[k] && first@[k] == first_c[k]);
            } else if grid::in_dimension(rule, IpFamily::Ipv6, Protocol::Tcp) {
                lemma_settled(rules, IpFamily::Ipv6, Protocol::Tcp, first_c, k);
                assert(first@[k] == first_c[k]);
            } else {
                assert(grid::in_dimension(rule, IpFamily::Ipv6, Protocol::Udp));
                lemma_settled(rules, IpFamily::Ipv6, Protocol::Udp, first@, k);
            }
        }
    }
    let changes = make_regions(old, proposed, &list);
    let reachability = make_reachability(proposed, &first);
    let newly_allowed_regions = count_allowed(&changes);
    let newly_denied_regions: usize = changes.len() - newly_allowed_regions;
    let proposed_reachable_rules = count_reached(&reachability);
    let proposed_unreachable_rules: usize = reachability.len() - proposed_reachable_rules;
    let outcome = outcome_of(newly_allowed_regions, newly_denied_regions).to_owned();
    proof {
        assert(model::regions(changes@).len() == changes@.len());
        assert(model::reaches(reachability@).len() == reachability@.len());
    }
    Report {
        schema_version: 1,
        analysis: "exact ordered first-match over source CIDR, TCP/UDP, and destination-port interval; implicit default deny".to_owned(),
        summary: ReportSummary {
            outcome,
            newly_allowed_regions,
            newly_denied_regions,
            proposed_reachable_rules,
            proposed_unreachable_rules,
        },
        changes,
        proposed_rule_reachability: reachability,
    }
}

} // verus!
