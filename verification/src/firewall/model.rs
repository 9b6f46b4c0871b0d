//! Rules, packets and decisions.

use vstd::prelude::*;

verus! {

#[derive(Debug, Clone, Copy, PartialEq, Eq, Structural)]
pub enum Action {
    Allow,
    Deny,
}

#[derive(Debug, Clone, Copy, PartialEq, Eq, Structural)]
pub enum IpFamily {
    Ipv4,
    Ipv6,
}

#[derive(Debug, Clone, Copy, PartialEq, Eq, Structural)]
pub enum Protocol {
    Tcp,
    Udp,
}

impl IpFamily {
    pub open spec fn spec_bits(self) -> nat {
        match self {
            IpFamily::Ipv4 => 32,
            IpFamily::Ipv6 => 128,
        }
    }

    pub open spec fn spec_maximum(self) -> u128 {
        match self {
            IpFamily::Ipv4 => 0xffff_ffffu128,
            IpFamily::Ipv6 => u128::MAX,
        }
    }

    /// The bits of an address.
    pub fn bits(self) -> (bits: u8)
        ensures
            bits == self.spec_bits(),
    {
        match self {
            IpFamily::Ipv4 => 32,
            IpFamily::Ipv6 => 128,
        }
    }

    /// The greatest address.
    pub fn maximum(self) -> (address: u128)
        ensures
            address == self.spec_maximum(),
    {
        match self {
            IpFamily::Ipv4 => 0xffff_ffff,
            IpFamily::Ipv6 => u128::MAX,
        }
    }
}

#[derive(Debug, Clone)]
pub struct PolicyFile {
    pub rules: Vec<RuleInput>,
}

#[derive(Debug, Clone)]
pub struct RuleInput {
    pub id: String,
    pub action: Action,
    pub ip_family: IpFamily,
    pub source_cidr: String,
    pub protocol: Protocol,
    pub port_start: u16,
    pub port_end: u16,
}

#[derive(Debug, Clone)]
pub struct Rule {
    pub id: String,
    pub action: Action,
    pub family: IpFamily,
    pub source_start: u128,
    pub source_end: u128,
    pub protocol: Protocol,
    pub port_start: u16,
    pub port_end: u16,
}

#[derive(Debug, Clone)]
pub struct ValidatedPolicy {
    pub rules: Vec<Rule>,
}

#[derive(Debug, Clone, Copy, PartialEq, Eq, Structural)]
pub struct Packet {
    pub family: IpFamily,
    pub source: u128,
    pub protocol: Protocol,
    pub destination_port: u16,
}

#[derive(Debug, Clone, PartialEq, Eq)]
pub struct Decision {
    pub action: Action,
    pub rule_id: String,
}

/// A rule as plain values.
pub struct Condition {
    pub id: Seq<char>,
    pub action: Action,
    pub family: IpFamily,
    pub source_start: u128,
    pub source_end: u128,
    pub protocol: Protocol,
    pub port_start: u16,
    pub port_end: u16,
}

impl View for Rule {
    type V = Condition;

    open spec fn view(&self) -> Condition {
        Condition {
            id: self.id@,
            action: self.action,
            family: self.family,
            source_start: self.source_start,
            source_end: self.source_end,
            protocol: self.protocol,
            port_start: self.port_start,
            port_end: self.port_end,
        }
    }
}

impl View for ValidatedPolicy {
    type V = Seq<Condition>;

    open spec fn view(&self) -> Seq<Condition> {
        self.rules@.map_values(|rule: Rule| rule@)
    }
}

/// A decision as plain values.
pub struct Ruling {
    pub action: Action,
    pub rule_id: Seq<char>,
}

impl View for Decision {
    type V = Ruling;

    open spec fn view(&self) -> Ruling {
        Ruling { action: self.action, rule_id: self.rule_id@ }
    }
}

/// A rule by itself makes sense.
pub open spec fn is_proper(rule: Condition) -> bool {
    &&& rule.id.len() > 0
    &&& rule.id != "default-deny"@
    &&& rule.source_start <= rule.source_end <= rule.family.spec_maximum()
    &&& rule.port_start <= rule.port_end
}

/// The rules of a policy that has been validated.
pub open spec fn is_valid(rules: Seq<Condition>) -> bool {
    &&& forall|i: int| 0 <= i < rules.len() ==> is_proper(#[trigger] rules[i])
    &&& forall|i: int, j: int|
        0 <= i < j < rules.len() ==> (#[trigger] rules[i]).id != (#[trigger] rules[j]).id
}

/// A rule speaks of the packets of a source and a port.
pub open spec fn applies(
    rule: Condition,
    family: IpFamily,
    protocol: Protocol,
    source: int,
    port: int,
) -> bool {
    &&& rule.family == family
    &&& rule.protocol == protocol
    &&& rule.source_start <= source <= rule.source_end
    &&& rule.port_start <= port <= rule.port_end
}

/// The first of the first `n` rules that speaks of a packet.
pub open spec fn first_of(
    rules: Seq<Condition>,
    family: IpFamily,
    protocol: Protocol,
    source: int,
    port: int,
    n: nat,
) -> Option<int>
    decreases n,
{
    if n == 0 {
        None
    } else {
        match first_of(rules, family, protocol, source, port, (n - 1) as nat) {
            Some(i) => Some(i),
            None => if applies(rules[n - 1], family, protocol, source, port) {
                Some(n - 1)
            } else {
                None
            },
        }
    }
}

/// The rule that decides about a packet.
pub open spec fn winner(
    rules: Seq<Condition>,
    family: IpFamily,
    protocol: Protocol,
    source: int,
    port: int,
) -> Option<int> {
    first_of(rules, family, protocol, source, port, rules.len())
}

/// What a rule decides. Where there is none, the packet is denied.
pub open spec fn ruling(rules: Seq<Condition>, winner: Option<int>) -> Ruling {
    match winner {
        Some(i) => Ruling { action: rules[i].action, rule_id: rules[i].id },
        None => Ruling { action: Action::Deny, rule_id: "default-deny"@ },
    }
}

/// What a policy decides about a packet.
pub open spec fn decision_on(rules: Seq<Condition>, packet: Packet) -> Ruling {
    ruling(
        rules,
        winner(
            rules,
            packet.family,
            packet.protocol,
            packet.source as int,
            packet.destination_port as int,
        ),
    )
}

/// The first rule that applies, told from the others.
pub proof fn lemma_first(
    rules: Seq<Condition>,
    family: IpFamily,
    protocol: Protocol,
    source: int,
    port: int,
    n: nat,
)
    requires
        n <= rules.len(),
    ensures
        first_of(rules, family, protocol, source, port, n) matches Some(i) ==> 0 <= i < n
            && applies(rules[i], family, protocol, source, port),
        forall|k: int|
            0 <= k < n && applies(#[trigger] rules[k], family, protocol, source, port) ==> first_of(
                rules,
                family,
                protocol,
                source,
                port,
                n,
            ) is Some && first_of(rules, family, protocol, source, port, n)->0 <= k,
    decreases n,
{
    if n > 0 {
        lemma_first(rules, family, protocol, source, port, (n - 1) as nat);
    }
}

/// A rule decides where it applies and none before it does.
pub proof fn lemma_is_winner(
    rules: Seq<Condition>,
    family: IpFamily,
    protocol: Protocol,
    source: int,
    port: int,
    i: int,
)
    requires
        0 <= i < rules.len(),
        applies(rules[i], family, protocol, source, port),
        forall|k: int| 0 <= k < i ==> !applies(#[trigger] rules[k], family, protocol, source, port),
    ensures
        winner(rules, family, protocol, source, port) == Some(i),
{
    lemma_first(rules, family, protocol, source, port, rules.len());
    let found = winner(rules, family, protocol, source, port);
    assert(applies(rules[found->0], family, protocol, source, port));
}

/// Evaluates the rules of a policy one by one.
pub fn evaluate(policy: &ValidatedPolicy, packet: Packet) -> (decision: Decision)
    ensures
        decision@ == decision_on(policy@, packet),
{
    let ghost rules = policy@;
    let mut i: usize = 0;
    while i < policy.rules.len()
        invariant
            i <= policy.rules@.len(),
            rules == policy@,
            forall|k: int|
                0 <= k < i ==> !applies(
                    #[trigger] rules[k],
                    packet.family,
                    packet.protocol,
                    packet.source as int,
                    packet.destination_port as int,
                ),
        decreases policy.rules@.len() - i,
    {
        let rule = &policy.rules[i];
        assert(rules[i as int] == rule@);
        if rule.family == packet.family && rule.protocol == packet.protocol && rule.source_start
            <= packet.source && packet.source <= rule.source_end && rule.port_start
            <= packet.destination_port && packet.destination_port <= rule.port_end {
            proof {
                lemma_is_winner(
                    rules,
                    packet.family,
                    packet.protocol,
                    packet.source as int,
                    packet.destination_port as int,
                    i as int,
                );
            }
            return Decision { action: rule.action, rule_id: rule.id.as_str().to_owned() };
        }
        i = i + 1;
    }
    proof {
        lemma_first(
            rules,
            packet.family,
            packet.protocol,
            packet.source as int,
            packet.destination_port as int,
            rules.len(),
        );
    }
    Decision { action: Action::Deny, rule_id: "default-deny".to_owned() }
}

#[derive(Debug, Clone, Copy, PartialEq, Eq, Structural)]
pub enum ChangeKind {
    NewlyAllowed,
    NewlyDenied,
}

#[derive(Debug, Clone)]
pub struct Witness {
    pub source_ip: String,
    pub protocol: Protocol,
    pub destination_port: u16,
}

#[derive(Debug, Clone)]
pub struct ChangeRegion {
    pub kind: ChangeKind,
    pub ip_family: IpFamily,
    pub source_start: String,
    pub source_end: String,
    pub protocol: Protocol,
    pub port_start: u16,
    pub port_end: u16,
    pub old_decision: Action,
    pub old_rule_id: String,
    pub new_decision: Action,
    pub new_rule_id: String,
    pub witness: Witness,
    pub source_start_num: u128,
    pub source_end_num: u128,
}

#[derive(Debug, Clone)]
pub struct RuleReachability {
    pub rule_id: String,
    pub reachable: bool,
    pub witness: Option<Witness>,
}

#[derive(Debug, Clone)]
pub struct ReportSummary {
    pub outcome: String,
    pub newly_allowed_regions: usize,
    pub newly_denied_regions: usize,
    pub proposed_reachable_rules: usize,
    pub proposed_unreachable_rules: usize,
}

#[derive(Debug, Clone)]
pub struct Report {
    pub schema_version: u32,
    pub analysis: String,
    pub summary: ReportSummary,
    pub changes: Vec<ChangeRegion>,
    pub proposed_rule_reachability: Vec<RuleReachability>,
}

/// A witness as plain values.
pub struct Example {
    pub source_ip: Seq<char>,
    pub protocol: Protocol,
    pub destination_port: u16,
}

impl View for Witness {
    type V = Example;

    open spec fn view(&self) -> Example {
        Example {
            source_ip: self.source_ip@,
            protocol: self.protocol,
            destination_port: self.destination_port,
        }
    }
}

/// A region as plain values.
pub struct Region {
    pub kind: ChangeKind,
    pub family: IpFamily,
    pub source_start: Seq<char>,
    pub source_end: Seq<char>,
    pub protocol: Protocol,
    pub port_start: u16,
    pub port_end: u16,
    pub old: Ruling,
    pub new: Ruling,
    pub witness: Example,
    pub low: u128,
    pub high: u128,
}

impl View for ChangeRegion {
    type V = Region;

    open spec fn view(&self) -> Region {
        Region {
            kind: self.kind,
            family: self.ip_family,
            source_start: self.source_start@,
            source_end: self.source_end@,
            protocol: self.protocol,
            port_start: self.port_start,
            port_end: self.port_end,
            old: Ruling { action: self.old_decision, rule_id: self.old_rule_id@ },
            new: Ruling { action: self.new_decision, rule_id: self.new_rule_id@ },
            witness: self.witness@,
            low: self.source_start_num,
            high: self.source_end_num,
        }
    }
}

pub open spec fn regions(changes: Seq<ChangeRegion>) -> Seq<Region> {
    changes.map_values(|change: ChangeRegion| change@)
}

/// The reachability of a rule as plain values.
pub struct Reach {
    pub rule_id: Seq<char>,
    pub reachable: bool,
    pub witness: Option<Example>,
}

impl View for RuleReachability {
    type V = Reach;

    open spec fn view(&self) -> Reach {
        Reach {
            rule_id: self.rule_id@,
            reachable: self.reachable,
            witness: match self.witness {
                Some(witness) => Some(witness@),
                None => None,
            },
        }
    }
}

pub open spec fn reaches(list: Seq<RuleReachability>) -> Seq<Reach> {
    list.map_values(|reach: RuleReachability| reach@)
}

/// A packet lies in a region.
pub open spec fn covers(region: Region, packet: Packet) -> bool {
    &&& packet.family == region.family
    &&& packet.protocol == region.protocol
    &&& region.low <= packet.source <= region.high
    &&& region.port_start <= packet.destination_port <= region.port_end
}

/// Whether a packet lies in a region.
pub fn region_contains(region: &ChangeRegion, packet: Packet) -> (result: bool)
    ensures
        result == covers(region@, packet),
{
    packet.family == region.ip_family && packet.protocol == region.protocol
        && region.source_start_num <= packet.source && packet.source <= region.source_end_num
        && region.port_start <= packet.destination_port && packet.destination_port
        <= region.port_end
}

/// Errors, each on its own line.
pub open spec fn lines_of(errors: Seq<Seq<char>>, n: nat) -> Seq<char>
    decreases n,
{
    if n == 0 {
        Seq::empty()
    } else {
        lines_of(errors, (n - 1) as nat) + errors[n - 1] + seq!['\n']
    }
}

pub open spec fn texts(errors: Seq<String>) -> Seq<Seq<char>> {
    errors.map_values(|error: String| error@)
}

/// Errors, each on its own line.
pub fn diagnostics_for_errors(errors: &[String]) -> (shown: String)
    ensures
        shown@ == lines_of(texts(errors@), errors@.len()),
{
    let ghost all = texts(errors@);
    let mut shown = String::new();
    let mut i: usize = 0;
    while i < errors.len()
        invariant
            i <= errors@.len(),
            all == texts(errors@),
            shown@ == lines_of(all, i as nat),
        decreases errors@.len() - i,
    {
        let ghost before = shown@;
        shown.append(errors[i].as_str());
        shown.push('\n');
        proof {
            assert(all[i as int] == errors@[i as int]@);
            assert(shown@ =~= before + all[i as int] + seq!['\n']);
        }
        i = i + 1;
    }
    shown
}

} // verus!
