//! Policies made up from a seed, and the analysis tried on them.

use vstd::prelude::*;
use crate::firewall::analyze;
use crate::firewall::analyze::{analyze, format_address};
use crate::firewall::model;
use crate::firewall::model::{
    Action, Condition, IpFamily, PolicyFile, Protocol, RuleInput, ValidatedPolicy,
};
use crate::firewall::random;
use crate::firewall::random::SplitMix64;
use crate::firewall::validate;
use crate::firewall::validate::{Entry, size_of_block, validate_policy};
use crate::firewall::verify;
use crate::ip_laws;
use crate::number;
use crate::text;
use crate::text::{push_decimal, push_padded};

verus! {

/// A block of addresses as text.
pub open spec fn cidr_text(family: IpFamily, start: u128, prefix: nat) -> Seq<char> {
    analyze::address_text(family, start) + seq!['/'] + text::decimal(prefix)
}

/// A block of addresses is read as it was shown.
pub proof fn shown_blocks_are_read_back(family: IpFamily, start: u128, prefix: nat)
    requires
        start <= family.spec_maximum(),
        prefix <= family.spec_bits(),
        start as nat % validate::block_size((family.spec_bits() - prefix) as nat) == 0,
    ensures
        validate::cidr_of(cidr_text(family, start, prefix), family) == Ok::<
            (u128, u128),
            Seq<char>,
        >(
            (
                start,
                (start + validate::block_size((family.spec_bits() - prefix) as nat) - 1) as u128,
            ),
        ),
{
    let shown = analyze::address_text(family, start);
    let tail = text::decimal(prefix);
    let cidr = cidr_text(family, start, prefix);
    verify::shown_addresses_are_read_back(family, start);
    ip_laws::addresses_have_no_slash(shown);
    ip_laws::lemma_decimal(prefix);
    let slash = shown.len() as int;
    assert forall|i: int| 0 <= i < slash implies cidr[i] != '/' by {
        assert(shown.contains(shown[i]));
    }
    assert(cidr[slash] == '/');
    ip_laws::lemma_find_at(cidr, '/', 0, slash);
    assert forall|i: int| slash + 1 <= i < cidr.len() implies cidr[i] != '/' by {
        assert(cidr[i] == tail[i - slash - 1]);
        assert(crate::chars::is_digit(tail[i - slash - 1]));
    }
    ip_laws::lemma_find_at(cidr, '/', slash + 1, cidr.len() as int);
    assert(cidr.subrange(0, slash) =~= shown);
    assert(cidr.subrange(slash + 1, cidr.len() as int) =~= tail);
    assert(crate::chars::is_digit(tail[0]));
    assert(number::integer_of(tail) == Some(prefix));
}

/// The start of the block that an address lies in.
pub open spec fn rounded(raw: nat, family: IpFamily, prefix: nat) -> nat {
    let low = raw % (family.spec_maximum() as nat + 1);
    (low - low % validate::block_size((family.spec_bits() - prefix) as nat)) as nat
}

proof fn lemma_rounded(raw: nat, family: IpFamily, prefix: nat)
    requires
        prefix <= family.spec_bits(),
    ensures
        rounded(raw, family, prefix) <= family.spec_maximum(),
        rounded(raw, family, prefix) % validate::block_size((family.spec_bits() - prefix) as nat)
            == 0,
{
    let low = raw % (family.spec_maximum() as nat + 1);
    let size = validate::block_size((family.spec_bits() - prefix) as nat);
    validate::lemma_block_size((family.spec_bits() - prefix) as nat, 128);
    vstd::arithmetic::div_mod::lemma_fundamental_div_mod(low as int, size as int);
    vstd::arithmetic::div_mod::lemma_mod_multiples_basic(low as int / size as int, size as int);
    assert(size * (low / size) == (low / size) * size) by (nonlinear_arith);
}

/// The start of the block that an address lies in.
pub fn canonical_start(raw: u128, family: IpFamily, prefix: u8) -> (start: u128)
    requires
        prefix <= family.spec_bits(),
    ensures
        start == rounded(raw as nat, family, prefix as nat),
{
    let low: u128 = match family {
        IpFamily::Ipv4 => raw % 0x1_0000_0000,
        IpFamily::Ipv6 => raw,
    };
    let free: u8 = family.bits() - prefix;
    proof {
        validate::lemma_block_values();
        validate::lemma_block_size(free as nat, 128);
        assert(low as nat == raw as nat % (family.spec_maximum() as nat + 1)) by {
            if family == IpFamily::Ipv6 {
                vstd::arithmetic::div_mod::lemma_small_mod(
                    raw as nat,
                    0x1_0000_0000_0000_0000_0000_0000_0000_0000nat,
                );
            }
        }
    }
    if free > 127 {
        proof {
            vstd::arithmetic::div_mod::lemma_small_mod(
                low as nat,
                0x1_0000_0000_0000_0000_0000_0000_0000_0000nat,
            );
        }
        return 0;
    }
    let size: u128 = size_of_block(free);
    proof {
        vstd::arithmetic::div_mod::lemma_mod_decreases(low as nat, size as nat);
    }
    low - low % size
}

/// A rule that says what it means.
pub open spec fn is_fair(entry: Entry) -> bool {
    &&& entry.id.len() > 0
    &&& entry.id != "default-deny"@
    &&& entry.port_start <= entry.port_end
    &&& validate::cidr_of(entry.cidr, entry.family) is Ok
}

/// Rules that say what they mean, under names of their own.
pub open spec fn are_fair(entries: Seq<Entry>) -> bool {
    &&& forall|i: int| 0 <= i < entries.len() ==> is_fair(#[trigger] entries[i])
    &&& forall|i: int, j: int|
        0 <= i < j < entries.len() ==> (#[trigger] entries[i]).id != (#[trigger] entries[j]).id
}

proof fn lemma_fair(label: Seq<char>, entries: Seq<Entry>, n: nat)
    requires
        are_fair(entries),
        n <= entries.len(),
    ensures
        validate::policy_errors(label, entries, n).len() == 0,
    decreases n,
{
    if n > 0 {
        lemma_fair(label, entries, (n - 1) as nat);
        assert(is_fair(entries[n - 1]));
        if validate::is_taken(entries, n - 1) {
            let k = choose|k: int|
                0 <= k < n - 1 && (#[trigger] entries[k]).id == entries[n - 1].id;
        }
    }
}

/// The policy of rules that say what they mean.
fn validated_from_inputs(rules: Vec<RuleInput>) -> (policy: ValidatedPolicy)
    requires
        are_fair(rules@.map_values(|rule: RuleInput| rule@)),
    ensures
        policy@ == validate::conditions_of(rules@.map_values(|rule: RuleInput| rule@)),
        model::is_valid(policy@),
{
    let file = PolicyFile { rules };
    proof {
        lemma_fair("generated policy"@, file@, file@.len());
    }
    match validate_policy(&file, "generated policy") {
        Ok(policy) => policy,
        Err(_) => ValidatedPolicy { rules: Vec::new() },
    }
}

fn make_cidr(family: IpFamily, start: u128, prefix: u8) -> (cidr: String)
    requires
        start <= family.spec_maximum(),
    ensures
        cidr@ == cidr_text(family, start, prefix as nat),
{
    let mut cidr = format_address(family, start);
    cidr.push('/');
    push_decimal(&mut cidr, prefix as u64);
    assert(cidr@ =~= cidr_text(family, start, prefix as nat));
    cidr
}

pub open spec fn drawn_action(value: u64) -> Action {
    if value % 2 == 0 {
        Action::Allow
    } else {
        Action::Deny
    }
}

pub open spec fn drawn_protocol(value: u64) -> Protocol {
    if value % 2 == 0 {
        Protocol::Tcp
    } else {
        Protocol::Udp
    }
}

fn action_of(value: u64) -> (action: Action)
    ensures
        action == drawn_action(value),
{
    if value % 2 == 0 {
        Action::Allow
    } else {
        Action::Deny
    }
}

fn protocol_of(value: u64) -> (protocol: Protocol)
    ensures
        protocol == drawn_protocol(value),
{
    if value % 2 == 0 {
        Protocol::Tcp
    } else {
        Protocol::Udp
    }
}

pub open spec fn lesser(a: u16, b: u16) -> u16 {
    if a <= b {
        a
    } else {
        b
    }
}

pub open spec fn greater(a: u16, b: u16) -> u16 {
    if a <= b {
        b
    } else {
        a
    }
}

/// A rule on sixteen addresses and eight ports, from six numbers.
pub open spec fn small_rule(state: u64, id: Seq<char>) -> Entry {
    let prefix = 28 + random::drawn(state, 1) % 5;
    let start = rounded((random::drawn(state, 2) % 16) as nat, IpFamily::Ipv4, prefix as nat);
    let first = (random::drawn(state, 3) % 8) as u16;
    let second = (random::drawn(state, 4) % 8) as u16;
    Entry {
        id,
        action: drawn_action(random::drawn(state, 5)),
        family: IpFamily::Ipv4,
        cidr: cidr_text(IpFamily::Ipv4, start as u128, prefix as nat),
        protocol: drawn_protocol(random::drawn(state, 6)),
        port_start: lesser(first, second),
        port_end: greater(first, second),
    }
}

/// A rule that lies within sixteen addresses and eight ports.
pub open spec fn is_small(entry: Entry) -> bool {
    &&& entry.family == IpFamily::Ipv4
    &&& validate::cidr_of(entry.cidr, entry.family) matches Ok(block) && block.1 < 16
    &&& entry.port_start <= entry.port_end < 8
}

proof fn lemma_small_rule(state: u64, id: Seq<char>)
    requires
        id.len() > 0,
        id != "default-deny"@,
    ensures
        is_fair(small_rule(state, id)),
        is_small(small_rule(state, id)),
{
    lemma_small_entry(
        small_rule(state, id),
        (random::drawn(state, 2) % 16) as nat,
        (28 + random::drawn(state, 1) % 5) as nat,
    );
}

proof fn lemma_small_entry(entry: Entry, raw: nat, prefix: nat)
    requires
        raw < 16,
        28 <= prefix <= 32,
        entry.id.len() > 0,
        entry.id != "default-deny"@,
        entry.family == IpFamily::Ipv4,
        entry.cidr == cidr_text(
            IpFamily::Ipv4,
            rounded(raw, IpFamily::Ipv4, prefix) as u128,
            prefix,
        ),
        entry.port_start <= entry.port_end < 8,
    ensures
        is_fair(entry),
        is_small(entry),
{
    let start = rounded(raw, IpFamily::Ipv4, prefix);
    lemma_rounded(raw, IpFamily::Ipv4, prefix);
    lemma_small_block(raw, prefix);
    shown_blocks_are_read_back(IpFamily::Ipv4, start as u128, prefix);
    let size = validate::block_size((32 - prefix) as nat);
    validate::lemma_block_size((32 - prefix) as nat, 128);
    assert(validate::cidr_of(entry.cidr, entry.family) == Ok::<(u128, u128), Seq<char>>(
        (start as u128, (start + size - 1) as u128),
    ));
    assert(((start + size - 1) as u128) < 16);
}

/// A block of sixteen addresses or less around a small address is small.
proof fn lemma_small_block(raw: nat, prefix: nat)
    requires
        raw < 16,
        28 <= prefix <= 32,
    ensures
        rounded(raw, IpFamily::Ipv4, prefix) + validate::block_size((32 - prefix) as nat) <= 16,
{
    reveal_with_fuel(validate::block_size, 6);
    let free = (32 - prefix) as nat;
    let low = raw % 0x1_0000_0000;
    assert(low == raw);
    if free == 0 {
        assert(validate::block_size(free) == 1);
        assert(rounded(raw, IpFamily::Ipv4, prefix) == raw - raw % 1);
    } else if free == 1 {
        assert(validate::block_size(free) == 2);
        assert(rounded(raw, IpFamily::Ipv4, prefix) == raw - raw % 2);
    } else if free == 2 {
        assert(validate::block_size(free) == 4);
        assert(rounded(raw, IpFamily::Ipv4, prefix) == raw - raw % 4);
    } else if free == 3 {
        assert(validate::block_size(free) == 8);
        assert(rounded(raw, IpFamily::Ipv4, prefix) == raw - raw % 8);
    } else {
        assert(validate::block_size(free) == 16);
        assert(rounded(raw, IpFamily::Ipv4, prefix) == raw - raw % 16);
    }
}

fn random_small_rule(random: &mut SplitMix64, id: String) -> (rule: RuleInput)
    ensures
        rule@ == small_rule(old(random).state, id@),
        final(random).state == random::spun(old(random).state, 6),
{
    let ghost start_state = random.state;
    let prefix: u8 = 28 + (random.next_u64() % 5) as u8;
    let address: u64 = random.next_u64() % 16;
    let first: u16 = (random.next_u64() % 8) as u16;
    let second: u16 = (random.next_u64() % 8) as u16;
    let action = action_of(random.next_u64());
    let protocol = protocol_of(random.next_u64());
    proof {
        random::lemma_spun(start_state, 1, 1);
        random::lemma_spun(start_state, 2, 1);
        random::lemma_spun(start_state, 3, 1);
        random::lemma_spun(start_state, 4, 1);
        random::lemma_spun(start_state, 5, 1);
        lemma_rounded(address as nat, IpFamily::Ipv4, prefix as nat);
    }
    let start: u128 = canonical_start(address as u128, IpFamily::Ipv4, prefix);
    RuleInput {
        id,
        action,
        ip_family: IpFamily::Ipv4,
        source_cidr: make_cidr(IpFamily::Ipv4, start, prefix),
        protocol,
        port_start: if first <= second {
            first
        } else {
            second
        },
        port_end: if first <= second {
            second
        } else {
            first
        },
    }
}

/// A rule on any addresses and ports, from eight numbers.
pub open spec fn full_rule(state: u64, id: Seq<char>) -> Entry {
    let family = if random::drawn(state, 1) % 2 == 0 {
        IpFamily::Ipv4
    } else {
        IpFamily::Ipv6
    };
    let prefix = (random::drawn(state, 2) as nat % (family.spec_bits() + 1)) as nat;
    let raw = random::wide(random::drawn(state, 3), random::drawn(state, 4));
    let start = rounded(raw as nat, family, prefix);
    let first = random::drawn(state, 5) as u16;
    let second = random::drawn(state, 6) as u16;
    Entry {
        id,
        action: drawn_action(random::drawn(state, 7)),
        family,
        cidr: cidr_text(family, start as u128, prefix),
        protocol: drawn_protocol(random::drawn(state, 8)),
        port_start: lesser(first, second),
        port_end: greater(first, second),
    }
}

proof fn lemma_full_rule(state: u64, id: Seq<char>)
    requires
        id.len() > 0,
        id != "default-deny"@,
    ensures
        is_fair(full_rule(state, id)),
{
    let family = if random::drawn(state, 1) % 2 == 0 {
        IpFamily::Ipv4
    } else {
        IpFamily::Ipv6
    };
    let prefix = (random::drawn(state, 2) as nat % (family.spec_bits() + 1)) as nat;
    let raw = random::wide(random::drawn(state, 3), random::drawn(state, 4));
    lemma_rounded(raw as nat, family, prefix);
    shown_blocks_are_read_back(family, rounded(raw as nat, family, prefix) as u128, prefix);
}

fn random_full_rule(random: &mut SplitMix64, id: String) -> (rule: RuleInput)
    ensures
        rule@ == full_rule(old(random).state, id@),
        final(random).state == random::spun(old(random).state, 8),
{
    let ghost start_state = random.state;
    let family = if random.next_u64() % 2 == 0 {
        IpFamily::Ipv4
    } else {
        IpFamily::Ipv6
    };
    let draw: u64 = random.next_u64();
    let prefix: u8 = match family {
        IpFamily::Ipv4 => (draw % 33) as u8,
        IpFamily::Ipv6 => (draw % 129) as u8,
    };
    proof {
        random::lemma_spun(start_state, 1, 1);
        random::lemma_spun(start_state, 2, 1);
        random::lemma_spun(start_state, 2, 2);
        random::lemma_spun(start_state, 4, 1);
        random::lemma_spun(start_state, 5, 1);
        random::lemma_spun(start_state, 6, 1);
        random::lemma_spun(start_state, 7, 1);
    }
    let raw: u128 = random.next_u128();
    let first: u16 = random.next_u64() as u16;
    let second: u16 = random.next_u64() as u16;
    let action = action_of(random.next_u64());
    let protocol = protocol_of(random.next_u64());
    proof {
        lemma_rounded(raw as nat, family, prefix as nat);
    }
    let start: u128 = canonical_start(raw, family, prefix);
    RuleInput {
        id,
        action,
        ip_family: family,
        source_cidr: make_cidr(family, start, prefix),
        protocol,
        port_start: if first <= second {
            first
        } else {
            second
        },
        port_end: if first <= second {
            second
        } else {
            first
        },
    }
}

/// The name of a rule of a pair.
pub open spec fn rule_name(letter: char, pair: nat, index: nat) -> Seq<char> {
    seq![letter] + text::decimal(pair) + seq!['-'] + text::decimal(index)
}

proof fn lemma_names_differ(letter: char, pair: nat, i: nat, j: nat)
    requires
        i != j,
    ensures
        rule_name(letter, pair, i) != rule_name(letter, pair, j),
{
    let skipped = 2 + text::decimal(pair).len() as int;
    assert(rule_name(letter, pair, i).skip(skipped) =~= text::decimal(i));
    assert(rule_name(letter, pair, j).skip(skipped) =~= text::decimal(j));
    ip_laws::lemma_decimal(i);
    ip_laws::lemma_decimal(j);
}

proof fn lemma_not_default(name: Seq<char>)
    requires
        name.len() > 0,
        name[0] != 'd',
    ensures
        name != "default-deny"@,
{
    reveal_strlit("default-deny");
}

fn name_rule(letter: char, pair: usize, index: usize) -> (name: String)
    ensures
        name@ == rule_name(letter, pair as nat, index as nat),
{
    let mut name = String::new();
    name.push(letter);
    push_decimal(&mut name, pair as u64);
    name.push('-');
    push_decimal(&mut name, index as u64);
    assert(name@ =~= rule_name(letter, pair as nat, index as nat));
    name
}

pub open spec fn opposite(action: Action) -> Action {
    match action {
        Action::Allow => Action::Deny,
        Action::Deny => Action::Allow,
    }
}

fn opposite_of(action: Action) -> (other: Action)
    ensures
        other == opposite(action),
{
    match action {
        Action::Allow => Action::Deny,
        Action::Deny => Action::Allow,
    }
}

pub open spec fn entries_of(rules: Seq<RuleInput>) -> Seq<Entry> {
    rules.map_values(|rule: RuleInput| rule@)
}

/// Rules with the action of one turned round.
pub open spec fn turned(entries: Seq<Entry>, at: int) -> Seq<Entry> {
    entries.update(at, Entry { action: opposite(entries[at].action), ..entries[at] })
}

fn copy_rule(rule: &RuleInput) -> (copy: RuleInput)
    ensures
        copy@ == rule@,
{
    RuleInput {
        id: rule.id.as_str().to_owned(),
        action: rule.action,
        ip_family: rule.ip_family,
        source_cidr: rule.source_cidr.as_str().to_owned(),
        protocol: rule.protocol,
        port_start: rule.port_start,
        port_end: rule.port_end,
    }
}

fn copy_rules(rules: &Vec<RuleInput>) -> (copy: Vec<RuleInput>)
    ensures
        entries_of(copy@) == entries_of(rules@),
        copy@.len() == rules@.len(),
{
    let mut copy: Vec<RuleInput> = Vec::new();
    let mut i: usize = 0;
    while i < rules.len()
        invariant
            i == copy@.len() <= rules@.len(),
            forall|k: int| 0 <= k < i ==> (#[trigger] copy@[k])@ == rules@[k]@,
        decreases rules@.len() - i,
    {
        copy.push(copy_rule(&rules[i]));
        i = i + 1;
    }
    assert(entries_of(copy@) =~= entries_of(rules@));
    copy
}

fn turn_rule(rules: &mut Vec<RuleInput>, at: usize)
    requires
        at < old(rules)@.len(),
    ensures
        entries_of(final(rules)@) == turned(entries_of(old(rules)@), at as int),
{
    let ghost before = entries_of(rules@);
    let mut rule = copy_rule(&rules[at]);
    rule.action = opposite_of(rule.action);
    rules.set(at, rule);
    assert(entries_of(rules@) =~= turned(before, at as int));
}

proof fn lemma_insert_fair(entries: Seq<Entry>, at: int, entry: Entry)
    requires
        are_fair(entries),
        is_fair(entry),
        0 <= at <= entries.len(),
        forall|k: int| 0 <= k < entries.len() ==> (#[trigger] entries[k]).id != entry.id,
    ensures
        are_fair(entries.insert(at, entry)),
{
    let after = entries.insert(at, entry);
    assert forall|i: int| 0 <= i < after.len() implies is_fair(#[trigger] after[i]) by {
        if i < at {
            assert(is_fair(entries[i]));
        } else if i > at {
            assert(is_fair(entries[i - 1]));
        }
    }
    assert forall|i: int, j: int| 0 <= i < j < after.len() implies (#[trigger] after[i]).id != (
    #[trigger] after[j]).id by {
        let a = if i < at {
            i
        } else {
            i - 1
        };
        let b = if j < at {
            j
        } else {
            j - 1
        };
        if i == at {
            assert(entries[b].id != entry.id);
        } else if j == at {
            assert(entries[a].id != entry.id);
        } else {
            assert(entries[a].id != entries[b].id);
        }
    }
}

proof fn lemma_remove_fair(entries: Seq<Entry>, at: int)
    requires
        are_fair(entries),
        0 <= at < entries.len(),
    ensures
        are_fair(entries.remove(at)),
        forall|k: int|
            0 <= k < entries.remove(at).len() ==> (#[trigger] entries.remove(at)[k]).id
                != entries[at].id,
{
    let after = entries.remove(at);
    assert forall|i: int| 0 <= i < after.len() implies is_fair(#[trigger] after[i])
        && after[i].id != entries[at].id by {
        if i < at {
            assert(is_fair(entries[i]));
            assert(entries[i].id != entries[at].id);
        } else {
            assert(is_fair(entries[i + 1]));
            assert(entries[at].id != entries[i + 1].id);
        }
    }
    assert forall|i: int, j: int| 0 <= i < j < after.len() implies (#[trigger] after[i]).id != (
    #[trigger] after[j]).id by {
        let a = if i < at {
            i
        } else {
            i + 1
        };
        let b = if j < at {
            j
        } else {
            j + 1
        };
        assert(entries[a].id != entries[b].id);
    }
}

proof fn lemma_turn_fair(entries: Seq<Entry>, at: int)
    requires
        are_fair(entries),
        0 <= at < entries.len(),
    ensures
        are_fair(turned(entries, at)),
{
    let after = turned(entries, at);
    assert forall|i: int| 0 <= i < after.len() implies is_fair(#[trigger] after[i]) by {
        assert(is_fair(entries[i]));
    }
    assert forall|i: int, j: int| 0 <= i < j < after.len() implies (#[trigger] after[i]).id != (
    #[trigger] after[j]).id by {
        assert(entries[i].id != entries[j].id);
    }
}

/// Two lists of rules, and the generator after them.
pub struct Pair {
    pub old: Seq<Entry>,
    pub new: Seq<Entry>,
    pub state: u64,
}

pub open spec fn small_rules(state: u64, pair: nat, count: nat) -> Seq<Entry> {
    Seq::new(
        count,
        |i: int| small_rule(random::spun(state, (6 * i) as nat), rule_name('r', pair, i as nat)),
    )
}

pub open spec fn inserted_name(pair: nat) -> Seq<char> {
    "inserted-"@ + text::decimal(pair)
}

/// A few small rules, and the same with one put in, taken out, moved or turned round.
pub open spec fn small_pair(state: u64, pair: nat) -> Pair {
    let count = (1 + random::drawn(state, 1) % 7) as nat;
    let old = small_rules(random::spun(state, 1), pair, count);
    let chosen = random::spun(state, 1 + 6 * count);
    let choice = random::drawn(chosen, 1) % 4;
    let moved = random::spun(chosen, 1);
    let pick = (random::drawn(moved, 1) as usize) as int;
    if choice == 0 {
        Pair {
            old,
            new: old.insert(
                pick % (count as int + 1),
                small_rule(random::spun(moved, 1), inserted_name(pair)),
            ),
            state: random::spun(moved, 7),
        }
    } else if choice == 1 && count > 1 {
        Pair { old, new: old.remove(pick % (count as int)), state: random::spun(moved, 1) }
    } else if choice == 2 && count > 1 {
        let from = pick % (count as int);
        let to = (random::drawn(moved, 2) as usize) as int % (count as int);
        Pair {
            old,
            new: old.remove(from).insert(to, old[from]),
            state: random::spun(moved, 2),
        }
    } else {
        Pair { old, new: turned(old, pick % (count as int)), state: random::spun(moved, 1) }
    }
}

pub open spec fn are_small(entries: Seq<Entry>) -> bool {
    forall|i: int| 0 <= i < entries.len() ==> is_small(#[trigger] entries[i])
}

proof fn lemma_small_rules(state: u64, pair: nat, count: nat)
    ensures
        are_fair(small_rules(state, pair, count)),
        are_small(small_rules(state, pair, count)),
        forall|i: int|
            0 <= i < count ==> (#[trigger] small_rules(state, pair, count)[i]).id != inserted_name(
                pair,
            ),
{
    let rules = small_rules(state, pair, count);
    assert forall|i: int| 0 <= i < rules.len() implies is_fair(#[trigger] rules[i]) && is_small(
        rules[i],
    ) && rules[i].id != inserted_name(pair) by {
        let name = rule_name('r', pair, i as nat);
        assert(name[0] == 'r');
        lemma_not_default(name);
        lemma_small_rule(random::spun(state, (6 * i) as nat), name);
        reveal_strlit("inserted-");
        assert(inserted_name(pair)[0] == 'i');
    }
    assert forall|i: int, j: int| 0 <= i < j < rules.len() implies (#[trigger] rules[i]).id != (
    #[trigger] rules[j]).id by {
        lemma_names_differ('r', pair, i as nat, j as nat);
    }
}

proof fn lemma_small_pair(state: u64, pair: nat)
    ensures
        are_fair(small_pair(state, pair).old),
        are_fair(small_pair(state, pair).new),
        are_small(small_pair(state, pair).old),
        are_small(small_pair(state, pair).new),
{
    let count = (1 + random::drawn(state, 1) % 7) as nat;
    let old = small_rules(random::spun(state, 1), pair, count);
    lemma_small_rules(random::spun(state, 1), pair, count);
    let chosen = random::spun(state, 1 + 6 * count);
    let choice = random::drawn(chosen, 1) % 4;
    let moved = random::spun(chosen, 1);
    let pick = (random::drawn(moved, 1) as usize) as int;
    let new = small_pair(state, pair).new;
    if choice == 0 {
        let name = inserted_name(pair);
        reveal_strlit("inserted-");
        assert(name[0] == 'i');
        lemma_not_default(name);
        let entry = small_rule(random::spun(moved, 1), name);
        lemma_small_rule(random::spun(moved, 1), name);
        let at = pick % (count as int + 1);
        lemma_insert_fair(old, at, entry);
        assert forall|i: int| 0 <= i < new.len() implies is_small(#[trigger] new[i]) by {
            if i < at {
                assert(is_small(old[i]));
            } else if i > at {
                assert(is_small(old[i - 1]));
            }
        }
    } else if choice == 1 && count > 1 {
        let at = pick % (count as int);
        lemma_remove_fair(old, at);
        assert forall|i: int| 0 <= i < new.len() implies is_small(#[trigger] new[i]) by {
            assert(is_small(old[if i < at {
                i
            } else {
                i + 1
            }]));
        }
    } else if choice == 2 && count > 1 {
        let from = pick % (count as int);
        let to = (random::drawn(moved, 2) as usize) as int % (count as int);
        let rest = old.remove(from);
        lemma_remove_fair(old, from);
        assert(is_fair(old[from]));
        lemma_insert_fair(rest, to, old[from]);
        assert forall|i: int| 0 <= i < rest.len() implies is_small(#[trigger] rest[i]) by {
            assert(is_small(old[if i < from {
                i
            } else {
                i + 1
            }]));
        }
        assert forall|i: int| 0 <= i < new.len() implies is_small(#[trigger] new[i]) by {
            if i < to {
                assert(is_small(rest[i]));
            } else if i > to {
                assert(is_small(rest[i - 1]));
            } else {
                assert(is_small(old[from]));
            }
        }
    } else {
        lemma_turn_fair(old, pick % (count as int));
        assert forall|i: int| 0 <= i < new.len() implies is_small(#[trigger] new[i]) by {
            assert(is_small(old[i]));
        }
    }
}

/// Rules that lie within sixteen addresses and eight ports.
pub open spec fn is_boxed(rules: Seq<Condition>) -> bool {
    forall|i: int|
        0 <= i < rules.len() ==> (#[trigger] rules[i]).family == IpFamily::Ipv4
            && rules[i].source_end < 16 && rules[i].port_end < 8
}

#[verifier::spinoff_prover]
#[verifier::rlimit(80)]
pub(crate) fn generated_small_pair(random: &mut SplitMix64, pair_index: usize) -> (pair: (
    ValidatedPolicy,
    ValidatedPolicy,
))
    ensures
        pair.0@ == validate::conditions_of(small_pair(old(random).state, pair_index as nat).old),
        pair.1@ == validate::conditions_of(small_pair(old(random).state, pair_index as nat).new),
        final(random).state == small_pair(old(random).state, pair_index as nat).state,
        model::is_valid(pair.0@),
        model::is_valid(pair.1@),
        is_boxed(pair.1@),
{
    let ghost start = random.state;
    let ghost pair = pair_index as nat;
    let count: usize = 1 + (random.next_u64() % 7) as usize;
    let ghost after = random.state;
    let mut old_inputs: Vec<RuleInput> = Vec::new();
    let mut i: usize = 0;
    while i < count
        invariant
            i == old_inputs@.len() <= count <= 7,
            pair == pair_index,
            random.state == random::spun(after, (6 * i) as nat),
            forall|k: int|
                0 <= k < i ==> (#[trigger] old_inputs@[k])@ == small_rules(
                    after,
                    pair,
                    count as nat,
                )[k],
        decreases count - i,
    {
        let name = name_rule('r', pair_index, i);
        proof {
            random::lemma_spun(after, (6 * i) as nat, 6);
        }
        old_inputs.push(random_small_rule(random, name));
        i = i + 1;
    }
    let ghost old_entries = entries_of(old_inputs@);
    proof {
        assert(old_entries =~= small_rules(after, pair, count as nat));
        random::lemma_spun(start, 1, (6 * count) as nat);
        lemma_small_pair(start, pair);
    }
    let mut new_inputs = copy_rules(&old_inputs);
    let choice: u64 = random.next_u64() % 4;
    let ghost moved = random.state;
    if choice == 0 {
        let at: usize = (random.next_u64() as usize) % (new_inputs.len() + 1);
        let mut name = "inserted-".to_owned();
        push_decimal(&mut name, pair_index as u64);
        proof {
            random::lemma_spun(moved, 1, 6);
        }
        let rule = random_small_rule(random, name);
        let ghost told = rule@;
        new_inputs.insert(at, rule);
        assert(entries_of(new_inputs@) =~= old_entries.insert(at as int, told));
    } else if choice == 1 && new_inputs.len() > 1 {
        let at: usize = (random.next_u64() as usize) % new_inputs.len();
        let _gone = new_inputs.remove(at);
        assert(entries_of(new_inputs@) =~= old_entries.remove(at as int));
    } else if choice == 2 && new_inputs.len() > 1 {
        let from: usize = (random.next_u64() as usize) % new_inputs.len();
        let rule = new_inputs.remove(from);
        let ghost rest = entries_of(new_inputs@);
        let ghost told = rule@;
        assert(rest =~= old_entries.remove(from as int));
        proof {
            random::lemma_spun(moved, 1, 1);
        }
        let to: usize = (random.next_u64() as usize) % (new_inputs.len() + 1);
        new_inputs.insert(to, rule);
        assert(entries_of(new_inputs@) =~= rest.insert(to as int, told));
        assert(told == old_entries[from as int]);
    } else {
        let at: usize = (random.next_u64() as usize) % new_inputs.len();
        turn_rule(&mut new_inputs, at);
    }
    proof {
        assert(entries_of(new_inputs@) == small_pair(start, pair).new);
        assert(random.state == small_pair(start, pair).state);
    }
    let ghost new_entries = entries_of(new_inputs@);
    let old_policy = validated_from_inputs(old_inputs);
    let new_policy = validated_from_inputs(new_inputs);
    proof {
        assert forall|k: int| 0 <= k < new_policy@.len() implies (#[trigger] new_policy@[k]).family
            == IpFamily::Ipv4 && new_policy@[k].source_end < 16 && new_policy@[k].port_end < 8 by {
            assert(is_small(new_entries[k]));
            assert(new_policy@[k] == validate::condition_of(new_entries[k]));
        }
    }
    (old_policy, new_policy)
}

pub open spec fn full_rules(state: u64, pair: nat, count: nat) -> Seq<Entry> {
    Seq::new(
        count,
        |i: int| full_rule(random::spun(state, (8 * i) as nat), rule_name('f', pair, i as nat)),
    )
}

/// Some rules on any addresses, and the same with one turned round.
pub open spec fn full_pair(state: u64, pair: nat) -> Pair {
    let count = (2 + random::drawn(state, 1) % 10) as nat;
    let old = full_rules(random::spun(state, 1), pair, count);
    let chosen = random::spun(state, 1 + 8 * count);
    let pick = (random::drawn(chosen, 1) as usize) as int;
    Pair { old, new: turned(old, pick % (count as int)), state: random::spun(chosen, 1) }
}

proof fn lemma_full_pair(state: u64, pair: nat)
    ensures
        are_fair(full_pair(state, pair).old),
        are_fair(full_pair(state, pair).new),
{
    let count = (2 + random::drawn(state, 1) % 10) as nat;
    let old = full_rules(random::spun(state, 1), pair, count);
    assert forall|i: int| 0 <= i < old.len() implies is_fair(#[trigger] old[i]) by {
        let name = rule_name('f', pair, i as nat);
        assert(name[0] == 'f');
        lemma_not_default(name);
        lemma_full_rule(random::spun(random::spun(state, 1), (8 * i) as nat), name);
    }
    assert forall|i: int, j: int| 0 <= i < j < old.len() implies (#[trigger] old[i]).id != (
    #[trigger] old[j]).id by {
        lemma_names_differ('f', pair, i as nat, j as nat);
    }
    let chosen = random::spun(state, 1 + 8 * count);
    let pick = (random::drawn(chosen, 1) as usize) as int;
    lemma_turn_fair(old, pick % (count as int));
}

pub(crate) fn generated_full_pair(random: &mut SplitMix64, pair_index: usize) -> (pair: (
    ValidatedPolicy,
    ValidatedPolicy,
))
    ensures
        pair.0@ == validate::conditions_of(full_pair(old(random).state, pair_index as nat).old),
        pair.1@ == validate::conditions_of(full_pair(old(random).state, pair_index as nat).new),
        final(random).state == full_pair(old(random).state, pair_index as nat).state,
        model::is_valid(pair.0@),
        model::is_valid(pair.1@),
{
    let ghost start = random.state;
    let ghost pair = pair_index as nat;
    let count: usize = 2 + (random.next_u64() % 10) as usize;
    let ghost after = random.state;
    let mut old_inputs: Vec<RuleInput> = Vec::new();
    let mut i: usize = 0;
    while i < count
        invariant
            i == old_inputs@.len() <= count <= 11,
            pair == pair_index,
            random.state == random::spun(after, (8 * i) as nat),
            forall|k: int|
                0 <= k < i ==> (#[trigger] old_inputs@[k])@ == full_rules(
                    after,
                    pair,
                    count as nat,
                )[k],
        decreases count - i,
    {
        let name = name_rule('f', pair_index, i);
        proof {
            random::lemma_spun(after, (8 * i) as nat, 8);
        }
        old_inputs.push(random_full_rule(random, name));
        i = i + 1;
    }
    proof {
        assert(entries_of(old_inputs@) =~= full_rules(after, pair, count as nat));
        random::lemma_spun(start, 1, (8 * count) as nat);
        lemma_full_pair(start, pair);
    }
    let mut new_inputs = copy_rules(&old_inputs);
    let at: usize = (random.next_u64() as usize) % new_inputs.len();
    turn_rule(&mut new_inputs, at);
    assert(entries_of(new_inputs@) == full_pair(start, pair).new);
    (validated_from_inputs(old_inputs), validated_from_inputs(new_inputs))
}

/// Rules drawn so far, and the generator after them.
pub struct Draft {
    pub rules: Seq<Entry>,
    pub state: u64,
}

/// The rule of a pair that comes first, and the generator after it.
pub open spec fn primary(state: u64, pair: nat) -> (Entry, u64) {
    let family = if pair % 2 == 0 {
        IpFamily::Ipv4
    } else {
        IpFamily::Ipv6
    };
    let start: u128 = match family {
        IpFamily::Ipv4 => (0x0a00_0000 + pair / 2) as u128,
        IpFamily::Ipv6 => (0x2001_0db8_0000_0000_0000_0000_0000_0000u128 + pair / 2) as u128,
    };
    let name = "primary-"@ + text::padded(pair, 5);
    let protocol = drawn_protocol(random::drawn(state, 1));
    let cidr = cidr_text(family, start, family.spec_bits());
    if pair == 0 {
        (
            Entry {
                id: name,
                action: Action::Deny,
                family,
                cidr,
                protocol,
                port_start: 0,
                port_end: 65_535,
            },
            random::spun(state, 1),
        )
    } else {
        let first = random::drawn(state, 3) as u16;
        let width = (random::drawn(state, 4) % 1024) as u16;
        (
            Entry {
                id: name,
                action: opposite(drawn_action(random::drawn(state, 2))),
                family,
                cidr,
                protocol,
                port_start: first,
                port_end: if first + width <= 65_535 {
                    (first + width) as u16
                } else {
                    65_535
                },
            },
            random::spun(state, 4),
        )
    }
}

/// The rule that the first one of a pair hides.
pub open spec fn shadow(entry: Entry, pair: nat) -> Entry {
    Entry {
        id: "shadow-"@ + text::padded(pair, 5),
        action: opposite(entry.action),
        ..entry
    }
}

/// The rules of the first pairs, as far as there is room.
pub open spec fn drafted(seed: u64, room: nat, pairs: nat) -> Draft
    decreases pairs,
{
    if pairs == 0 {
        Draft { rules: Seq::empty(), state: seed }
    } else {
        let before = drafted(seed, room, (pairs - 1) as nat);
        let (entry, state) = primary(before.state, (pairs - 1) as nat);
        let grown = before.rules.push(entry);
        if grown.len() < room {
            Draft { rules: grown.push(shadow(entry, (pairs - 1) as nat)), state }
        } else {
            Draft { rules: grown, state }
        }
    }
}

/// The rules of a benchmark.
pub open spec fn benchmark_rules(seed: u64, rule_count: nat) -> Seq<Entry> {
    drafted(seed, rule_count, (rule_count + 1) / 2).rules
}

fn numbered(prefix: &str, pair: usize) -> (name: String)
    ensures
        name@ == prefix@ + text::padded(pair as nat, 5),
{
    let mut name = prefix.to_owned();
    push_padded(&mut name, pair as u64, 5);
    name
}

fn draw_primary(random: &mut SplitMix64, pair: usize) -> (rule: RuleInput)
    requires
        pair / 2 < 0xf600_0000,
    ensures
        (rule@, final(random).state) == primary(old(random).state, pair as nat),
{
    let ghost start_state = random.state;
    proof {
        random::lemma_spun(start_state, 1, 1);
        random::lemma_spun(start_state, 2, 1);
        random::lemma_spun(start_state, 3, 1);
    }
    let family = if pair % 2 == 0 {
        IpFamily::Ipv4
    } else {
        IpFamily::Ipv6
    };
    let protocol = protocol_of(random.next_u64());
    let action = if pair == 0 {
        Action::Deny
    } else {
        opposite_of(action_of(random.next_u64()))
    };
    let half: u128 = (pair / 2) as u128;
    let start: u128 = match family {
        IpFamily::Ipv4 => 0x0a00_0000 + half,
        IpFamily::Ipv6 => 0x2001_0db8_0000_0000_0000_0000_0000_0000 + half,
    };
    let (first, end): (u16, u16) = if pair == 0 {
        (0, 65_535)
    } else {
        let first: u16 = random.next_u64() as u16;
        let width: u16 = (random.next_u64() % 1024) as u16;
        (first, first.saturating_add(width))
    };
    RuleInput {
        id: numbered("primary-", pair),
        action,
        ip_family: family,
        source_cidr: make_cidr(family, start, family.bits()),
        protocol,
        port_start: first,
        port_end: end,
    }
}

/// Two policies of a size, made up from a seed: pairs of rules of which the second
/// is hidden by the first. The proposed policy allows what the first rule denies.
pub fn generate_benchmark_pair(rule_count: usize, seed: u64) -> (pair: (PolicyFile, PolicyFile))
    requires
        0 < rule_count,
        rule_count / 4 < 0xf600_0000,
    ensures
        pair.0@ == benchmark_rules(seed, rule_count as nat),
        pair.1@ == benchmark_rules(seed, rule_count as nat).update(
            0,
            Entry {
                action: Action::Allow,
                ..benchmark_rules(seed, rule_count as nat)[0]
            },
        ),
        pair.0.rules@.len() == rule_count,
{
    let mut rules: Vec<RuleInput> = Vec::new();
    let mut random = SplitMix64::new(seed);
    let mut pair_index: usize = 0;
    assert(entries_of(rules@) =~= Seq::empty());
    while rules.len() < rule_count
        invariant
            rules@.len() <= rule_count,
            rule_count / 4 < 0xf600_0000,
            rules@.len() < rule_count ==> rules@.len() == 2 * pair_index,
            rules@.len() == rule_count ==> pair_index == (rule_count + 1) / 2,
            pair_index <= rules@.len(),
            entries_of(rules@) == drafted(seed, rule_count as nat, pair_index as nat).rules,
            random.state == drafted(seed, rule_count as nat, pair_index as nat).state,
        decreases rule_count - rules@.len(),
    {
        let ghost before = entries_of(rules@);
        let first = draw_primary(&mut random, pair_index);
        let ghost told = first@;
        let mut second = copy_rule(&first);
        rules.push(first);
        assert(entries_of(rules@) =~= before.push(told));
        assert(before.push(told).len() == rules@.len());
        if rules.len() < rule_count {
            second.id = numbered("shadow-", pair_index);
            second.action = opposite_of(second.action);
            let ghost hidden = second@;
            rules.push(second);
            assert(entries_of(rules@) =~= before.push(told).push(hidden));
        }
        pair_index = pair_index + 1;
    }
    let mut proposed = copy_rules(&rules);
    let mut first = copy_rule(&proposed[0]);
    first.action = Action::Allow;
    let ghost copied = entries_of(proposed@);
    let ghost told = first@;
    proposed.set(0, first);
    let old = PolicyFile { rules };
    let new = PolicyFile { rules: proposed };
    proof {
        assert(old@ =~= benchmark_rules(seed, rule_count as nat));
        assert(new@ =~= copied.update(0, told));
    }
    (old, new)
}

} // verus!
