//! Policies from their files.

use vstd::prelude::*;
use crate::chars::chars_of;
use crate::fields;
use crate::fields::{find_char, part_of};
use crate::firewall::model;
use crate::firewall::model::{
    Action, Condition, IpFamily, Packet, PolicyFile, Protocol, Rule, RuleInput, ValidatedPolicy,
};
use crate::ip;
use crate::ip::{parse_v4, parse_v6};
use crate::number;
use crate::number::read_integer;
use crate::text;
use crate::text::{joined, joined3, push_decimal, quoted, rank_texts, same_text};

verus! {

/// The value of the groups of a version six address.
pub open spec fn v6_value(groups: Seq<nat>) -> nat
    decreases groups.len(),
{
    if groups.len() == 0 {
        0
    } else {
        v6_value(groups.drop_last()) * 0x1_0000 + groups.last()
    }
}

/// The address that a text stands for.
pub open spec fn address_of(text: Seq<char>) -> Option<(IpFamily, nat)> {
    match ip::v4_of(text) {
        Some(address) => Some((IpFamily::Ipv4, address)),
        None => match ip::v6_groups(text) {
            Some(groups) => Some((IpFamily::Ipv6, v6_value(groups))),
            None => None,
        },
    }
}

fn value_of_groups(groups: &Vec<u16>) -> (value: u128)
    requires
        groups@.len() == 8,
    ensures
        value == v6_value(ip::group_views(groups@)),
{
    let ghost shown = ip::group_views(groups@);
    let mut value: u128 = 0;
    let mut bound: Ghost<int> = Ghost(1);
    let mut i: usize = 0;
    assert(shown.take(0) =~= Seq::empty());
    while i < 8
        invariant
            i <= 8 == groups@.len(),
            shown == ip::group_views(groups@),
            value == v6_value(shown.take(i as int)),
            value < bound@,
            i == 0 ==> bound@ == 1,
            i == 1 ==> bound@ == 0x1_0000,
            i == 2 ==> bound@ == 0x1_0000_0000,
            i == 3 ==> bound@ == 0x1_0000_0000_0000,
            i == 4 ==> bound@ == 0x1_0000_0000_0000_0000int,
            i == 5 ==> bound@ == 0x1_0000_0000_0000_0000_0000int,
            i == 6 ==> bound@ == 0x1_0000_0000_0000_0000_0000_0000int,
            i == 7 ==> bound@ == 0x1_0000_0000_0000_0000_0000_0000_0000int,
        decreases 8 - i,
    {
        proof {
            assert(shown.take(i + 1).drop_last() =~= shown.take(i as int));
            assert(shown[i as int] == groups@[i as int]);
        }
        value = value * 0x1_0000 + groups[i] as u128;
        proof {
            bound@ = bound@ * 0x1_0000;
        }
        i = i + 1;
    }
    assert(shown.take(8) =~= shown);
    value
}

/// Reads an address.
pub fn parse_address(text: &Vec<char>) -> (address: Option<(IpFamily, u128)>)
    ensures
        match address {
            Some((family, value)) => address_of(text@) == Some((family, value as nat)),
            None => address_of(text@) is None,
        },
        address matches Some((IpFamily::Ipv4, value)) ==> value <= 0xffff_ffff,
{
    match parse_v4(text) {
        Some(address) => Some((IpFamily::Ipv4, address as u128)),
        None => match parse_v6(text) {
            Some(groups) => Some((IpFamily::Ipv6, value_of_groups(&groups))),
            None => None,
        },
    }
}

pub open spec fn family_name(family: IpFamily) -> Seq<char> {
    match family {
        IpFamily::Ipv4 => "Ipv4"@,
        IpFamily::Ipv6 => "Ipv6"@,
    }
}

pub fn name_family(family: IpFamily) -> (name: &'static str)
    ensures
        name@ == family_name(family),
{
    match family {
        IpFamily::Ipv4 => "Ipv4",
        IpFamily::Ipv6 => "Ipv6",
    }
}

/// The addresses of a block with a number of free bits.
pub open spec fn block_size(free: nat) -> nat
    decreases free,
{
    if free == 0 {
        1
    } else {
        2 * block_size((free - 1) as nat)
    }
}

pub proof fn lemma_block_size(n: nat, m: nat)
    requires
        n <= m,
    ensures
        0 < block_size(n) <= block_size(m),
    decreases m,
{
    if n < m {
        lemma_block_size(n, (m - 1) as nat);
    } else if n > 0 {
        lemma_block_size((n - 1) as nat, (n - 1) as nat);
    }
}

pub proof fn lemma_block_values()
    ensures
        block_size(32) == 0x1_0000_0000,
        block_size(127) == 0x8000_0000_0000_0000_0000_0000_0000_0000nat,
        block_size(128) == 0x1_0000_0000_0000_0000_0000_0000_0000_0000nat,
{
    reveal_with_fuel(block_size, 33);
    assert(block_size(32) == 0x1_0000_0000);
    lemma_block_sum(32, 32);
    assert(block_size(64) == 0x1_0000_0000_0000_0000nat);
    lemma_block_sum(64, 32);
    assert(block_size(96) == 0x1_0000_0000_0000_0000_0000_0000nat);
    lemma_block_sum(96, 31);
    assert(block_size(31) == 0x8000_0000);
}

proof fn lemma_block_sum(a: nat, b: nat)
    ensures
        block_size(a + b) == block_size(a) * block_size(b),
    decreases b,
{
    if b > 0 {
        lemma_block_sum(a, (b - 1) as nat);
        let x = block_size(a);
        let y = block_size((b - 1) as nat);
        assert(2 * (x * y) == x * (2 * y)) by (nonlinear_arith);
    } else {
        assert(block_size(a) * 1 == block_size(a)) by (nonlinear_arith);
    }
}

pub open spec fn malformed(cidr: Seq<char>, why: Seq<char>) -> Seq<char> {
    "malformed CIDR "@ + text::quoted_text(cidr) + why
}

/// The first and the last address of a block in canonical form, or what is wrong
/// with it.
pub open spec fn cidr_of(cidr: Seq<char>, family: IpFamily) -> Result<(u128, u128), Seq<char>> {
    let slash = fields::find(cidr, '/', 0);
    if slash >= cidr.len() {
        Err(malformed(cidr, ": missing '/'"@))
    } else if fields::find(cidr, '/', slash + 1) < cidr.len() {
        Err(malformed(cidr, ": too many '/' separators"@))
    } else {
        match address_of(cidr.subrange(0, slash)) {
            None => Err(malformed(cidr, ": invalid address"@)),
            Some((actual, raw)) => match number::integer_within(
                cidr.subrange(slash + 1, cidr.len() as int),
                255,
            ) {
                None => Err(malformed(cidr, ": invalid prefix length"@)),
                Some(prefix) => if actual != family {
                    Err(
                        "CIDR family "@ + family_name(actual) + " does not match declared family "@
                            + family_name(family),
                    )
                } else if prefix > family.spec_bits() {
                    Err(
                        "CIDR prefix /"@ + text::decimal(prefix) + " exceeds "@ + text::decimal(
                            family.spec_bits(),
                        ) + "-bit "@ + family_name(family) + " width"@,
                    )
                } else {
                    let size = block_size((family.spec_bits() - prefix) as nat);
                    if raw % size != 0 {
                        Err("CIDR "@ + text::quoted_text(cidr) + " is not canonical"@)
                    } else {
                        Ok((raw as u128, (raw + size - 1) as u128))
                    }
                },
            },
        }
    }
}

pub fn size_of_block(free: u8) -> (size: u128)
    requires
        free <= 127,
    ensures
        size == block_size(free as nat),
{
    let mut size: u128 = 1;
    let mut i: u8 = 0;
    while i < free
        invariant
            i <= free <= 127,
            size == block_size(i as nat),
        decreases free - i,
    {
        proof {
            lemma_block_values();
            lemma_block_size((i + 1) as nat, 127);
        }
        size = size * 2;
        i = i + 1;
    }
    size
}

fn malformed_error(cidr: &str, why: &str) -> (error: String)
    ensures
        error@ == malformed(cidr@, why@),
{
    joined3("malformed CIDR ", quoted(cidr).as_str(), why)
}

/// A block that stays within its family.
proof fn lemma_block_fits(family: IpFamily, raw: nat, prefix: nat)
    requires
        prefix <= family.spec_bits(),
        raw <= family.spec_maximum(),
        raw % block_size((family.spec_bits() - prefix) as nat) == 0,
    ensures
        raw + block_size((family.spec_bits() - prefix) as nat) - 1 <= family.spec_maximum(),
{
    let bits = family.spec_bits();
    let free = (bits - prefix) as nat;
    let size = block_size(free);
    let count = block_size(prefix);
    lemma_block_values();
    lemma_block_sum(free, prefix);
    lemma_block_size(0, free);
    lemma_block_size(0, prefix);
    assert(size * count == block_size(bits));
    let k = raw / size;
    assert(raw == size * k) by (nonlinear_arith)
        requires
            raw % size == 0,
            size > 0,
            k == raw / size,
    ;
    assert(k < count) by (nonlinear_arith)
        requires
            size * k < size * count,
            size > 0,
    ;
    assert(size * k + size <= size * count) by (nonlinear_arith)
        requires
            k < count,
            size > 0,
    ;
}

/// A block is a power of two of addresses that begins at a multiple of it.
pub open spec fn is_aligned(low: u128, high: u128, bits: nat) -> bool {
    exists|free: nat|
        {
            &&& free <= bits
            &&& high - low + 1 == #[trigger] vstd::arithmetic::power2::pow2(free)
            &&& low as nat % vstd::arithmetic::power2::pow2(free) == 0
        }
}

proof fn lemma_power(free: nat)
    ensures
        block_size(free) == vstd::arithmetic::power2::pow2(free),
    decreases free,
{
    if free == 0 {
        vstd::arithmetic::power2::lemma2_to64();
    } else {
        lemma_power((free - 1) as nat);
        vstd::arithmetic::power2::lemma_pow2_unfold(free);
    }
}

/// Reads a block of addresses in canonical form.
pub fn parse_canonical_cidr(cidr: &str, family: IpFamily) -> (result: Result<(u128, u128), String>)
    ensures
        match result {
            Ok(block) => cidr_of(cidr@, family) == Ok::<(u128, u128), Seq<char>>(block) && block.0
                <= block.1 <= family.spec_maximum() && is_aligned(
                block.0,
                block.1,
                family.spec_bits(),
            ),
            Err(error) => cidr_of(cidr@, family) == Err::<(u128, u128), Seq<char>>(error@),
        },
{
    let text = chars_of(cidr);
    let slash = find_char(&text, '/', 0);
    if slash >= text.len() {
        return Err(malformed_error(cidr, ": missing '/'"));
    }
    if find_char(&text, '/', slash + 1) < text.len() {
        return Err(malformed_error(cidr, ": too many '/' separators"));
    }
    let front = part_of(&text, 0, slash);
    let (actual, raw) = match parse_address(&front) {
        Some(address) => address,
        None => {
            return Err(malformed_error(cidr, ": invalid address"));
        },
    };
    let prefix: u8 = match read_integer(&text, slash + 1, text.len(), 255) {
        Some(prefix) => prefix as u8,
        None => {
            return Err(malformed_error(cidr, ": invalid prefix length"));
        },
    };
    if actual != family {
        let mut error = joined3(
            "CIDR family ",
            name_family(actual),
            " does not match declared family ",
        );
        error.append(name_family(family));
        return Err(error);
    }
    let bits = family.bits();
    if prefix > bits {
        let mut error = "CIDR prefix /".to_owned();
        push_decimal(&mut error, prefix as u64);
        error.append(" exceeds ");
        push_decimal(&mut error, bits as u64);
        error.append("-bit ");
        error.append(name_family(family));
        error.append(" width");
        return Err(error);
    }
    let free: u8 = bits - prefix;
    proof {
        lemma_block_values();
        lemma_block_size(0, free as nat);
        lemma_power(free as nat);
    }
    if free == 128 {
        proof {
            if raw != 0 {
                assert(raw as nat % block_size(128) == raw) by (nonlinear_arith)
                    requires
                        0 <= raw < block_size(128),
                ;
            } else {
                assert(0nat % block_size(128) == 0) by (nonlinear_arith)
                    requires
                        block_size(128) > 0,
                ;
            }
        }
        if raw != 0 {
            return Err(joined3("CIDR ", quoted(cidr).as_str(), " is not canonical"));
        }
        proof {
            assert(u128::MAX - 0 + 1 == vstd::arithmetic::power2::pow2(128));
            assert(0nat % vstd::arithmetic::power2::pow2(128) == 0);
            assert(is_aligned(0, u128::MAX, family.spec_bits()));
        }
        return Ok((0, u128::MAX));
    }
    let size = size_of_block(free);
    if raw % size != 0 {
        return Err(joined3("CIDR ", quoted(cidr).as_str(), " is not canonical"));
    }
    proof {
        lemma_block_fits(family, raw as nat, prefix as nat);
        assert((raw + (size - 1)) - raw + 1 == vstd::arithmetic::power2::pow2(free as nat));
        assert(is_aligned(raw, (raw + (size - 1)) as u128, family.spec_bits()));
    }
    Ok((raw, raw + (size - 1)))
}

/// A rule of a file as plain values.
pub struct Entry {
    pub id: Seq<char>,
    pub action: Action,
    pub family: IpFamily,
    pub cidr: Seq<char>,
    pub protocol: Protocol,
    pub port_start: u16,
    pub port_end: u16,
}

impl View for RuleInput {
    type V = Entry;

    open spec fn view(&self) -> Entry {
        Entry {
            id: self.id@,
            action: self.action,
            family: self.ip_family,
            cidr: self.source_cidr@,
            protocol: self.protocol,
            port_start: self.port_start,
            port_end: self.port_end,
        }
    }
}

impl View for PolicyFile {
    type V = Seq<Entry>;

    open spec fn view(&self) -> Seq<Entry> {
        self.rules@.map_values(|rule: RuleInput| rule@)
    }
}

/// Where a rule stands.
pub open spec fn location(label: Seq<char>, index: nat, id: Seq<char>) -> Seq<char> {
    label + ": rule["@ + text::decimal(index) + "] id="@ + text::quoted_text(id)
}

/// An earlier rule has a name that counts, and it is the same.
pub open spec fn is_taken(entries: Seq<Entry>, index: int) -> bool {
    exists|k: int| 0 <= k < index && (#[trigger] entries[k]).id == entries[index].id
}

/// What is wrong with the name of a rule.
pub open spec fn id_errors(label: Seq<char>, entries: Seq<Entry>, index: int) -> Seq<Seq<char>> {
    let id = entries[index].id;
    let at = location(label, index as nat, id);
    if id.len() == 0 {
        seq![at + ": id must not be empty"@]
    } else if id == "default-deny"@ {
        seq![at + ": id is reserved for the implicit default-deny decision"@]
    } else if is_taken(entries, index) {
        seq![at + ": duplicate rule id"@]
    } else {
        Seq::empty()
    }
}

pub open spec fn port_errors(label: Seq<char>, entries: Seq<Entry>, index: int) -> Seq<Seq<char>> {
    let entry = entries[index];
    if entry.port_start > entry.port_end {
        seq![
            location(label, index as nat, entry.id) + ": reversed destination-port range "@
                + text::decimal(entry.port_start as nat) + ".."@ + text::decimal(
                entry.port_end as nat,
            ),
        ]
    } else {
        Seq::empty()
    }
}

pub open spec fn cidr_errors(label: Seq<char>, entries: Seq<Entry>, index: int) -> Seq<Seq<char>> {
    let entry = entries[index];
    match cidr_of(entry.cidr, entry.family) {
        Ok(_) => Seq::empty(),
        Err(error) => seq![location(label, index as nat, entry.id) + ": "@ + error],
    }
}

/// What is wrong with a rule.
pub open spec fn rule_errors(label: Seq<char>, entries: Seq<Entry>, index: int) -> Seq<Seq<char>> {
    id_errors(label, entries, index) + port_errors(label, entries, index) + cidr_errors(
        label,
        entries,
        index,
    )
}

/// What is wrong with the first `n` rules.
pub open spec fn policy_errors(label: Seq<char>, entries: Seq<Entry>, n: nat) -> Seq<Seq<char>>
    decreases n,
{
    if n == 0 {
        Seq::empty()
    } else {
        policy_errors(label, entries, (n - 1) as nat) + rule_errors(label, entries, n - 1)
    }
}

/// The rule that an entry stands for.
pub open spec fn condition_of(entry: Entry) -> Condition {
    let block = cidr_of(entry.cidr, entry.family)->Ok_0;
    Condition {
        id: entry.id,
        action: entry.action,
        family: entry.family,
        source_start: block.0,
        source_end: block.1,
        protocol: entry.protocol,
        port_start: entry.port_start,
        port_end: entry.port_end,
    }
}

pub open spec fn conditions_of(entries: Seq<Entry>) -> Seq<Condition> {
    entries.map_values(|entry: Entry| condition_of(entry))
}

fn push_text(errors: &mut Vec<String>, error: String)
    ensures
        model::texts(final(errors)@) == model::texts(old(errors)@).push(error@),
{
    errors.push(error);
    assert(model::texts(errors@) =~= model::texts(old(errors)@).push(error@));
}

fn locate(label: &str, index: usize, id: &str) -> (at: String)
    ensures
        at@ == location(label@, index as nat, id@),
{
    let mut at = joined(label, ": rule[");
    push_decimal(&mut at, index as u64);
    at.append("] id=");
    at.append(quoted(id).as_str());
    at
}

/// Which names are taken when their rules come.
fn taken_names(file: &PolicyFile) -> (taken: Vec<bool>)
    ensures
        taken@.len() == file.rules@.len(),
        forall|i: int| 0 <= i < taken@.len() ==> (#[trigger] taken@[i]) == is_taken(file@, i),
{
    let ghost entries = file@;
    let mut names: Vec<&str> = Vec::new();
    let mut i: usize = 0;
    while i < file.rules.len()
        invariant
            i <= file.rules@.len(),
            entries == file@,
            names@.len() == i,
            forall|k: int| 0 <= k < i ==> (#[trigger] names@[k])@ == entries[k].id,
        decreases file.rules@.len() - i,
    {
        assert(entries[i as int] == file.rules@[i as int]@);
        names.push(file.rules[i].id.as_str());
        i = i + 1;
    }
    let ranks = rank_texts(&names);
    let count: usize = names.len();
    let mut seen: Vec<bool> = Vec::new();
    let mut k: usize = 0;
    while k < count
        invariant
            k <= count,
            seen@.len() == k,
            forall|m: int| 0 <= m < k ==> !(#[trigger] seen@[m]),
        decreases count - k,
    {
        seen.push(false);
        k = k + 1;
    }
    let mut taken: Vec<bool> = Vec::new();
    let mut j: usize = 0;
    while j < count
        invariant
            j <= count == names@.len() == seen@.len(),
            count == file.rules@.len() == entries.len(),
            entries == file@,
            text::ranks_of(ranks@, names@),
            forall|m: int| 0 <= m < count ==> (#[trigger] names@[m])@ == entries[m].id,
            forall|r: int|
                0 <= r < count ==> (#[trigger] seen@[r]) == exists|m: int|
                    0 <= m < j && #[trigger] ranks@[m] == r,
            taken@.len() == j,
            forall|m: int| 0 <= m < j ==> (#[trigger] taken@[m]) == is_taken(entries, m),
        decreases count - j,
    {
        let rank = ranks[j];
        let ghost before = seen@;
        proof {
            assert(ranks@[j as int] < count);
            assert(names@[j as int]@ == entries[j as int].id);
            if before[rank as int] {
                let m = choose|m: int| 0 <= m < j && #[trigger] ranks@[m] == rank;
                assert(names@[m]@ == entries[m].id);
                assert(names@[m]@ == names@[j as int]@);
            }
            if is_taken(entries, j as int) {
                let m = choose|m: int|
                    0 <= m < j && (#[trigger] entries[m]).id == entries[j as int].id;
                assert(names@[m]@ == entries[m].id);
                assert(ranks@[m] == rank);
            }
        }
        taken.push(seen[rank]);
        seen.set(rank, true);
        proof {
            assert forall|r: int| 0 <= r < count implies (#[trigger] seen@[r]) == exists|m: int|
                0 <= m < j + 1 && #[trigger] ranks@[m] == r by {
                if r == rank {
                    assert(ranks@[j as int] == r);
                } else if before[r] {
                    let m = choose|m: int| 0 <= m < j && #[trigger] ranks@[m] == r;
                    assert(ranks@[m] == r);
                }
            }
        }
        j = j + 1;
    }
    taken
}

/// Validates the rules of a file. All that is wrong with them is told.
pub fn validate_policy(file: &PolicyFile, label: &str) -> (result: Result<
    ValidatedPolicy,
    Vec<String>,
>)
    ensures
        ({
            let errors = policy_errors(label@, file@, file@.len());
            match result {
                Ok(policy) => errors.len() == 0 && policy@ == conditions_of(file@)
                    && model::is_valid(policy@),
                Err(told) => errors.len() > 0 && model::texts(told@) == errors,
            }
        }),
{
    let ghost entries = file@;
    let taken = taken_names(file);
    let mut errors: Vec<String> = Vec::new();
    let mut rules: Vec<Rule> = Vec::new();
    let mut i: usize = 0;
    assert(model::texts(errors@) =~= Seq::empty());
    while i < file.rules.len()
        invariant
            i <= file.rules@.len() == taken@.len(),
            entries == file@,
            forall|k: int| 0 <= k < taken@.len() ==> (#[trigger] taken@[k]) == is_taken(entries, k),
            model::texts(errors@) == policy_errors(label@, entries, i as nat),
            errors@.len() == 0 ==> rules@.len() == i && forall|k: int|
                0 <= k < i ==> (#[trigger] rules@[k])@ == condition_of(entries[k])
                    && model::is_proper(rules@[k]@) && !is_taken(entries, k),
        decreases file.rules@.len() - i,
    {
        let rule = &file.rules[i];
        let ghost given = model::texts(errors@);
        let ghost kept = rules@;
        assert(entries[i as int] == rule@);
        let at = locate(label, i, rule.id.as_str());
        if rule.id.as_str().is_empty() {
            push_text(&mut errors, joined(at.as_str(), ": id must not be empty"));
        } else if same_text(rule.id.as_str(), "default-deny") {
            push_text(
                &mut errors,
                joined(
                    at.as_str(),
                    ": id is reserved for the implicit default-deny decision",
                ),
            );
        } else if taken[i] {
            push_text(&mut errors, joined(at.as_str(), ": duplicate rule id"));
        }
        assert(model::texts(errors@) =~= given + id_errors(label@, entries, i as int));
        if rule.port_start > rule.port_end {
            let mut error = joined(at.as_str(), ": reversed destination-port range ");
            push_decimal(&mut error, rule.port_start as u64);
            error.append("..");
            push_decimal(&mut error, rule.port_end as u64);
            push_text(&mut errors, error);
        }
        assert(model::texts(errors@) =~= given + id_errors(label@, entries, i as int)
            + port_errors(label@, entries, i as int));
        match parse_canonical_cidr(rule.source_cidr.as_str(), rule.ip_family) {
            Ok((source_start, source_end)) => {
                rules.push(
                    Rule {
                        id: rule.id.as_str().to_owned(),
                        action: rule.action,
                        family: rule.ip_family,
                        source_start,
                        source_end,
                        protocol: rule.protocol,
                        port_start: rule.port_start,
                        port_end: rule.port_end,
                    },
                );
            },
            Err(error) => {
                push_text(&mut errors, joined3(at.as_str(), ": ", error.as_str()));
            },
        }
        proof {
            assert(model::texts(errors@) =~= given + rule_errors(label@, entries, i as int));
            assert(model::texts(errors@).len() == errors@.len());
            if errors@.len() == 0 {
                assert(given.len() == 0);
                assert(id_errors(label@, entries, i as int).len() == 0);
                assert(port_errors(label@, entries, i as int).len() == 0);
                assert(rules@ == kept.push(rules@.last()));
                assert forall|k: int| 0 <= k < i + 1 implies (#[trigger] rules@[k])@
                    == condition_of(entries[k]) && model::is_proper(rules@[k]@) && !is_taken(
                    entries,
                    k,
                ) by {
                    if k < i {
                        assert(rules@[k] == kept[k]);
                    }
                }
            }
        }
        i = i + 1;
    }
    assert(model::texts(errors@).len() == errors@.len());
    if errors.len() == 0 {
        let policy = ValidatedPolicy { rules };
        proof {
            assert(policy@ =~= conditions_of(entries));
            assert forall|a: int, b: int| 0 <= a < b < policy@.len() implies (
            #[trigger] policy@[a]).id != (#[trigger] policy@[b]).id by {
                assert(policy@[a] == rules@[a]@ && policy@[b] == rules@[b]@);
                assert(entries[a].id == policy@[a].id);
                assert(!is_taken(entries, b));
            }
            assert forall|k: int| 0 <= k < policy@.len() implies model::is_proper(
                #[trigger] policy@[k],
            ) by {
                assert(policy@[k] == rules@[k]@);
            }
        }
        Ok(policy)
    } else {
        Err(errors)
    }
}

/// The packet that a source, a protocol and a port stand for.
pub open spec fn packet_of(source_ip: Seq<char>, protocol: Protocol, port: u16) -> Result<
    Packet,
    Seq<char>,
> {
    match address_of(source_ip) {
        Some((family, source)) => Ok(
            Packet { family, source: source as u128, protocol, destination_port: port },
        ),
        None => Err("invalid packet source_ip "@ + text::quoted_text(source_ip)),
    }
}

/// Reads a packet.
pub fn parse_packet(source_ip: &str, protocol: Protocol, destination_port: u16) -> (result: Result<
    Packet,
    String,
>)
    ensures
        match result {
            Ok(packet) => packet_of(source_ip@, protocol, destination_port) == Ok::<
                Packet,
                Seq<char>,
            >(packet),
            Err(error) => packet_of(source_ip@, protocol, destination_port) == Err::<
                Packet,
                Seq<char>,
            >(error@),
        },
{
    match parse_address(&chars_of(source_ip)) {
        Some((family, source)) => Ok(Packet { family, source, protocol, destination_port }),
        None => Err(joined("invalid packet source_ip ", quoted(source_ip).as_str())),
    }
}

} // verus!
