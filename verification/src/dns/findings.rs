//! What is to be said of a zone and of its changes.

use vstd::prelude::*;
use crate::chars;
use crate::chars::chars_of;
use crate::dns::changes;
use crate::dns::changes::{Change, Difference};
use crate::dns::policy::{ZonePolicy, ZoneRule};
use crate::dns::table;
use crate::dns::table::{Key, RecordKey, RecordTable};
use crate::dns::zone::Limits;
use crate::number;
use crate::number::read_integer;
use crate::seqs;
use crate::text;
use crate::text::{joined3, push_decimal, same_text, sorted_unique};

verus! {

#[derive(Debug, Clone, Copy, PartialEq, Eq, Structural)]
pub enum Verdict {
    Allow,
    Review,
    Block,
}

#[derive(Debug, Clone)]
pub struct Finding {
    pub code: &'static str,
    pub verdict: Verdict,
    pub owner: String,
    pub record_types: Vec<String>,
    pub detail: String,
}

/// A finding as plain values.
#[verifier::ext_equal]
pub struct Remark {
    pub code: Seq<char>,
    pub verdict: Verdict,
    pub owner: Seq<char>,
    pub record_types: Seq<Seq<char>>,
    pub detail: Seq<char>,
}

pub open spec fn type_views(types: Seq<String>) -> Seq<Seq<char>> {
    types.map_values(|name: String| name@)
}

impl View for Finding {
    type V = Remark;

    open spec fn view(&self) -> Remark {
        Remark {
            code: self.code@,
            verdict: self.verdict,
            owner: self.owner@,
            record_types: type_views(self.record_types@),
            detail: self.detail@,
        }
    }
}

pub open spec fn remarks(findings: Seq<Finding>) -> Seq<Remark> {
    findings.map_values(|finding: Finding| finding@)
}

fn push_finding(findings: &mut Vec<Finding>, finding: Finding)
    ensures
        remarks(final(findings)@) == remarks(old(findings)@).push(finding@),
{
    findings.push(finding);
    assert(remarks(findings@) =~= remarks(old(findings)@).push(finding@));
}

/// A list of one type.
fn one_type(name: &str) -> (types: Vec<String>)
    ensures
        type_views(types@) == seq![name@],
{
    let mut types: Vec<String> = Vec::new();
    types.push(name.to_owned());
    assert(type_views(types@) =~= seq![name@]);
    types
}

/// The keys of a zone in order.
pub open spec fn keys(zone: RecordTable) -> Seq<Key> {
    zone.entries@.map_values(|held: table::Held| held.key@)
}

/// A failure of either snapshot before the comparison.
pub open spec fn baseline_remarks(selected: ZoneRule) -> Seq<Remark> {
    if selected.old_baseline != "PASS"@ || selected.new_baseline != "PASS"@ {
        seq![
            Remark {
                code: "BASELINE_FAILURE"@,
                verdict: Verdict::Block,
                owner: selected.zone,
                record_types: Seq::empty(),
                detail: "named-checkzone old="@ + selected.old_baseline + " new="@
                    + selected.new_baseline + "; a baseline failure cannot be allowed"@,
            },
        ]
    } else {
        Seq::empty()
    }
}

fn check_baseline(selected: &ZonePolicy, findings: &mut Vec<Finding>)
    ensures
        remarks(final(findings)@) == remarks(old(findings)@) + baseline_remarks(selected@),
{
    if !same_text(selected.old_baseline.as_str(), "PASS") || !same_text(
        selected.new_baseline.as_str(),
        "PASS",
    ) {
        let mut detail = joined3(
            "named-checkzone old=",
            selected.old_baseline.as_str(),
            " new=",
        );
        detail.append(selected.new_baseline.as_str());
        detail.append("; a baseline failure cannot be allowed");
        let record_types: Vec<String> = Vec::new();
        assert(type_views(record_types@) =~= Seq::empty());
        push_finding(
            findings,
            Finding {
                code: "BASELINE_FAILURE",
                verdict: Verdict::Block,
                owner: selected.zone.as_str().to_owned(),
                record_types,
                detail,
            },
        );
    }
    assert(remarks(findings@) =~= remarks(old(findings)@) + baseline_remarks(selected@));
}

/// The keys of an owner and a type.
pub open spec fn is_of(owner: Seq<char>, record_type: Seq<char>) -> spec_fn(Key) -> bool {
    |key: Key| key.owner == owner && key.record_type == record_type
}

fn count_of(zone: &RecordTable, owner: &str, record_type: &str) -> (count: usize)
    ensures
        count == keys(*zone).filter(is_of(owner@, record_type@)).len(),
{
    let ghost all = keys(*zone);
    let ghost keep = is_of(owner@, record_type@);
    let mut count: usize = 0;
    let mut i: usize = 0;
    assert(all.take(0).filter(keep) =~= Seq::empty());
    while i < zone.entries.len()
        invariant
            i <= zone.entries@.len(),
            all == keys(*zone),
            keep == is_of(owner@, record_type@),
            count == all.take(i as int).filter(keep).len(),
            count <= i,
        decreases zone.entries@.len() - i,
    {
        let key = &zone.entries[i].key;
        proof {
            assert(all[i as int] == key@);
            seqs::lemma_filter_step(all, keep, i as int);
        }
        if same_text(key.owner.as_str(), owner) && same_text(
            key.record_type.as_str(),
            record_type,
        ) {
            count = count + 1;
        }
        i = i + 1;
    }
    assert(all.take(all.len() as int) =~= all);
    count
}

/// A zone has one start of authority and a name server at its apex.
pub open spec fn apex_remarks(selected: ZoneRule, zone: RecordTable) -> Seq<Remark> {
    let authorities = keys(zone).filter(is_of(selected.zone, "SOA"@)).len();
    let servers = keys(zone).filter(is_of(selected.zone, "NS"@)).len();
    (if authorities != 1 {
        seq![
            Remark {
                code: "APEX_SOA_COUNT"@,
                verdict: Verdict::Block,
                owner: selected.zone,
                record_types: seq!["SOA"@],
                detail: "apex requires exactly one canonical SOA record; found "@ + text::decimal(
                    authorities,
                ),
            },
        ]
    } else {
        Seq::empty()
    }) + (if servers == 0 {
        seq![
            Remark {
                code: "APEX_NS_MISSING"@,
                verdict: Verdict::Block,
                owner: selected.zone,
                record_types: seq!["NS"@],
                detail: "apex requires at least one NS record"@,
            },
        ]
    } else {
        Seq::empty()
    })
}

fn check_apex(selected: &ZonePolicy, zone: &RecordTable, findings: &mut Vec<Finding>)
    ensures
        remarks(final(findings)@) == remarks(old(findings)@) + apex_remarks(selected@, *zone),
{
    let authorities = count_of(zone, selected.zone.as_str(), "SOA");
    if authorities != 1 {
        let mut detail = "apex requires exactly one canonical SOA record; found ".to_owned();
        push_decimal(&mut detail, authorities as u64);
        push_finding(
            findings,
            Finding {
                code: "APEX_SOA_COUNT",
                verdict: Verdict::Block,
                owner: selected.zone.as_str().to_owned(),
                record_types: one_type("SOA"),
                detail,
            },
        );
    }
    let servers = count_of(zone, selected.zone.as_str(), "NS");
    if servers == 0 {
        push_finding(
            findings,
            Finding {
                code: "APEX_NS_MISSING",
                verdict: Verdict::Block,
                owner: selected.zone.as_str().to_owned(),
                record_types: one_type("NS"),
                detail: "apex requires at least one NS record".to_owned(),
            },
        );
    }
    assert(remarks(findings@) =~= remarks(old(findings)@) + apex_remarks(selected@, *zone));
}

/// The types of the records of an owner.
pub open spec fn types_of(all: Seq<Key>, owner: Seq<char>) -> Set<Seq<char>> {
    Set::new(
        |name: Seq<char>|
            exists|i: int|
                0 <= i < all.len() && (#[trigger] all[i]).owner == owner && all[i].record_type
                    == name,
    )
}

/// The first alias of its owner stands at a place.
pub open spec fn first_alias(all: Seq<Key>, i: int) -> bool {
    &&& all[i].record_type == "CNAME"@
    &&& !(i > 0 && all[i - 1].owner == all[i].owner && all[i - 1].record_type == "CNAME"@)
}

/// An alias whose owner has other data, at a place.
pub open spec fn alias_remark(all: Seq<Key>, i: int) -> Seq<Remark> {
    let types = text::in_order(types_of(all, all[i].owner));
    if first_alias(all, i) && types.len() > 1 {
        seq![
            Remark {
                code: "CNAME_COEXISTENCE"@,
                verdict: Verdict::Block,
                owner: all[i].owner,
                record_types: types,
                detail: "CNAME owner also has other data"@,
            },
        ]
    } else {
        Seq::empty()
    }
}

pub open spec fn alias_remarks(all: Seq<Key>, n: nat) -> Seq<Remark>
    decreases n,
{
    if n == 0 {
        Seq::empty()
    } else {
        alias_remarks(all, (n - 1) as nat) + alias_remark(all, n - 1)
    }
}

/// Records of one owner stand together.
proof fn lemma_together(zone: RecordTable, a: int, b: int, c: int)
    requires
        zone.sound(),
        0 <= a <= b <= c < zone.entries@.len(),
        zone.entries@[a].key@.owner == zone.entries@[c].key@.owner,
    ensures
        zone.entries@[b].key@.owner == zone.entries@[a].key@.owner,
{
    if a < b && b < c {
        let x = zone.entries@[a].key@;
        let y = zone.entries@[b].key@;
        let z = zone.entries@[c].key@;
        assert(table::key_lt(x, y));
        assert(table::key_lt(y, z));
        text::lemma_text_total(x.owner, y.owner);
        text::lemma_text_total(y.owner, z.owner);
    }
}

fn collect_types(zone: &RecordTable, at: usize) -> (types: Vec<String>)
    requires
        zone.sound(),
        at < zone.entries@.len(),
    ensures
        type_views(types@) == text::in_order(types_of(keys(*zone), keys(*zone)[at as int].owner)),
{
    let ghost all = keys(*zone);
    let owner = zone.entries[at].key.owner.as_str();
    assert(all[at as int].owner == owner@);
    let mut low: usize = at;
    while low > 0 && same_text(zone.entries[low - 1].key.owner.as_str(), owner)
        invariant
            low <= at < zone.entries@.len(),
            all == keys(*zone),
            zone.sound(),
            owner@ == all[at as int].owner,
            all[low as int].owner == owner@,
        decreases low,
    {
        low = low - 1;
        assert(all[low as int] == zone.entries@[low as int].key@);
    }
    let mut found: Vec<&str> = Vec::new();
    let mut i: usize = low;
    while i < zone.entries.len() && same_text(zone.entries[i].key.owner.as_str(), owner)
        invariant
            low <= i <= zone.entries@.len(),
            low <= at,
            all == keys(*zone),
            owner@ == all[at as int].owner,
            found@.len() == i - low,
            forall|k: int| low <= k < i ==> (#[trigger] all[k]).owner == owner@,
            forall|k: int|
                0 <= k < found@.len() ==> (#[trigger] found@[k])@ == all[k + low].record_type,
        decreases zone.entries@.len() - i,
    {
        assert(all[i as int] == zone.entries@[i as int].key@);
        found.push(zone.entries[i].key.record_type.as_str());
        i = i + 1;
    }
    let types = sorted_unique(&found);
    proof {
        assert(text::text_set(found@) =~= types_of(all, owner@)) by {
            assert forall|name: Seq<char>| #[trigger] text::text_set(found@).contains(name)
                <==> types_of(all, owner@).contains(name) by {
                if text::text_set(found@).contains(name) {
                    let k = choose|k: int| 0 <= k < found@.len() && (#[trigger] found@[k])@ == name;
                    assert(all[k + low].owner == owner@);
                }
                if types_of(all, owner@).contains(name) {
                    let k = choose|k: int|
                        0 <= k < all.len() && (#[trigger] all[k]).owner == owner@
                            && all[k].record_type == name;
                    assert(all[k] == zone.entries@[k].key@);
                    assert(all[at as int] == zone.entries@[at as int].key@);
                    if k < low {
                        lemma_together(*zone, k, low - 1, at as int);
                        assert(all[low - 1] == zone.entries@[low - 1].key@);
                        assert(false);
                    }
                    if k >= i {
                        assert(i > at) by {
                            if i <= at {
                                lemma_together(*zone, low as int, i as int, at as int);
                                assert(all[low as int] == zone.entries@[low as int].key@);
                            }
                        }
                        lemma_together(*zone, at as int, i as int, k);
                        assert(false);
                    }
                    assert(found@[k - low]@ == name);
                }
            }
        }
        assert(type_views(types@) =~= types@.map_values(|s: String| s@));
    }
    types
}

fn check_aliases(zone: &RecordTable, findings: &mut Vec<Finding>)
    requires
        zone.sound(),
    ensures
        remarks(final(findings)@) == remarks(old(findings)@) + alias_remarks(
            keys(*zone),
            keys(*zone).len(),
        ),
{
    let ghost all = keys(*zone);
    let ghost given = remarks(findings@);
    let mut i: usize = 0;
    assert(given + alias_remarks(all, 0) =~= given);
    while i < zone.entries.len()
        invariant
            i <= zone.entries@.len(),
            all == keys(*zone),
            zone.sound(),
            remarks(findings@) == given + alias_remarks(all, i as nat),
        decreases zone.entries@.len() - i,
    {
        let ghost before = remarks(findings@);
        let key = &zone.entries[i].key;
        assert(all[i as int] == key@);
        if same_text(key.record_type.as_str(), "CNAME") {
            let repeated: bool = i > 0 && {
                assert(all[i - 1] == zone.entries@[i - 1].key@);
                same_text(zone.entries[i - 1].key.owner.as_str(), key.owner.as_str())
                    && same_text(zone.entries[i - 1].key.record_type.as_str(), "CNAME")
            };
            if !repeated {
                let record_types = collect_types(zone, i);
                assert(type_views(record_types@).len() == record_types@.len());
                if record_types.len() > 1 {
                    push_finding(
                        findings,
                        Finding {
                            code: "CNAME_COEXISTENCE",
                            verdict: Verdict::Block,
                            owner: key.owner.as_str().to_owned(),
                            record_types,
                            detail: "CNAME owner also has other data".to_owned(),
                        },
                    );
                }
            }
        }
        proof {
            assert(remarks(findings@) =~= before + alias_remark(all, i as int));
            assert(remarks(findings@) =~= given + alias_remarks(all, (i + 1) as nat));
        }
        i = i + 1;
    }
}

/// A time to live that fell further than a policy allows.
pub open spec fn ttl_remark(change: Difference, limits: Limits) -> Seq<Remark> {
    if change.kind == "ttl"@ && change.old_ttl is Some && change.new_ttl is Some {
        let old = change.old_ttl->0;
        let new = change.new_ttl->0;
        if new < old && (old - new) > old * limits.ttl_decrease_percent / 100 {
            seq![
                Remark {
                    code: "TTL_DECREASE"@,
                    verdict: Verdict::Block,
                    owner: change.key.owner,
                    record_types: seq![change.key.record_type],
                    detail: "TTL decreased from "@ + text::decimal(old as nat) + " to "@
                        + text::decimal(new as nat) + ", beyond "@ + text::decimal(
                        limits.ttl_decrease_percent as nat,
                    ) + "% policy"@,
                },
            ]
        } else {
            Seq::empty()
        }
    } else {
        Seq::empty()
    }
}

pub open spec fn ttl_remarks(found: Seq<Difference>, limits: Limits, n: nat) -> Seq<Remark>
    decreases n,
{
    if n == 0 {
        Seq::empty()
    } else {
        ttl_remarks(found, limits, (n - 1) as nat) + ttl_remark(found[n - 1], limits)
    }
}

fn check_ttl(change: &Change, limits: &Limits, findings: &mut Vec<Finding>)
    ensures
        remarks(final(findings)@) == remarks(old(findings)@) + ttl_remark(change@, *limits),
{
    if same_text(change.kind, "ttl") {
        if let (Some(old_ttl), Some(new_ttl)) = (change.old_ttl, change.new_ttl) {
            assert(old_ttl * limits.ttl_decrease_percent <= u32::MAX * u32::MAX)
                by (nonlinear_arith)
                requires
                    old_ttl <= u32::MAX,
                    limits.ttl_decrease_percent <= u32::MAX,
            ;
            let permitted: u64 = old_ttl as u64 * limits.ttl_decrease_percent as u64 / 100;
            if new_ttl < old_ttl && (old_ttl - new_ttl) as u64 > permitted {
                let mut detail = "TTL decreased from ".to_owned();
                push_decimal(&mut detail, old_ttl as u64);
                detail.append(" to ");
                push_decimal(&mut detail, new_ttl as u64);
                detail.append(", beyond ");
                push_decimal(&mut detail, limits.ttl_decrease_percent as u64);
                detail.append("% policy");
                push_finding(
                    findings,
                    Finding {
                        code: "TTL_DECREASE",
                        verdict: Verdict::Block,
                        owner: change.key.owner.as_str().to_owned(),
                        record_types: one_type(change.key.record_type.as_str()),
                        detail,
                    },
                );
            }
        }
    }
    assert(remarks(findings@) =~= remarks(old(findings)@) + ttl_remark(change@, *limits));
}

fn check_ttls(found: &Vec<Change>, limits: &Limits, findings: &mut Vec<Finding>)
    ensures
        remarks(final(findings)@) == remarks(old(findings)@) + ttl_remarks(
            changes::differences(found@),
            *limits,
            found@.len(),
        ),
{
    let ghost shown = changes::differences(found@);
    let ghost given = remarks(findings@);
    let mut i: usize = 0;
    assert(given + ttl_remarks(shown, *limits, 0) =~= given);
    while i < found.len()
        invariant
            i <= found@.len(),
            shown == changes::differences(found@),
            remarks(findings@) == given + ttl_remarks(shown, *limits, i as nat),
        decreases found@.len() - i,
    {
        assert(shown[i as int] == found@[i as int]@);
        check_ttl(&found[i], limits, findings);
        assert(remarks(findings@) =~= given + ttl_remarks(shown, *limits, (i + 1) as nat));
        i = i + 1;
    }
}

/// Where a word begins at or after a place.
pub open spec fn word_start(text: Seq<char>, from: int) -> int
    decreases text.len() - from,
{
    if 0 <= from < text.len() && chars::whitespace(text[from]) {
        word_start(text, from + 1)
    } else {
        from
    }
}

/// Where the word that a place stands in ends.
pub open spec fn word_end(text: Seq<char>, from: int) -> int
    decreases text.len() - from,
{
    if 0 <= from < text.len() && !chars::whitespace(text[from]) {
        word_end(text, from + 1)
    } else {
        from
    }
}

/// A word of a text, counted from zero.
pub open spec fn word_at(text: Seq<char>, from: int, n: nat) -> Option<Seq<char>>
    decreases n,
{
    let start = word_start(text, from);
    let end = word_end(text, start);
    if start < 0 || start >= text.len() {
        None
    } else if n == 0 {
        Some(text.subrange(start, end))
    } else {
        word_at(text, end, (n - 1) as nat)
    }
}

/// The serial number of the only start of authority of a zone.
pub open spec fn serial_of(all: Seq<Key>, zone: Seq<char>) -> Option<u32> {
    let found = all.filter(is_of(zone, "SOA"@));
    if found.len() != 1 {
        None
    } else {
        match word_at(found[0].rdata, 0, 2) {
            None => None,
            Some(word) => match number::integer_within(word, u32::MAX as nat) {
                Some(serial) => Some(serial as u32),
                None => None,
            },
        }
    }
}

fn third_word(text: &Vec<char>) -> (word: Option<(usize, usize)>)
    ensures
        match word {
            Some((start, end)) => start <= end <= text@.len() && word_at(text@, 0, 2) == Some(
                text@.subrange(start as int, end as int),
            ),
            None => word_at(text@, 0, 2) is None,
        },
{
    let mut at: usize = 0;
    let mut left: usize = 2;
    loop
        invariant
            at <= text@.len(),
            left <= 2,
            word_at(text@, 0, 2) == word_at(text@, at as int, left as nat),
        decreases left,
    {
        let ghost from = at;
        let mut start: usize = at;
        while start < text.len() && text[start].is_whitespace()
            invariant
                start <= text@.len(),
                word_start(text@, from as int) == word_start(text@, start as int),
            decreases text@.len() - start,
        {
            start = start + 1;
        }
        if start == text.len() {
            return None;
        }
        let mut end: usize = start;
        while end < text.len() && !text[end].is_whitespace()
            invariant
                start <= end <= text@.len(),
                word_end(text@, start as int) == word_end(text@, end as int),
            decreases text@.len() - end,
        {
            end = end + 1;
        }
        if left == 0 {
            return Some((start, end));
        }
        left = left - 1;
        at = end;
    }
}

/// Reads the serial number of the only start of authority of a zone.
pub fn soa_serial(zone: &RecordTable, name: &str) -> (serial: Option<u32>)
    ensures
        serial == serial_of(keys(*zone), name@),
{
    let ghost all = keys(*zone);
    let ghost keep = is_of(name@, "SOA"@);
    let mut found: Option<usize> = None;
    let mut i: usize = 0;
    assert(all.take(0).filter(keep) =~= Seq::empty());
    while i < zone.entries.len()
        invariant
            i <= zone.entries@.len(),
            all == keys(*zone),
            keep == is_of(name@, "SOA"@),
            match found {
                Some(k) => k < i && all.take(i as int).filter(keep) == seq![all[k as int]],
                None => all.take(i as int).filter(keep) == Seq::<Key>::empty(),
            },
        decreases zone.entries@.len() - i,
    {
        let key = &zone.entries[i].key;
        proof {
            assert(all[i as int] == key@);
            seqs::lemma_filter_step(all, keep, i as int);
        }
        if same_text(key.owner.as_str(), name) && same_text(key.record_type.as_str(), "SOA") {
            if found.is_some() {
                proof {
                    lemma_filter_longer(all, keep, i + 1);
                }
                return None;
            }
            found = Some(i);
            assert(Seq::<Key>::empty().push(all[i as int]) =~= seq![all[i as int]]);
        }
        i = i + 1;
    }
    assert(all.take(all.len() as int) =~= all);
    match found {
        None => None,
        Some(k) => {
            assert(all[k as int] == zone.entries@[k as int].key@);
            let text = chars_of(zone.entries[k].key.rdata.as_str());
            match third_word(&text) {
                None => None,
                Some((start, end)) => match read_integer(&text, start, end, u32::MAX as u64) {
                    Some(serial) => Some(serial as u32),
                    None => None,
                },
            }
        },
    }
}

proof fn lemma_filter_longer(all: Seq<Key>, keep: spec_fn(Key) -> bool, n: int)
    requires
        0 <= n <= all.len(),
    ensures
        all.take(n).filter(keep).len() <= all.filter(keep).len(),
    decreases all.len() - n,
{
    if n < all.len() {
        seqs::lemma_filter_step(all, keep, n);
        lemma_filter_longer(all, keep, n + 1);
    } else {
        assert(all.take(n) =~= all);
    }
}

/// How a serial number moved.
pub open spec fn soa_remark(zone: Seq<char>, old_serial: u32, new_serial: u32) -> Remark {
    let delta = if new_serial >= old_serial {
        new_serial - old_serial
    } else {
        new_serial - old_serial + 0x1_0000_0000
    };
    let old = text::decimal(old_serial as nat);
    let new = text::decimal(new_serial as nat);
    let (code, verdict, detail) = if delta == 0 {
        ("SOA_EQUAL"@, Verdict::Block, "SOA serial did not advance from "@ + old)
    } else if delta == 0x8000_0000 {
        (
            "SOA_HALF_RANGE_AMBIGUOUS"@,
            Verdict::Review,
            "SOA serial "@ + old + " to "@ + new + " is RFC 1982 half-range ambiguous"@,
        )
    } else if delta < 0x8000_0000 {
        (
            "SOA_ADVANCE"@,
            Verdict::Allow,
            "SOA serial advanced from "@ + old + " to "@ + new,
        )
    } else {
        (
            "SOA_REGRESSION"@,
            Verdict::Block,
            "SOA serial regressed from "@ + old + " to "@ + new,
        )
    };
    Remark { code, verdict, owner: zone, record_types: seq!["SOA"@], detail }
}

pub open spec fn soa_remarks(selected: ZoneRule, old: Seq<Key>, new: Seq<Key>) -> Seq<Remark> {
    match (serial_of(old, selected.zone), serial_of(new, selected.zone)) {
        (Some(before), Some(after)) => seq![soa_remark(selected.zone, before, after)],
        _ => Seq::empty(),
    }
}

fn serial_detail(lead: &str, old_serial: u32, new_serial: u32, tail: &str) -> (detail: String)
    ensures
        detail@ == lead@ + text::decimal(old_serial as nat) + " to "@ + text::decimal(
            new_serial as nat,
        ) + tail@,
{
    let mut detail = lead.to_owned();
    push_decimal(&mut detail, old_serial as u64);
    detail.append(" to ");
    push_decimal(&mut detail, new_serial as u64);
    detail.append(tail);
    detail
}

fn check_soa(
    selected: &ZonePolicy,
    old_zone: &RecordTable,
    new_zone: &RecordTable,
    findings: &mut Vec<Finding>,
)
    ensures
        remarks(final(findings)@) == remarks(old(findings)@) + soa_remarks(
            selected@,
            keys(*old_zone),
            keys(*new_zone),
        ),
{
    let zone = selected.zone.as_str();
    let ghost given = remarks(findings@);
    if let (Some(before), Some(after)) = (soa_serial(old_zone, zone), soa_serial(new_zone, zone)) {
        let delta: u32 = after.wrapping_sub(before);
        let (code, verdict, detail): (&'static str, Verdict, String) = if delta == 0 {
            let mut detail = "SOA serial did not advance from ".to_owned();
            push_decimal(&mut detail, before as u64);
            ("SOA_EQUAL", Verdict::Block, detail)
        } else if delta == 0x8000_0000 {
            (
                "SOA_HALF_RANGE_AMBIGUOUS",
                Verdict::Review,
                serial_detail("SOA serial ", before, after, " is RFC 1982 half-range ambiguous"),
            )
        } else if delta < 0x8000_0000 {
            let detail = serial_detail("SOA serial advanced from ", before, after, "");
            proof {
                reveal_strlit("");
                assert(detail@ =~= "SOA serial advanced from "@ + text::decimal(before as nat)
                    + " to "@ + text::decimal(after as nat));
            }
            ("SOA_ADVANCE", Verdict::Allow, detail)
        } else {
            let detail = serial_detail("SOA serial regressed from ", before, after, "");
            proof {
                reveal_strlit("");
                assert(detail@ =~= "SOA serial regressed from "@ + text::decimal(before as nat)
                    + " to "@ + text::decimal(after as nat));
            }
            ("SOA_REGRESSION", Verdict::Block, detail)
        };
        let finding = Finding {
            code,
            verdict,
            owner: zone.to_owned(),
            record_types: one_type("SOA"),
            detail,
        };
        assert(finding@ =~= soa_remark(zone@, before, after));
        push_finding(findings, finding);
    }
    assert(remarks(findings@) =~= given + soa_remarks(
        selected@,
        keys(*old_zone),
        keys(*new_zone),
    ));
}

/// A name server of a zone below the apex.
pub open spec fn is_delegation(zone: Seq<char>, key: Key) -> bool {
    key.record_type == "NS"@ && key.owner != zone
}

fn check_delegation_key(zone: &str, key: &RecordKey) -> (result: bool)
    ensures
        result == is_delegation(zone@, key@),
{
    same_text(key.record_type.as_str(), "NS") && !same_text(key.owner.as_str(), zone)
}

/// A delegation that is in one snapshot only.
pub open spec fn moved_remark(
    zone: Seq<char>,
    key: Key,
    other: Map<Key, u32>,
    code: Seq<char>,
    tail: Seq<char>,
) -> Seq<Remark> {
    if is_delegation(zone, key) && !other.contains_key(key) {
        seq![
            Remark {
                code,
                verdict: Verdict::Review,
                owner: key.owner,
                record_types: seq!["NS"@],
                detail: "delegation name server "@ + key.rdata + tail,
            },
        ]
    } else {
        Seq::empty()
    }
}

pub open spec fn moved_remarks(
    zone: Seq<char>,
    all: Seq<Key>,
    other: Map<Key, u32>,
    code: Seq<char>,
    tail: Seq<char>,
    n: nat,
) -> Seq<Remark>
    decreases n,
{
    if n == 0 {
        Seq::empty()
    } else {
        moved_remarks(zone, all, other, code, tail, (n - 1) as nat) + moved_remark(
            zone,
            all[n - 1],
            other,
            code,
            tail,
        )
    }
}

fn check_moved(
    zone: &str,
    table: &RecordTable,
    other: &RecordTable,
    code: &'static str,
    tail: &str,
    findings: &mut Vec<Finding>,
)
    requires
        other.sound(),
    ensures
        remarks(final(findings)@) == remarks(old(findings)@) + moved_remarks(
            zone@,
            keys(*table),
            other@,
            code@,
            tail@,
            keys(*table).len(),
        ),
{
    let ghost all = keys(*table);
    let ghost given = remarks(findings@);
    let mut i: usize = 0;
    assert(given + moved_remarks(zone@, all, other@, code@, tail@, 0) =~= given);
    while i < table.entries.len()
        invariant
            i <= table.entries@.len(),
            all == keys(*table),
            other.sound(),
            remarks(findings@) == given + moved_remarks(
                zone@,
                all,
                other@,
                code@,
                tail@,
                i as nat,
            ),
        decreases table.entries@.len() - i,
    {
        let ghost before = remarks(findings@);
        let key = &table.entries[i].key;
        assert(all[i as int] == key@);
        if check_delegation_key(zone, key) && other.get(key).is_none() {
            push_finding(
                findings,
                Finding {
                    code,
                    verdict: Verdict::Review,
                    owner: key.owner.as_str().to_owned(),
                    record_types: one_type("NS"),
                    detail: joined3("delegation name server ", key.rdata.as_str(), tail),
                },
            );
        }
        proof {
            assert(remarks(findings@) =~= before + moved_remark(
                zone@,
                all[i as int],
                other@,
                code@,
                tail@,
            ));
            assert(remarks(findings@) =~= given + moved_remarks(
                zone@,
                all,
                other@,
                code@,
                tail@,
                (i + 1) as nat,
            ));
        }
        i = i + 1;
    }
}

/// A name that is another or lies below it.
pub open spec fn at_or_below(name: Seq<char>, parent: Seq<char>) -> bool {
    name == parent || (name.len() > parent.len() && name.skip(name.len() - parent.len()) == parent
        && name[name.len() - parent.len() - 1] == '.')
}

/// Whether a name is another or lies below it.
pub fn is_at_or_below(name: &str, parent: &str) -> (result: bool)
    ensures
        result == at_or_below(name@, parent@),
{
    if same_text(name, parent) {
        return true;
    }
    let long = chars_of(name);
    let short = chars_of(parent);
    if long.len() <= short.len() {
        return false;
    }
    let gap: usize = long.len() - short.len();
    let mut i: usize = 0;
    while i < short.len()
        invariant
            i <= short@.len(),
            gap + short@.len() == long@.len(),
            name@ == long@,
            parent@ == short@,
            name@ != parent@,
            forall|k: int| 0 <= k < i ==> long@[gap + k] == #[trigger] short@[k],
        decreases short@.len() - i,
    {
        let count: usize = long.len();
        assert(gap + i < count);
        if long[gap + i] != short[i] {
            proof {
                assert(long@.skip(gap as int)[i as int] == long@[gap + i]);
            }
            return false;
        }
        i = i + 1;
    }
    assert(long@.skip(gap as int) =~= short@);
    long[gap - 1] == '.'
}

/// An owner has a record of a type.
pub open spec fn has_type(all: Seq<Key>, owner: Seq<char>, record_type: Seq<char>) -> bool {
    exists|i: int|
        0 <= i < all.len() && (#[trigger] all[i]).owner == owner && all[i].record_type
            == record_type
}

fn find_type(zone: &RecordTable, owner: &str, record_type: &str) -> (found: bool)
    requires
        zone.sound(),
    ensures
        found == has_type(keys(*zone), owner@, record_type@),
{
    let ghost all = keys(*zone);
    let wanted = RecordKey {
        owner: owner.to_owned(),
        record_type: record_type.to_owned(),
        rdata: String::new(),
    };
    let at = zone.place(&wanted);
    let found: bool = at < zone.entries.len() && same_text(
        zone.entries[at].key.owner.as_str(),
        owner,
    ) && same_text(zone.entries[at].key.record_type.as_str(), record_type);
    proof {
        if found {
            assert(all[at as int] == zone.entries@[at as int].key@);
        }
        if has_type(all, owner@, record_type@) {
            let i = choose|i: int|
                0 <= i < all.len() && (#[trigger] all[i]).owner == owner@ && all[i].record_type
                    == record_type@;
            lemma_lower_bound(*zone, wanted@, at as int, i);
        }
    }
    found
}

/// The first key that does not stand before an owner and a type is of them, if
/// any key is.
proof fn lemma_lower_bound(zone: RecordTable, wanted: Key, at: int, i: int)
    requires
        zone.sound(),
        wanted.rdata.len() == 0,
        0 <= at <= zone.entries@.len(),
        forall|k: int| 0 <= k < at ==> table::key_lt((#[trigger] zone.entries@[k]).key@, wanted),
        forall|k: int|
            at <= k < zone.entries@.len() ==> !table::key_lt(
                (#[trigger] zone.entries@[k]).key@,
                wanted,
            ),
        0 <= i < zone.entries@.len(),
        zone.entries@[i].key@.owner == wanted.owner,
        zone.entries@[i].key@.record_type == wanted.record_type,
    ensures
        at < zone.entries@.len(),
        zone.entries@[at].key@.owner == wanted.owner,
        zone.entries@[at].key@.record_type == wanted.record_type,
{
    let key = zone.entries@[i].key@;
    text::lemma_text_total(wanted.owner, wanted.owner);
    text::lemma_text_total(wanted.record_type, wanted.record_type);
    lemma_empty_first(key.rdata);
    assert(wanted.rdata =~= Seq::<char>::empty());
    text::lemma_text_total(key.rdata, wanted.rdata);
    assert(!table::key_lt(key, wanted));
    assert(i >= at);
    if i > at {
        let first = zone.entries@[at].key@;
        assert(table::key_lt(first, key));
        assert(!table::key_lt(first, wanted));
        text::lemma_text_total(first.owner, wanted.owner);
        text::lemma_text_total(first.record_type, wanted.record_type);
    }
}

proof fn lemma_empty_first(other: Seq<char>)
    ensures
        text::text_le(Seq::empty(), other),
{
    assert(vstd::utf8::encode_utf8(Seq::<char>::empty()).len() == 0);
}

/// The address families of an owner.
pub open spec fn families(all: Seq<Key>, owner: Seq<char>) -> Seq<Seq<char>> {
    (if has_type(all, owner, "A"@) {
        seq!["A"@]
    } else {
        Seq::empty()
    }) + (if has_type(all, owner, "AAAA"@) {
        seq!["AAAA"@]
    } else {
        Seq::empty()
    })
}

/// The addresses of a name server that a zone delegates to.
pub open spec fn glue_remark(zone: Seq<char>, old: Seq<Key>, new: Seq<Key>, key: Key) -> Seq<Remark> {
    let before = families(old, key.rdata);
    let after = families(new, key.rdata);
    let inside = at_or_below(key.rdata, key.owner);
    if !is_delegation(zone, key) {
        Seq::empty()
    } else if inside && after.len() == 0 {
        seq![
            Remark {
                code: if before.len() == 0 {
                    "MISSING_GLUE"@
                } else {
                    "REMOVED_LAST_GLUE"@
                },
                verdict: Verdict::Block,
                owner: key.owner,
                record_types: seq!["NS"@, "A"@, "AAAA"@],
                detail: "in-bailiwick name server "@ + key.rdata
                    + " has no parent glue address"@,
            },
        ]
    } else if inside && before.len() > 0 && (has_type(old, key.rdata, "A"@) != has_type(
        new,
        key.rdata,
        "A"@,
    ) || has_type(old, key.rdata, "AAAA"@) != has_type(new, key.rdata, "AAAA"@)) {
        seq![
            Remark {
                code: "GLUE_FAMILY_CHANGE"@,
                verdict: Verdict::Allow,
                owner: key.owner,
                record_types: after,
                detail: "name server "@ + key.rdata
                    + " retains at least one glue address family"@,
            },
        ]
    } else if !inside && after.len() == 0 {
        seq![
            Remark {
                code: "OUT_OF_BAILIWICK_NO_GLUE"@,
                verdict: Verdict::Allow,
                owner: key.owner,
                record_types: seq!["NS"@],
                detail: "out-of-bailiwick name server "@ + key.rdata
                    + " requires no parent glue"@,
            },
        ]
    } else {
        Seq::empty()
    }
}

pub open spec fn glue_remarks(zone: Seq<char>, old: Seq<Key>, new: Seq<Key>, n: nat) -> Seq<Remark>
    decreases n,
{
    if n == 0 {
        Seq::empty()
    } else {
        glue_remarks(zone, old, new, (n - 1) as nat) + glue_remark(zone, old, new, new[n - 1])
    }
}

fn family_names(has_a: bool, has_aaaa: bool) -> (types: Vec<String>)
    ensures
        type_views(types@) == (if has_a {
            seq!["A"@]
        } else {
            Seq::empty()
        }) + (if has_aaaa {
            seq!["AAAA"@]
        } else {
            Seq::empty()
        }),
{
    let mut types: Vec<String> = Vec::new();
    if has_a {
        types.push("A".to_owned());
    }
    if has_aaaa {
        types.push("AAAA".to_owned());
    }
    assert(type_views(types@) =~= (if has_a {
        seq!["A"@]
    } else {
        Seq::empty()
    }) + (if has_aaaa {
        seq!["AAAA"@]
    } else {
        Seq::empty()
    }));
    types
}

fn check_glue(
    zone: &str,
    old_zone: &RecordTable,
    new_zone: &RecordTable,
    key: &RecordKey,
    findings: &mut Vec<Finding>,
)
    requires
        old_zone.sound(),
        new_zone.sound(),
    ensures
        remarks(final(findings)@) == remarks(old(findings)@) + glue_remark(
            zone@,
            keys(*old_zone),
            keys(*new_zone),
            key@,
        ),
{
    if check_delegation_key(zone, key) {
        let target = key.rdata.as_str();
        let inside = is_at_or_below(target, key.owner.as_str());
        let old_a = find_type(old_zone, target, "A");
        let old_aaaa = find_type(old_zone, target, "AAAA");
        let new_a = find_type(new_zone, target, "A");
        let new_aaaa = find_type(new_zone, target, "AAAA");
        if inside && !new_a && !new_aaaa {
            let mut record_types = one_type("NS");
            assert(type_views(record_types@)[0] == record_types@[0]@);
            assert(type_views(record_types@).len() == record_types@.len());
            record_types.push("A".to_owned());
            record_types.push("AAAA".to_owned());
            assert(type_views(record_types@) =~= seq!["NS"@, "A"@, "AAAA"@]);
            push_finding(
                findings,
                Finding {
                    code: if !old_a && !old_aaaa {
                        "MISSING_GLUE"
                    } else {
                        "REMOVED_LAST_GLUE"
                    },
                    verdict: Verdict::Block,
                    owner: key.owner.as_str().to_owned(),
                    record_types,
                    detail: joined3(
                        "in-bailiwick name server ",
                        target,
                        " has no parent glue address",
                    ),
                },
            );
        } else if inside && (old_a || old_aaaa) && (old_a != new_a || old_aaaa != new_aaaa) {
            push_finding(
                findings,
                Finding {
                    code: "GLUE_FAMILY_CHANGE",
                    verdict: Verdict::Allow,
                    owner: key.owner.as_str().to_owned(),
                    record_types: family_names(new_a, new_aaaa),
                    detail: joined3(
                        "name server ",
                        target,
                        " retains at least one glue address family",
                    ),
                },
            );
        } else if !inside && !new_a && !new_aaaa {
            push_finding(
                findings,
                Finding {
                    code: "OUT_OF_BAILIWICK_NO_GLUE",
                    verdict: Verdict::Allow,
                    owner: key.owner.as_str().to_owned(),
                    record_types: one_type("NS"),
                    detail: joined3(
                        "out-of-bailiwick name server ",
                        target,
                        " requires no parent glue",
                    ),
                },
            );
        }
    }
    assert(remarks(findings@) =~= remarks(old(findings)@) + glue_remark(
        zone@,
        keys(*old_zone),
        keys(*new_zone),
        key@,
    ));
}

/// What is to be said of the delegations of a zone.
pub open spec fn delegation_remarks(
    selected: ZoneRule,
    old: RecordTable,
    new: RecordTable,
) -> Seq<Remark> {
    moved_remarks(
        selected.zone,
        keys(old),
        new@,
        "DELEGATION_REMOVAL"@,
        " was removed"@,
        keys(old).len(),
    ) + moved_remarks(
        selected.zone,
        keys(new),
        old@,
        "DELEGATION_ADDITION"@,
        " was added"@,
        keys(new).len(),
    ) + glue_remarks(selected.zone, keys(old), keys(new), keys(new).len())
}

fn check_delegations(
    selected: &ZonePolicy,
    old_zone: &RecordTable,
    new_zone: &RecordTable,
    findings: &mut Vec<Finding>,
)
    requires
        old_zone.sound(),
        new_zone.sound(),
    ensures
        remarks(final(findings)@) == remarks(old(findings)@) + delegation_remarks(
            selected@,
            *old_zone,
            *new_zone,
        ),
{
    let zone = selected.zone.as_str();
    let ghost start = remarks(findings@);
    check_moved(zone, old_zone, new_zone, "DELEGATION_REMOVAL", " was removed", findings);
    check_moved(zone, new_zone, old_zone, "DELEGATION_ADDITION", " was added", findings);
    let ghost given = remarks(findings@);
    let ghost old_keys = keys(*old_zone);
    let ghost all = keys(*new_zone);
    let mut i: usize = 0;
    assert(given + glue_remarks(zone@, old_keys, all, 0) =~= given);
    while i < new_zone.entries.len()
        invariant
            i <= new_zone.entries@.len(),
            old_zone.sound(),
            new_zone.sound(),
            old_keys == keys(*old_zone),
            all == keys(*new_zone),
            remarks(findings@) == given + glue_remarks(zone@, old_keys, all, i as nat),
        decreases new_zone.entries@.len() - i,
    {
        assert(all[i as int] == new_zone.entries@[i as int].key@);
        check_glue(zone, old_zone, new_zone, &new_zone.entries[i].key, findings);
        assert(remarks(findings@) =~= given + glue_remarks(zone@, old_keys, all, (i + 1) as nat));
        i = i + 1;
    }
    assert(remarks(findings@) =~= start + delegation_remarks(selected@, *old_zone, *new_zone));
}

/// All that is to be said of a zone, in the order in which it is found.
pub open spec fn remarks_of(
    selected: ZoneRule,
    old: RecordTable,
    new: RecordTable,
    found: Seq<Difference>,
    limits: Limits,
) -> Seq<Remark> {
    baseline_remarks(selected) + apex_remarks(selected, new) + alias_remarks(
        keys(new),
        keys(new).len(),
    ) + ttl_remarks(found, limits, found.len()) + (if found.len() > 0 {
        soa_remarks(selected, keys(old), keys(new))
    } else {
        Seq::empty()
    }) + delegation_remarks(selected, old, new)
}

/// Finds all that is to be said of a zone.
pub fn check_zone(
    selected: &ZonePolicy,
    old_zone: &RecordTable,
    new_zone: &RecordTable,
    found: &Vec<Change>,
    limits: &Limits,
) -> (findings: Vec<Finding>)
    requires
        old_zone.sound(),
        new_zone.sound(),
    ensures
        remarks(findings@) == remarks_of(
            selected@,
            *old_zone,
            *new_zone,
            changes::differences(found@),
            *limits,
        ),
{
    let mut findings: Vec<Finding> = Vec::new();
    assert(remarks(findings@) =~= Seq::empty());
    check_baseline(selected, &mut findings);
    check_apex(selected, new_zone, &mut findings);
    check_aliases(new_zone, &mut findings);
    check_ttls(found, limits, &mut findings);
    if found.len() > 0 {
        check_soa(selected, old_zone, new_zone, &mut findings);
    }
    check_delegations(selected, old_zone, new_zone, &mut findings);
    assert(remarks(findings@) =~= remarks_of(
        selected@,
        *old_zone,
        *new_zone,
        changes::differences(found@),
        *limits,
    ));
    findings
}

} // verus!
