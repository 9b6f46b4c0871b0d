//! What holds of every comparison and of every zone that is read.

use vstd::prelude::*;
use crate::dns::changes;
use crate::dns::changes::Difference;
use crate::dns::findings;
use crate::dns::findings::{Remark, Verdict};
use crate::dns::parser;
use crate::dns::parser::Machine;
use crate::dns::policy::ZoneRule;
use crate::dns::report;
use crate::dns::report::Verdicts;
use crate::dns::table;
use crate::dns::table::{Key, RecordTable};
use crate::dns::token::Row;
use crate::dns::zone;
use crate::dns::zone::{Effect, Limits, Setting, Tally};

verus! {

/// A zone that stayed as it was has no changes.
pub proof fn unchanged_zones_have_no_changes(zone: Map<Key, u32>, found: Seq<Difference>)
    requires
        changes::are_differences(zone, zone, found),
    ensures
        found.len() == 0,
{
    if found.len() > 0 {
        assert(found.contains(found[0]));
    }
}

/// A change is told of each record that only one zone has, and of each whose time to live
/// differs, with the times to live that the zones give it; of no other record is one told.
pub proof fn changes_tell_what_differs(
    old: Map<Key, u32>,
    new: Map<Key, u32>,
    found: Seq<Difference>,
    key: Key,
)
    requires
        changes::are_differences(old, new, found),
    ensures
        found.contains(
            Difference { kind: "removal"@, key, old_ttl: Some(old[key]), new_ttl: None },
        ) <==> old.contains_key(key) && !new.contains_key(key),
        found.contains(
            Difference { kind: "addition"@, key, old_ttl: None, new_ttl: Some(new[key]) },
        ) <==> new.contains_key(key) && !old.contains_key(key),
        found.contains(
            Difference { kind: "ttl"@, key, old_ttl: Some(old[key]), new_ttl: Some(new[key]) },
        ) <==> old.contains_key(key) && new.contains_key(key) && old[key] != new[key],
        forall|i: int|
            0 <= i < found.len() && (#[trigger] found[i]).key == key ==> !(old.contains_key(key)
                <==> new.contains_key(key)) || (old.contains_key(key) && old[key] != new[key]),
        forall|i: int, j: int|
            0 <= i < j < found.len() ==> (#[trigger] found[i]).key != (#[trigger] found[j]).key,
{
    reveal_strlit("removal");
    reveal_strlit("addition");
    reveal_strlit("ttl");
    assert("removal"@.len() == 7 && "addition"@.len() == 8 && "ttl"@.len() == 3);
    let gone = Difference { kind: "removal"@, key, old_ttl: Some(old[key]), new_ttl: None };
    let come = Difference { kind: "addition"@, key, old_ttl: None, new_ttl: Some(new[key]) };
    let timed = Difference {
        kind: "ttl"@,
        key,
        old_ttl: Some(old[key]),
        new_ttl: Some(new[key]),
    };
    assert(found.contains(gone) <==> changes::difference_at(old, new, key) == Some(gone));
    assert(found.contains(come) <==> changes::difference_at(old, new, key) == Some(come));
    assert(found.contains(timed) <==> changes::difference_at(old, new, key) == Some(timed));
    assert forall|i: int| 0 <= i < found.len() && (#[trigger] found[i]).key == key implies !(
    old.contains_key(key) <==> new.contains_key(key)) || (old.contains_key(key) && old[key]
        != new[key]) by {
        assert(found.contains(found[i]));
    }
    assert forall|i: int, j: int| 0 <= i < j < found.len() implies (#[trigger] found[i]).key != (
    #[trigger] found[j]).key by {
        table::lemma_key_total(found[i].key, found[j].key);
    }
}

/// The change seen the other way round.
pub open spec fn reversed(change: Difference) -> Difference {
    Difference {
        kind: if change.kind == "removal"@ {
            "addition"@
        } else if change.kind == "addition"@ {
            "removal"@
        } else {
            change.kind
        },
        key: change.key,
        old_ttl: change.new_ttl,
        new_ttl: change.old_ttl,
    }
}

/// Going back undoes every change: a removal is an addition the other way round,
/// and a time to live goes back to what it was.
pub proof fn changes_can_be_reversed(
    old: Map<Key, u32>,
    new: Map<Key, u32>,
    there: Seq<Difference>,
    back: Seq<Difference>,
    change: Difference,
)
    requires
        changes::are_differences(old, new, there),
        changes::are_differences(new, old, back),
        there.contains(change),
    ensures
        back.contains(reversed(change)),
{
    reveal_strlit("removal");
    reveal_strlit("addition");
    reveal_strlit("ttl");
    assert(changes::difference_at(old, new, change.key) == Some(change));
    assert("removal"@.len() == 7 && "addition"@.len() == 8 && "ttl"@.len() == 3);
    assert(changes::difference_at(new, old, change.key) == Some(reversed(change)));
}

/// A snapshot that failed before the comparison is never let through.
pub proof fn failed_baselines_block(
    told: Verdicts,
    selected: ZoneRule,
    old: RecordTable,
    new: RecordTable,
    limits: Limits,
)
    requires
        report::reports(told, selected, old, new, limits),
        selected.old_baseline != "PASS"@ || selected.new_baseline != "PASS"@,
    ensures
        told.verdict == Verdict::Block,
{
    let all = findings::remarks_of(selected, old, new, told.changes, limits);
    let first = findings::baseline_remarks(selected)[0];
    assert(all[0] == first);
    assert(all.contains(first));
    lemma_blocked(told, all, first);
}

proof fn lemma_blocked(told: Verdicts, all: Seq<Remark>, remark: Remark)
    requires
        told.findings.to_multiset() == all.to_multiset(),
        told.verdict == report::gravest(
            report::remark_verdicts(told.findings),
            told.findings.len(),
        ),
        all.contains(remark),
        remark.verdict == Verdict::Block,
    ensures
        told.verdict == Verdict::Block,
{
    all.to_multiset_ensures();
    told.findings.to_multiset_ensures();
    vstd::seq_lib::to_multiset_contains(all, remark);
    vstd::seq_lib::to_multiset_contains(told.findings, remark);
    let i = choose|i: int| 0 <= i < told.findings.len() && told.findings[i] == remark;
    let verdicts = report::remark_verdicts(told.findings);
    assert(verdicts[i] == Verdict::Block);
    report::gravest_is_no_milder(verdicts, i);
}

/// A zone of which an owner has an alias and other data is never let through.
pub proof fn aliases_with_other_data_block(
    told: Verdicts,
    selected: ZoneRule,
    old: RecordTable,
    new: RecordTable,
    limits: Limits,
    i: int,
)
    requires
        report::reports(told, selected, old, new, limits),
        0 <= i < findings::keys(new).len(),
        findings::alias_remark(findings::keys(new), i).len() > 0,
    ensures
        told.verdict == Verdict::Block,
{
    let keys = findings::keys(new);
    let all = findings::remarks_of(selected, old, new, told.changes, limits);
    let remark = findings::alias_remark(keys, i)[0];
    lemma_alias_listed(keys, keys.len(), i);
    let aliases = findings::alias_remarks(keys, keys.len());
    let k = choose|k: int| 0 <= k < aliases.len() && aliases[k] == remark;
    let before = findings::baseline_remarks(selected).len() + findings::apex_remarks(
        selected,
        new,
    ).len();
    assert(all[before + k] == remark);
    assert(all.contains(remark));
    lemma_blocked(told, all, remark);
}

proof fn lemma_alias_listed(keys: Seq<Key>, n: nat, i: int)
    requires
        0 <= i < n <= keys.len(),
        findings::alias_remark(keys, i).len() > 0,
    ensures
        findings::alias_remarks(keys, n).contains(findings::alias_remark(keys, i)[0]),
    decreases n,
{
    let remark = findings::alias_remark(keys, i)[0];
    let front = findings::alias_remarks(keys, (n - 1) as nat);
    let whole = findings::alias_remarks(keys, n);
    if i < n - 1 {
        lemma_alias_listed(keys, (n - 1) as nat, i);
        let k = choose|k: int| 0 <= k < front.len() && front[k] == remark;
        assert(whole[k] == remark);
    } else {
        assert(whole[front.len() as int] == remark);
    }
}

/// No more has been counted than the limits allow.
pub open spec fn within(limits: Limits, tally: Tally) -> bool {
    tally.zone <= limits.max_records_per_zone && tally.total <= limits.max_records_total
}

proof fn lemma_resource_within(
    limits: Limits,
    path: Seq<char>,
    row: Row,
    setting: Setting,
    tally: Tally,
)
    requires
        within(limits, tally),
    ensures
        zone::resource(limits, path, row, setting, tally) matches Ok((after, counted)) ==> within(
            limits,
            counted,
        ),
{
}

proof fn lemma_generated_within(
    limits: Limits,
    path: Seq<char>,
    row: Row,
    range: (u32, u32, u32),
    setting: Setting,
    tally: Tally,
    n: nat,
)
    requires
        within(limits, tally),
    ensures
        zone::generated(limits, path, row, range, setting, tally, n) matches Ok(
            (after, counted),
        ) ==> within(limits, counted),
    decreases n,
{
    if n > 0 {
        lemma_generated_within(limits, path, row, range, setting, tally, (n - 1) as nat);
        if let Ok((before, counted)) = zone::generated(
            limits,
            path,
            row,
            range,
            setting,
            tally,
            (n - 1) as nat,
        ) {
            lemma_resource_within(
                limits,
                path,
                zone::generated_row(row, (range.0 + (n - 1) * range.2) as nat),
                before,
                counted,
            );
        }
    }
}

proof fn lemma_effect_within(
    limits: Limits,
    path: Seq<char>,
    row: Row,
    setting: Setting,
    tally: Tally,
)
    requires
        within(limits, tally),
    ensures
        zone::effect(limits, path, row, setting, tally) matches Ok(Effect::Kept(after, counted))
            ==> within(limits, counted),
{
    lemma_resource_within(limits, path, row, setting, tally);
    if let Ok(range) = zone::range_of(path, row.tokens[1]) {
        lemma_generated_within(
            limits,
            path,
            row,
            range,
            setting,
            tally,
            zone::range_count(range),
        );
    }
}

/// However far a zone is read, no more records are kept than the limits allow.
pub proof fn limits_are_kept(limits: Limits, machine: Machine)
    requires
        within(limits, machine.tally),
    ensures
        parser::advanced(limits, machine) matches Ok((after, asked)) ==> within(
            limits,
            after.tally,
        ),
    decreases parser::work(machine.readings),
{
    if machine.readings.len() > 0 {
        let top = machine.readings.last();
        if top.next < 0 || top.next >= top.rows.len() {
            limits_are_kept(
                limits,
                Machine { readings: machine.readings.drop_last(), ..machine },
            );
        } else {
            lemma_effect_within(
                limits,
                top.path,
                top.rows[top.next],
                top.setting,
                machine.tally,
            );
            if let Ok(Effect::Kept(setting, tally)) = zone::effect(
                limits,
                top.path,
                top.rows[top.next],
                top.setting,
                machine.tally,
            ) {
                let after = parser::stepped(machine, setting, tally);
                assert(after.readings.drop_last() =~= machine.readings.drop_last());
                limits_are_kept(limits, after);
            }
        }
    }
}

} // verus!
