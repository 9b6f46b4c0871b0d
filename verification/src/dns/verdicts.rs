//! What a report says of a zone, told by the records of its two snapshots.

use vstd::prelude::*;
use crate::chars;
use crate::dns::changes;
use crate::dns::changes::Difference;
use crate::dns::findings;
use crate::dns::findings::{Remark, Verdict};
use crate::dns::policy::ZoneRule;
use crate::dns::report;
use crate::dns::report::Verdicts;
use crate::dns::table;
use crate::dns::table::{Key, RecordTable};
use crate::dns::zone::Limits;
use crate::ip;
use crate::ip_laws;
use crate::seqs;
use crate::text;

verus! {

/// A finding with some code on some owner is among those of a list.
pub open spec fn spoken(list: Seq<Remark>, code: Seq<char>, owner: Seq<char>) -> bool {
    exists|i: int|
        0 <= i < list.len() && (#[trigger] list[i]).code == code && list[i].owner == owner
}

/// A zone holds a record of some owner and type.
pub open spec fn has_record(
    zone: Map<Key, u32>,
    owner: Seq<char>,
    record_type: Seq<char>,
) -> bool {
    exists|key: Key| #[trigger]
        zone.contains_key(key) && key.owner == owner && key.record_type == record_type
}

/// A record is the only one of its owner and type.
pub open spec fn only_record(
    zone: Map<Key, u32>,
    owner: Seq<char>,
    record_type: Seq<char>,
    key: Key,
) -> bool {
    &&& zone.contains_key(key) && key.owner == owner && key.record_type == record_type
    &&& forall|other: Key| #[trigger]
        zone.contains_key(other) && other.owner == owner && other.record_type == record_type
            ==> other == key
}

/// The codes are told apart by their lengths and first letters.
proof fn lemma_codes()
    ensures
        "BASELINE_FAILURE"@.len() == 16,
        "APEX_SOA_COUNT"@.len() == 14 && "APEX_SOA_COUNT"@[0] == 'A',
        "APEX_NS_MISSING"@.len() == 15,
        "CNAME_COEXISTENCE"@.len() == 17 && "CNAME_COEXISTENCE"@[0] == 'C',
        "TTL_DECREASE"@.len() == 12 && "TTL_DECREASE"@[0] == 'T',
        "SOA_EQUAL"@.len() == 9,
        "SOA_HALF_RANGE_AMBIGUOUS"@.len() == 24 && "SOA_HALF_RANGE_AMBIGUOUS"@[0] == 'S',
        "SOA_ADVANCE"@.len() == 11,
        "SOA_REGRESSION"@.len() == 14 && "SOA_REGRESSION"@[0] == 'S',
        "DELEGATION_REMOVAL"@.len() == 18 && "DELEGATION_REMOVAL"@[0] == 'D',
        "DELEGATION_ADDITION"@.len() == 19,
        "MISSING_GLUE"@.len() == 12 && "MISSING_GLUE"@[0] == 'M',
        "REMOVED_LAST_GLUE"@.len() == 17 && "REMOVED_LAST_GLUE"@[0] == 'R',
        "GLUE_FAMILY_CHANGE"@.len() == 18 && "GLUE_FAMILY_CHANGE"@[0] == 'G',
        "OUT_OF_BAILIWICK_NO_GLUE"@.len() == 24 && "OUT_OF_BAILIWICK_NO_GLUE"@[0] == 'O',
{
    reveal_strlit("BASELINE_FAILURE");
    reveal_strlit("APEX_SOA_COUNT");
    reveal_strlit("APEX_NS_MISSING");
    reveal_strlit("CNAME_COEXISTENCE");
    reveal_strlit("TTL_DECREASE");
    reveal_strlit("SOA_EQUAL");
    reveal_strlit("SOA_HALF_RANGE_AMBIGUOUS");
    reveal_strlit("SOA_ADVANCE");
    reveal_strlit("SOA_REGRESSION");
    reveal_strlit("DELEGATION_REMOVAL");
    reveal_strlit("DELEGATION_ADDITION");
    reveal_strlit("MISSING_GLUE");
    reveal_strlit("REMOVED_LAST_GLUE");
    reveal_strlit("GLUE_FAMILY_CHANGE");
    reveal_strlit("OUT_OF_BAILIWICK_NO_GLUE");
}

proof fn lemma_spoken_concat(a: Seq<Remark>, b: Seq<Remark>, code: Seq<char>, owner: Seq<char>)
    ensures
        spoken(a + b, code, owner) <==> spoken(a, code, owner) || spoken(b, code, owner),
{
    let whole = a + b;
    if spoken(a, code, owner) {
        let i = choose|i: int|
            0 <= i < a.len() && (#[trigger] a[i]).code == code && a[i].owner == owner;
        assert(whole[i] == a[i]);
    }
    if spoken(b, code, owner) {
        let i = choose|i: int|
            0 <= i < b.len() && (#[trigger] b[i]).code == code && b[i].owner == owner;
        assert(whole[a.len() + i] == b[i]);
    }
    if spoken(whole, code, owner) {
        let i = choose|i: int|
            0 <= i < whole.len() && (#[trigger] whole[i]).code == code && whole[i].owner == owner;
        if i < a.len() {
            assert(a[i] == whole[i]);
        } else {
            assert(b[i - a.len()] == whole[i]);
        }
    }
}

proof fn lemma_spoken_rearranged(
    a: Seq<Remark>,
    b: Seq<Remark>,
    code: Seq<char>,
    owner: Seq<char>,
)
    requires
        a.to_multiset() == b.to_multiset(),
        spoken(a, code, owner),
    ensures
        spoken(b, code, owner),
{
    let i = choose|i: int|
        0 <= i < a.len() && (#[trigger] a[i]).code == code && a[i].owner == owner;
    assert(a.contains(a[i]));
    vstd::seq_lib::to_multiset_contains(a, a[i]);
    vstd::seq_lib::to_multiset_contains(b, a[i]);
    let j = choose|j: int| 0 <= j < b.len() && b[j] == a[i];
    assert(b[j].code == code);
}

proof fn lemma_aliases_spoken(keys: Seq<Key>, n: nat, code: Seq<char>, owner: Seq<char>)
    requires
        n <= keys.len(),
    ensures
        spoken(findings::alias_remarks(keys, n), code, owner) <==> code == "CNAME_COEXISTENCE"@
            && exists|i: int|
            0 <= i < n && (#[trigger] keys[i]).owner == owner && findings::alias_remark(
                keys,
                i,
            ).len() > 0,
    decreases n,
{
    if n > 0 {
        lemma_aliases_spoken(keys, (n - 1) as nat, code, owner);
        let last = findings::alias_remark(keys, n - 1);
        lemma_spoken_concat(
            findings::alias_remarks(keys, (n - 1) as nat),
            last,
            code,
            owner,
        );
        if last.len() > 0 {
            assert(last[0].code == "CNAME_COEXISTENCE"@ && last[0].owner == keys[n - 1].owner);
        }
    }
}

proof fn lemma_ttls_spoken(
    found: Seq<Difference>,
    limits: Limits,
    n: nat,
    code: Seq<char>,
    owner: Seq<char>,
)
    requires
        n <= found.len(),
    ensures
        spoken(findings::ttl_remarks(found, limits, n), code, owner) <==> code == "TTL_DECREASE"@
            && exists|i: int|
            0 <= i < n && (#[trigger] found[i]).key.owner == owner && findings::ttl_remark(
                found[i],
                limits,
            ).len() > 0,
    decreases n,
{
    if n > 0 {
        lemma_ttls_spoken(found, limits, (n - 1) as nat, code, owner);
        let last = findings::ttl_remark(found[n - 1], limits);
        lemma_spoken_concat(
            findings::ttl_remarks(found, limits, (n - 1) as nat),
            last,
            code,
            owner,
        );
        if last.len() > 0 {
            assert(last[0].code == "TTL_DECREASE"@ && last[0].owner == found[n - 1].key.owner);
        }
    }
}

proof fn lemma_moves_spoken(
    zone: Seq<char>,
    keys: Seq<Key>,
    other: Map<Key, u32>,
    own: Seq<char>,
    tail: Seq<char>,
    n: nat,
    code: Seq<char>,
    owner: Seq<char>,
)
    requires
        n <= keys.len(),
    ensures
        spoken(findings::moved_remarks(zone, keys, other, own, tail, n), code, owner) <==> code
            == own && exists|i: int|
            0 <= i < n && (#[trigger] keys[i]).owner == owner && keys[i].record_type == "NS"@
                && keys[i].owner != zone && !other.contains_key(keys[i]),
    decreases n,
{
    if n > 0 {
        lemma_moves_spoken(zone, keys, other, own, tail, (n - 1) as nat, code, owner);
        let last = findings::moved_remark(zone, keys[n - 1], other, own, tail);
        lemma_spoken_concat(
            findings::moved_remarks(zone, keys, other, own, tail, (n - 1) as nat),
            last,
            code,
            owner,
        );
        if last.len() > 0 {
            assert(last[0].code == own && last[0].owner == keys[n - 1].owner);
        }
    }
}

proof fn lemma_glue_spoken(
    zone: Seq<char>,
    old: Seq<Key>,
    new: Seq<Key>,
    n: nat,
    code: Seq<char>,
    owner: Seq<char>,
)
    requires
        n <= new.len(),
    ensures
        spoken(findings::glue_remarks(zone, old, new, n), code, owner) <==> exists|i: int|
            0 <= i < n && spoken(
                findings::glue_remark(zone, old, new, #[trigger] new[i]),
                code,
                owner,
            ),
    decreases n,
{
    if n > 0 {
        lemma_glue_spoken(zone, old, new, (n - 1) as nat, code, owner);
        lemma_spoken_concat(
            findings::glue_remarks(zone, old, new, (n - 1) as nat),
            findings::glue_remark(zone, old, new, new[n - 1]),
            code,
            owner,
        );
    }
}

/// A report has a finding where one of the checks has.
proof fn lemma_told(
    told: Verdicts,
    selected: ZoneRule,
    old: RecordTable,
    new: RecordTable,
    limits: Limits,
    code: Seq<char>,
    owner: Seq<char>,
)
    requires
        report::reports(told, selected, old, new, limits),
    ensures
        spoken(told.findings, code, owner) <==> {
            ||| spoken(findings::baseline_remarks(selected), code, owner)
            ||| spoken(findings::apex_remarks(selected, new), code, owner)
            ||| spoken(
                findings::alias_remarks(findings::keys(new), findings::keys(new).len()),
                code,
                owner,
            )
            ||| spoken(
                findings::ttl_remarks(told.changes, limits, told.changes.len()),
                code,
                owner,
            )
            ||| told.changes.len() > 0 && spoken(
                findings::soa_remarks(selected, findings::keys(old), findings::keys(new)),
                code,
                owner,
            )
            ||| spoken(
                findings::moved_remarks(
                    selected.zone,
                    findings::keys(old),
                    new@,
                    "DELEGATION_REMOVAL"@,
                    " was removed"@,
                    findings::keys(old).len(),
                ),
                code,
                owner,
            )
            ||| spoken(
                findings::moved_remarks(
                    selected.zone,
                    findings::keys(new),
                    old@,
                    "DELEGATION_ADDITION"@,
                    " was added"@,
                    findings::keys(new).len(),
                ),
                code,
                owner,
            )
            ||| spoken(
                findings::glue_remarks(
                    selected.zone,
                    findings::keys(old),
                    findings::keys(new),
                    findings::keys(new).len(),
                ),
                code,
                owner,
            )
        },
{
    let all = findings::remarks_of(selected, old, new, told.changes, limits);
    if spoken(told.findings, code, owner) {
        lemma_spoken_rearranged(told.findings, all, code, owner);
    }
    if spoken(all, code, owner) {
        lemma_spoken_rearranged(all, told.findings, code, owner);
    }
    let (old_keys, new_keys) = (findings::keys(old), findings::keys(new));
    let baseline = findings::baseline_remarks(selected);
    let apex = findings::apex_remarks(selected, new);
    let aliases = findings::alias_remarks(new_keys, new_keys.len());
    let ttls = findings::ttl_remarks(told.changes, limits, told.changes.len());
    let serials = if told.changes.len() > 0 {
        findings::soa_remarks(selected, old_keys, new_keys)
    } else {
        Seq::empty()
    };
    let removed = findings::moved_remarks(
        selected.zone,
        old_keys,
        new@,
        "DELEGATION_REMOVAL"@,
        " was removed"@,
        old_keys.len(),
    );
    let added = findings::moved_remarks(
        selected.zone,
        new_keys,
        old@,
        "DELEGATION_ADDITION"@,
        " was added"@,
        new_keys.len(),
    );
    let glue = findings::glue_remarks(selected.zone, old_keys, new_keys, new_keys.len());
    assert(all == baseline + apex + aliases + ttls + serials + (removed + added + glue));
    lemma_spoken_concat(baseline, apex, code, owner);
    lemma_spoken_concat(baseline + apex, aliases, code, owner);
    lemma_spoken_concat(baseline + apex + aliases, ttls, code, owner);
    lemma_spoken_concat(baseline + apex + aliases + ttls, serials, code, owner);
    lemma_spoken_concat(
        baseline + apex + aliases + ttls + serials,
        removed + added + glue,
        code,
        owner,
    );
    lemma_spoken_concat(removed + added, glue, code, owner);
    lemma_spoken_concat(removed, added, code, owner);
}

/// The codes that each check has for its findings.
proof fn lemma_code_of_checks(
    told: Verdicts,
    selected: ZoneRule,
    old: RecordTable,
    new: RecordTable,
    limits: Limits,
    code: Seq<char>,
    owner: Seq<char>,
)
    ensures
        spoken(findings::baseline_remarks(selected), code, owner) ==> code
            == "BASELINE_FAILURE"@,
        spoken(findings::apex_remarks(selected, new), code, owner) ==> code
            == "APEX_SOA_COUNT"@ || code == "APEX_NS_MISSING"@,
        spoken(
            findings::soa_remarks(selected, findings::keys(old), findings::keys(new)),
            code,
            owner,
        ) ==> code == "SOA_EQUAL"@ || code == "SOA_HALF_RANGE_AMBIGUOUS"@ || code
            == "SOA_ADVANCE"@ || code == "SOA_REGRESSION"@,
        spoken(
            findings::glue_remarks(
                selected.zone,
                findings::keys(old),
                findings::keys(new),
                findings::keys(new).len(),
            ),
            code,
            owner,
        ) ==> code == "MISSING_GLUE"@ || code == "REMOVED_LAST_GLUE"@ || code
            == "GLUE_FAMILY_CHANGE"@ || code == "OUT_OF_BAILIWICK_NO_GLUE"@,
        spoken(
            findings::alias_remarks(findings::keys(new), findings::keys(new).len()),
            code,
            owner,
        ) ==> code == "CNAME_COEXISTENCE"@,
        spoken(findings::ttl_remarks(told.changes, limits, told.changes.len()), code, owner)
            ==> code == "TTL_DECREASE"@,
        spoken(
            findings::moved_remarks(
                selected.zone,
                findings::keys(old),
                new@,
                "DELEGATION_REMOVAL"@,
                " was removed"@,
                findings::keys(old).len(),
            ),
            code,
            owner,
        ) ==> code == "DELEGATION_REMOVAL"@,
        spoken(
            findings::moved_remarks(
                selected.zone,
                findings::keys(new),
                old@,
                "DELEGATION_ADDITION"@,
                " was added"@,
                findings::keys(new).len(),
            ),
            code,
            owner,
        ) ==> code == "DELEGATION_ADDITION"@,
{
    let (old_keys, new_keys) = (findings::keys(old), findings::keys(new));
    lemma_glue_spoken(selected.zone, old_keys, new_keys, new_keys.len(), code, owner);
    lemma_aliases_spoken(new_keys, new_keys.len(), code, owner);
    lemma_ttls_spoken(told.changes, limits, told.changes.len(), code, owner);
    lemma_moves_spoken(
        selected.zone,
        old_keys,
        new@,
        "DELEGATION_REMOVAL"@,
        " was removed"@,
        old_keys.len(),
        code,
        owner,
    );
    lemma_moves_spoken(
        selected.zone,
        new_keys,
        old@,
        "DELEGATION_ADDITION"@,
        " was added"@,
        new_keys.len(),
        code,
        owner,
    );
}

/// A record whose time to live fell by more than a percentage of what it was.
pub open spec fn fell(old: Map<Key, u32>, new: Map<Key, u32>, key: Key, percent: u32) -> bool {
    &&& old.contains_key(key) && new.contains_key(key)
    &&& 100 * (old[key] - new[key]) > old[key] * percent
}

/// A decrease of a time to live is reported exactly where a record that stayed fell by
/// more than the percentage that the policy allows of the time it had.
pub proof fn ttl_decreases_are_reported(
    told: Verdicts,
    selected: ZoneRule,
    old: RecordTable,
    new: RecordTable,
    limits: Limits,
    owner: Seq<char>,
)
    requires
        report::reports(told, selected, old, new, limits),
    ensures
        spoken(told.findings, "TTL_DECREASE"@, owner) <==> exists|key: Key|
            key.owner == owner && #[trigger] fell(old@, new@, key, limits.ttl_decrease_percent),
{
    let code = "TTL_DECREASE"@;
    let percent = limits.ttl_decrease_percent;
    lemma_codes();
    reveal_strlit("ttl");
    reveal_strlit("removal");
    reveal_strlit("addition");
    lemma_told(told, selected, old, new, limits, code, owner);
    lemma_code_of_checks(told, selected, old, new, limits, code, owner);
    lemma_ttls_spoken(told.changes, limits, told.changes.len(), code, owner);
    if spoken(told.findings, code, owner) {
        let i = choose|i: int|
            0 <= i < told.changes.len() && (#[trigger] told.changes[i]).key.owner == owner
                && findings::ttl_remark(told.changes[i], limits).len() > 0;
        let change = told.changes[i];
        assert(told.changes.contains(change));
        assert(changes::difference_at(old@, new@, change.key) == Some(change));
        lemma_fell(change.old_ttl->0 as int, change.new_ttl->0 as int, percent as int);
        assert(fell(old@, new@, change.key, percent));
    }
    if exists|key: Key| key.owner == owner && #[trigger] fell(old@, new@, key, percent) {
        let key = choose|key: Key|
            key.owner == owner && #[trigger] fell(old@, new@, key, percent);
        let change = Difference {
            kind: "ttl"@,
            key,
            old_ttl: Some(old@[key]),
            new_ttl: Some(new@[key]),
        };
        lemma_fell(old@[key] as int, new@[key] as int, percent as int);
        assert(changes::difference_at(old@, new@, key) == Some(change));
        assert(told.changes.contains(change));
        let i = choose|i: int| 0 <= i < told.changes.len() && told.changes[i] == change;
        assert(findings::ttl_remark(told.changes[i], limits).len() > 0);
    }
}

proof fn lemma_fell(old: int, new: int, percent: int)
    requires
        old >= 0,
        percent >= 0,
    ensures
        (new < old && old - new > old * percent / 100) <==> 100 * (old - new) > old * percent,
{
    assert(old * percent >= 0) by (nonlinear_arith)
        requires
            old >= 0,
            percent >= 0,
    ;
}

/// Where every record that stayed keeps, in hundredths, what the policy leaves of its
/// time to live, no decrease is reported.
pub proof fn small_ttl_decreases_are_not_reported(
    told: Verdicts,
    selected: ZoneRule,
    old: RecordTable,
    new: RecordTable,
    limits: Limits,
    owner: Seq<char>,
)
    requires
        report::reports(told, selected, old, new, limits),
        forall|key: Key|
            old@.contains_key(key) && #[trigger] new@.contains_key(key) ==> 100 * new@[key]
                >= old@[key] * (100 - limits.ttl_decrease_percent),
    ensures
        !spoken(told.findings, "TTL_DECREASE"@, owner),
{
    ttl_decreases_are_reported(told, selected, old, new, limits, owner);
    let percent = limits.ttl_decrease_percent;
    if spoken(told.findings, "TTL_DECREASE"@, owner) {
        let key = choose|key: Key|
            key.owner == owner && #[trigger] fell(old@, new@, key, percent);
        let before = old@[key] as int;
        assert(before * (100 - percent) == 100 * before - before * percent) by (nonlinear_arith);
    }
}

proof fn lemma_keys_held(zone: RecordTable, key: Key)
    ensures
        findings::keys(zone).contains(key) <==> zone@.contains_key(key),
{
    let keys = findings::keys(zone);
    if keys.contains(key) {
        let i = choose|i: int| 0 <= i < keys.len() && keys[i] == key;
        assert(table::holds_at(zone.entries@, i, key));
    }
    if zone@.contains_key(key) {
        let i = choose|i: int| #[trigger] table::holds_at(zone.entries@, i, key);
        assert(keys[i] == key);
    }
}

proof fn lemma_type_held(zone: RecordTable, owner: Seq<char>, record_type: Seq<char>)
    ensures
        findings::has_type(findings::keys(zone), owner, record_type) <==> has_record(
            zone@,
            owner,
            record_type,
        ),
{
    let keys = findings::keys(zone);
    if findings::has_type(keys, owner, record_type) {
        let i = choose|i: int|
            0 <= i < keys.len() && (#[trigger] keys[i]).owner == owner && keys[i].record_type
                == record_type;
        lemma_keys_held(zone, keys[i]);
        assert(zone@.contains_key(keys[i]));
    }
    if has_record(zone@, owner, record_type) {
        let key = choose|key: Key| #[trigger]
            zone@.contains_key(key) && key.owner == owner && key.record_type == record_type;
        lemma_keys_held(zone, key);
        let i = choose|i: int| 0 <= i < keys.len() && keys[i] == key;
        assert(keys[i].owner == owner);
    }
}

proof fn lemma_filter_none(keys: Seq<Key>, keep: spec_fn(Key) -> bool)
    ensures
        keys.filter(keep).len() == 0 <==> forall|i: int|
            0 <= i < keys.len() ==> !keep(#[trigger] keys[i]),
    decreases keys.len(),
{
    reveal(Seq::filter);
    if keys.len() > 0 {
        let front = keys.drop_last();
        lemma_filter_none(front, keep);
        assert(keys[keys.len() - 1] == keys.last());
        assert forall|i: int| 0 <= i < front.len() implies front[i] == #[trigger] keys[i] by {}
        if front.filter(keep).len() > 0 {
            let i = choose|i: int| 0 <= i < front.len() && keep(#[trigger] front[i]);
            assert(keep(keys[i]));
        }
    }
}

/// One record of an owner and type is what a filter finds.
proof fn lemma_filter_one(
    zone: RecordTable,
    owner: Seq<char>,
    record_type: Seq<char>,
    key: Key,
)
    requires
        zone.sound(),
        only_record(zone@, owner, record_type, key),
    ensures
        findings::keys(zone).filter(findings::is_of(owner, record_type)) == seq![key],
{
    let keys = findings::keys(zone);
    let keep = findings::is_of(owner, record_type);
    let at = zone.lemma_place(key);
    assert forall|i: int| 0 <= i < keys.len() implies (keep(#[trigger] keys[i]) <==> at <= i < at
        + 1) by {
        lemma_keys_held(zone, keys[i]);
        assert(keys.contains(keys[i]));
        if keep(keys[i]) && i != at {
            assert(keys[i] == key);
            table::lemma_key_total(key, key);
            assert(zone.entries@[i].key@ == key && zone.entries@[at].key@ == key);
            if i < at {
                assert(table::key_lt(zone.entries@[i].key@, zone.entries@[at].key@));
            } else {
                assert(table::key_lt(zone.entries@[at].key@, zone.entries@[i].key@));
            }
        }
    }
    seqs::lemma_filter_run(keys, keep, at, at + 1);
    assert(keys.subrange(at, at + 1) =~= seq![key]);
}

proof fn lemma_filter_kept(keys: Seq<Key>, keep: spec_fn(Key) -> bool)
    ensures
        forall|k: int|
            0 <= k < keys.filter(keep).len() ==> keep(#[trigger] keys.filter(keep)[k])
                && keys.contains(keys.filter(keep)[k]),
        forall|i: int|
            0 <= i < keys.len() && keep(#[trigger] keys[i]) ==> keys.filter(keep).contains(keys[i]),
    decreases keys.len(),
{
    reveal(Seq::filter);
    if keys.len() > 0 {
        let front = keys.drop_last();
        let (kept, whole) = (front.filter(keep), keys.filter(keep));
        lemma_filter_kept(front, keep);
        assert forall|k: int| 0 <= k < whole.len() implies keep(#[trigger] whole[k])
            && keys.contains(whole[k]) by {
            if k < kept.len() {
                assert(whole[k] == kept[k]);
                let j = choose|j: int| 0 <= j < front.len() && front[j] == kept[k];
                assert(keys[j] == kept[k]);
            } else {
                assert(keys[keys.len() - 1] == whole[k]);
            }
        }
        assert forall|i: int| 0 <= i < keys.len() && keep(#[trigger] keys[i]) implies whole.contains(
            keys[i],
        ) by {
            if i < front.len() {
                assert(keep(front[i]));
                let k = choose|k: int| 0 <= k < kept.len() && kept[k] == front[i];
                assert(whole[k] == keys[i]);
            } else {
                assert(whole.last() == keys[i]);
            }
        }
    }
}

/// A zone without exactly one start of authority at its apex is reported, and one
/// without a name server there; no other zone is.
pub proof fn apex_faults_are_reported(
    told: Verdicts,
    selected: ZoneRule,
    old: RecordTable,
    new: RecordTable,
    limits: Limits,
)
    requires
        report::reports(told, selected, old, new, limits),
        new.sound(),
    ensures
        spoken(told.findings, "APEX_SOA_COUNT"@, selected.zone) <==> !exists|key: Key| #[trigger]
            only_record(new@, selected.zone, "SOA"@, key),
        spoken(told.findings, "APEX_NS_MISSING"@, selected.zone) <==> !has_record(
            new@,
            selected.zone,
            "NS"@,
        ),
{
    let zone = selected.zone;
    lemma_codes();
    lemma_told(told, selected, old, new, limits, "APEX_SOA_COUNT"@, zone);
    lemma_code_of_checks(told, selected, old, new, limits, "APEX_SOA_COUNT"@, zone);
    lemma_told(told, selected, old, new, limits, "APEX_NS_MISSING"@, zone);
    lemma_code_of_checks(told, selected, old, new, limits, "APEX_NS_MISSING"@, zone);
    let keys = findings::keys(new);
    let apex = findings::apex_remarks(selected, new);
    let (soa, ns) = (findings::is_of(zone, "SOA"@), findings::is_of(zone, "NS"@));
    let authorities = keys.filter(soa);
    lemma_filter_kept(keys, soa);
    lemma_filter_none(keys, ns);
    if authorities.len() != 1 {
        assert(apex[0].code == "APEX_SOA_COUNT"@);
    }
    if keys.filter(ns).len() == 0 {
        assert(apex[apex.len() - 1].code == "APEX_NS_MISSING"@);
    }
    if exists|key: Key| #[trigger] only_record(new@, zone, "SOA"@, key) {
        let key = choose|key: Key| #[trigger] only_record(new@, zone, "SOA"@, key);
        lemma_filter_one(new, zone, "SOA"@, key);
    }
    if authorities.len() == 1 {
        let key = authorities[0];
        lemma_keys_held(new, key);
        assert forall|other: Key| #[trigger]
            new@.contains_key(other) && other.owner == zone && other.record_type
                == "SOA"@ implies other == key by {
            lemma_keys_held(new, other);
            let i = choose|i: int| 0 <= i < keys.len() && keys[i] == other;
            assert(soa(keys[i]));
            assert(authorities.contains(keys[i]));
        }
        assert(only_record(new@, zone, "SOA"@, key));
    }
    lemma_type_held(new, zone, "NS"@);
    if keys.filter(ns).len() > 0 {
        let i = choose|i: int| 0 <= i < keys.len() && ns(#[trigger] keys[i]);
        assert(keys[i].owner == zone);
    }
    if findings::has_type(keys, zone, "NS"@) {
        let i = choose|i: int|
            0 <= i < keys.len() && (#[trigger] keys[i]).owner == zone && keys[i].record_type
                == "NS"@;
        assert(ns(keys[i]));
    }
}

/// Only the failure of a snapshot before the comparison is reported as one.
pub proof fn failed_baselines_are_reported(
    told: Verdicts,
    selected: ZoneRule,
    old: RecordTable,
    new: RecordTable,
    limits: Limits,
)
    requires
        report::reports(told, selected, old, new, limits),
    ensures
        spoken(told.findings, "BASELINE_FAILURE"@, selected.zone) <==> selected.old_baseline
            != "PASS"@ || selected.new_baseline != "PASS"@,
{
    let code = "BASELINE_FAILURE"@;
    lemma_codes();
    lemma_told(told, selected, old, new, limits, code, selected.zone);
    lemma_code_of_checks(told, selected, old, new, limits, code, selected.zone);
    let list = findings::baseline_remarks(selected);
    if list.len() > 0 {
        assert(list[0].code == code);
    }
}

proof fn lemma_first_alias(keys: Seq<Key>, i: int) -> (first: int)
    requires
        0 <= i < keys.len(),
        keys[i].record_type == "CNAME"@,
    ensures
        0 <= first <= i,
        keys[first].owner == keys[i].owner,
        findings::first_alias(keys, first),
    decreases i,
{
    if findings::first_alias(keys, i) {
        i
    } else {
        lemma_first_alias(keys, i - 1)
    }
}

proof fn lemma_types_finite(keys: Seq<Key>, owner: Seq<char>)
    ensures
        findings::types_of(keys, owner).finite(),
{
    let named = keys.map_values(|key: Key| key.record_type);
    assert forall|name: Seq<char>| findings::types_of(keys, owner).contains(
        name,
    ) implies #[trigger] named.to_set().contains(name) by {
        let i = choose|i: int|
            0 <= i < keys.len() && (#[trigger] keys[i]).owner == owner && keys[i].record_type
                == name;
        assert(named[i] == name);
    }
    vstd::seq_lib::seq_to_set_is_finite(named);
    vstd::set_lib::lemma_set_subset_finite(named.to_set(), findings::types_of(keys, owner));
}

/// An owner that has an alias beside other data is reported, and no other is.
pub proof fn aliases_with_other_data_are_reported(
    told: Verdicts,
    selected: ZoneRule,
    old: RecordTable,
    new: RecordTable,
    limits: Limits,
    owner: Seq<char>,
)
    requires
        report::reports(told, selected, old, new, limits),
    ensures
        spoken(told.findings, "CNAME_COEXISTENCE"@, owner) <==> has_record(new@, owner, "CNAME"@)
            && exists|key: Key| #[trigger]
            new@.contains_key(key) && key.owner == owner && key.record_type != "CNAME"@,
{
    let code = "CNAME_COEXISTENCE"@;
    let keys = findings::keys(new);
    lemma_codes();
    lemma_told(told, selected, old, new, limits, code, owner);
    lemma_code_of_checks(told, selected, old, new, limits, code, owner);
    lemma_aliases_spoken(keys, keys.len(), code, owner);
    lemma_type_held(new, owner, "CNAME"@);
    lemma_types_finite(keys, owner);
    let set = findings::types_of(keys, owner);
    let types = text::in_order(set);
    text::lemma_listed(set);
    if spoken(told.findings, code, owner) {
        let i = choose|i: int|
            0 <= i < keys.len() && (#[trigger] keys[i]).owner == owner && findings::alias_remark(
                keys,
                i,
            ).len() > 0;
        assert(findings::has_type(keys, owner, "CNAME"@));
        text::lemma_text_total(types[0], types[1]);
        assert(text::text_lt(types[0], types[1]));
        let other = if types[0] == "CNAME"@ {
            types[1]
        } else {
            types[0]
        };
        assert(types.contains(other));
        let j = choose|j: int|
            0 <= j < keys.len() && (#[trigger] keys[j]).owner == owner && keys[j].record_type
                == other;
        assert(keys.contains(keys[j]));
        lemma_keys_held(new, keys[j]);
        assert(new@.contains_key(keys[j]));
    }
    if has_record(new@, owner, "CNAME"@) && exists|key: Key| #[trigger]
        new@.contains_key(key) && key.owner == owner && key.record_type != "CNAME"@ {
        let key = choose|key: Key| #[trigger]
            new@.contains_key(key) && key.owner == owner && key.record_type != "CNAME"@;
        lemma_keys_held(new, key);
        let j = choose|j: int| 0 <= j < keys.len() && keys[j] == key;
        assert(keys[j].owner == owner);
        let i = choose|i: int|
            0 <= i < keys.len() && (#[trigger] keys[i]).owner == owner && keys[i].record_type
                == "CNAME"@;
        let first = lemma_first_alias(keys, i);
        assert(set.contains("CNAME"@) && set.contains(key.record_type));
        assert(types.contains("CNAME"@) && types.contains(key.record_type));
        let a = choose|a: int| 0 <= a < types.len() && types[a] == "CNAME"@;
        let b = choose|b: int| 0 <= b < types.len() && types[b] == key.record_type;
        assert(a != b);
        assert(types.len() > 1);
        assert(findings::alias_remark(keys, first).len() > 0);
    }
}

/// A name server of a delegation: below the apex.
pub open spec fn delegates(zone: Seq<char>, owner: Seq<char>, key: Key) -> bool {
    key.owner == owner && key.record_type == "NS"@ && owner != zone
}

/// A name server below the apex that only one of the snapshots has is reported as
/// removed or as added, and no other is.
pub proof fn moved_delegations_are_reported(
    told: Verdicts,
    selected: ZoneRule,
    old: RecordTable,
    new: RecordTable,
    limits: Limits,
    owner: Seq<char>,
)
    requires
        report::reports(told, selected, old, new, limits),
    ensures
        spoken(told.findings, "DELEGATION_REMOVAL"@, owner) <==> exists|key: Key|
            delegates(selected.zone, owner, key) && #[trigger] old@.contains_key(key)
                && !new@.contains_key(key),
        spoken(told.findings, "DELEGATION_ADDITION"@, owner) <==> exists|key: Key|
            delegates(selected.zone, owner, key) && #[trigger] new@.contains_key(key)
                && !old@.contains_key(key),
{
    let zone = selected.zone;
    lemma_codes();
    let (gone, come) = ("DELEGATION_REMOVAL"@, "DELEGATION_ADDITION"@);
    lemma_told(told, selected, old, new, limits, gone, owner);
    lemma_code_of_checks(told, selected, old, new, limits, gone, owner);
    lemma_told(told, selected, old, new, limits, come, owner);
    lemma_code_of_checks(told, selected, old, new, limits, come, owner);
    lemma_moved(zone, old, new@, gone, " was removed"@, owner);
    lemma_moved(zone, new, old@, come, " was added"@, owner);
}

proof fn lemma_moved(
    zone: Seq<char>,
    here: RecordTable,
    there: Map<Key, u32>,
    code: Seq<char>,
    tail: Seq<char>,
    owner: Seq<char>,
)
    ensures
        spoken(
            findings::moved_remarks(
                zone,
                findings::keys(here),
                there,
                code,
                tail,
                findings::keys(here).len(),
            ),
            code,
            owner,
        ) <==> exists|key: Key|
            delegates(zone, owner, key) && #[trigger] here@.contains_key(key)
                && !there.contains_key(key),
{
    let keys = findings::keys(here);
    lemma_moves_spoken(zone, keys, there, code, tail, keys.len(), code, owner);
    if exists|key: Key|
        delegates(zone, owner, key) && #[trigger] here@.contains_key(key) && !there.contains_key(
            key,
        ) {
        let key = choose|key: Key|
            delegates(zone, owner, key) && #[trigger] here@.contains_key(key)
                && !there.contains_key(key);
        lemma_keys_held(here, key);
        let i = choose|i: int| 0 <= i < keys.len() && keys[i] == key;
        assert(keys[i].owner == owner);
    }
    if exists|i: int|
        0 <= i < keys.len() && (#[trigger] keys[i]).owner == owner && keys[i].record_type == "NS"@
            && keys[i].owner != zone && !there.contains_key(keys[i]) {
        let i = choose|i: int|
            0 <= i < keys.len() && (#[trigger] keys[i]).owner == owner && keys[i].record_type
                == "NS"@ && keys[i].owner != zone && !there.contains_key(keys[i]);
        assert(keys.contains(keys[i]));
        lemma_keys_held(here, keys[i]);
        assert(here@.contains_key(keys[i]));
    }
}

/// A host has an address in a zone.
pub open spec fn has_address(zone: Map<Key, u32>, host: Seq<char>) -> bool {
    has_record(zone, host, "A"@) || has_record(zone, host, "AAAA"@)
}

/// A name is another or ends with a dot and the other.
pub open spec fn lies_in(name: Seq<char>, parent: Seq<char>) -> bool {
    name == parent || exists|front: Seq<char>| #[trigger] (front + seq!['.'] + parent) == name
}

proof fn lemma_lies_in(name: Seq<char>, parent: Seq<char>)
    ensures
        findings::at_or_below(name, parent) <==> lies_in(name, parent),
{
    let gap = name.len() - parent.len();
    if findings::at_or_below(name, parent) && name != parent {
        let front = name.take(gap - 1);
        assert(front + seq!['.'] + parent =~= name) by {
            assert(name =~= name.take(gap) + name.skip(gap));
            assert(name.take(gap) =~= front + seq!['.']);
        }
    }
    if lies_in(name, parent) && name != parent {
        let front = choose|front: Seq<char>| #[trigger] (front + seq!['.'] + parent) == name;
        assert(name.skip(gap) =~= parent);
        assert(name[gap - 1] == '.');
    }
}

/// A zone that delegates to a server within the delegated name is reported if it has no
/// address for the server: as having lost the last one if it had one before, and as
/// missing it otherwise. Nothing else is reported so.
pub proof fn missing_glue_is_reported(
    told: Verdicts,
    selected: ZoneRule,
    old: RecordTable,
    new: RecordTable,
    limits: Limits,
    owner: Seq<char>,
)
    requires
        report::reports(told, selected, old, new, limits),
    ensures
        spoken(told.findings, "MISSING_GLUE"@, owner) <==> exists|key: Key|
            delegates(selected.zone, owner, key) && #[trigger] new@.contains_key(key) && lies_in(
                key.rdata,
                owner,
            ) && !has_address(new@, key.rdata) && !has_address(old@, key.rdata),
        spoken(told.findings, "REMOVED_LAST_GLUE"@, owner) <==> exists|key: Key|
            delegates(selected.zone, owner, key) && #[trigger] new@.contains_key(key) && lies_in(
                key.rdata,
                owner,
            ) && !has_address(new@, key.rdata) && has_address(old@, key.rdata),
{
    lemma_glue_told(told, selected, old, new, limits, owner, "MISSING_GLUE"@, false);
    lemma_glue_told(told, selected, old, new, limits, owner, "REMOVED_LAST_GLUE"@, true);
}

proof fn lemma_glue_told(
    told: Verdicts,
    selected: ZoneRule,
    old: RecordTable,
    new: RecordTable,
    limits: Limits,
    owner: Seq<char>,
    code: Seq<char>,
    lost: bool,
)
    requires
        report::reports(told, selected, old, new, limits),
        code == if lost {
            "REMOVED_LAST_GLUE"@
        } else {
            "MISSING_GLUE"@
        },
    ensures
        spoken(told.findings, code, owner) <==> exists|key: Key|
            delegates(selected.zone, owner, key) && #[trigger] new@.contains_key(key) && lies_in(
                key.rdata,
                owner,
            ) && !has_address(new@, key.rdata) && has_address(old@, key.rdata) == lost,
{
    let zone = selected.zone;
    let (old_keys, new_keys) = (findings::keys(old), findings::keys(new));
    lemma_codes();
    lemma_told(told, selected, old, new, limits, code, owner);
    lemma_code_of_checks(told, selected, old, new, limits, code, owner);
    lemma_glue_spoken(zone, old_keys, new_keys, new_keys.len(), code, owner);
    assert forall|key: Key| #[trigger]
        spoken(findings::glue_remark(zone, old_keys, new_keys, key), code, owner) <==> delegates(
            zone,
            owner,
            key,
        ) && lies_in(key.rdata, owner) && !has_address(new@, key.rdata) && has_address(
            old@,
            key.rdata,
        ) == lost by {
        lemma_lies_in(key.rdata, key.owner);
        lemma_type_held(new, key.rdata, "A"@);
        lemma_type_held(new, key.rdata, "AAAA"@);
        lemma_type_held(old, key.rdata, "A"@);
        lemma_type_held(old, key.rdata, "AAAA"@);
        let list = findings::glue_remark(zone, old_keys, new_keys, key);
        if list.len() > 0 && list[0].code == code && list[0].owner == owner {
            assert(spoken(list, code, owner));
        }
    }
    if spoken(told.findings, code, owner) {
        let i = choose|i: int|
            0 <= i < new_keys.len() && spoken(
                findings::glue_remark(zone, old_keys, new_keys, #[trigger] new_keys[i]),
                code,
                owner,
            );
        assert(new_keys.contains(new_keys[i]));
        lemma_keys_held(new, new_keys[i]);
        assert(new@.contains_key(new_keys[i]));
    }
    if exists|key: Key|
        delegates(zone, owner, key) && #[trigger] new@.contains_key(key) && lies_in(
            key.rdata,
            owner,
        ) && !has_address(new@, key.rdata) && has_address(old@, key.rdata) == lost {
        let key = choose|key: Key|
            delegates(zone, owner, key) && #[trigger] new@.contains_key(key) && lies_in(
                key.rdata,
                owner,
            ) && !has_address(new@, key.rdata) && has_address(old@, key.rdata) == lost;
        lemma_keys_held(new, key);
        let i = choose|i: int| 0 <= i < new_keys.len() && new_keys[i] == key;
        assert(spoken(
            findings::glue_remark(zone, old_keys, new_keys, new_keys[i]),
            code,
            owner,
        ));
    }
}

/// A word: not empty, and without white space.
pub open spec fn is_word(s: Seq<char>) -> bool {
    s.len() > 0 && forall|i: int| 0 <= i < s.len() ==> !chars::whitespace(#[trigger] s[i])
}

/// The data of a start of authority: two names, the serial number, and the rest.
pub open spec fn authority_data(
    server: Seq<char>,
    mailbox: Seq<char>,
    serial: u32,
    rest: Seq<char>,
) -> Seq<char> {
    server + seq![' '] + mailbox + seq![' '] + text::decimal(serial as nat) + seq![' '] + rest
}

proof fn lemma_word_end(text: Seq<char>, from: int, to: int)
    requires
        0 <= from <= to < text.len(),
        forall|i: int| from <= i < to ==> !chars::whitespace(#[trigger] text[i]),
        chars::whitespace(text[to]),
    ensures
        findings::word_end(text, from) == to,
    decreases to - from,
{
    if from < to {
        lemma_word_end(text, from + 1, to);
    }
}

proof fn lemma_serial_word(server: Seq<char>, mailbox: Seq<char>, serial: u32, rest: Seq<char>)
    requires
        is_word(server),
        is_word(mailbox),
    ensures
        findings::word_at(authority_data(server, mailbox, serial, rest), 0, 2) == Some(
            text::decimal(serial as nat),
        ),
{
    let data = authority_data(server, mailbox, serial, rest);
    let shown = text::decimal(serial as nat);
    ip_laws::lemma_decimal(serial as nat);
    let a = server.len() as int;
    let b = a + 1 + mailbox.len();
    let c = b + 1 + shown.len();
    assert forall|i: int| 0 <= i < a implies #[trigger] data[i] == server[i] by {}
    assert forall|i: int| a < i < b implies #[trigger] data[i] == mailbox[i - a - 1] by {}
    assert forall|i: int| b < i < c implies #[trigger] data[i] == shown[i - b - 1] by {}
    assert(data[a] == ' ' && data[b] == ' ' && data[c] == ' ');
    assert forall|i: int| b < i < c implies !chars::whitespace(#[trigger] data[i]) by {
        assert(chars::is_digit(shown[i - b - 1]));
    }
    assert(!chars::whitespace(data[0]) && !chars::whitespace(data[a + 1])
        && !chars::whitespace(data[b + 1]));
    lemma_word_end(data, 0, a);
    lemma_word_end(data, a + 1, b);
    lemma_word_end(data, b + 1, c);
    reveal_with_fuel(findings::word_start, 3);
    assert(findings::word_start(data, 0) == 0);
    assert(findings::word_start(data, a) == a + 1);
    assert(findings::word_start(data, b) == b + 1);
    reveal_with_fuel(findings::word_at, 4);
    assert(data.subrange(b + 1, c) =~= shown);
}

proof fn lemma_serial(
    zone: RecordTable,
    owner: Seq<char>,
    key: Key,
    server: Seq<char>,
    mailbox: Seq<char>,
    serial: u32,
    rest: Seq<char>,
)
    requires
        zone.sound(),
        only_record(zone@, owner, "SOA"@, key),
        is_word(server),
        is_word(mailbox),
        key.rdata == authority_data(server, mailbox, serial, rest),
    ensures
        findings::serial_of(findings::keys(zone), owner) == Some(serial),
{
    lemma_filter_one(zone, owner, "SOA"@, key);
    lemma_serial_word(server, mailbox, serial, rest);
    ip_laws::lemma_decimal(serial as nat);
    let shown = text::decimal(serial as nat);
    assert(chars::is_digit(shown[0]));
}

/// A zone that changed is judged by its serial numbers, which count round from
/// the last to zero: the new one must lie ahead of the old by less than half the circle.
/// The same number and one that lies behind are reported, and so is one that lies
/// right across.
pub proof fn serial_numbers_must_advance(
    told: Verdicts,
    selected: ZoneRule,
    old: RecordTable,
    new: RecordTable,
    limits: Limits,
    keys: (Key, Key),
    names: (Seq<char>, Seq<char>, Seq<char>, Seq<char>),
    serials: (u32, u32),
    rests: (Seq<char>, Seq<char>),
)
    requires
        report::reports(told, selected, old, new, limits),
        old.sound(),
        new.sound(),
        old@ != new@,
        only_record(old@, selected.zone, "SOA"@, keys.0),
        only_record(new@, selected.zone, "SOA"@, keys.1),
        is_word(names.0) && is_word(names.1) && is_word(names.2) && is_word(names.3),
        keys.0.rdata == authority_data(names.0, names.1, serials.0, rests.0),
        keys.1.rdata == authority_data(names.2, names.3, serials.1, rests.1),
    ensures
        ({
            let ahead = (serials.1 - serials.0) % 0x1_0000_0000;
            &&& spoken(told.findings, "SOA_EQUAL"@, selected.zone) <==> ahead == 0
            &&& spoken(told.findings, "SOA_ADVANCE"@, selected.zone) <==> 0 < ahead < 0x8000_0000
            &&& spoken(told.findings, "SOA_HALF_RANGE_AMBIGUOUS"@, selected.zone) <==> ahead
                == 0x8000_0000
            &&& spoken(told.findings, "SOA_REGRESSION"@, selected.zone) <==> ahead > 0x8000_0000
        }),
{
    let zone = selected.zone;
    lemma_codes();
    lemma_serial(old, zone, keys.0, names.0, names.1, serials.0, rests.0);
    lemma_serial(new, zone, keys.1, names.2, names.3, serials.1, rests.1);
    if told.changes.len() == 0 {
        assert forall|key: Key| old@.contains_key(key) == #[trigger] new@.contains_key(key) && (
        old@.contains_key(key) ==> old@[key] == new@[key]) by {
            if let Some(change) = changes::difference_at(old@, new@, key) {
                assert(told.changes.contains(change));
            }
        }
        assert(old@ =~= new@);
    }
    let list = findings::soa_remarks(selected, findings::keys(old), findings::keys(new));
    assert(list[0] == findings::soa_remark(zone, serials.0, serials.1));
    let codes = seq![
        "SOA_EQUAL"@,
        "SOA_ADVANCE"@,
        "SOA_HALF_RANGE_AMBIGUOUS"@,
        "SOA_REGRESSION"@,
    ];
    assert forall|c: int| 0 <= c < 4 implies (spoken(told.findings, #[trigger] codes[c], zone)
        <==> list[0].code == codes[c]) by {
        lemma_told(told, selected, old, new, limits, codes[c], zone);
        lemma_code_of_checks(told, selected, old, new, limits, codes[c], zone);
    }
    assert(codes[0] == "SOA_EQUAL"@ && codes[1] == "SOA_ADVANCE"@ && codes[2]
        == "SOA_HALF_RANGE_AMBIGUOUS"@ && codes[3] == "SOA_REGRESSION"@);
}

/// The verdict that goes with a code.
pub open spec fn blocks(code: Seq<char>) -> bool {
    ||| code == "BASELINE_FAILURE"@
    ||| code == "APEX_SOA_COUNT"@
    ||| code == "APEX_NS_MISSING"@
    ||| code == "CNAME_COEXISTENCE"@
    ||| code == "TTL_DECREASE"@
    ||| code == "SOA_EQUAL"@
    ||| code == "SOA_REGRESSION"@
    ||| code == "MISSING_GLUE"@
    ||| code == "REMOVED_LAST_GLUE"@
}

pub open spec fn wants_review(code: Seq<char>) -> bool {
    ||| code == "SOA_HALF_RANGE_AMBIGUOUS"@
    ||| code == "DELEGATION_REMOVAL"@
    ||| code == "DELEGATION_ADDITION"@
}

/// What a finding's verdict is, by its code.
pub open spec fn judged(remark: Remark) -> bool {
    &&& remark.verdict == Verdict::Block <==> blocks(remark.code)
    &&& remark.verdict == Verdict::Review <==> wants_review(remark.code)
}

pub open spec fn all_judged(list: Seq<Remark>) -> bool {
    forall|i: int| 0 <= i < list.len() ==> judged(#[trigger] list[i])
}

proof fn lemma_parts_judged(
    selected: ZoneRule,
    old: Seq<Key>,
    new: Seq<Key>,
    old_map: Map<Key, u32>,
    new_map: Map<Key, u32>,
    found: Seq<Difference>,
    limits: Limits,
    n: nat,
)
    ensures
        n <= new.len() ==> all_judged(findings::alias_remarks(new, n)),
        n <= found.len() ==> all_judged(findings::ttl_remarks(found, limits, n)),
        n <= new.len() ==> all_judged(findings::glue_remarks(selected.zone, old, new, n)),
        n <= old.len() ==> all_judged(
            findings::moved_remarks(
                selected.zone,
                old,
                new_map,
                "DELEGATION_REMOVAL"@,
                " was removed"@,
                n,
            ),
        ),
        n <= new.len() ==> all_judged(
            findings::moved_remarks(
                selected.zone,
                new,
                old_map,
                "DELEGATION_ADDITION"@,
                " was added"@,
                n,
            ),
        ),
    decreases n,
{
    lemma_codes();
    if n > 0 {
        lemma_parts_judged(selected, old, new, old_map, new_map, found, limits, (n - 1) as nat);
    }
}

/// The verdict on a zone is the gravest that the codes of its findings call for.
pub proof fn codes_decide_the_verdict(
    told: Verdicts,
    selected: ZoneRule,
    old: RecordTable,
    new: RecordTable,
    limits: Limits,
)
    requires
        report::reports(told, selected, old, new, limits),
    ensures
        told.verdict == Verdict::Block <==> exists|i: int|
            0 <= i < told.findings.len() && blocks((#[trigger] told.findings[i]).code),
        told.verdict == Verdict::Allow <==> forall|i: int|
            0 <= i < told.findings.len() ==> !blocks((#[trigger] told.findings[i]).code)
                && !wants_review(told.findings[i].code),
{
    lemma_codes();
    let (old_keys, new_keys) = (findings::keys(old), findings::keys(new));
    let all = findings::remarks_of(selected, old, new, told.changes, limits);
    lemma_parts_judged(
        selected,
        old_keys,
        new_keys,
        old@,
        new@,
        told.changes,
        limits,
        new_keys.len(),
    );
    lemma_parts_judged(
        selected,
        old_keys,
        new_keys,
        old@,
        new@,
        told.changes,
        limits,
        old_keys.len(),
    );
    lemma_parts_judged(
        selected,
        old_keys,
        new_keys,
        old@,
        new@,
        told.changes,
        limits,
        told.changes.len(),
    );
    assert(all_judged(findings::baseline_remarks(selected)));
    assert(all_judged(findings::apex_remarks(selected, new)));
    assert(all_judged(findings::soa_remarks(selected, old_keys, new_keys)));
    assert(all_judged(all));
    assert forall|i: int| 0 <= i < told.findings.len() implies judged(
        #[trigger] told.findings[i],
    ) by {
        let remark = told.findings[i];
        assert(told.findings.contains(remark));
        vstd::seq_lib::to_multiset_contains(told.findings, remark);
        vstd::seq_lib::to_multiset_contains(all, remark);
        let j = choose|j: int| 0 <= j < all.len() && all[j] == remark;
        assert(judged(all[j]));
    }
    lemma_gravest_of(told.findings, told.findings.len());
}

proof fn lemma_gravest_of(list: Seq<Remark>, n: nat)
    requires
        n <= list.len(),
    ensures
        report::gravest(report::remark_verdicts(list), n) == Verdict::Block <==> exists|i: int|
            0 <= i < n && (#[trigger] list[i]).verdict == Verdict::Block,
        report::gravest(report::remark_verdicts(list), n) == Verdict::Allow <==> forall|i: int|
            0 <= i < n ==> (#[trigger] list[i]).verdict == Verdict::Allow,
    decreases n,
{
    if n > 0 {
        lemma_gravest_of(list, (n - 1) as nat);
        assert(report::remark_verdicts(list)[n - 1] == list[n - 1].verdict);
    }
}

/// The address families of a host differ between two zones.
pub open spec fn families_differ(
    old: Map<Key, u32>,
    new: Map<Key, u32>,
    host: Seq<char>,
) -> bool {
    has_record(old, host, "A"@) != has_record(new, host, "A"@) || has_record(old, host, "AAAA"@)
        != has_record(new, host, "AAAA"@)
}

/// Whether a delegation calls for one of the milder codes on addresses.
pub open spec fn calls_for(
    zone: Seq<char>,
    old: Map<Key, u32>,
    new: Map<Key, u32>,
    owner: Seq<char>,
    key: Key,
    inside: bool,
) -> bool {
    &&& delegates(zone, owner, key)
    &&& lies_in(key.rdata, owner) == inside
    &&& if inside {
        has_address(new, key.rdata) && has_address(old, key.rdata) && families_differ(
            old,
            new,
            key.rdata,
        )
    } else {
        !has_address(new, key.rdata)
    }
}

/// A server within the delegated name that keeps an address but not the same families is
/// noted, and so is a server outside it without an address. Nothing else is noted so.
pub proof fn other_glue_is_noted(
    told: Verdicts,
    selected: ZoneRule,
    old: RecordTable,
    new: RecordTable,
    limits: Limits,
    owner: Seq<char>,
)
    requires
        report::reports(told, selected, old, new, limits),
    ensures
        spoken(told.findings, "GLUE_FAMILY_CHANGE"@, owner) <==> exists|key: Key| #[trigger]
            new@.contains_key(key) && calls_for(selected.zone, old@, new@, owner, key, true),
        spoken(told.findings, "OUT_OF_BAILIWICK_NO_GLUE"@, owner) <==> exists|key: Key| #[trigger]
            new@.contains_key(key) && calls_for(selected.zone, old@, new@, owner, key, false),
{
    lemma_glue_noted(told, selected, old, new, limits, owner, "GLUE_FAMILY_CHANGE"@, true);
    lemma_glue_noted(told, selected, old, new, limits, owner, "OUT_OF_BAILIWICK_NO_GLUE"@, false);
}

proof fn lemma_glue_noted(
    told: Verdicts,
    selected: ZoneRule,
    old: RecordTable,
    new: RecordTable,
    limits: Limits,
    owner: Seq<char>,
    code: Seq<char>,
    inside: bool,
)
    requires
        report::reports(told, selected, old, new, limits),
        code == if inside {
            "GLUE_FAMILY_CHANGE"@
        } else {
            "OUT_OF_BAILIWICK_NO_GLUE"@
        },
    ensures
        spoken(told.findings, code, owner) <==> exists|key: Key| #[trigger]
            new@.contains_key(key) && calls_for(selected.zone, old@, new@, owner, key, inside),
{
    let zone = selected.zone;
    let (old_keys, new_keys) = (findings::keys(old), findings::keys(new));
    lemma_codes();
    lemma_told(told, selected, old, new, limits, code, owner);
    lemma_code_of_checks(told, selected, old, new, limits, code, owner);
    lemma_glue_spoken(zone, old_keys, new_keys, new_keys.len(), code, owner);
    assert forall|key: Key| #[trigger]
        spoken(findings::glue_remark(zone, old_keys, new_keys, key), code, owner) <==> calls_for(
            zone,
            old@,
            new@,
            owner,
            key,
            inside,
        ) by {
        lemma_lies_in(key.rdata, key.owner);
        lemma_type_held(new, key.rdata, "A"@);
        lemma_type_held(new, key.rdata, "AAAA"@);
        lemma_type_held(old, key.rdata, "A"@);
        lemma_type_held(old, key.rdata, "AAAA"@);
        let list = findings::glue_remark(zone, old_keys, new_keys, key);
        if list.len() > 0 && list[0].code == code && list[0].owner == owner {
            assert(spoken(list, code, owner));
        }
    }
    if spoken(told.findings, code, owner) {
        let i = choose|i: int|
            0 <= i < new_keys.len() && spoken(
                findings::glue_remark(zone, old_keys, new_keys, #[trigger] new_keys[i]),
                code,
                owner,
            );
        assert(new_keys.contains(new_keys[i]));
        lemma_keys_held(new, new_keys[i]);
        assert(new@.contains_key(new_keys[i]));
    }
    if exists|key: Key| #[trigger]
        new@.contains_key(key) && calls_for(zone, old@, new@, owner, key, inside) {
        let key = choose|key: Key| #[trigger]
            new@.contains_key(key) && calls_for(zone, old@, new@, owner, key, inside);
        lemma_keys_held(new, key);
        let i = choose|i: int| 0 <= i < new_keys.len() && new_keys[i] == key;
        assert(spoken(
            findings::glue_remark(zone, old_keys, new_keys, new_keys[i]),
            code,
            owner,
        ));
    }
}

/// Findings stand by owner, those of an owner by code, and the same ones by what they say.
pub proof fn findings_stand_by_owner_and_code(
    told: Verdicts,
    selected: ZoneRule,
    old: RecordTable,
    new: RecordTable,
    limits: Limits,
    i: int,
    j: int,
)
    requires
        report::reports(told, selected, old, new, limits),
        0 <= i < j < told.findings.len(),
    ensures
        ({
            let (a, b) = (told.findings[i], told.findings[j]);
            &&& a.owner != b.owner ==> text::text_lt(a.owner, b.owner)
            &&& a.owner == b.owner && a.code != b.code ==> text::text_lt(a.code, b.code)
            &&& a.owner == b.owner && a.code == b.code && a.record_types == b.record_types
                ==> text::text_le(a.detail, b.detail)
        }),
{
    assert(report::remark_le(told.findings[i], told.findings[j]));
}

/// Verdicts sum up to the gravest of them: a block if one is, and a pass only if all are.
pub proof fn the_gravest_verdict_counts(verdicts: Seq<Verdict>, n: nat)
    requires
        n <= verdicts.len(),
    ensures
        report::gravest(verdicts, n) == Verdict::Block <==> exists|i: int|
            0 <= i < n && #[trigger] verdicts[i] == Verdict::Block,
        report::gravest(verdicts, n) == Verdict::Allow <==> forall|i: int|
            0 <= i < n ==> #[trigger] verdicts[i] == Verdict::Allow,
    decreases n,
{
    if n > 0 {
        the_gravest_verdict_counts(verdicts, (n - 1) as nat);
        let front = report::gravest(verdicts, (n - 1) as nat);
        assert(verdicts[n - 1] == verdicts[n - 1]);
        if front == Verdict::Block {
            let i = choose|i: int| 0 <= i < n - 1 && #[trigger] verdicts[i] == Verdict::Block;
            assert(verdicts[i] == Verdict::Block);
        }
    }
}

proof fn lemma_hex_apart(a: nat, b: nat)
    requires
        a < 16,
        b < 16,
        ip::hex_char(a) == ip::hex_char(b),
    ensures
        a == b,
{
}

proof fn lemma_escape_apart(a: char, b: char, x: Seq<char>, y: Seq<char>)
    requires
        report::escaped_char(a) + x == report::escaped_char(b) + y,
    ensures
        a == b,
        x == y,
{
    let (p, q) = (report::escaped_char(a), report::escaped_char(b));
    let (one, other) = (p + x, q + y);
    assert(one[0] == p[0] && other[0] == q[0]);
    if p.len() > 1 && q.len() > 1 {
        assert(one[1] == p[1] && other[1] == q[1]);
        if p.len() > 2 && q.len() > 2 {
            assert(one[4] == p[4] && other[4] == q[4]);
            assert(one[5] == p[5] && other[5] == q[5]);
            lemma_hex_apart(a as nat / 16 % 16, b as nat / 16 % 16);
            lemma_hex_apart(a as nat % 16, b as nat % 16);
        }
    }
    assert(a == b);
    assert(x =~= one.skip(p.len() as int));
    assert(y =~= other.skip(q.len() as int));
}

proof fn lemma_escaped_front(value: Seq<char>)
    requires
        value.len() > 0,
    ensures
        report::escaped(value) == report::escaped_char(value[0]) + report::escaped(
            value.drop_first(),
        ),
    decreases value.len(),
{
    let rest = value.drop_first();
    if value.len() == 1 {
        assert(value.drop_last() =~= Seq::empty());
        assert(rest =~= Seq::empty());
        assert(report::escaped(Seq::<char>::empty()) =~= Seq::empty());
        assert(report::escaped(value) =~= report::escaped_char(value[0]) + report::escaped(rest));
    } else {
        lemma_escaped_front(value.drop_last());
        assert(value.drop_last().drop_first() =~= rest.drop_last());
        assert(report::escaped(value) =~= report::escaped_char(value[0]) + report::escaped(rest));
    }
}

/// Different texts are shown differently in a report.
pub proof fn shown_texts_are_told_apart(a: Seq<char>, b: Seq<char>)
    requires
        report::escaped(a) == report::escaped(b),
    ensures
        a == b,
    decreases a.len(),
{
    if a.len() > 0 {
        lemma_escaped_front(a);
    }
    if b.len() > 0 {
        lemma_escaped_front(b);
    }
    if a.len() > 0 && b.len() > 0 {
        let (x, y) = (a.drop_first(), b.drop_first());
        lemma_escape_apart(a[0], b[0], report::escaped(x), report::escaped(y));
        shown_texts_are_told_apart(x, y);
        assert(a =~= seq![a[0]] + x);
        assert(b =~= seq![b[0]] + y);
    } else if a.len() > 0 {
        assert(report::escaped(a).len() > 0);
    } else if b.len() > 0 {
        assert(report::escaped(b).len() > 0);
    } else {
        assert(a =~= b);
    }
}

/// No quote stands in a shown text but behind a backslash, and no control character does.
pub proof fn shown_texts_stay_within_their_quotes(value: Seq<char>, i: int)
    requires
        0 <= i < report::escaped(value).len(),
    ensures
        report::escaped(value)[i] > '\u{1f}',
        report::escaped(value)[i] == '"' ==> i > 0 && report::escaped(value)[i - 1] == '\\',
    decreases value.len(),
{
    let front = report::escaped(value.drop_last());
    if i < front.len() {
        shown_texts_stay_within_their_quotes(value.drop_last(), i);
    } else {
        let last = report::escaped_char(value.last());
        assert(report::escaped(value)[i] == last[i - front.len()]);
        if i > front.len() {
            assert(report::escaped(value)[i - 1] == last[i - 1 - front.len()]);
        }
    }
}

} // verus!
