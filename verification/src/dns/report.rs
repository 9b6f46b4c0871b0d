//! Reports on zones, and their text.

use vstd::prelude::*;
use crate::chars::chars_of;
use crate::dns::changes;
use crate::dns::changes::{compare_records, Change, Difference};
use crate::dns::findings;
use crate::dns::findings::{check_zone, Finding, Remark, Verdict};
use crate::dns::policy::{ZonePolicy, ZoneRule};
use crate::dns::table::RecordTable;
use crate::dns::zone::Limits;
use crate::ip;
use crate::ip::hex_char_of;
use crate::sorting;
use crate::sorting::{sort, Ranked};
use crate::text;
use crate::text::{is_text_le, push_decimal, same_text};

verus! {

/// The records of a zone of one snapshot, and the files that they were read from.
#[derive(Debug, Clone)]
pub struct ZoneData {
    pub records: RecordTable,
    pub input_paths: Vec<String>,
}

#[derive(Debug, Clone)]
pub struct ZoneReport {
    pub zone: String,
    pub old_baseline: String,
    pub new_baseline: String,
    pub verdict: Verdict,
    pub changes: Vec<Change>,
    pub findings: Vec<Finding>,
}

/// A report on a zone as plain values.
#[verifier::ext_equal]
pub struct Verdicts {
    pub zone: Seq<char>,
    pub old_baseline: Seq<char>,
    pub new_baseline: Seq<char>,
    pub verdict: Verdict,
    pub changes: Seq<Difference>,
    pub findings: Seq<Remark>,
}

impl View for ZoneReport {
    type V = Verdicts;

    open spec fn view(&self) -> Verdicts {
        Verdicts {
            zone: self.zone@,
            old_baseline: self.old_baseline@,
            new_baseline: self.new_baseline@,
            verdict: self.verdict,
            changes: changes::differences(self.changes@),
            findings: findings::remarks(self.findings@),
        }
    }
}

/// Lists of texts in the order of their first difference.
pub open spec fn texts_le(a: Seq<Seq<char>>, b: Seq<Seq<char>>) -> bool
    decreases a.len(),
{
    if a.len() == 0 {
        true
    } else if b.len() == 0 {
        false
    } else if a[0] != b[0] {
        text::text_lt(a[0], b[0])
    } else {
        texts_le(a.drop_first(), b.drop_first())
    }
}

proof fn lemma_texts_total(a: Seq<Seq<char>>, b: Seq<Seq<char>>)
    ensures
        texts_le(a, b) || texts_le(b, a),
        texts_le(a, b) && texts_le(b, a) ==> a == b,
        texts_le(a, a),
    decreases a.len(),
{
    if a.len() > 0 {
        lemma_texts_total(a.drop_first(), a.drop_first());
    }
    if a.len() > 0 && b.len() > 0 {
        text::lemma_text_total(a[0], b[0]);
        lemma_texts_total(a.drop_first(), b.drop_first());
        if a[0] == b[0] && a.drop_first() == b.drop_first() {
            assert(a =~= seq![a[0]] + a.drop_first());
            assert(b =~= seq![b[0]] + b.drop_first());
        }
    } else if a.len() == 0 && b.len() == 0 {
        assert(a =~= b);
    }
}

proof fn lemma_texts_transitive(a: Seq<Seq<char>>, b: Seq<Seq<char>>, c: Seq<Seq<char>>)
    requires
        texts_le(a, b),
        texts_le(b, c),
    ensures
        texts_le(a, c),
    decreases a.len(),
{
    if a.len() > 0 && b.len() > 0 && c.len() > 0 {
        text::lemma_text_total(a[0], b[0]);
        text::lemma_text_total(b[0], c[0]);
        text::lemma_text_total(a[0], c[0]);
        if a[0] == b[0] && b[0] == c[0] {
            lemma_texts_transitive(a.drop_first(), b.drop_first(), c.drop_first());
        } else if a[0] != b[0] && b[0] != c[0] {
            text::lemma_text_transitive(a[0], b[0], c[0]);
        }
    }
}

/// The order of findings: by owner, code, types and words.
pub open spec fn remark_le(a: Remark, b: Remark) -> bool {
    if a.owner != b.owner {
        text::text_lt(a.owner, b.owner)
    } else if a.code != b.code {
        text::text_lt(a.code, b.code)
    } else if a.record_types != b.record_types {
        texts_le(a.record_types, b.record_types)
    } else {
        text::text_le(a.detail, b.detail)
    }
}

fn is_texts_le(a: &Vec<String>, b: &Vec<String>) -> (result: bool)
    ensures
        result == texts_le(findings::type_views(a@), findings::type_views(b@)),
{
    let ghost x = findings::type_views(a@);
    let ghost y = findings::type_views(b@);
    let mut i: usize = 0;
    assert(x.skip(0) =~= x);
    assert(y.skip(0) =~= y);
    while i < a.len()
        invariant
            i <= a@.len(),
            i <= b@.len(),
            x == findings::type_views(a@),
            y == findings::type_views(b@),
            texts_le(x, y) == texts_le(x.skip(i as int), y.skip(i as int)),
        decreases a@.len() - i,
    {
        if i >= b.len() {
            return false;
        }
        proof {
            assert(x.skip(i as int)[0] == a@[i as int]@);
            assert(y.skip(i as int)[0] == b@[i as int]@);
            assert(x.skip(i as int).drop_first() =~= x.skip(i + 1));
            assert(y.skip(i as int).drop_first() =~= y.skip(i + 1));
        }
        if !same_text(a[i].as_str(), b[i].as_str()) {
            return is_text_le(a[i].as_str(), b[i].as_str());
        }
        i = i + 1;
    }
    true
}

fn same_texts(a: &Vec<String>, b: &Vec<String>) -> (same: bool)
    ensures
        same == (findings::type_views(a@) == findings::type_views(b@)),
{
    let ghost x = findings::type_views(a@);
    let ghost y = findings::type_views(b@);
    if a.len() != b.len() {
        assert(x.len() != y.len());
        return false;
    }
    let mut i: usize = 0;
    while i < a.len()
        invariant
            i <= a@.len() == b@.len(),
            x == findings::type_views(a@),
            y == findings::type_views(b@),
            forall|k: int| 0 <= k < i ==> #[trigger] x[k] == y[k],
        decreases a@.len() - i,
    {
        assert(x[i as int] == a@[i as int]@ && y[i as int] == b@[i as int]@);
        if !same_text(a[i].as_str(), b[i].as_str()) {
            return false;
        }
        i = i + 1;
    }
    assert(x =~= y);
    true
}

/// A finding to be put in order.
#[derive(Clone, Copy)]
pub struct Listed<'a> {
    pub finding: &'a Finding,
}

impl<'a> Ranked for Listed<'a> {
    open spec fn le(self, other: Self) -> bool {
        remark_le(self.finding@, other.finding@)
    }

    proof fn le_total(a: Self, b: Self) {
        let x = a.finding@;
        let y = b.finding@;
        text::lemma_text_total(x.owner, y.owner);
        text::lemma_text_total(x.code, y.code);
        lemma_texts_total(x.record_types, y.record_types);
        text::lemma_text_total(x.detail, y.detail);
    }

    proof fn le_transitive(a: Self, b: Self, c: Self) {
        let x = a.finding@;
        let y = b.finding@;
        let z = c.finding@;
        text::lemma_text_total(x.owner, y.owner);
        text::lemma_text_total(y.owner, z.owner);
        text::lemma_text_total(x.code, y.code);
        text::lemma_text_total(y.code, z.code);
        lemma_texts_total(x.record_types, y.record_types);
        lemma_texts_total(y.record_types, z.record_types);
        if x.owner != y.owner && y.owner != z.owner {
            text::lemma_text_transitive(x.owner, y.owner, z.owner);
        }
        if x.code != y.code && y.code != z.code && text::text_le(x.code, y.code) && text::text_le(
            y.code,
            z.code,
        ) {
            text::lemma_text_transitive(x.code, y.code, z.code);
        }
        if texts_le(x.record_types, y.record_types) && texts_le(y.record_types, z.record_types) {
            lemma_texts_transitive(x.record_types, y.record_types, z.record_types);
        }
        if text::text_le(x.detail, y.detail) && text::text_le(y.detail, z.detail) {
            text::lemma_text_transitive(x.detail, y.detail, z.detail);
        }
    }

    fn is_le(self, other: Self) -> bool {
        let a = self.finding;
        let b = other.finding;
        if !same_text(a.owner.as_str(), b.owner.as_str()) {
            is_text_le(a.owner.as_str(), b.owner.as_str())
        } else if !same_text(a.code, b.code) {
            is_text_le(a.code, b.code)
        } else if !same_texts(&a.record_types, &b.record_types) {
            is_texts_le(&a.record_types, &b.record_types)
        } else {
            is_text_le(a.detail.as_str(), b.detail.as_str())
        }
    }
}

fn copy_finding(finding: &Finding) -> (copy: Finding)
    ensures
        copy@ == finding@,
{
    let ghost types = findings::type_views(finding.record_types@);
    let mut record_types: Vec<String> = Vec::new();
    let mut i: usize = 0;
    while i < finding.record_types.len()
        invariant
            i <= finding.record_types@.len(),
            types == findings::type_views(finding.record_types@),
            findings::type_views(record_types@) =~= types.take(i as int),
        decreases finding.record_types@.len() - i,
    {
        let ghost before = record_types@;
        let name = finding.record_types[i].as_str().to_owned();
        record_types.push(name);
        proof {
            assert(findings::type_views(record_types@) =~= findings::type_views(before).push(
                name@,
            ));
            assert(types[i as int] == name@);
        }
        i = i + 1;
    }
    assert(types.take(types.len() as int) =~= types);
    Finding {
        code: finding.code,
        verdict: finding.verdict,
        owner: finding.owner.as_str().to_owned(),
        record_types,
        detail: finding.detail.as_str().to_owned(),
    }
}

pub open spec fn in_remark_order(list: Seq<Remark>) -> bool {
    forall|i: int, j: int|
        0 <= i < j < list.len() ==> remark_le(#[trigger] list[i], #[trigger] list[j])
}

pub open spec fn listed_remarks(list: Seq<Listed>) -> Seq<Remark> {
    list.map_values(|listed: Listed| listed.finding@)
}

/// Mapping keeps what is the same but for its order.
proof fn lemma_mapped_multiset<A, B>(a: Seq<A>, b: Seq<A>, f: spec_fn(A) -> B)
    requires
        a.to_multiset() == b.to_multiset(),
    ensures
        a.map_values(f).to_multiset() == b.map_values(f).to_multiset(),
    decreases a.len(),
{
    a.to_multiset_ensures();
    b.to_multiset_ensures();
    if a.len() > 0 {
        let last = a.last();
        let front = a.drop_last();
        assert(a =~= front.push(last));
        front.to_multiset_ensures();
        vstd::seq_lib::to_multiset_contains(a, last);
        vstd::seq_lib::to_multiset_contains(b, last);
        assert(a.contains(a[a.len() - 1]));
        let k = choose|k: int| 0 <= k < b.len() && b[k] == last;
        let rest = b.remove(k);
        assert(rest.to_multiset() =~= b.to_multiset().remove(last)) by {
            b.to_multiset_ensures();
        }
        assert(front.to_multiset() =~= a.to_multiset().remove(last));
        lemma_mapped_multiset(front, rest, f);
        assert(a.map_values(f) =~= front.map_values(f).push(f(last)));
        front.map_values(f).to_multiset_ensures();
        let mapped = b.map_values(f);
        assert(mapped.remove(k) =~= rest.map_values(f));
        mapped.to_multiset_ensures();
        assert(mapped[k] == f(last));
        assert(mapped.to_multiset().contains(f(last))) by {
            vstd::seq_lib::to_multiset_contains(mapped, f(last));
            assert(mapped.contains(mapped[k]));
        }
        assert(mapped.to_multiset() =~= rest.map_values(f).to_multiset().insert(f(last)));
    } else {
        assert(b.len() == 0);
        assert(a =~= b);
    }
}

fn order_findings(given: &Vec<Finding>) -> (ordered: Vec<Finding>)
    ensures
        in_remark_order(findings::remarks(ordered@)),
        findings::remarks(ordered@).to_multiset() == findings::remarks(given@).to_multiset(),
{
    let ghost shown = findings::remarks(given@);
    let mut list: Vec<Listed> = Vec::new();
    let mut i: usize = 0;
    while i < given.len()
        invariant
            i <= given@.len(),
            shown == findings::remarks(given@),
            listed_remarks(list@) =~= shown.take(i as int),
        decreases given@.len() - i,
    {
        let ghost before = list@;
        list.push(Listed { finding: &given[i] });
        proof {
            assert(listed_remarks(list@) =~= listed_remarks(before).push(given@[i as int]@));
            assert(shown[i as int] == given@[i as int]@);
        }
        i = i + 1;
    }
    assert(shown.take(shown.len() as int) =~= shown);
    let sorted = sort(&list);
    let mut ordered: Vec<Finding> = Vec::new();
    let mut k: usize = 0;
    while k < sorted.len()
        invariant
            k <= sorted@.len(),
            findings::remarks(ordered@) =~= listed_remarks(sorted@).take(k as int),
        decreases sorted@.len() - k,
    {
        let ghost before = ordered@;
        let copy = copy_finding(sorted[k].finding);
        ordered.push(copy);
        proof {
            assert(findings::remarks(ordered@) =~= findings::remarks(before).push(copy@));
            assert(listed_remarks(sorted@)[k as int] == sorted@[k as int].finding@);
        }
        k = k + 1;
    }
    proof {
        let result = findings::remarks(ordered@);
        assert(result =~= listed_remarks(sorted@));
        lemma_mapped_multiset(sorted@, list@, |listed: Listed| listed.finding@);
        assert forall|a: int, b: int| 0 <= a < b < result.len() implies remark_le(
            #[trigger] result[a],
            #[trigger] result[b],
        ) by {
            assert(sorted@[a].le(sorted@[b]));
        }
    }
    ordered
}

/// The graver of two verdicts.
pub open spec fn graver(a: Verdict, b: Verdict) -> Verdict {
    if a == Verdict::Block || b == Verdict::Block {
        Verdict::Block
    } else if a == Verdict::Review || b == Verdict::Review {
        Verdict::Review
    } else {
        Verdict::Allow
    }
}

fn graver_of(a: Verdict, b: Verdict) -> (verdict: Verdict)
    ensures
        verdict == graver(a, b),
{
    if a == Verdict::Block || b == Verdict::Block {
        Verdict::Block
    } else if a == Verdict::Review || b == Verdict::Review {
        Verdict::Review
    } else {
        Verdict::Allow
    }
}

/// The gravest of the first `n` verdicts.
pub open spec fn gravest(verdicts: Seq<Verdict>, n: nat) -> Verdict
    decreases n,
{
    if n == 0 {
        Verdict::Allow
    } else {
        graver(gravest(verdicts, (n - 1) as nat), verdicts[n - 1])
    }
}

pub open spec fn remark_verdicts(list: Seq<Remark>) -> Seq<Verdict> {
    list.map_values(|remark: Remark| remark.verdict)
}

/// A report says all that changed in a zone, all that is to be said of it, and
/// the gravest of it.
pub open spec fn reports(
    report: Verdicts,
    selected: ZoneRule,
    old: RecordTable,
    new: RecordTable,
    limits: Limits,
) -> bool {
    &&& report.zone == selected.zone
    &&& report.old_baseline == selected.old_baseline
    &&& report.new_baseline == selected.new_baseline
    &&& changes::are_differences(old@, new@, report.changes)
    &&& in_remark_order(report.findings)
    &&& report.findings.to_multiset() == findings::remarks_of(
        selected,
        old,
        new,
        report.changes,
        limits,
    ).to_multiset()
    &&& report.verdict == gravest(remark_verdicts(report.findings), report.findings.len())
}

/// Compares two snapshots of a zone.
pub fn compare_zone(selected: &ZonePolicy, old: &ZoneData, new: &ZoneData, limits: &Limits) -> (report:
    ZoneReport)
    requires
        old.records.sound(),
        new.records.sound(),
    ensures
        reports(report@, selected@, old.records, new.records, *limits),
{
    let found = compare_records(&old.records, &new.records);
    let raw = check_zone(selected, &old.records, &new.records, &found, limits);
    let ordered = order_findings(&raw);
    let ghost list = findings::remarks(ordered@);
    let mut verdict = Verdict::Allow;
    let mut i: usize = 0;
    while i < ordered.len()
        invariant
            i <= ordered@.len(),
            list == findings::remarks(ordered@),
            verdict == gravest(remark_verdicts(list), i as nat),
        decreases ordered@.len() - i,
    {
        assert(remark_verdicts(list)[i as int] == ordered@[i as int].verdict);
        verdict = graver_of(verdict, ordered[i].verdict);
        i = i + 1;
    }
    ZoneReport {
        zone: selected.zone.as_str().to_owned(),
        old_baseline: selected.old_baseline.as_str().to_owned(),
        new_baseline: selected.new_baseline.as_str().to_owned(),
        verdict,
        changes: found,
        findings: ordered,
    }
}

#[derive(Debug, Clone)]
pub struct Report {
    pub overall: Verdict,
    pub zones: Vec<ZoneReport>,
}

pub open spec fn zone_views(zones: Seq<ZoneReport>) -> Seq<Verdicts> {
    zones.map_values(|zone: ZoneReport| zone@)
}

pub open spec fn zone_verdicts(zones: Seq<Verdicts>) -> Seq<Verdict> {
    zones.map_values(|zone: Verdicts| zone.verdict)
}

pub open spec fn verdict_text(verdict: Verdict) -> Seq<char> {
    match verdict {
        Verdict::Allow => "allow"@,
        Verdict::Review => "review"@,
        Verdict::Block => "block"@,
    }
}

fn verdict_name(verdict: Verdict) -> (name: &'static str)
    ensures
        name@ == verdict_text(verdict),
{
    match verdict {
        Verdict::Allow => "allow",
        Verdict::Review => "review",
        Verdict::Block => "block",
    }
}

/// Four hexadecimal digits.
pub open spec fn four_hex(value: nat) -> Seq<char> {
    seq![
        ip::hex_char(value / 4096 % 16),
        ip::hex_char(value / 256 % 16),
        ip::hex_char(value / 16 % 16),
        ip::hex_char(value % 16),
    ]
}

/// A character within a quoted text.
pub open spec fn escaped_char(c: char) -> Seq<char> {
    if c == '"' {
        seq!['\\', '"']
    } else if c == '\\' {
        seq!['\\', '\\']
    } else if c == '\n' {
        seq!['\\', 'n']
    } else if c == '\r' {
        seq!['\\', 'r']
    } else if c == '\t' {
        seq!['\\', 't']
    } else if c <= '\u{1f}' {
        seq!['\\', 'u'] + four_hex(c as nat)
    } else {
        seq![c]
    }
}

/// A text within quotes.
pub open spec fn escaped(value: Seq<char>) -> Seq<char>
    decreases value.len(),
{
    if value.len() == 0 {
        Seq::empty()
    } else {
        escaped(value.drop_last()) + escaped_char(value.last())
    }
}

fn push_escaped_char(out: &mut String, c: char)
    ensures
        final(out)@ == old(out)@ + escaped_char(c),
{
    if c == '"' {
        out.push('\\');
        out.push('"');
    } else if c == '\\' {
        out.push('\\');
        out.push('\\');
    } else if c == '\n' {
        out.push('\\');
        out.push('n');
    } else if c == '\r' {
        out.push('\\');
        out.push('r');
    } else if c == '\t' {
        out.push('\\');
        out.push('t');
    } else if c <= '\u{1f}' {
        let value: u32 = c as u32;
        out.push('\\');
        out.push('u');
        out.push(hex_char_of(value / 4096 % 16));
        out.push(hex_char_of(value / 256 % 16));
        out.push(hex_char_of(value / 16 % 16));
        out.push(hex_char_of(value % 16));
    } else {
        out.push(c);
    }
    assert(out@ =~= old(out)@ + escaped_char(c));
}

fn push_escaped(out: &mut String, value: &str)
    ensures
        final(out)@ == old(out)@ + escaped(value@),
{
    let chars = chars_of(value);
    let mut i: usize = 0;
    assert(value@.take(0) =~= Seq::empty());
    assert(out@ =~= old(out)@ + escaped(value@.take(0)));
    while i < chars.len()
        invariant
            i <= chars@.len(),
            chars@ == value@,
            out@ == old(out)@ + escaped(value@.take(i as int)),
        decreases chars@.len() - i,
    {
        push_escaped_char(out, chars[i]);
        proof {
            assert(value@.take(i + 1).drop_last() =~= value@.take(i as int));
            assert(out@ =~= old(out)@ + escaped(value@.take(i + 1)));
        }
        i = i + 1;
    }
    assert(value@.take(value@.len() as int) =~= value@);
}

pub open spec fn number_text(value: Option<u32>) -> Seq<char> {
    match value {
        Some(value) => text::decimal(value as nat),
        None => "null"@,
    }
}

fn push_number(out: &mut String, value: Option<u32>)
    ensures
        final(out)@ == old(out)@ + number_text(value),
{
    match value {
        Some(value) => push_decimal(out, value as u64),
        None => out.append("null"),
    }
}

pub open spec fn change_text(change: Difference) -> Seq<char> {
    "{\"kind\":\""@ + change.kind + "\",\"owner\":\""@ + escaped(change.key.owner)
        + "\",\"type\":\""@ + escaped(change.key.record_type) + "\",\"rdata\":\""@ + escaped(
        change.key.rdata,
    ) + "\",\"old_ttl\":"@ + number_text(change.old_ttl) + ",\"new_ttl\":"@ + number_text(
        change.new_ttl,
    ) + "}"@
}

fn push_change(out: &mut String, change: &Change)
    ensures
        final(out)@ == old(out)@ + change_text(change@),
{
    out.append("{\"kind\":\"");
    out.append(change.kind);
    out.append("\",\"owner\":\"");
    push_escaped(out, change.key.owner.as_str());
    out.append("\",\"type\":\"");
    push_escaped(out, change.key.record_type.as_str());
    out.append("\",\"rdata\":\"");
    push_escaped(out, change.key.rdata.as_str());
    out.append("\",\"old_ttl\":");
    push_number(out, change.old_ttl);
    out.append(",\"new_ttl\":");
    push_number(out, change.new_ttl);
    out.append("}");
    assert(out@ =~= old(out)@ + change_text(change@));
}

/// The first `n` changes between commas.
pub open spec fn changes_text(list: Seq<Difference>, n: nat) -> Seq<char>
    decreases n,
{
    if n == 0 {
        Seq::empty()
    } else if n == 1 {
        change_text(list[0])
    } else {
        changes_text(list, (n - 1) as nat) + ","@ + change_text(list[n - 1])
    }
}

fn push_changes(out: &mut String, list: &Vec<Change>)
    ensures
        final(out)@ == old(out)@ + changes_text(changes::differences(list@), list@.len()),
{
    let ghost shown = changes::differences(list@);
    let mut i: usize = 0;
    assert(out@ =~= old(out)@ + changes_text(shown, 0));
    while i < list.len()
        invariant
            i <= list@.len(),
            shown == changes::differences(list@),
            out@ == old(out)@ + changes_text(shown, i as nat),
        decreases list@.len() - i,
    {
        assert(shown[i as int] == list@[i as int]@);
        if i > 0 {
            out.append(",");
        }
        push_change(out, &list[i]);
        assert(out@ =~= old(out)@ + changes_text(shown, (i + 1) as nat));
        i = i + 1;
    }
}

/// The first `n` types, each in quotes, between commas.
pub open spec fn types_text(types: Seq<Seq<char>>, n: nat) -> Seq<char>
    decreases n,
{
    if n == 0 {
        Seq::empty()
    } else if n == 1 {
        "\""@ + escaped(types[0]) + "\""@
    } else {
        types_text(types, (n - 1) as nat) + ","@ + "\""@ + escaped(types[n - 1]) + "\""@
    }
}

fn push_types(out: &mut String, types: &Vec<String>)
    ensures
        final(out)@ == old(out)@ + types_text(findings::type_views(types@), types@.len()),
{
    let ghost shown = findings::type_views(types@);
    let mut i: usize = 0;
    assert(out@ =~= old(out)@ + types_text(shown, 0));
    while i < types.len()
        invariant
            i <= types@.len(),
            shown == findings::type_views(types@),
            out@ == old(out)@ + types_text(shown, i as nat),
        decreases types@.len() - i,
    {
        assert(shown[i as int] == types@[i as int]@);
        if i > 0 {
            out.append(",");
        }
        out.append("\"");
        push_escaped(out, types[i].as_str());
        out.append("\"");
        assert(out@ =~= old(out)@ + types_text(shown, (i + 1) as nat));
        i = i + 1;
    }
}

pub open spec fn finding_text(remark: Remark) -> Seq<char> {
    "{\"code\":\""@ + remark.code + "\",\"verdict\":\""@ + verdict_text(remark.verdict)
        + "\",\"owner\":\""@ + escaped(remark.owner) + "\",\"record_types\":["@ + types_text(
        remark.record_types,
        remark.record_types.len(),
    ) + "],\"detail\":\""@ + escaped(remark.detail) + "\"}"@
}

fn push_finding_text(out: &mut String, finding: &Finding)
    ensures
        final(out)@ == old(out)@ + finding_text(finding@),
{
    out.append("{\"code\":\"");
    out.append(finding.code);
    out.append("\",\"verdict\":\"");
    out.append(verdict_name(finding.verdict));
    out.append("\",\"owner\":\"");
    push_escaped(out, finding.owner.as_str());
    out.append("\",\"record_types\":[");
    push_types(out, &finding.record_types);
    out.append("],\"detail\":\"");
    push_escaped(out, finding.detail.as_str());
    out.append("\"}");
    assert(finding@.record_types.len() == finding.record_types@.len());
    assert(out@ =~= old(out)@ + finding_text(finding@));
}

/// The first `n` findings between commas.
pub open spec fn findings_text(list: Seq<Remark>, n: nat) -> Seq<char>
    decreases n,
{
    if n == 0 {
        Seq::empty()
    } else if n == 1 {
        finding_text(list[0])
    } else {
        findings_text(list, (n - 1) as nat) + ","@ + finding_text(list[n - 1])
    }
}

fn push_findings(out: &mut String, list: &Vec<Finding>)
    ensures
        final(out)@ == old(out)@ + findings_text(findings::remarks(list@), list@.len()),
{
    let ghost shown = findings::remarks(list@);
    let mut i: usize = 0;
    assert(out@ =~= old(out)@ + findings_text(shown, 0));
    while i < list.len()
        invariant
            i <= list@.len(),
            shown == findings::remarks(list@),
            out@ == old(out)@ + findings_text(shown, i as nat),
        decreases list@.len() - i,
    {
        assert(shown[i as int] == list@[i as int]@);
        if i > 0 {
            out.append(",");
        }
        push_finding_text(out, &list[i]);
        assert(out@ =~= old(out)@ + findings_text(shown, (i + 1) as nat));
        i = i + 1;
    }
}

pub open spec fn zone_text(zone: Verdicts) -> Seq<char> {
    "{\"zone\":\""@ + escaped(zone.zone) + "\",\"verdict\":\""@ + verdict_text(zone.verdict)
        + "\",\"baseline\":{\"old\":\""@ + escaped(zone.old_baseline) + "\",\"new\":\""@ + escaped(
        zone.new_baseline,
    ) + "\"},\"changes\":["@ + changes_text(zone.changes, zone.changes.len())
        + "],\"findings\":["@ + findings_text(zone.findings, zone.findings.len()) + "]}"@
}

fn push_zone(out: &mut String, zone: &ZoneReport)
    ensures
        final(out)@ == old(out)@ + zone_text(zone@),
{
    out.append("{\"zone\":\"");
    push_escaped(out, zone.zone.as_str());
    out.append("\",\"verdict\":\"");
    out.append(verdict_name(zone.verdict));
    out.append("\",\"baseline\":{\"old\":\"");
    push_escaped(out, zone.old_baseline.as_str());
    out.append("\",\"new\":\"");
    push_escaped(out, zone.new_baseline.as_str());
    out.append("\"},\"changes\":[");
    push_changes(out, &zone.changes);
    out.append("],\"findings\":[");
    push_findings(out, &zone.findings);
    out.append("]}");
    proof {
        assert(zone@.changes.len() == zone.changes@.len());
        assert(zone@.findings.len() == zone.findings@.len());
        assert(out@ =~= old(out)@ + zone_text(zone@));
    }
}

/// The first `n` zones between commas.
pub open spec fn zones_text(list: Seq<Verdicts>, n: nat) -> Seq<char>
    decreases n,
{
    if n == 0 {
        Seq::empty()
    } else if n == 1 {
        zone_text(list[0])
    } else {
        zones_text(list, (n - 1) as nat) + ","@ + zone_text(list[n - 1])
    }
}

/// The text of a report.
pub open spec fn report_text(overall: Verdict, zones: Seq<Verdicts>) -> Seq<char> {
    "{\"schema_version\":1,\"overall_verdict\":\""@ + verdict_text(overall)
        + "\",\"zones\":["@ + zones_text(zones, zones.len()) + "]}\n"@
}

impl Report {
    pub fn new(zones: Vec<ZoneReport>) -> (report: Self)
        ensures
            report.zones == zones,
            report.overall == gravest(zone_verdicts(zone_views(zones@)), zones@.len()),
    {
        let ghost shown = zone_verdicts(zone_views(zones@));
        let mut overall = Verdict::Allow;
        let mut i: usize = 0;
        while i < zones.len()
            invariant
                i <= zones@.len(),
                shown == zone_verdicts(zone_views(zones@)),
                overall == gravest(shown, i as nat),
            decreases zones@.len() - i,
        {
            assert(shown[i as int] == zones@[i as int].verdict);
            overall = graver_of(overall, zones[i].verdict);
            i = i + 1;
        }
        Report { overall, zones }
    }

    pub fn is_blocked(&self) -> (blocked: bool)
        ensures
            blocked == (self.overall == Verdict::Block),
    {
        match self.overall {
            Verdict::Block => true,
            _ => false,
        }
    }

    /// The report as text.
    pub fn to_json(&self) -> (output: String)
        ensures
            output@ == report_text(self.overall, zone_views(self.zones@)),
    {
        let ghost shown = zone_views(self.zones@);
        let mut output = "{\"schema_version\":1,\"overall_verdict\":\"".to_owned();
        output.append(verdict_name(self.overall));
        output.append("\",\"zones\":[");
        let ghost head = output@;
        let mut i: usize = 0;
        assert(output@ =~= head + zones_text(shown, 0));
        while i < self.zones.len()
            invariant
                i <= self.zones@.len(),
                shown == zone_views(self.zones@),
                output@ == head + zones_text(shown, i as nat),
            decreases self.zones@.len() - i,
        {
            assert(shown[i as int] == self.zones@[i as int]@);
            if i > 0 {
                output.append(",");
            }
            push_zone(&mut output, &self.zones[i]);
            assert(output@ =~= head + zones_text(shown, (i + 1) as nat));
            i = i + 1;
        }
        output.append("]}\n");
        assert(output@ =~= report_text(self.overall, shown));
        output
    }
}

/// A verdict is at least as grave as every one that it sums up.
pub proof fn gravest_is_no_milder(verdicts: Seq<Verdict>, i: int)
    requires
        0 <= i < verdicts.len(),
    ensures
        graver(gravest(verdicts, verdicts.len()), verdicts[i]) == gravest(
            verdicts,
            verdicts.len(),
        ),
{
    lemma_gravest(verdicts, verdicts.len(), i);
}

proof fn lemma_gravest(verdicts: Seq<Verdict>, n: nat, i: int)
    requires
        0 <= i < n,
    ensures
        graver(gravest(verdicts, n), verdicts[i]) == gravest(verdicts, n),
    decreases n,
{
    if i < n - 1 {
        lemma_gravest(verdicts, (n - 1) as nat, i);
    }
}

} // verus!
