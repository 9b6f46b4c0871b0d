//! What the text of a policy comes to.

use vstd::prelude::*;
use crate::chars;
use crate::dns::policy;
use crate::dns::policy::{Draft, Pair};
use crate::dns::problem::Problem;
use crate::dns::rdata;
use crate::fields;
use crate::ip_laws;
use crate::number;

verus! {

/// A number is given to a key.
pub open spec fn given(pairs: Seq<Pair>, key: Seq<char>, value: nat) -> bool {
    exists|i: int|
        0 <= i < pairs.len() && (#[trigger] pairs[i]).key == key && number::integer_of(
            pairs[i].value,
        ) == Some(value)
}

proof fn lemma_given(path: Seq<char>, pairs: Seq<Pair>, key: Seq<char>, value: nat)
    requires
        forall|i: int, j: int|
            0 <= i < j < pairs.len() ==> (#[trigger] pairs[i]).key != (#[trigger] pairs[j]).key,
        value <= usize::MAX,
    ensures
        given(pairs, key, value) <==> policy::number_for(path, pairs, key) == Ok::<nat, Problem>(
            value,
        ),
{
    if policy::has_key(pairs, key) {
        let at = choose|i: int| 0 <= i < pairs.len() && (#[trigger] pairs[i]).key == key;
        assert(policy::value_of(pairs, key) == pairs[at].value);
        if given(pairs, key, value) {
            let i = choose|i: int|
                0 <= i < pairs.len() && (#[trigger] pairs[i]).key == key && number::integer_of(
                    pairs[i].value,
                ) == Some(value);
            assert(i == at);
        }
    }
}

/// The limits of a policy are the numbers that it gives to their names, each above zero
/// and the percentage no more than a hundred.
pub proof fn limits_are_those_that_are_given(
    path: Seq<char>,
    pairs: Seq<Pair>,
    total: nat,
    per_zone: nat,
    depth: nat,
    generated: nat,
    percent: nat,
)
    requires
        forall|i: int, j: int|
            0 <= i < j < pairs.len() ==> (#[trigger] pairs[i]).key != (#[trigger] pairs[j]).key,
        total <= usize::MAX,
        per_zone <= usize::MAX,
        depth <= usize::MAX,
        generated <= usize::MAX,
        percent <= usize::MAX,
    ensures
        ({
            &&& given(pairs, "max_records_total"@, total) && total > 0
            &&& given(pairs, "max_records_per_zone"@, per_zone) && per_zone > 0
            &&& given(pairs, "max_include_depth"@, depth) && depth > 0
            &&& given(pairs, "max_generate_records"@, generated) && generated > 0
            &&& given(pairs, "ttl_decrease_percent"@, percent) && percent <= 100
        }) <==> match policy::limits_of(path, pairs) {
            Ok(limits) => {
                &&& limits.max_records_total == total
                &&& limits.max_records_per_zone == per_zone
                &&& limits.max_include_depth == depth
                &&& limits.max_generate_records == generated
                &&& limits.ttl_decrease_percent == percent
            },
            Err(_) => false,
        },
{
    lemma_given(path, pairs, "max_records_total"@, total);
    lemma_given(path, pairs, "max_records_per_zone"@, per_zone);
    lemma_given(path, pairs, "max_include_depth"@, depth);
    lemma_given(path, pairs, "max_generate_records"@, generated);
    lemma_given(path, pairs, "ttl_decrease_percent"@, percent);
}

/// A zone line names the zone in any case, its file, and the baselines of the old and the
/// new snapshot, in this order.
pub proof fn zone_lines_name_zone_file_and_baselines(
    path: Seq<char>,
    line: int,
    zone: Seq<char>,
    file: Seq<char>,
    old_baseline: Seq<char>,
    new_baseline: Seq<char>,
)
    requires
        zone.len() > 0,
        zone.last() == '.',
        file.len() > 0,
        old_baseline.len() > 0,
        new_baseline.len() > 0,
        !zone.contains('|'),
        !file.contains('|'),
        !old_baseline.contains('|'),
        !new_baseline.contains('|'),
    ensures
        ({
            let value = zone + seq!['|'] + (file + seq!['|'] + (old_baseline + seq!['|']
                + new_baseline));
            let read = policy::zone_of(path, line, value);
            &&& read is Ok
            &&& read->Ok_0.zone == zone.map_values(|c: char| rdata::small(c))
            &&& read->Ok_0.relative_path == file
            &&& read->Ok_0.old_baseline == old_baseline
            &&& read->Ok_0.new_baseline == new_baseline
        }),
{
    let two = old_baseline + seq!['|'] + new_baseline;
    let three = file + seq!['|'] + two;
    ip_laws::lemma_one_field(new_baseline, '|');
    ip_laws::lemma_first_field(old_baseline, new_baseline, '|');
    ip_laws::lemma_first_field(file, two, '|');
    ip_laws::lemma_first_field(zone, three, '|');
    let parts = fields::fields(zone + seq!['|'] + three, '|');
    assert(parts =~= seq![zone, file, old_baseline, new_baseline]);
}

proof fn lemma_text_start(before: Seq<char>, body: Seq<char>, after: Seq<char>, i: int)
    requires
        0 <= i <= before.len(),
        forall|k: int| 0 <= k < before.len() ==> chars::whitespace(#[trigger] before[k]),
        body.len() > 0,
        !chars::whitespace(body[0]),
    ensures
        policy::text_start(before + body + after, i) == before.len(),
    decreases before.len() - i,
{
    let whole = before + body + after;
    if i < before.len() {
        assert(whole[i] == before[i]);
        lemma_text_start(before, body, after, i + 1);
    } else {
        assert(whole[i] == body[0]);
    }
}

proof fn lemma_text_end(before: Seq<char>, body: Seq<char>, after: Seq<char>, to: int)
    requires
        before.len() + body.len() <= to <= before.len() + body.len() + after.len(),
        forall|k: int| 0 <= k < after.len() ==> chars::whitespace(#[trigger] after[k]),
        body.len() > 0,
        !chars::whitespace(body.last()),
    ensures
        policy::text_end(before + body + after, before.len() as int, to) == before.len()
            + body.len(),
    decreases to,
{
    let whole = before + body + after;
    let end = before.len() + body.len();
    if to > end {
        assert(whole[to - 1] == after[to - 1 - end]);
        lemma_text_end(before, body, after, to - 1);
    } else {
        assert(whole[to - 1] == body.last());
    }
}

/// The blanks around a line do not count.
pub proof fn blanks_around_a_line_do_not_count(
    before: Seq<char>,
    body: Seq<char>,
    after: Seq<char>,
)
    requires
        forall|k: int| 0 <= k < before.len() ==> chars::whitespace(#[trigger] before[k]),
        forall|k: int| 0 <= k < after.len() ==> chars::whitespace(#[trigger] after[k]),
        body.len() > 0,
        !chars::whitespace(body[0]),
        !chars::whitespace(body.last()),
    ensures
        policy::trimmed(before + body + after) == body,
{
    let whole = before + body + after;
    lemma_text_start(before, body, after, 0);
    lemma_text_end(before, body, after, whole.len() as int);
    assert(whole.subrange(before.len() as int, (before.len() + body.len()) as int) =~= body);
}

/// A line gives the value behind its first equals sign to the key before it, once for
/// each key.
pub proof fn lines_give_values_to_keys(
    path: Seq<char>,
    line: int,
    raw: Seq<char>,
    key: Seq<char>,
    value: Seq<char>,
    draft: Draft,
)
    requires
        policy::trimmed(raw) == key + seq!['='] + value,
        !key.contains('='),
        key.len() > 0 ==> key[0] != '#',
        key != "zone"@,
    ensures
        ({
            let read = policy::line_read(path, line, raw, draft);
            if exists|i: int| 0 <= i < draft.pairs.len() && (#[trigger] draft.pairs[i]).key == key {
                read is Err
            } else {
                &&& read is Ok
                &&& read->Ok_0.zones == draft.zones
                &&& read->Ok_0.pairs == draft.pairs.push(Pair { key, value })
            }
        }),
{
    let body = key + seq!['='] + value;
    assert forall|i: int| 0 <= i < key.len() implies body[i] != '=' by {
        assert(key.contains(key[i]));
        assert(body[i] == key[i]);
    }
    assert(body[key.len() as int] == '=');
    ip_laws::lemma_find_at(body, '=', 0, key.len() as int);
    assert(body.subrange(0, key.len() as int) =~= key);
    assert(body.subrange(key.len() as int + 1, body.len() as int) =~= value);
    if key.len() > 0 {
        assert(body[0] == key[0]);
    }
}

/// A line that is blank or a comment says nothing.
pub proof fn comments_say_nothing(path: Seq<char>, line: int, raw: Seq<char>, draft: Draft)
    requires
        policy::trimmed(raw).len() == 0 || policy::trimmed(raw)[0] == '#',
    ensures
        policy::line_read(path, line, raw, draft) == Ok::<Draft, Problem>(draft),
{
}

} // verus!
