//! Policies: the zones that are compared, and the limits that hold.

use vstd::prelude::*;
use crate::chars;
use crate::chars::chars_of;
use crate::dns::problem;
use crate::dns::problem::{GateError, Problem};
use crate::dns::rdata;
use crate::dns::rdata::lowercase;
use crate::dns::zone::Limits;
use crate::fields;
use crate::fields::{find_char, part_of, split};
use crate::number;
use crate::number::read_integer;
use crate::sorting;
use crate::sorting::order_places;
use crate::text;
use crate::text::{joined, rank_texts, same_text};

verus! {

#[derive(Debug, Clone)]
pub struct ZonePolicy {
    pub zone: String,
    pub relative_path: String,
    pub old_baseline: String,
    pub new_baseline: String,
}

/// A zone of a policy as plain values.
pub struct ZoneRule {
    pub zone: Seq<char>,
    pub relative_path: Seq<char>,
    pub old_baseline: Seq<char>,
    pub new_baseline: Seq<char>,
}

impl View for ZonePolicy {
    type V = ZoneRule;

    open spec fn view(&self) -> ZoneRule {
        ZoneRule {
            zone: self.zone@,
            relative_path: self.relative_path@,
            old_baseline: self.old_baseline@,
            new_baseline: self.new_baseline@,
        }
    }
}

#[derive(Debug, Clone)]
pub struct Policy {
    pub limits: Limits,
    pub zones: Vec<ZonePolicy>,
}

pub open spec fn rules(zones: Seq<ZonePolicy>) -> Seq<ZoneRule> {
    zones.map_values(|zone: ZonePolicy| zone@)
}

/// A value that a policy gives to a key.
struct Given {
    key: String,
    value: Vec<char>,
}

/// A value that a policy gives to a key, as plain values.
pub struct Pair {
    pub key: Seq<char>,
    pub value: Seq<char>,
}

impl View for Given {
    type V = Pair;

    closed spec fn view(&self) -> Pair {
        Pair { key: self.key@, value: self.value@ }
    }
}

/// What has been read of a policy.
#[verifier::ext_equal]
pub struct Draft {
    pub pairs: Seq<Pair>,
    pub zones: Seq<ZoneRule>,
}

/// Where the text begins after leading whitespace.
pub open spec fn text_start(line: Seq<char>, from: int) -> int
    decreases line.len() - from,
{
    if 0 <= from < line.len() && chars::whitespace(line[from]) {
        text_start(line, from + 1)
    } else {
        from
    }
}

/// Where the text ends before trailing whitespace.
pub open spec fn text_end(line: Seq<char>, from: int, to: int) -> int
    decreases to - from,
{
    if from < to && 0 < to <= line.len() && chars::whitespace(line[to - 1]) {
        text_end(line, from, to - 1)
    } else {
        to
    }
}

/// A line without the whitespace around it.
pub open spec fn trimmed(line: Seq<char>) -> Seq<char> {
    let start = text_start(line, 0);
    line.subrange(start, text_end(line, start, line.len() as int))
}

fn trim(line: &Vec<char>) -> (part: Vec<char>)
    ensures
        part@ == trimmed(line@),
{
    let mut start: usize = 0;
    while start < line.len() && line[start].is_whitespace()
        invariant
            start <= line@.len(),
            text_start(line@, 0) == text_start(line@, start as int),
        decreases line@.len() - start,
    {
        start = start + 1;
    }
    let mut end: usize = line.len();
    while end > start && line[end - 1].is_whitespace()
        invariant
            start <= end <= line@.len(),
            text_end(line@, start as int, line@.len() as int) == text_end(
                line@,
                start as int,
                end as int,
            ),
        decreases end,
    {
        end = end - 1;
    }
    part_of(line, start, end)
}

pub open spec fn line_problem(path: Seq<char>, line: int, detail: Seq<char>) -> Problem {
    problem::problem("E_POLICY"@, path, line, detail)
}

pub open spec fn has_key(pairs: Seq<Pair>, key: Seq<char>) -> bool {
    exists|i: int| 0 <= i < pairs.len() && (#[trigger] pairs[i]).key == key
}

/// A zone of a policy: four fields, none of them empty.
pub open spec fn zone_of(path: Seq<char>, line: int, value: Seq<char>) -> Result<ZoneRule, Problem> {
    let parts = fields::fields(value, '|');
    if parts.len() != 4 || parts[0].len() == 0 || parts[1].len() == 0 || parts[2].len() == 0
        || parts[3].len() == 0 {
        Err(
            line_problem(
                path,
                line,
                "zone requires absolute-zone|relative-file|old-baseline|new-baseline"@,
            ),
        )
    } else if parts[0].last() != '.' {
        Err(line_problem(path, line, "zone must be absolute"@))
    } else {
        Ok(
            ZoneRule {
                zone: parts[0].map_values(|c: char| rdata::small(c)),
                relative_path: parts[1],
                old_baseline: parts[2],
                new_baseline: parts[3],
            },
        )
    }
}

/// A draft with one line more.
pub open spec fn line_read(path: Seq<char>, line: int, raw: Seq<char>, draft: Draft) -> Result<
    Draft,
    Problem,
> {
    let body = trimmed(raw);
    let sign = fields::find(body, '=', 0);
    if body.len() == 0 || body[0] == '#' {
        Ok(draft)
    } else if sign >= body.len() {
        Err(line_problem(path, line, "expected key=value"@))
    } else {
        let key = body.subrange(0, sign);
        let value = body.subrange(sign + 1, body.len() as int);
        if key == "zone"@ {
            match zone_of(path, line, value) {
                Err(error) => Err(error),
                Ok(zone) => Ok(Draft { zones: draft.zones.push(zone), ..draft }),
            }
        } else if has_key(draft.pairs, key) {
            Err(line_problem(path, line, "duplicate key "@ + key))
        } else {
            Ok(Draft { pairs: draft.pairs.push(Pair { key, value }), ..draft })
        }
    }
}

/// The first `n` lines of a policy.
pub open spec fn lines_read(path: Seq<char>, lines: Seq<Seq<char>>, n: nat) -> Result<Draft, Problem>
    decreases n,
{
    if n == 0 {
        Ok(Draft { pairs: Seq::empty(), zones: Seq::empty() })
    } else {
        match lines_read(path, lines, (n - 1) as nat) {
            Err(error) => Err(error),
            Ok(draft) => line_read(path, n - 1, lines[n - 1], draft),
        }
    }
}

/// A name is that of two zones.
pub open spec fn is_repeated(zones: Seq<ZoneRule>, name: Seq<char>) -> bool {
    exists|i: int, j: int|
        0 <= i < j < zones.len() && (#[trigger] zones[i]).zone == name && (
        #[trigger] zones[j]).zone == name
}

/// The least name that is that of two zones.
pub open spec fn is_first_repeated(zones: Seq<ZoneRule>, name: Seq<char>) -> bool {
    is_repeated(zones, name) && forall|other: Seq<char>| #[trigger]
        is_repeated(zones, other) ==> text::text_le(name, other)
}

pub open spec fn has_repeated(zones: Seq<ZoneRule>) -> bool {
    exists|name: Seq<char>| #[trigger] is_repeated(zones, name)
}

pub open spec fn value_of(pairs: Seq<Pair>, key: Seq<char>) -> Seq<char> {
    pairs[choose|i: int| 0 <= i < pairs.len() && (#[trigger] pairs[i]).key == key].value
}

/// The number that a policy gives to a key.
pub open spec fn number_for(path: Seq<char>, pairs: Seq<Pair>, key: Seq<char>) -> Result<
    nat,
    Problem,
> {
    if !has_key(pairs, key) {
        Err(line_problem(path, 0, "missing "@ + key))
    } else {
        match number::integer_within(value_of(pairs, key), usize::MAX as nat) {
            Some(value) => Ok(value),
            None => Err(line_problem(path, 0, "invalid "@ + key)),
        }
    }
}

/// The limits of a policy.
pub open spec fn limits_of(path: Seq<char>, pairs: Seq<Pair>) -> Result<Limits, Problem> {
    match number_for(path, pairs, "ttl_decrease_percent"@) {
        Err(error) => Err(error),
        Ok(percent) => if percent > 100 {
            Err(line_problem(path, 0, "ttl_decrease_percent exceeds 100"@))
        } else {
            match (
                number_for(path, pairs, "max_records_total"@),
                number_for(path, pairs, "max_records_per_zone"@),
                number_for(path, pairs, "max_include_depth"@),
                number_for(path, pairs, "max_generate_records"@),
            ) {
                (Err(error), _, _, _) => Err(error),
                (Ok(_), Err(error), _, _) => Err(error),
                (Ok(_), Ok(_), Err(error), _) => Err(error),
                (Ok(_), Ok(_), Ok(_), Err(error)) => Err(error),
                (Ok(total), Ok(per_zone), Ok(depth), Ok(generated)) => if total == 0 || per_zone
                    == 0 || depth == 0 || generated == 0 {
                    Err(line_problem(path, 0, "all limits must be positive"@))
                } else {
                    Ok(
                        Limits {
                            max_records_total: total as usize,
                            max_records_per_zone: per_zone as usize,
                            max_include_depth: depth as usize,
                            max_generate_records: generated as usize,
                            ttl_decrease_percent: percent as u32,
                        },
                    )
                },
            }
        },
    }
}

/// The lines of a policy, read.
pub open spec fn draft_of(path: Seq<char>, text: Seq<char>) -> Result<Draft, Problem> {
    let lines = fields::fields(text, '\n');
    lines_read(path, lines, lines.len())
}

/// The zones of a policy by their names.
pub open spec fn arranged(zones: Seq<ZoneRule>, given: Seq<ZoneRule>) -> bool {
    &&& forall|i: int, j: int|
        0 <= i < j < zones.len() ==> text::text_lt(
            (#[trigger] zones[i]).zone,
            (#[trigger] zones[j]).zone,
        )
    &&& forall|zone: ZoneRule| #[trigger] zones.contains(zone) <==> given.contains(zone)
}

/// A policy is what a text says, or an error is why the text says none.
pub open spec fn policy_told(
    path: Seq<char>,
    text: Seq<char>,
    result: Result<Policy, GateError>,
) -> bool {
    match draft_of(path, text) {
        Err(error) => result is Err && result->Err_0@ == error,
        Ok(draft) => if has_repeated(draft.zones) {
            result is Err && exists|name: Seq<char>| #[trigger]
                is_first_repeated(draft.zones, name) && result->Err_0@ == line_problem(
                    path,
                    0,
                    "duplicate zone "@ + name,
                )
        } else if draft.zones.len() == 0 {
            result is Err && result->Err_0@ == line_problem(
                path,
                0,
                "at least one zone is required"@,
            )
        } else {
            match limits_of(path, draft.pairs) {
                Err(error) => result is Err && result->Err_0@ == error,
                Ok(limits) => result is Ok && result->Ok_0.limits == limits && arranged(
                    rules(result->Ok_0.zones@),
                    draft.zones,
                ),
            }
        },
    }
}

spec fn pair_views(pairs: Seq<Given>) -> Seq<Pair> {
    pairs.map_values(|given: Given| given@)
}

struct Reader {
    pairs: Vec<Given>,
    zones: Vec<ZonePolicy>,
}

impl View for Reader {
    type V = Draft;

    closed spec fn view(&self) -> Draft {
        Draft { pairs: pair_views(self.pairs@), zones: rules(self.zones@) }
    }
}

fn read_zone(path: &str, line: usize, value: &Vec<char>) -> (result: Result<ZonePolicy, GateError>)
    ensures
        match result {
            Ok(zone) => zone_of(path@, line as int, value@) == Ok::<ZoneRule, Problem>(zone@),
            Err(error) => zone_of(path@, line as int, value@) == Err::<ZoneRule, Problem>(error@),
        },
{
    let parts = split(value, '|');
    let ghost shown = fields::views(parts@);
    let four: bool = parts.len() == 4;
    assert(four ==> shown[0] == parts@[0]@ && shown[1] == parts@[1]@ && shown[2] == parts@[2]@
        && shown[3] == parts@[3]@);
    if !four || parts[0].len() == 0 || parts[1].len() == 0 || parts[2].len() == 0 || parts[3].len()
        == 0 {
        return Err(
            GateError::new(
                "E_POLICY",
                path,
                line as u64,
                "zone requires absolute-zone|relative-file|old-baseline|new-baseline",
            ),
        );
    }
    if parts[0][parts[0].len() - 1] != '.' {
        return Err(GateError::new("E_POLICY", path, line as u64, "zone must be absolute"));
    }
    Ok(
        ZonePolicy {
            zone: lowercase(&parts[0]),
            relative_path: chars::text_of(&parts[1]),
            old_baseline: chars::text_of(&parts[2]),
            new_baseline: chars::text_of(&parts[3]),
        },
    )
}

impl Reader {
    fn find(&self, key: &str) -> (found: Option<usize>)
        ensures
            match found {
                Some(i) => i < self.pairs@.len() && self@.pairs[i as int].key == key@,
                None => !has_key(self@.pairs, key@),
            },
    {
        let ghost shown = pair_views(self.pairs@);
        let mut i: usize = 0;
        while i < self.pairs.len()
            invariant
                i <= self.pairs@.len(),
                shown == pair_views(self.pairs@),
                forall|k: int| 0 <= k < i ==> (#[trigger] shown[k]).key != key@,
            decreases self.pairs@.len() - i,
        {
            assert(shown[i as int] == self.pairs@[i as int]@);
            if same_text(self.pairs[i].key.as_str(), key) {
                return Some(i);
            }
            i = i + 1;
        }
        None
    }

    fn read_line(&mut self, path: &str, line: usize, raw: &Vec<char>) -> (result: Result<
        (),
        GateError,
    >)
        ensures
            match result {
                Ok(()) => line_read(path@, line as int, raw@, old(self)@) == Ok::<Draft, Problem>(
                    final(self)@,
                ),
                Err(error) => line_read(path@, line as int, raw@, old(self)@) == Err::<
                    Draft,
                    Problem,
                >(error@),
            },
    {
        let body = trim(raw);
        if body.len() == 0 || body[0] == '#' {
            return Ok(());
        }
        let sign = find_char(&body, '=', 0);
        if sign >= body.len() {
            return Err(GateError::new("E_POLICY", path, line as u64, "expected key=value"));
        }
        let key = chars::text_of(&part_of(&body, 0, sign));
        let value = part_of(&body, sign + 1, body.len());
        if same_text(key.as_str(), "zone") {
            return match read_zone(path, line, &value) {
                Ok(zone) => {
                    let ghost before = self.zones@;
                    self.zones.push(zone);
                    proof {
                        assert(rules(self.zones@) =~= rules(before).push(zone@));
                        assert(self@ =~= Draft {
                            zones: old(self)@.zones.push(zone@),
                            ..old(self)@
                        });
                    }
                    Ok(())
                },
                Err(error) => Err(error),
            };
        }
        match self.find(key.as_str()) {
            Some(_) => Err(
                GateError::new(
                    "E_POLICY",
                    path,
                    line as u64,
                    joined("duplicate key ", key.as_str()).as_str(),
                ),
            ),
            None => {
                let ghost before = self.pairs@;
                let given = Given { key, value };
                self.pairs.push(given);
                proof {
                    assert(pair_views(self.pairs@) =~= pair_views(before).push(given@));
                    assert(self@ =~= Draft {
                        pairs: old(self)@.pairs.push(given@),
                        ..old(self)@
                    });
                }
                Ok(())
            },
        }
    }
}

proof fn lemma_lines_stuck(path: Seq<char>, lines: Seq<Seq<char>>, n: nat, m: nat)
    requires
        n <= m,
        lines_read(path, lines, n) is Err,
    ensures
        lines_read(path, lines, m) == lines_read(path, lines, n),
    decreases m,
{
    if n < m {
        lemma_lines_stuck(path, lines, n, (m - 1) as nat);
    }
}

fn read_lines(path: &str, text: &str) -> (result: Result<Reader, GateError>)
    ensures
        match result {
            Ok(reader) => draft_of(path@, text@) == Ok::<Draft, Problem>(reader@),
            Err(error) => draft_of(path@, text@) == Err::<Draft, Problem>(error@),
        },
{
    let lines = split(&chars_of(text), '\n');
    let ghost shown = fields::views(lines@);
    let mut reader = Reader { pairs: Vec::new(), zones: Vec::new() };
    let mut i: usize = 0;
    proof {
        assert(reader@ =~= Draft { pairs: Seq::empty(), zones: Seq::empty() });
    }
    while i < lines.len()
        invariant
            i <= lines@.len() == shown.len(),
            shown == fields::views(lines@),
            shown == fields::fields(text@, '\n'),
            lines_read(path@, shown, i as nat) == Ok::<Draft, Problem>(reader@),
        decreases lines@.len() - i,
    {
        assert(shown[i as int] == lines@[i as int]@);
        match reader.read_line(path, i, &lines[i]) {
            Ok(()) => {},
            Err(error) => {
                proof {
                    lemma_lines_stuck(path@, shown, (i + 1) as nat, shown.len());
                }
                return Err(error);
            },
        }
        i = i + 1;
    }
    Ok(reader)
}

pub fn copy_zone(zone: &ZonePolicy) -> (copy: ZonePolicy)
    ensures
        copy@ == zone@,
{
    ZonePolicy {
        zone: zone.zone.as_str().to_owned(),
        relative_path: zone.relative_path.as_str().to_owned(),
        old_baseline: zone.old_baseline.as_str().to_owned(),
        new_baseline: zone.new_baseline.as_str().to_owned(),
    }
}

/// Zones by their names. Where a name is that of two, it is told instead.
fn arrange_zones(zones: &Vec<ZonePolicy>) -> (result: Result<Vec<ZonePolicy>, String>)
    ensures
        match result {
            Ok(sorted) => !has_repeated(rules(zones@)) && arranged(rules(sorted@), rules(zones@)),
            Err(name) => is_first_repeated(rules(zones@), name@),
        },
{
    let ghost given = rules(zones@);
    let mut names: Vec<&str> = Vec::new();
    let mut i: usize = 0;
    while i < zones.len()
        invariant
            i <= zones@.len(),
            given == rules(zones@),
            names@.len() == i,
            forall|k: int| 0 <= k < i ==> (#[trigger] names@[k])@ == given[k].zone,
        decreases zones@.len() - i,
    {
        assert(given[i as int] == zones@[i as int]@);
        names.push(zones[i].zone.as_str());
        i = i + 1;
    }
    let ranks = rank_texts(&names);
    let places = order_places(&ranks);
    let mut sorted: Vec<ZonePolicy> = Vec::new();
    let mut p: usize = 0;
    while p < places.len()
        invariant
            p <= places@.len() == zones@.len(),
            given == rules(zones@),
            names@.len() == zones@.len(),
            forall|k: int|
                0 <= k < names@.len() ==> (#[trigger] names@[k])@ == given[k].zone,
            text::ranks_of(ranks@, names@),
            sorting::orders(places@, ranks@),
            sorted@.len() == p,
            forall|k: int|
                0 <= k < p ==> (#[trigger] sorted@[k])@ == given[places@[k].index as int],
            forall|a: int, b: int|
                0 <= a < b < p ==> (#[trigger] places@[a]).rank < (#[trigger] places@[b]).rank,
        decreases places@.len() - p,
    {
        let at = places[p].index;
        assert(places@[p as int].index < ranks@.len());
        assert(given[at as int] == zones@[at as int]@);
        if p > 0 && places[p - 1].rank == places[p].rank {
            let ghost name = given[at as int].zone;
            proof {
                lemma_first_repeated(given, names@, ranks@, places@, p as int);
            }
            return Err(zones[at].zone.as_str().to_owned());
        }
        sorted.push(copy_zone(&zones[at]));
        proof {
            assert forall|a: int, b: int| 0 <= a < b < p + 1 implies (#[trigger] places@[a]).rank
                < (#[trigger] places@[b]).rank by {
                if b == p {
                    assert(places@[p - 1].rank < places@[p as int].rank);
                    if a < p - 1 {
                        assert(places@[a].rank < places@[p - 1].rank);
                    }
                }
            }
        }
        p = p + 1;
    }
    proof {
        let shown = rules(sorted@);
        assert forall|a: int, b: int| 0 <= a < b < shown.len() implies text::text_lt(
            (#[trigger] shown[a]).zone,
            (#[trigger] shown[b]).zone,
        ) by {
            assert(shown[a] == sorted@[a]@ && shown[b] == sorted@[b]@);
            assert(places@[a].rank < places@[b].rank);
            let x = places@[a].index as int;
            let y = places@[b].index as int;
            assert(ranks@[x] < ranks@[y]);
            assert(names@[x]@ == given[x].zone && names@[y]@ == given[y].zone);
        }
        assert forall|zone: ZoneRule| #[trigger] shown.contains(zone) <==> given.contains(zone) by {
            if shown.contains(zone) {
                let k = choose|k: int| 0 <= k < shown.len() && shown[k] == zone;
                assert(shown[k] == sorted@[k]@);
                assert(given[places@[k].index as int] == zone);
            }
            if given.contains(zone) {
                let x = choose|x: int| 0 <= x < given.len() && given[x] == zone;
                assert(sorting::placed_somewhere(places@, x));
                let k = choose|k: int| 0 <= k < places@.len() && (#[trigger] places@[k]).index == x;
                assert(shown[k] == sorted@[k]@);
            }
        }
        assert forall|name: Seq<char>| !#[trigger] is_repeated(given, name) by {
            if is_repeated(given, name) {
                let (x, y) = choose|x: int, y: int|
                    0 <= x < y < given.len() && (#[trigger] given[x]).zone == name && (
                    #[trigger] given[y]).zone == name;
                assert(sorting::placed_somewhere(places@, x));
                assert(sorting::placed_somewhere(places@, y));
                let a = choose|a: int| 0 <= a < places@.len() && (#[trigger] places@[a]).index == x;
                let b = choose|b: int| 0 <= b < places@.len() && (#[trigger] places@[b]).index == y;
                assert(names@[x]@ == given[x].zone && names@[y]@ == given[y].zone);
                assert(ranks@[x] == ranks@[y]);
                if a < b {
                    assert(places@[a].rank < places@[b].rank);
                } else {
                    assert(places@[b].rank < places@[a].rank);
                }
            }
        }
    }
    Ok(sorted)
}

/// The first two neighbours of one rank have the least repeated name.
proof fn lemma_first_repeated(
    given: Seq<ZoneRule>,
    names: Seq<&str>,
    ranks: Seq<usize>,
    places: Seq<sorting::Place>,
    p: int,
)
    requires
        given.len() == names.len(),
        forall|k: int| 0 <= k < names.len() ==> (#[trigger] names[k])@ == given[k].zone,
        text::ranks_of(ranks, names),
        sorting::orders(places, ranks),
        0 < p < places.len(),
        places[p - 1].rank == places[p].rank,
        forall|a: int, b: int|
            0 <= a < b < p ==> (#[trigger] places[a]).rank < (#[trigger] places[b]).rank,
    ensures
        is_first_repeated(given, given[places[p].index as int].zone),
{
    let x = places[p - 1].index as int;
    let y = places[p].index as int;
    let name = given[y].zone;
    assert(ranks[x] == ranks[y]);
    assert(names[x]@ == given[x].zone && names[y]@ == given[y].zone);
    assert(x < y);
    assert(is_repeated(given, name));
    assert forall|other: Seq<char>| #[trigger] is_repeated(given, other) implies text::text_le(
        name,
        other,
    ) by {
        let (u, v) = choose|u: int, v: int|
            0 <= u < v < given.len() && (#[trigger] given[u]).zone == other && (
            #[trigger] given[v]).zone == other;
        assert(sorting::placed_somewhere(places, u));
        assert(sorting::placed_somewhere(places, v));
        let a = choose|a: int| 0 <= a < places.len() && (#[trigger] places[a]).index == u;
        let b = choose|b: int| 0 <= b < places.len() && (#[trigger] places[b]).index == v;
        assert(names[u]@ == given[u].zone && names[v]@ == given[v].zone);
        assert(ranks[u] == ranks[v]);
        if a < p && b < p {
            if a < b {
                assert(places[a].rank < places[b].rank);
            } else {
                assert(places[b].rank < places[a].rank);
            }
        }
        let c = if a >= p {
            a
        } else {
            b
        };
        if c > p {
            assert(places[p].rank <= places[c].rank);
        }
        assert(ranks[y] <= ranks[u]);
        text::lemma_text_total(name, other);
        if ranks[y] < ranks[u] {
            assert(text::text_lt(names[y]@, names[u]@));
        }
    }
}

fn read_number(path: &str, reader: &Reader, key: &str) -> (result: Result<usize, GateError>)
    requires
        forall|i: int, j: int|
            0 <= i < j < reader@.pairs.len() ==> (#[trigger] reader@.pairs[i]).key != (
            #[trigger] reader@.pairs[j]).key,
    ensures
        match result {
            Ok(value) => number_for(path@, reader@.pairs, key@) == Ok::<nat, Problem>(
                value as nat,
            ),
            Err(error) => number_for(path@, reader@.pairs, key@) == Err::<nat, Problem>(error@),
        },
{
    let at = match reader.find(key) {
        Some(at) => at,
        None => {
            return Err(GateError::new("E_POLICY", path, 0, joined("missing ", key).as_str()));
        },
    };
    let value = &reader.pairs[at].value;
    proof {
        let pairs = reader@.pairs;
        assert(pairs[at as int] == reader.pairs@[at as int]@);
        assert(has_key(pairs, key@));
        let i = choose|i: int| 0 <= i < pairs.len() && (#[trigger] pairs[i]).key == key@;
        assert(i == at);
        assert(value@.subrange(0, value@.len() as int) =~= value@);
    }
    match read_integer(value, 0, value.len(), usize::MAX as u64) {
        Some(number) => Ok(number as usize),
        None => Err(GateError::new("E_POLICY", path, 0, joined("invalid ", key).as_str())),
    }
}

proof fn lemma_keys_once(path: Seq<char>, lines: Seq<Seq<char>>, n: nat)
    ensures
        lines_read(path, lines, n) matches Ok(draft) ==> forall|i: int, j: int|
            0 <= i < j < draft.pairs.len() ==> (#[trigger] draft.pairs[i]).key != (
            #[trigger] draft.pairs[j]).key,
    decreases n,
{
    if n > 0 {
        lemma_keys_once(path, lines, (n - 1) as nat);
    }
}

fn read_limits(path: &str, reader: &Reader) -> (result: Result<Limits, GateError>)
    requires
        forall|i: int, j: int|
            0 <= i < j < reader@.pairs.len() ==> (#[trigger] reader@.pairs[i]).key != (
            #[trigger] reader@.pairs[j]).key,
    ensures
        problem::told(limits_of(path@, reader@.pairs), result),
{
    let percent = match read_number(path, reader, "ttl_decrease_percent") {
        Ok(percent) => percent,
        Err(error) => {
            return Err(error);
        },
    };
    if percent > 100 {
        return Err(GateError::new("E_POLICY", path, 0, "ttl_decrease_percent exceeds 100"));
    }
    let total = match read_number(path, reader, "max_records_total") {
        Ok(total) => total,
        Err(error) => {
            return Err(error);
        },
    };
    let per_zone = match read_number(path, reader, "max_records_per_zone") {
        Ok(per_zone) => per_zone,
        Err(error) => {
            return Err(error);
        },
    };
    let depth = match read_number(path, reader, "max_include_depth") {
        Ok(depth) => depth,
        Err(error) => {
            return Err(error);
        },
    };
    let generated = match read_number(path, reader, "max_generate_records") {
        Ok(generated) => generated,
        Err(error) => {
            return Err(error);
        },
    };
    if total == 0 || per_zone == 0 || depth == 0 || generated == 0 {
        return Err(GateError::new("E_POLICY", path, 0, "all limits must be positive"));
    }
    Ok(
        Limits {
            max_records_total: total,
            max_records_per_zone: per_zone,
            max_include_depth: depth,
            max_generate_records: generated,
            ttl_decrease_percent: percent as u32,
        },
    )
}

/// Reads a policy.
pub fn parse_policy(path: &str, text: &str) -> (result: Result<Policy, GateError>)
    ensures
        policy_told(path@, text@, result),
{
    let reader = match read_lines(path, text) {
        Ok(reader) => reader,
        Err(error) => {
            return Err(error);
        },
    };
    proof {
        let lines = fields::fields(text@, '\n');
        lemma_keys_once(path@, lines, lines.len());
    }
    let zones = match arrange_zones(&reader.zones) {
        Ok(zones) => zones,
        Err(name) => {
            return Err(
                GateError::new(
                    "E_POLICY",
                    path,
                    0,
                    joined("duplicate zone ", name.as_str()).as_str(),
                ),
            );
        },
    };
    if zones.len() == 0 {
        proof {
            let given = reader@.zones;
            if given.len() > 0 {
                assert(given.contains(given[0]));
                assert(rules(zones@).contains(given[0]));
            }
        }
        return Err(GateError::new("E_POLICY", path, 0, "at least one zone is required"));
    }
    proof {
        assert(rules(zones@).contains(rules(zones@)[0]));
    }
    match read_limits(path, &reader) {
        Ok(limits) => Ok(Policy { limits, zones }),
        Err(error) => Err(error),
    }
}

} // verus!
