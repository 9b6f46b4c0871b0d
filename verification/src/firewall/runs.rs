//! The ports of one source address, cut where a decision changes hands.

use vstd::prelude::*;
use crate::firewall::model;
use crate::firewall::model::{Condition, IpFamily, Protocol, ValidatedPolicy};
use crate::sorting;
use crate::sorting::{sort, Ranked};

verus! {

/// The rules that decide before and after a change.
pub struct Deciders {
    pub old: Option<int>,
    pub new: Option<int>,
}

pub open spec fn deciders(
    old: Seq<Condition>,
    new: Seq<Condition>,
    family: IpFamily,
    protocol: Protocol,
    source: int,
    port: int,
) -> Deciders {
    Deciders {
        old: model::winner(old, family, protocol, source, port),
        new: model::winner(new, family, protocol, source, port),
    }
}

/// No rule begins or ends to apply between two places.
pub open spec fn smooth(
    rules: Seq<Condition>,
    family: IpFamily,
    protocol: Protocol,
    x: int,
    p: int,
    y: int,
    q: int,
) -> bool {
    forall|i: int|
        0 <= i < rules.len() ==> model::applies(#[trigger] rules[i], family, protocol, x, p)
            == model::applies(rules[i], family, protocol, y, q)
}

/// Where no rule begins or ends to apply, the same rule decides.
pub proof fn lemma_smooth(
    rules: Seq<Condition>,
    family: IpFamily,
    protocol: Protocol,
    x: int,
    p: int,
    y: int,
    q: int,
    n: nat,
)
    requires
        smooth(rules, family, protocol, x, p, y, q),
        n <= rules.len(),
    ensures
        model::first_of(rules, family, protocol, x, p, n) == model::first_of(
            rules,
            family,
            protocol,
            y,
            q,
            n,
        ),
    decreases n,
{
    if n > 0 {
        lemma_smooth(rules, family, protocol, x, p, y, q, (n - 1) as nat);
        assert(model::applies(rules[n - 1], family, protocol, x, p) == model::applies(
            rules[n - 1],
            family,
            protocol,
            y,
            q,
        ));
    }
}

/// A number to be put in order.
#[derive(Clone, Copy, Debug, PartialEq, Eq, Structural)]
pub struct Cut {
    pub at: u128,
}

impl Ranked for Cut {
    open spec fn le(self, other: Self) -> bool {
        self.at <= other.at
    }

    proof fn le_total(a: Self, b: Self) {
    }

    proof fn le_transitive(a: Self, b: Self, c: Self) {
    }

    fn is_le(self, other: Self) -> bool {
        self.at <= other.at
    }
}

/// Numbers from the least to the greatest, each once.
pub open spec fn ascends(cuts: Seq<u128>) -> bool {
    forall|i: int, j: int| 0 <= i < j < cuts.len() ==> #[trigger] cuts[i] < #[trigger] cuts[j]
}

/// Puts numbers in order, each once.
pub fn sorted_cuts(values: &Vec<u128>) -> (cuts: Vec<u128>)
    ensures
        ascends(cuts@),
        forall|value: u128| #[trigger] cuts@.contains(value) <==> values@.contains(value),
{
    let mut wrapped: Vec<Cut> = Vec::new();
    let mut i: usize = 0;
    while i < values.len()
        invariant
            i <= values@.len(),
            wrapped@.len() == i,
            forall|k: int| 0 <= k < i ==> (#[trigger] wrapped@[k]).at == values@[k],
        decreases values@.len() - i,
    {
        wrapped.push(Cut { at: values[i] });
        i = i + 1;
    }
    let sorted = sort(&wrapped);
    let mut cuts: Vec<u128> = Vec::new();
    let mut k: usize = 0;
    while k < sorted.len()
        invariant
            k <= sorted@.len(),
            sorting::ascending(sorted@),
            ascends(cuts@),
            cuts@.len() > 0 ==> k > 0 && cuts@.last() == sorted@[k - 1].at,
            k > 0 ==> cuts@.len() > 0,
            forall|m: int| 0 <= m < k ==> cuts@.contains((#[trigger] sorted@[m]).at),
            forall|m: int|
                0 <= m < cuts@.len() ==> sorted@.contains(Cut { at: #[trigger] cuts@[m] }),
        decreases sorted@.len() - k,
    {
        let at = sorted[k].at;
        let ghost before = cuts@;
        assert(sorted@.contains(sorted@[k as int]));
        if cuts.len() == 0 || cuts[cuts.len() - 1] != at {
            cuts.push(at);
            proof {
                if before.len() > 0 {
                    assert(sorted@[k - 1].le(sorted@[k as int]));
                }
                assert forall|a: int, b: int| 0 <= a < b < cuts@.len() implies #[trigger] cuts@[a]
                    < #[trigger] cuts@[b] by {
                    if b == before.len() && a < before.len() - 1 {
                        assert(before[a] < before[before.len() - 1]);
                    }
                }
            }
        }
        proof {
            assert(cuts@[cuts@.len() - 1] == at);
            assert forall|m: int| 0 <= m < k + 1 implies cuts@.contains(
                (#[trigger] sorted@[m]).at,
            ) by {
                if m < k {
                    let z = choose|z: int| 0 <= z < before.len() && before[z] == sorted@[m].at;
                    assert(cuts@[z] == sorted@[m].at);
                }
            }
        }
        k = k + 1;
    }
    proof {
        assert forall|value: u128| #[trigger] cuts@.contains(value) <==> values@.contains(
            value,
        ) by {
            let cut = Cut { at: value };
            sorting::lemma_arranges_contains(sorted@, wrapped@, cut);
            if cuts@.contains(value) {
                let m = choose|m: int| 0 <= m < cuts@.len() && cuts@[m] == value;
                assert(sorted@.contains(Cut { at: cuts@[m] }));
                let z = choose|z: int| 0 <= z < wrapped@.len() && wrapped@[z] == cut;
                assert(values@[z] == value);
            }
            if values@.contains(value) {
                let z = choose|z: int| 0 <= z < values@.len() && values@[z] == value;
                assert(wrapped@[z] == cut);
                assert(wrapped@.contains(cut));
                let m = choose|m: int| 0 <= m < sorted@.len() && sorted@[m] == cut;
                assert(cuts@.contains(sorted@[m].at));
            }
        }
    }
    cuts
}

/// A rule speaks of a source, whatever the port.
pub open spec fn concerns(
    rule: Condition,
    family: IpFamily,
    protocol: Protocol,
    source: int,
) -> bool {
    rule.family == family && rule.protocol == protocol && rule.source_start <= source
        <= rule.source_end
}

pub open spec fn is_listed(places: Seq<usize>, i: int) -> bool {
    exists|k: int| 0 <= k < places.len() && #[trigger] places[k] == i
}

/// The rules that speak of a source, in their order.
pub open spec fn are_concerned(
    places: Seq<usize>,
    rules: Seq<Condition>,
    family: IpFamily,
    protocol: Protocol,
    source: int,
) -> bool {
    &&& forall|k: int|
        0 <= k < places.len() ==> (#[trigger] places[k]) < rules.len() && concerns(
            rules[places[k] as int],
            family,
            protocol,
            source,
        )
    &&& forall|a: int, b: int|
        0 <= a < b < places.len() ==> (#[trigger] places[a]) < (#[trigger] places[b])
    &&& forall|i: int|
        0 <= i < rules.len() && concerns(#[trigger] rules[i], family, protocol, source)
            ==> is_listed(places, i)
}

fn concerned(policy: &ValidatedPolicy, family: IpFamily, protocol: Protocol, source: u128) -> (places:
    Vec<usize>)
    ensures
        are_concerned(places@, policy@, family, protocol, source as int),
{
    let ghost rules = policy@;
    let mut places: Vec<usize> = Vec::new();
    let mut i: usize = 0;
    while i < policy.rules.len()
        invariant
            i <= policy.rules@.len(),
            rules == policy@,
            forall|k: int|
                0 <= k < places@.len() ==> (#[trigger] places@[k]) < i && concerns(
                    rules[places@[k] as int],
                    family,
                    protocol,
                    source as int,
                ),
            forall|a: int, b: int|
                0 <= a < b < places@.len() ==> (#[trigger] places@[a]) < (#[trigger] places@[b]),
            forall|k: int|
                0 <= k < i && concerns(#[trigger] rules[k], family, protocol, source as int)
                    ==> is_listed(places@, k),
        decreases policy.rules@.len() - i,
    {
        let rule = &policy.rules[i];
        let ghost before = places@;
        assert(rules[i as int] == rule@);
        if rule.family == family && rule.protocol == protocol && rule.source_start <= source
            && source <= rule.source_end {
            places.push(i);
        }
        proof {
            assert forall|k: int|
                0 <= k < i + 1 && concerns(
                    #[trigger] rules[k],
                    family,
                    protocol,
                    source as int,
                ) implies is_listed(places@, k) by {
                if k < i {
                    let z = choose|z: int| 0 <= z < before.len() && #[trigger] before[z] == k;
                    assert(places@[z] == k);
                } else {
                    assert(places@[places@.len() - 1] == k);
                }
            }
        }
        i = i + 1;
    }
    places
}

/// The rule that decides about a port, among those that speak of its source.
fn decider(
    policy: &ValidatedPolicy,
    places: &Vec<usize>,
    port: u16,
    Ghost(family): Ghost<IpFamily>,
    Ghost(protocol): Ghost<Protocol>,
    Ghost(source): Ghost<int>,
) -> (found: Option<usize>)
    requires
        are_concerned(places@, policy@, family, protocol, source),
    ensures
        match found {
            Some(i) => model::winner(policy@, family, protocol, source, port as int) == Some(
                i as int,
            ) && i < policy@.len(),
            None => model::winner(policy@, family, protocol, source, port as int) is None,
        },
{
    let ghost rules = policy@;
    let mut k: usize = 0;
    while k < places.len()
        invariant
            k <= places@.len(),
            rules == policy@,
            are_concerned(places@, rules, family, protocol, source),
            forall|m: int|
                0 <= m < k ==> !model::applies(
                    rules[#[trigger] places@[m] as int],
                    family,
                    protocol,
                    source,
                    port as int,
                ),
        decreases places@.len() - k,
    {
        let at = places[k];
        assert(places@[k as int] < rules.len());
        let rule = &policy.rules[at];
        assert(rules[at as int] == rule@);
        if rule.port_start <= port && port <= rule.port_end {
            proof {
                assert forall|i: int| 0 <= i < at implies !model::applies(
                    #[trigger] rules[i],
                    family,
                    protocol,
                    source,
                    port as int,
                ) by {
                    if model::applies(rules[i], family, protocol, source, port as int) {
                        assert(concerns(rules[i], family, protocol, source));
                        assert(is_listed(places@, i));
                        let m = choose|m: int| 0 <= m < places@.len() && #[trigger] places@[m] == i;
                        if m >= k {
                            if m > k {
                                assert(places@[k as int] < places@[m]);
                            }
                        } else {
                            assert(!model::applies(
                                rules[places@[m] as int],
                                family,
                                protocol,
                                source,
                                port as int,
                            ));
                        }
                    }
                }
                model::lemma_is_winner(rules, family, protocol, source, port as int, at as int);
            }
            return Some(at);
        }
        k = k + 1;
    }
    proof {
        model::lemma_first(rules, family, protocol, source, port as int, rules.len());
        if let Some(i) = model::winner(rules, family, protocol, source, port as int) {
            assert(concerns(rules[i], family, protocol, source));
            assert(is_listed(places@, i));
            let m = choose|m: int| 0 <= m < places@.len() && #[trigger] places@[m] == i;
            assert(!model::applies(
                rules[places@[m] as int],
                family,
                protocol,
                source,
                port as int,
            ));
        }
    }
    None
}

/// Ports one after the other with the same deciders.
#[derive(Clone, Copy, Debug)]
pub struct Run {
    pub start: u16,
    pub end: u16,
    pub old: Option<usize>,
    pub new: Option<usize>,
}

pub open spec fn place_view(place: Option<usize>) -> Option<int> {
    match place {
        Some(i) => Some(i as int),
        None => None,
    }
}

impl Run {
    pub open spec fn by(&self) -> Deciders {
        Deciders { old: place_view(self.old), new: place_view(self.new) }
    }
}

/// All ports up to `end`, in runs as long as can be.
pub open spec fn are_runs(
    list: Seq<Run>,
    old: Seq<Condition>,
    new: Seq<Condition>,
    family: IpFamily,
    protocol: Protocol,
    source: int,
    end: int,
) -> bool {
    &&& list.len() > 0
    &&& list[0].start == 0
    &&& list.last().end == end
    &&& forall|k: int|
        0 <= k < list.len() ==> (#[trigger] list[k]).start <= list[k].end && is_run(
            list[k],
            old,
            new,
            family,
            protocol,
            source,
        )
    &&& forall|a: int, b: int|
        0 <= a < b < list.len() ==> (#[trigger] list[a]).end < (#[trigger] list[b]).start
    &&& forall|k: int|
        0 < k < list.len() ==> (#[trigger] list[k]).start == list[k - 1].end + 1 && list[k].by()
            != list[k - 1].by()
}

/// The ports of a run have its deciders.
pub open spec fn is_run(
    run: Run,
    old: Seq<Condition>,
    new: Seq<Condition>,
    family: IpFamily,
    protocol: Protocol,
    source: int,
) -> bool {
    &&& forall|port: int|
        run.start <= port <= run.end ==> #[trigger] deciders(
            old,
            new,
            family,
            protocol,
            source,
            port,
        ) == run.by()
    &&& run.old matches Some(i) ==> i < old.len()
    &&& run.new matches Some(i) ==> i < new.len()
}

fn push_port_cuts(policy: &ValidatedPolicy, places: &Vec<usize>, values: &mut Vec<u128>)
    requires
        forall|k: int| 0 <= k < places@.len() ==> (#[trigger] places@[k]) < policy@.len(),
        forall|k: int| 0 <= k < old(values)@.len() ==> (#[trigger] old(values)@[k]) <= 65_535,
    ensures
        forall|value: u128| #[trigger] old(values)@.contains(value) ==> final(values)@.contains(
            value,
        ),
        forall|k: int| 0 <= k < final(values)@.len() ==> (#[trigger] final(values)@[k]) <= 65_535,
        forall|k: int|
            0 <= k < places@.len() ==> {
                let rule = policy@[#[trigger] places@[k] as int];
                &&& final(values)@.contains(rule.port_start as u128)
                &&& rule.port_end < 65_535 ==> final(values)@.contains(
                    (rule.port_end + 1) as u128,
                )
            },
{
    let ghost rules = policy@;
    let mut k: usize = 0;
    while k < places.len()
        invariant
            k <= places@.len(),
            rules == policy@,
            forall|m: int| 0 <= m < places@.len() ==> (#[trigger] places@[m]) < rules.len(),
            forall|value: u128| #[trigger] old(values)@.contains(value) ==> values@.contains(
                value,
            ),
            forall|m: int| 0 <= m < values@.len() ==> (#[trigger] values@[m]) <= 65_535,
            forall|m: int|
                0 <= m < k ==> {
                    let rule = rules[#[trigger] places@[m] as int];
                    &&& values@.contains(rule.port_start as u128)
                    &&& rule.port_end < 65_535 ==> values@.contains((rule.port_end + 1) as u128)
                },
        decreases places@.len() - k,
    {
        let ghost before = values@;
        let at = places[k];
        assert(places@[k as int] < rules.len());
        let rule = &policy.rules[at];
        assert(rules[at as int] == rule@);
        values.push(rule.port_start as u128);
        let ghost middle = values@;
        if rule.port_end < 65_535 {
            values.push(rule.port_end as u128 + 1);
        }
        proof {
            assert forall|value: u128| #[trigger] before.contains(value) implies values@.contains(
                value,
            ) by {
                let z = choose|z: int| 0 <= z < before.len() && before[z] == value;
                assert(values@[z] == value);
            }
            assert(values@[before.len() as int] == rule.port_start);
            if rule.port_end < 65_535 {
                assert(values@[middle.len() as int] == rule.port_end + 1);
            }
        }
        k = k + 1;
    }
}

/// Two ports that no cut parts have the same deciders.
proof fn lemma_same_segment(
    rules: Seq<Condition>,
    places: Seq<usize>,
    values: Seq<u128>,
    family: IpFamily,
    protocol: Protocol,
    source: int,
    p: int,
    q: int,
)
    requires
        are_concerned(places, rules, family, protocol, source),
        0 <= p <= q <= 65_535,
        forall|k: int|
            0 <= k < places.len() ==> {
                let rule = rules[#[trigger] places[k] as int];
                &&& values.contains(rule.port_start as u128)
                &&& rule.port_end < 65_535 ==> values.contains((rule.port_end + 1) as u128)
            },
        forall|k: int| 0 <= k < values.len() ==> !(p < #[trigger] values[k] <= q),
    ensures
        model::winner(rules, family, protocol, source, p) == model::winner(
            rules,
            family,
            protocol,
            source,
            q,
        ),
{
    assert forall|i: int| 0 <= i < rules.len() implies model::applies(
        #[trigger] rules[i],
        family,
        protocol,
        source,
        p,
    ) == model::applies(rules[i], family, protocol, source, q) by {
        if concerns(rules[i], family, protocol, source) {
            assert(is_listed(places, i));
            let k = choose|k: int| 0 <= k < places.len() && #[trigger] places[k] == i;
            let rule = rules[places[k] as int];
            let a = choose|a: int| 0 <= a < values.len() && values[a] == rule.port_start as u128;
            assert(!(p < values[a] <= q));
            if rule.port_end < 65_535 {
                let b = choose|b: int|
                    0 <= b < values.len() && values[b] == (rule.port_end + 1) as u128;
                assert(!(p < values[b] <= q));
            }
        }
    }
    lemma_smooth(rules, family, protocol, source, p, source, q, rules.len());
}

/// The runs with one segment more.
fn push_segment(
    list: &mut Vec<Run>,
    segment: Run,
    Ghost(old_rules): Ghost<Seq<Condition>>,
    Ghost(new_rules): Ghost<Seq<Condition>>,
    Ghost(family): Ghost<IpFamily>,
    Ghost(protocol): Ghost<Protocol>,
    Ghost(source): Ghost<int>,
)
    requires
        segment.start <= segment.end,
        is_run(segment, old_rules, new_rules, family, protocol, source),
        segment.start == 0 <==> old(list)@.len() == 0,
        segment.start > 0 ==> are_runs(
            old(list)@,
            old_rules,
            new_rules,
            family,
            protocol,
            source,
            segment.start - 1,
        ),
    ensures
        are_runs(
            final(list)@,
            old_rules,
            new_rules,
            family,
            protocol,
            source,
            segment.end as int,
        ),
{
    let ghost before = list@;
    let count: usize = list.len();
    if count > 0 {
        let last = list[count - 1];
        if same_place(last.old, segment.old) && same_place(last.new, segment.new) {
            list.set(count - 1, Run { end: segment.end, ..last });
            proof {
                let longer = list@[count - 1];
                assert forall|port: int| longer.start <= port <= longer.end implies
                    #[trigger] deciders(old_rules, new_rules, family, protocol, source, port)
                    == longer.by() by {
                    if port <= last.end {
                        assert(deciders(old_rules, new_rules, family, protocol, source, port)
                            == last.by());
                    } else {
                        assert(deciders(old_rules, new_rules, family, protocol, source, port)
                            == segment.by());
                    }
                }
                assert(is_run(longer, old_rules, new_rules, family, protocol, source));
                assert forall|k: int| 0 <= k < list@.len() implies (#[trigger] list@[k]).start
                    <= list@[k].end && is_run(
                    list@[k],
                    old_rules,
                    new_rules,
                    family,
                    protocol,
                    source,
                ) by {
                    if k < count - 1 {
                        assert(list@[k] == before[k]);
                    }
                }
                assert forall|a: int, b: int| 0 <= a < b < list@.len() implies (
                #[trigger] list@[a]).end < (#[trigger] list@[b]).start by {
                    assert(before[a].end < before[b].start);
                }
                assert forall|k: int| 0 < k < list@.len() implies (#[trigger] list@[k]).start
                    == list@[k - 1].end + 1 && list@[k].by() != list@[k - 1].by() by {
                    assert(before[k].start == before[k - 1].end + 1 && before[k].by()
                        != before[k - 1].by());
                }
            }
            return;
        }
    }
    list.push(segment);
    proof {
        assert forall|k: int| 0 <= k < list@.len() implies (#[trigger] list@[k]).start
            <= list@[k].end && is_run(
            list@[k],
            old_rules,
            new_rules,
            family,
            protocol,
            source,
        ) by {
            if k < count {
                assert(list@[k] == before[k]);
            }
        }
        assert forall|a: int, b: int| 0 <= a < b < list@.len() implies (#[trigger] list@[a]).end < (
        #[trigger] list@[b]).start by {
            if b < count {
                assert(before[a].end < before[b].start);
            } else if a < count - 1 {
                assert(before[a].end < before[count - 1].start);
            }
        }
        assert forall|k: int| 0 < k < list@.len() implies (#[trigger] list@[k]).start
            == list@[k - 1].end + 1 && list@[k].by() != list@[k - 1].by() by {
            if k < count {
                assert(before[k].start == before[k - 1].end + 1 && before[k].by()
                    != before[k - 1].by());
            }
        }
    }
}

fn same_place(a: Option<usize>, b: Option<usize>) -> (same: bool)
    ensures
        same == (place_view(a) == place_view(b)),
{
    match (a, b) {
        (Some(i), Some(j)) => i == j,
        (None, None) => true,
        _ => false,
    }
}

/// Cuts the ports of a source where a decision changes hands.
pub fn runs_at(
    before: &ValidatedPolicy,
    after: &ValidatedPolicy,
    family: IpFamily,
    protocol: Protocol,
    source: u128,
) -> (list: Vec<Run>)
    ensures
        are_runs(list@, before@, after@, family, protocol, source as int, 65_535),
{
    let old_places = concerned(before, family, protocol, source);
    let new_places = concerned(after, family, protocol, source);
    let mut values: Vec<u128> = Vec::new();
    values.push(0);
    let ghost zero = values@;
    push_port_cuts(before, &old_places, &mut values);
    let ghost middle = values@;
    push_port_cuts(after, &new_places, &mut values);
    let cuts = sorted_cuts(&values);
    proof {
        assert(zero[0] == 0);
        assert(zero.contains(0));
        assert(middle.contains(0));
        assert(values@.contains(0));
        assert(cuts@.contains(0));
        let z = choose|z: int| 0 <= z < cuts@.len() && cuts@[z] == 0;
        if z > 0 {
            assert(cuts@[0] < cuts@[z]);
        }
        assert(cuts@[0] == 0);
        assert forall|k: int| 0 <= k < cuts@.len() implies (#[trigger] cuts@[k]) <= 65_535 by {
            assert(cuts@.contains(cuts@[k]));
            let m = choose|m: int| 0 <= m < values@.len() && values@[m] == cuts@[k];
            assert(values@[m] <= 65_535);
        }
        assert forall|k: int| 0 <= k < values@.len() implies cuts@.contains(
            #[trigger] values@[k],
        ) by {
            assert(values@.contains(values@[k]));
        }
        assert forall|k: int| 0 <= k < old_places@.len() implies {
            let rule = before@[#[trigger] old_places@[k] as int];
            &&& values@.contains(rule.port_start as u128)
            &&& rule.port_end < 65_535 ==> values@.contains((rule.port_end + 1) as u128)
        } by {
            let rule = before@[old_places@[k] as int];
            assert(middle.contains(rule.port_start as u128));
            if rule.port_end < 65_535 {
                assert(middle.contains((rule.port_end + 1) as u128));
            }
        }
    }
    let mut list: Vec<Run> = Vec::new();
    let mut j: usize = 0;
    while j < cuts.len()
        invariant
            j <= cuts@.len(),
            ascends(cuts@),
            cuts@.len() > 0,
            cuts@[0] == 0,
            forall|k: int| 0 <= k < cuts@.len() ==> (#[trigger] cuts@[k]) <= 65_535,
            forall|k: int| 0 <= k < values@.len() ==> cuts@.contains(#[trigger] values@[k]),
            are_concerned(old_places@, before@, family, protocol, source as int),
            are_concerned(new_places@, after@, family, protocol, source as int),
            forall|k: int|
                0 <= k < old_places@.len() ==> {
                    let rule = before@[#[trigger] old_places@[k] as int];
                    &&& values@.contains(rule.port_start as u128)
                    &&& rule.port_end < 65_535 ==> values@.contains((rule.port_end + 1) as u128)
                },
            forall|k: int|
                0 <= k < new_places@.len() ==> {
                    let rule = after@[#[trigger] new_places@[k] as int];
                    &&& values@.contains(rule.port_start as u128)
                    &&& rule.port_end < 65_535 ==> values@.contains((rule.port_end + 1) as u128)
                },
            j == 0 ==> list@.len() == 0,
            j > 0 ==> are_runs(
                list@,
                before@,
                after@,
                family,
                protocol,
                source as int,
                if j < cuts@.len() {
                    cuts@[j as int] - 1
                } else {
                    65_535
                },
            ),
        decreases cuts@.len() - j,
    {
        assert(cuts@[j as int] <= 65_535);
        let start: u16 = cuts[j] as u16;
        let end: u16 = if j + 1 < cuts.len() {
            assert(cuts@[j as int] < cuts@[j + 1]);
            assert(cuts@[j + 1] <= 65_535);
            (cuts[j + 1] - 1) as u16
        } else {
            65_535
        };
        let segment = Run {
            start,
            end,
            old: decider(
                before,
                &old_places,
                start,
                Ghost(family),
                Ghost(protocol),
                Ghost(source as int),
            ),
            new: decider(
                after,
                &new_places,
                start,
                Ghost(family),
                Ghost(protocol),
                Ghost(source as int),
            ),
        };
        proof {
            if j > 0 {
                assert(cuts@[0] < cuts@[j as int]);
            }
            assert forall|port: int| segment.start <= port <= segment.end implies
                #[trigger] deciders(before@, after@, family, protocol, source as int, port)
                == segment.by() by {
                assert forall|k: int| 0 <= k < values@.len() implies !(start < #[trigger] values@[k]
                    <= port) by {
                    assert(cuts@.contains(values@[k]));
                    let m = choose|m: int| 0 <= m < cuts@.len() && cuts@[m] == values@[k];
                    if m > j {
                        if m > j + 1 {
                            assert(cuts@[j + 1] < cuts@[m]);
                        }
                    } else if m < j {
                        assert(cuts@[m] < cuts@[j as int]);
                    }
                }
                lemma_same_segment(
                    before@,
                    old_places@,
                    values@,
                    family,
                    protocol,
                    source as int,
                    start as int,
                    port,
                );
                lemma_same_segment(
                    after@,
                    new_places@,
                    values@,
                    family,
                    protocol,
                    source as int,
                    start as int,
                    port,
                );
            }
        }
        push_segment(
            &mut list,
            segment,
            Ghost(before@),
            Ghost(after@),
            Ghost(family),
            Ghost(protocol),
            Ghost(source as int),
        );
        j = j + 1;
    }
    list
}

} // verus!
