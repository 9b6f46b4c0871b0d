//! Which rules can be reached, and by which packet first.

use vstd::prelude::*;
use crate::firewall::blocks;
use crate::firewall::grid;
use crate::firewall::grid::Grid;
use crate::firewall::model;
use crate::firewall::model::{Condition, IpFamily, Protocol};
use crate::firewall::runs;
use crate::firewall::runs::Run;

verus! {

/// A rule decides about the packets of a source and a port.
pub open spec fn decides(rules: Seq<Condition>, i: int, source: int, port: int) -> bool {
    model::winner(rules, rules[i].family, rules[i].protocol, source, port) == Some(i)
}

pub open spec fn in_range(rule: Condition, source: int, port: int) -> bool {
    0 <= source <= rule.family.spec_maximum() && 0 <= port <= 65_535
}

/// The first packet that a rule decides about: the least source, and its least port.
pub open spec fn is_first_packet(rules: Seq<Condition>, i: int, source: u128, port: u16) -> bool {
    &&& decides(rules, i, source as int, port as int)
    &&& forall|x: int, p: int| #[trigger]
        decides(rules, i, x, p) && in_range(rules[i], x, p) ==> source < x || (source == x && port
            <= p)
}

/// A rule decides about no packet of a source below a limit.
pub open spec fn unseen_below(rules: Seq<Condition>, i: int, limit: int) -> bool {
    forall|x: int, p: int| #[trigger]
        decides(rules, i, x, p) && in_range(rules[i], x, p) ==> x >= limit
}

/// A rule decides about no packet at all.
pub open spec fn is_unreachable(rules: Seq<Condition>, i: int) -> bool {
    forall|x: int, p: int| #[trigger] decides(rules, i, x, p) ==> !in_range(rules[i], x, p)
}

/// What is known of the rules of a family and a protocol below a limit.
pub open spec fn known_below(
    rules: Seq<Condition>,
    family: IpFamily,
    protocol: Protocol,
    first: Seq<Option<(u128, u16)>>,
    limit: int,
) -> bool {
    forall|i: int|
        0 <= i < rules.len() && grid::in_dimension(#[trigger] rules[i], family, protocol)
            ==> match first[i] {
            Some((source, port)) => is_first_packet(rules, i, source, port),
            None => unseen_below(rules, i, limit),
        }
}

/// The rules of other families and protocols keep what is known of them.
pub open spec fn others_kept(
    rules: Seq<Condition>,
    family: IpFamily,
    protocol: Protocol,
    before: Seq<Option<(u128, u16)>>,
    after: Seq<Option<(u128, u16)>>,
) -> bool {
    &&& before.len() == after.len()
    &&& forall|i: int|
        0 <= i < rules.len() && !grid::in_dimension(#[trigger] rules[i], family, protocol)
            ==> after[i] == before[i]
}

/// Takes in the runs of one source.
fn note_column(
    column: &Vec<Run>,
    source: u128,
    first: &mut Vec<Option<(u128, u16)>>,
    Ghost(old_rules): Ghost<Seq<Condition>>,
    Ghost(rules): Ghost<Seq<Condition>>,
    Ghost(family): Ghost<IpFamily>,
    Ghost(protocol): Ghost<Protocol>,
)
    requires
        source <= family.spec_maximum(),
        old(first)@.len() == rules.len(),
        runs::are_runs(column@, old_rules, rules, family, protocol, source as int, 65_535),
        known_below(rules, family, protocol, old(first)@, source as int),
    ensures
        known_below(rules, family, protocol, final(first)@, source + 1),
        others_kept(rules, family, protocol, old(first)@, final(first)@),
{
    let ghost given = first@;
    let mut r: usize = 0;
    while r < column.len()
        invariant
            r <= column@.len(),
            source <= family.spec_maximum(),
            first@.len() == given.len() == rules.len(),
            runs::are_runs(column@, old_rules, rules, family, protocol, source as int, 65_535),
            known_below(rules, family, protocol, first@, source as int),
            others_kept(rules, family, protocol, given, first@),
            forall|m: int|
                0 <= m < r && (#[trigger] column@[m]).new is Some
                    ==> first@[column@[m].new->0 as int] is Some,
        decreases column@.len() - r,
    {
        let run = column[r];
        let ghost before = first@;
        assert(runs::is_run(column@[r as int], old_rules, rules, family, protocol, source as int));
        if let Some(i) = run.new {
            if first[i].is_none() {
                first.set(i, Some((source, run.start)));
                proof {
                    assert(runs::deciders(
                        old_rules,
                        rules,
                        family,
                        protocol,
                        source as int,
                        run.start as int,
                    ) == run.by());
                    model::lemma_first(
                        rules,
                        family,
                        protocol,
                        source as int,
                        run.start as int,
                        rules.len(),
                    );
                    assert(grid::in_dimension(rules[i as int], family, protocol));
                    assert(unseen_below(rules, i as int, source as int));
                    assert(decides(rules, i as int, source as int, run.start as int));
                    assert forall|x: int, p: int| #[trigger]
                        decides(rules, i as int, x, p) && in_range(
                            rules[i as int],
                            x,
                            p,
                        ) implies source < x || (source == x && run.start <= p) by {
                        assert(x >= source);
                        if x == source && p < run.start {
                            let m = blocks::lemma_covered(
                                column@,
                                old_rules,
                                rules,
                                family,
                                protocol,
                                source as int,
                                p,
                                0,
                            );
                            if m >= r {
                                if m > r {
                                    assert(column@[r as int].end < column@[m].start);
                                }
                                assert(run.start <= run.end);
                                assert(false);
                            }
                            assert(runs::is_run(
                                column@[m],
                                old_rules,
                                rules,
                                family,
                                protocol,
                                source as int,
                            ));
                            assert(runs::deciders(
                                old_rules,
                                rules,
                                family,
                                protocol,
                                source as int,
                                p,
                            ) == column@[m].by());
                            assert(before[column@[m].new->0 as int] is Some);
                        }
                    }
                    assert(is_first_packet(rules, i as int, source, run.start));
                }
            }
        }
        proof {
            assert forall|k: int|
                0 <= k < rules.len() && grid::in_dimension(
                    #[trigger] rules[k],
                    family,
                    protocol,
                ) implies match first@[k] {
                Some((x, p)) => is_first_packet(rules, k, x, p),
                None => unseen_below(rules, k, source as int),
            } by {
                if first@[k] == before[k] {
                }
            }
        }
        r = r + 1;
    }
    proof {
        assert forall|k: int|
            0 <= k < rules.len() && grid::in_dimension(
                #[trigger] rules[k],
                family,
                protocol,
            ) implies match first@[k] {
            Some((x, p)) => is_first_packet(rules, k, x, p),
            None => unseen_below(rules, k, source + 1),
        } by {
            if first@[k] is None {
                assert(unseen_below(rules, k, source as int));
                assert forall|x: int, p: int| #[trigger]
                    decides(rules, k, x, p) && in_range(rules[k], x, p) implies x >= source + 1 by {
                    if x == source {
                        let m = blocks::lemma_covered(
                            column@,
                            old_rules,
                            rules,
                            family,
                            protocol,
                            source as int,
                            p,
                            0,
                        );
                        assert(runs::is_run(
                            column@[m],
                            old_rules,
                            rules,
                            family,
                            protocol,
                            source as int,
                        ));
                        assert(runs::deciders(
                            old_rules,
                            rules,
                            family,
                            protocol,
                            source as int,
                            p,
                        ) == column@[m].by());
                    }
                }
            }
        }
    }
}

/// What is unseen at the beginning of a stretch is unseen throughout.
proof fn lemma_stretch(
    old_rules: Seq<Condition>,
    rules: Seq<Condition>,
    family: IpFamily,
    protocol: Protocol,
    first: Seq<Option<(u128, u16)>>,
    source: int,
    limit: int,
)
    requires
        known_below(rules, family, protocol, first, source + 1),
        source < limit,
        forall|x: int|
            source <= x < limit ==> #[trigger] grid::same_column(
                old_rules,
                rules,
                family,
                protocol,
                x,
                source,
            ),
    ensures
        known_below(rules, family, protocol, first, limit),
{
    assert forall|i: int|
        0 <= i < rules.len() && grid::in_dimension(
            #[trigger] rules[i],
            family,
            protocol,
        ) implies match first[i] {
        Some((x, p)) => is_first_packet(rules, i, x, p),
        None => unseen_below(rules, i, limit),
    } by {
        if first[i] is None {
            assert(unseen_below(rules, i, source + 1));
            assert forall|x: int, p: int| #[trigger]
                decides(rules, i, x, p) && in_range(rules[i], x, p) implies x >= limit by {
                if x < limit {
                    assert(grid::same_column(old_rules, rules, family, protocol, x, source));
                    assert(runs::deciders(old_rules, rules, family, protocol, x, p)
                        == runs::deciders(old_rules, rules, family, protocol, source, p));
                    assert(decides(rules, i, source, p));
                    assert(in_range(rules[i], source, p)) by {
                        assert(x >= source + 1);
                        model::lemma_first(rules, family, protocol, source, p, rules.len());
                    }
                }
            }
        }
    }
}

/// Finds the first packet that each rule of a family and a protocol decides about.
pub fn find_first_packets(
    grid: &Grid,
    first: &mut Vec<Option<(u128, u16)>>,
    Ghost(old_rules): Ghost<Seq<Condition>>,
    Ghost(rules): Ghost<Seq<Condition>>,
    Ghost(family): Ghost<IpFamily>,
    Ghost(protocol): Ghost<Protocol>,
)
    requires
        old(first)@.len() == rules.len(),
        grid.sound(old_rules, rules, family, protocol),
        forall|i: int|
            0 <= i < rules.len() && grid::in_dimension(#[trigger] rules[i], family, protocol)
                ==> old(first)@[i] is None,
    ensures
        known_below(rules, family, protocol, final(first)@, family.spec_maximum() + 1),
        others_kept(rules, family, protocol, old(first)@, final(first)@),
{
    let ghost given = first@;
    let mut k: usize = 0;
    while k < grid.cuts.len()
        invariant
            k <= grid.cuts@.len(),
            first@.len() == given.len() == rules.len(),
            grid.sound(old_rules, rules, family, protocol),
            others_kept(rules, family, protocol, given, first@),
            known_below(
                rules,
                family,
                protocol,
                first@,
                if k == 0 {
                    0
                } else {
                    grid.next(family, k - 1)
                },
            ),
        decreases grid.cuts@.len() - k,
    {
        proof {
            assert(grid.column_sound(old_rules, rules, family, protocol, k as int));
            assert(grid.cuts@[k as int] <= family.spec_maximum());
            if k > 0 {
                assert(grid.next(family, k - 1) == grid.cuts@[k as int]);
            }
            if k + 1 < grid.cuts@.len() {
                assert(grid.cuts@[k as int] < grid.cuts@[k + 1]);
            }
        }
        let source = grid.cuts[k];
        let ghost before = first@;
        note_column(
            &grid.columns[k],
            source,
            first,
            Ghost(old_rules),
            Ghost(rules),
            Ghost(family),
            Ghost(protocol),
        );
        proof {
            lemma_stretch(
                old_rules,
                rules,
                family,
                protocol,
                first@,
                source as int,
                grid.next(family, k as int),
            );
        }
        k = k + 1;
    }
}

} // verus!
