//! The addresses of a family, cut where a rule begins or ends to apply.

use vstd::prelude::*;
use crate::firewall::model;
use crate::firewall::model::{Condition, IpFamily, Protocol, ValidatedPolicy};
use crate::firewall::runs;
use crate::firewall::runs::{runs_at, sorted_cuts, Run};

verus! {

/// Every port of two sources has the same deciders.
pub open spec fn same_column(
    old: Seq<Condition>,
    new: Seq<Condition>,
    family: IpFamily,
    protocol: Protocol,
    x: int,
    y: int,
) -> bool {
    forall|port: int| #[trigger]
        runs::deciders(old, new, family, protocol, x, port) == runs::deciders(
            old,
            new,
            family,
            protocol,
            y,
            port,
        )
}

/// Addresses in stretches within which nothing changes hands, with the runs of
/// each stretch.
pub struct Grid {
    pub cuts: Vec<u128>,
    pub columns: Vec<Vec<Run>>,
}

impl Grid {
    /// Where the stretch after a cut ends.
    pub open spec fn next(&self, family: IpFamily, k: int) -> int {
        if k + 1 < self.cuts@.len() {
            self.cuts@[k + 1] as int
        } else {
            family.spec_maximum() + 1
        }
    }

    pub open spec fn column_sound(
        &self,
        old: Seq<Condition>,
        new: Seq<Condition>,
        family: IpFamily,
        protocol: Protocol,
        k: int,
    ) -> bool {
        &&& runs::are_runs(
            self.columns@[k]@,
            old,
            new,
            family,
            protocol,
            self.cuts@[k] as int,
            65_535,
        )
        &&& forall|x: int|
            self.cuts@[k] <= x < self.next(family, k) ==> #[trigger] same_column(
                old,
                new,
                family,
                protocol,
                x,
                self.cuts@[k] as int,
            )
    }

    pub open spec fn sound(
        &self,
        old: Seq<Condition>,
        new: Seq<Condition>,
        family: IpFamily,
        protocol: Protocol,
    ) -> bool {
        &&& self.cuts@.len() > 0
        &&& self.cuts@[0] == 0
        &&& runs::ascends(self.cuts@)
        &&& self.columns@.len() == self.cuts@.len()
        &&& forall|k: int|
            0 <= k < self.cuts@.len() ==> (#[trigger] self.cuts@[k]) <= family.spec_maximum()
        &&& forall|k: int|
            0 <= k < self.cuts@.len() ==> #[trigger] self.column_sound(
                old,
                new,
                family,
                protocol,
                k,
            )
    }
}

/// A rule's first address, and the one after its last, are among the values.
pub open spec fn is_cut(rule: Condition, family: IpFamily, values: Seq<u128>) -> bool {
    &&& values.contains(rule.source_start)
    &&& rule.source_end < family.spec_maximum() ==> values.contains(
        (rule.source_end + 1) as u128,
    )
}

pub open spec fn in_dimension(rule: Condition, family: IpFamily, protocol: Protocol) -> bool {
    rule.family == family && rule.protocol == protocol
}

fn push_address_cuts(
    policy: &ValidatedPolicy,
    family: IpFamily,
    protocol: Protocol,
    values: &mut Vec<u128>,
)
    requires
        model::is_valid(policy@),
        forall|k: int|
            0 <= k < old(values)@.len() ==> (#[trigger] old(values)@[k]) <= family.spec_maximum(),
    ensures
        forall|value: u128| #[trigger] old(values)@.contains(value) ==> final(values)@.contains(
            value,
        ),
        forall|k: int|
            0 <= k < final(values)@.len() ==> (#[trigger] final(values)@[k])
                <= family.spec_maximum(),
        forall|i: int|
            0 <= i < policy@.len() && in_dimension(#[trigger] policy@[i], family, protocol)
                ==> is_cut(policy@[i], family, final(values)@),
{
    let ghost rules = policy@;
    let maximum = family.maximum();
    let mut i: usize = 0;
    while i < policy.rules.len()
        invariant
            i <= policy.rules@.len(),
            rules == policy@,
            model::is_valid(rules),
            maximum == family.spec_maximum(),
            forall|value: u128| #[trigger] old(values)@.contains(value) ==> values@.contains(
                value,
            ),
            forall|k: int| 0 <= k < values@.len() ==> (#[trigger] values@[k]) <= maximum,
            forall|k: int|
                0 <= k < i && in_dimension(#[trigger] rules[k], family, protocol) ==> is_cut(
                    rules[k],
                    family,
                    values@,
                ),
        decreases policy.rules@.len() - i,
    {
        let ghost before = values@;
        let rule = &policy.rules[i];
        assert(rules[i as int] == rule@);
        assert(model::is_proper(rules[i as int]));
        if rule.family == family && rule.protocol == protocol {
            values.push(rule.source_start);
            let ghost middle = values@;
            if rule.source_end < maximum {
                values.push(rule.source_end + 1);
            }
            proof {
                assert(values@[before.len() as int] == rule.source_start);
                if rule.source_end < maximum {
                    assert(values@[middle.len() as int] == rule.source_end + 1);
                }
            }
        }
        proof {
            assert forall|value: u128| #[trigger] before.contains(value) implies values@.contains(
                value,
            ) by {
                let z = choose|z: int| 0 <= z < before.len() && before[z] == value;
                assert(values@[z] == value);
            }
        }
        i = i + 1;
    }
}

/// Two addresses that no cut parts have the same deciders.
proof fn lemma_same_stretch(
    rules: Seq<Condition>,
    values: Seq<u128>,
    family: IpFamily,
    protocol: Protocol,
    x: int,
    y: int,
    port: int,
)
    requires
        0 <= x <= y <= family.spec_maximum(),
        forall|i: int|
            0 <= i < rules.len() && in_dimension(#[trigger] rules[i], family, protocol) ==> is_cut(
                rules[i],
                family,
                values,
            ),
        forall|k: int| 0 <= k < values.len() ==> !(x < #[trigger] values[k] <= y),
    ensures
        model::winner(rules, family, protocol, x, port) == model::winner(
            rules,
            family,
            protocol,
            y,
            port,
        ),
{
    assert forall|i: int| 0 <= i < rules.len() implies model::applies(
        #[trigger] rules[i],
        family,
        protocol,
        x,
        port,
    ) == model::applies(rules[i], family, protocol, y, port) by {
        if in_dimension(rules[i], family, protocol) {
            let rule = rules[i];
            assert(is_cut(rule, family, values));
            let a = choose|a: int| 0 <= a < values.len() && values[a] == rule.source_start;
            assert(!(x < values[a] <= y));
            if rule.source_end < family.spec_maximum() {
                let b = choose|b: int|
                    0 <= b < values.len() && values[b] == (rule.source_end + 1) as u128;
                assert(!(x < values[b] <= y));
            }
        }
    }
    runs::lemma_smooth(rules, family, protocol, x, port, y, port, rules.len());
}

/// Cuts the addresses of a family where a rule begins or ends to apply.
pub fn make_grid(
    before: &ValidatedPolicy,
    after: &ValidatedPolicy,
    family: IpFamily,
    protocol: Protocol,
) -> (grid: Grid)
    requires
        model::is_valid(before@),
        model::is_valid(after@),
    ensures
        grid.sound(before@, after@, family, protocol),
{
    let mut values: Vec<u128> = Vec::new();
    values.push(0);
    let ghost zero = values@;
    push_address_cuts(before, family, protocol, &mut values);
    let ghost middle = values@;
    push_address_cuts(after, family, protocol, &mut values);
    let cuts = sorted_cuts(&values);
    proof {
        assert(zero[0] == 0);
        assert(zero.contains(0));
        assert(middle.contains(0));
        assert(values@.contains(0));
        assert(cuts@.contains(0));
        let z = choose|z: int| 0 <= z < cuts@.len() && cuts@[z] == 0;
        if z > 0 {
            assert(cuts@[0] < cuts@[z]);
        }
        assert(cuts@[0] == 0);
        assert forall|k: int| 0 <= k < cuts@.len() implies (#[trigger] cuts@[k])
            <= family.spec_maximum() by {
            assert(cuts@.contains(cuts@[k]));
            let m = choose|m: int| 0 <= m < values@.len() && values@[m] == cuts@[k];
            assert(values@[m] <= family.spec_maximum());
        }
        assert forall|k: int| 0 <= k < values@.len() implies cuts@.contains(
            #[trigger] values@[k],
        ) by {
            assert(values@.contains(values@[k]));
        }
        assert forall|i: int|
            0 <= i < before@.len() && in_dimension(
                #[trigger] before@[i],
                family,
                protocol,
            ) implies is_cut(before@[i], family, values@) by {
            let rule = before@[i];
            assert(middle.contains(rule.source_start));
            if rule.source_end < family.spec_maximum() {
                assert(middle.contains((rule.source_end + 1) as u128));
            }
        }
    }
    let mut columns: Vec<Vec<Run>> = Vec::new();
    let mut k: usize = 0;
    while k < cuts.len()
        invariant
            k <= cuts@.len(),
            columns@.len() == k,
            forall|m: int|
                0 <= m < k ==> runs::are_runs(
                    (#[trigger] columns@[m])@,
                    before@,
                    after@,
                    family,
                    protocol,
                    cuts@[m] as int,
                    65_535,
                ),
        decreases cuts@.len() - k,
    {
        let column = runs_at(before, after, family, protocol, cuts[k]);
        columns.push(column);
        k = k + 1;
    }
    let grid = Grid { cuts, columns };
    proof {
        assert forall|k: int| 0 <= k < grid.cuts@.len() implies #[trigger] grid.column_sound(
            before@,
            after@,
            family,
            protocol,
            k,
        ) by {
            let start = grid.cuts@[k] as int;
            assert(runs::are_runs(
                grid.columns@[k]@,
                before@,
                after@,
                family,
                protocol,
                start,
                65_535,
            ));
            assert forall|x: int| start <= x < grid.next(family, k) implies #[trigger] same_column(
                before@,
                after@,
                family,
                protocol,
                x,
                start,
            ) by {
                if k + 1 < grid.cuts@.len() {
                    assert(grid.cuts@[k + 1] <= family.spec_maximum());
                }
                assert forall|m: int| 0 <= m < values@.len() implies !(start < #[trigger] values@[m]
                    <= x) by {
                    assert(cuts@.contains(values@[m]));
                    let z = choose|z: int| 0 <= z < cuts@.len() && cuts@[z] == values@[m];
                    if z > k {
                        if z > k + 1 {
                            assert(cuts@[k + 1] < cuts@[z]);
                        }
                    } else if z < k {
                        assert(cuts@[z] < cuts@[k]);
                    }
                }
                assert forall|port: int| #[trigger]
                    runs::deciders(before@, after@, family, protocol, x, port) == runs::deciders(
                        before@,
                        after@,
                        family,
                        protocol,
                        start,
                        port,
                    ) by {
                    lemma_same_stretch(before@, values@, family, protocol, start, x, port);
                    lemma_same_stretch(after@, values@, family, protocol, start, x, port);
                }
            }
        }
    }
    grid
}

} // verus!
