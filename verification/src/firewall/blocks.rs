//! Blocks of addresses and ports on which a change of policy tells.

use vstd::prelude::*;
use crate::firewall::grid;
use crate::firewall::grid::Grid;
use crate::firewall::model;
use crate::firewall::model::{Action, Condition, IpFamily, Protocol, ValidatedPolicy};
use crate::firewall::runs;
use crate::firewall::runs::{Deciders, Run};

verus! {

/// A run of ports with its deciders.
pub struct Shape {
    pub start: u16,
    pub end: u16,
    pub by: Deciders,
}

pub open spec fn shape_of(run: Run) -> Shape {
    Shape { start: run.start, end: run.end, by: run.by() }
}

/// The ports of a source have a run of a shape, as long as can be.
pub open spec fn has_shape(
    old: Seq<Condition>,
    new: Seq<Condition>,
    family: IpFamily,
    protocol: Protocol,
    source: int,
    shape: Shape,
) -> bool {
    &&& shape.start <= shape.end
    &&& forall|port: int|
        shape.start <= port <= shape.end ==> #[trigger] runs::deciders(
            old,
            new,
            family,
            protocol,
            source,
            port,
        ) == shape.by
    &&& shape.start == 0 || runs::deciders(old, new, family, protocol, source, shape.start - 1)
        != shape.by
    &&& shape.end == 65_535 || runs::deciders(old, new, family, protocol, source, shape.end + 1)
        != shape.by
}

/// The change tells where these rules decide.
pub open spec fn tells(old: Seq<Condition>, new: Seq<Condition>, by: Deciders) -> bool {
    model::ruling(old, by.old).action != model::ruling(new, by.new).action
}

/// Addresses one after the other that have a run of the same shape.
pub struct Block {
    pub low: u128,
    pub high: u128,
    pub shape: Shape,
}

/// A block on which the change tells, as large as can be.
pub open spec fn is_block(
    old: Seq<Condition>,
    new: Seq<Condition>,
    family: IpFamily,
    protocol: Protocol,
    block: Block,
) -> bool {
    &&& block.low <= block.high <= family.spec_maximum()
    &&& tells(old, new, block.shape.by)
    &&& forall|x: int|
        block.low <= x <= block.high ==> #[trigger] has_shape(
            old,
            new,
            family,
            protocol,
            x,
            block.shape,
        )
    &&& block.low == 0 || !has_shape(old, new, family, protocol, block.low - 1, block.shape)
    &&& block.high == family.spec_maximum() || !has_shape(
        old,
        new,
        family,
        protocol,
        block.high + 1,
        block.shape,
    )
}

/// Every port stands in a run.
pub proof fn lemma_covered(
    list: Seq<Run>,
    old: Seq<Condition>,
    new: Seq<Condition>,
    family: IpFamily,
    protocol: Protocol,
    source: int,
    port: int,
    k: int,
) -> (at: int)
    requires
        runs::are_runs(list, old, new, family, protocol, source, 65_535),
        0 <= k < list.len(),
        list[k].start <= port <= 65_535,
    ensures
        0 <= at < list.len(),
        list[at].start <= port <= list[at].end,
    decreases list.len() - k,
{
    if port <= list[k].end {
        k
    } else {
        assert(k < list.len() - 1);
        assert(list[k + 1].start == list[k].end + 1);
        lemma_covered(list, old, new, family, protocol, source, port, k + 1)
    }
}

/// A run of a list is as long as can be.
pub proof fn lemma_run_has_shape(
    list: Seq<Run>,
    old: Seq<Condition>,
    new: Seq<Condition>,
    family: IpFamily,
    protocol: Protocol,
    source: int,
    k: int,
)
    requires
        runs::are_runs(list, old, new, family, protocol, source, 65_535),
        0 <= k < list.len(),
    ensures
        has_shape(old, new, family, protocol, source, shape_of(list[k])),
{
    let run = list[k];
    assert(runs::is_run(run, old, new, family, protocol, source));
    if k > 0 {
        assert(list[k].start == list[k - 1].end + 1);
        assert(runs::is_run(list[k - 1], old, new, family, protocol, source));
        assert(runs::deciders(old, new, family, protocol, source, run.start - 1)
            == list[k - 1].by());
    }
    if k < list.len() - 1 {
        assert(list[k + 1].start == list[k].end + 1);
        assert(list[k + 1].start <= list[k + 1].end);
        assert(runs::is_run(list[k + 1], old, new, family, protocol, source));
        assert(runs::deciders(old, new, family, protocol, source, run.end + 1)
            == list[k + 1].by());
    }
}

/// A run as long as can be is in the list.
pub proof fn lemma_shape_is_run(
    list: Seq<Run>,
    old: Seq<Condition>,
    new: Seq<Condition>,
    family: IpFamily,
    protocol: Protocol,
    source: int,
    shape: Shape,
) -> (at: int)
    requires
        runs::are_runs(list, old, new, family, protocol, source, 65_535),
        has_shape(old, new, family, protocol, source, shape),
    ensures
        0 <= at < list.len(),
        shape_of(list[at]) == shape,
{
    let at = lemma_covered(list, old, new, family, protocol, source, shape.start as int, 0);
    let run = list[at];
    assert(runs::is_run(run, old, new, family, protocol, source));
    assert(runs::deciders(old, new, family, protocol, source, shape.start as int) == run.by());
    if run.start < shape.start {
        assert(runs::deciders(old, new, family, protocol, source, shape.start - 1) == run.by());
    }
    if shape.end < run.end {
        assert(runs::deciders(old, new, family, protocol, source, shape.end + 1) == run.by());
    }
    if run.end < shape.end {
        assert(at < list.len() - 1);
        assert(list[at + 1].start == run.end + 1);
        assert(list[at + 1].start <= list[at + 1].end);
        assert(runs::is_run(list[at + 1], old, new, family, protocol, source));
        assert(runs::deciders(old, new, family, protocol, source, run.end + 1) == list[at
            + 1].by());
    }
    at
}

/// Sources with the same deciders have runs of the same shapes.
pub proof fn lemma_same_shapes(
    old: Seq<Condition>,
    new: Seq<Condition>,
    family: IpFamily,
    protocol: Protocol,
    x: int,
    y: int,
    shape: Shape,
)
    requires
        grid::same_column(old, new, family, protocol, x, y),
    ensures
        has_shape(old, new, family, protocol, x, shape) == has_shape(
            old,
            new,
            family,
            protocol,
            y,
            shape,
        ),
{
    assert(runs::deciders(old, new, family, protocol, x, shape.start - 1) == runs::deciders(
        old,
        new,
        family,
        protocol,
        y,
        shape.start - 1,
    ));
    assert(runs::deciders(old, new, family, protocol, x, shape.end + 1) == runs::deciders(
        old,
        new,
        family,
        protocol,
        y,
        shape.end + 1,
    ));
    if has_shape(old, new, family, protocol, x, shape) {
        assert forall|port: int| shape.start <= port <= shape.end implies #[trigger] runs::deciders(
            old,
            new,
            family,
            protocol,
            y,
            port,
        ) == shape.by by {
            assert(runs::deciders(old, new, family, protocol, x, port) == shape.by);
        }
    }
    if has_shape(old, new, family, protocol, y, shape) {
        assert forall|port: int| shape.start <= port <= shape.end implies #[trigger] runs::deciders(
            old,
            new,
            family,
            protocol,
            x,
            port,
        ) == shape.by by {
            assert(runs::deciders(old, new, family, protocol, x, port)
                == runs::deciders(old, new, family, protocol, y, port));
        }
    }
}

/// A block that may grow.
#[derive(Clone, Copy, Debug)]
pub struct Open {
    pub low: u128,
    pub run: Run,
}

/// A block that has been found.
#[derive(Clone, Copy, Debug)]
pub struct Area {
    pub low: u128,
    pub high: u128,
    pub run: Run,
}

pub open spec fn block_of(area: Area) -> Block {
    Block { low: area.low, high: area.high, shape: shape_of(area.run) }
}

pub open spec fn blocks_of(areas: Seq<Area>) -> Seq<Block> {
    areas.map_values(|area: Area| block_of(area))
}

/// A block that reaches a source, and began where it could.
pub open spec fn is_open(
    old: Seq<Condition>,
    new: Seq<Condition>,
    family: IpFamily,
    protocol: Protocol,
    source: int,
    open: Open,
) -> bool {
    &&& open.low <= source
    &&& tells(old, new, open.run.by())
    &&& forall|x: int|
        open.low <= x <= source ==> #[trigger] has_shape(
            old,
            new,
            family,
            protocol,
            x,
            shape_of(open.run),
        )
    &&& open.low == 0 || !has_shape(
        old,
        new,
        family,
        protocol,
        open.low - 1,
        shape_of(open.run),
    )
    &&& open.run.old matches Some(i) ==> i < old.len()
    &&& open.run.new matches Some(i) ==> i < new.len()
}

pub open spec fn has_run(list: Seq<Open>, shape: Shape) -> bool {
    exists|k: int| 0 <= k < list.len() && shape_of((#[trigger] list[k]).run) == shape
}

/// All blocks that reach a source, by their ports.
pub open spec fn are_open(
    list: Seq<Open>,
    old: Seq<Condition>,
    new: Seq<Condition>,
    family: IpFamily,
    protocol: Protocol,
    source: int,
) -> bool {
    &&& forall|k: int|
        0 <= k < list.len() ==> is_open(old, new, family, protocol, source, #[trigger] list[k])
    &&& forall|a: int, b: int|
        0 <= a < b < list.len() ==> (#[trigger] list[a]).run.start < (#[trigger] list[b]).run.start
    &&& forall|shape: Shape| #[trigger]
        has_shape(old, new, family, protocol, source, shape) && tells(old, new, shape.by)
            ==> has_run(list, shape)
}

/// All blocks that ended before a source, each once.
pub open spec fn are_found(
    list: Seq<Area>,
    old: Seq<Condition>,
    new: Seq<Condition>,
    family: IpFamily,
    protocol: Protocol,
    source: int,
) -> bool {
    &&& forall|block: Block| #[trigger]
        blocks_of(list).contains(block) <==> is_block(old, new, family, protocol, block)
            && block.high < source
    &&& forall|a: int, b: int|
        0 <= a < b < list.len() ==> {
            ||| (#[trigger] list[a]).high < (#[trigger] list[b]).high
            ||| list[a].high == list[b].high && list[a].run.start < list[b].run.start
        }
    &&& forall|k: int|
        0 <= k < list.len() ==> ((#[trigger] list[k]).run.old matches Some(i) ==> i < old.len())
            && (list[k].run.new matches Some(i) ==> i < new.len())
}

fn action_of(policy: &ValidatedPolicy, place: Option<usize>) -> (action: Action)
    requires
        place matches Some(i) ==> i < policy@.len(),
    ensures
        action == model::ruling(policy@, runs::place_view(place)).action,
{
    match place {
        Some(i) => {
            assert(policy@[i as int] == policy.rules@[i as int]@);
            policy.rules[i].action
        },
        None => Action::Deny,
    }
}

fn same_run(a: &Run, b: &Run) -> (same: bool)
    ensures
        same == (shape_of(*a) == shape_of(*b)),
{
    let old_same = match (a.old, b.old) {
        (Some(i), Some(j)) => i == j,
        (None, None) => true,
        _ => false,
    };
    let new_same = match (a.new, b.new) {
        (Some(i), Some(j)) => i == j,
        (None, None) => true,
        _ => false,
    };
    a.start == b.start && a.end == b.end && old_same && new_same
}

fn find_open(list: &Vec<Open>, run: &Run) -> (at: Option<usize>)
    ensures
        match at {
            Some(k) => k < list@.len() && shape_of(list@[k as int].run) == shape_of(*run),
            None => !has_run(list@, shape_of(*run)),
        },
{
    let mut k: usize = 0;
    while k < list.len()
        invariant
            k <= list@.len(),
            forall|m: int|
                0 <= m < k ==> shape_of((#[trigger] list@[m]).run) != shape_of(*run),
        decreases list@.len() - k,
    {
        if same_run(&list[k].run, run) {
            return Some(k);
        }
        k = k + 1;
    }
    None
}

/// The blocks that reach the next stretch.
fn grow(
    before: &ValidatedPolicy,
    after: &ValidatedPolicy,
    family: IpFamily,
    protocol: Protocol,
    column: &Vec<Run>,
    source: u128,
    open: &Vec<Open>,
    Ghost(previous): Ghost<int>,
) -> (next: Vec<Open>)
    requires
        runs::are_runs(column@, before@, after@, family, protocol, source as int, 65_535),
        source == 0 ==> open@.len() == 0,
        source > 0 ==> 0 <= previous < source && are_open(
            open@,
            before@,
            after@,
            family,
            protocol,
            previous,
        ) && forall|x: int|
            previous <= x < source ==> #[trigger] grid::same_column(
                before@,
                after@,
                family,
                protocol,
                x,
                previous,
            ),
    ensures
        are_open(next@, before@, after@, family, protocol, source as int),
{
    let ghost old_rules = before@;
    let ghost new_rules = after@;
    let mut next: Vec<Open> = Vec::new();
    let mut i: usize = 0;
    while i < column.len()
        invariant
            i <= column@.len(),
            old_rules == before@,
            new_rules == after@,
            runs::are_runs(column@, old_rules, new_rules, family, protocol, source as int, 65_535),
            source == 0 ==> open@.len() == 0,
            source > 0 ==> 0 <= previous < source && are_open(
                open@,
                old_rules,
                new_rules,
                family,
                protocol,
                previous,
            ) && forall|x: int|
                previous <= x < source ==> #[trigger] grid::same_column(
                    old_rules,
                    new_rules,
                    family,
                    protocol,
                    x,
                    previous,
                ),
            forall|k: int|
                0 <= k < next@.len() ==> is_open(
                    old_rules,
                    new_rules,
                    family,
                    protocol,
                    source as int,
                    #[trigger] next@[k],
                ),
            forall|a: int, b: int|
                0 <= a < b < next@.len() ==> (#[trigger] next@[a]).run.start < (
                #[trigger] next@[b]).run.start,
            i < column@.len() ==> forall|k: int|
                0 <= k < next@.len() ==> (#[trigger] next@[k]).run.start < column@[i as int].start,
            forall|m: int|
                0 <= m < i && tells(old_rules, new_rules, (#[trigger] column@[m]).by()) ==> has_run(
                    next@,
                    shape_of(column@[m]),
                ),
        decreases column@.len() - i,
    {
        let run = column[i];
        let ghost made = next@;
        assert(runs::is_run(
            column@[i as int],
            old_rules,
            new_rules,
            family,
            protocol,
            source as int,
        ));
        if action_of(before, run.old) != action_of(after, run.new) {
            let low: u128 = match find_open(open, &run) {
                Some(k) => open[k].low,
                None => source,
            };
            let entry = Open { low, run };
            proof {
                let shape = shape_of(run);
                lemma_run_has_shape(
                    column@,
                    old_rules,
                    new_rules,
                    family,
                    protocol,
                    source as int,
                    i as int,
                );
                if source > 0 {
                    if has_run(open@, shape) {
                        let k = choose|k: int|
                            0 <= k < open@.len() && shape_of((#[trigger] open@[k]).run) == shape
                                && open@[k].low == low;
                        assert(is_open(old_rules, new_rules, family, protocol, previous, open@[k]));
                        assert forall|x: int| low <= x <= source implies #[trigger] has_shape(
                            old_rules,
                            new_rules,
                            family,
                            protocol,
                            x,
                            shape,
                        ) by {
                            if previous <= x < source {
                                assert(grid::same_column(
                                    old_rules,
                                    new_rules,
                                    family,
                                    protocol,
                                    x,
                                    previous,
                                ));
                                lemma_same_shapes(
                                    old_rules,
                                    new_rules,
                                    family,
                                    protocol,
                                    x,
                                    previous,
                                    shape,
                                );
                            }
                        }
                    } else {
                        assert(grid::same_column(
                            old_rules,
                            new_rules,
                            family,
                            protocol,
                            source - 1,
                            previous,
                        ));
                        lemma_same_shapes(
                            old_rules,
                            new_rules,
                            family,
                            protocol,
                            source - 1,
                            previous,
                            shape,
                        );
                        if has_shape(old_rules, new_rules, family, protocol, previous, shape) {
                            assert(has_run(open@, shape));
                        }
                    }
                }
                assert(is_open(old_rules, new_rules, family, protocol, source as int, entry));
            }
            next.push(entry);
            assert(shape_of(next@[made.len() as int].run) == shape_of(column@[i as int]));
        }
        proof {
            assert forall|m: int|
                0 <= m < i + 1 && tells(
                    old_rules,
                    new_rules,
                    (#[trigger] column@[m]).by(),
                ) implies has_run(next@, shape_of(column@[m])) by {
                if m < i {
                    assert(has_run(made, shape_of(column@[m])));
                    let k = choose|k: int|
                        0 <= k < made.len() && shape_of((#[trigger] made[k]).run) == shape_of(
                            column@[m],
                        );
                    assert(next@[k] == made[k]);
                }
            }
            if i + 1 < column@.len() {
                assert(column@[i as int].start <= column@[i as int].end);
                assert(column@[i as int].end < column@[i + 1].start);
            }
        }
        i = i + 1;
    }
    proof {
        assert forall|shape: Shape| #[trigger]
            has_shape(old_rules, new_rules, family, protocol, source as int, shape) && tells(
                old_rules,
                new_rules,
                shape.by,
            ) implies has_run(next@, shape) by {
            let m = lemma_shape_is_run(
                column@,
                old_rules,
                new_rules,
                family,
                protocol,
                source as int,
                shape,
            );
            assert(tells(old_rules, new_rules, column@[m].by()));
        }
    }
    next
}

/// An open block that does not reach on has ended.
proof fn lemma_ended(
    old: Seq<Condition>,
    new: Seq<Condition>,
    family: IpFamily,
    protocol: Protocol,
    previous: int,
    limit: int,
    open: Open,
    block: Block,
)
    requires
        is_open(old, new, family, protocol, previous, open),
        previous < limit <= family.spec_maximum() + 1,
        forall|x: int|
            previous <= x < limit ==> #[trigger] grid::same_column(
                old,
                new,
                family,
                protocol,
                x,
                previous,
            ),
        limit <= family.spec_maximum() ==> !has_shape(
            old,
            new,
            family,
            protocol,
            limit,
            shape_of(open.run),
        ),
        block == (Block { low: open.low, high: (limit - 1) as u128, shape: shape_of(open.run) }),
    ensures
        is_block(old, new, family, protocol, block),
{
    assert forall|x: int| block.low <= x <= block.high implies #[trigger] has_shape(
        old,
        new,
        family,
        protocol,
        x,
        block.shape,
    ) by {
        if previous <= x {
            assert(grid::same_column(old, new, family, protocol, x, previous));
            lemma_same_shapes(old, new, family, protocol, x, previous, block.shape);
        }
    }
}

/// A block that ends within a stretch ends with it, and was open.
proof fn lemma_was_open(
    list: Seq<Open>,
    old: Seq<Condition>,
    new: Seq<Condition>,
    family: IpFamily,
    protocol: Protocol,
    previous: int,
    limit: int,
    block: Block,
) -> (at: int)
    requires
        are_open(list, old, new, family, protocol, previous),
        0 <= previous < limit <= family.spec_maximum() + 1,
        forall|x: int|
            previous <= x < limit ==> #[trigger] grid::same_column(
                old,
                new,
                family,
                protocol,
                x,
                previous,
            ),
        is_block(old, new, family, protocol, block),
        previous <= block.high < limit,
    ensures
        0 <= at < list.len(),
        block.high == limit - 1,
        list[at].low == block.low,
        shape_of(list[at].run) == block.shape,
        limit <= family.spec_maximum() ==> !has_shape(
            old,
            new,
            family,
            protocol,
            limit,
            block.shape,
        ),
{
    let high = block.high as int;
    assert(has_shape(old, new, family, protocol, high, block.shape));
    assert(grid::same_column(old, new, family, protocol, high, previous));
    lemma_same_shapes(old, new, family, protocol, high, previous, block.shape);
    if high < limit - 1 {
        assert(grid::same_column(old, new, family, protocol, high + 1, previous));
        lemma_same_shapes(old, new, family, protocol, high + 1, previous, block.shape);
    }
    if block.low > previous {
        assert(grid::same_column(old, new, family, protocol, block.low - 1, previous));
        lemma_same_shapes(old, new, family, protocol, block.low - 1, previous, block.shape);
    }
    assert(has_run(list, block.shape));
    let at = choose|at: int|
        0 <= at < list.len() && shape_of((#[trigger] list[at]).run) == block.shape;
    assert(is_open(old, new, family, protocol, previous, list[at]));
    if list[at].low < block.low {
        assert(has_shape(old, new, family, protocol, block.low - 1, block.shape));
    } else if block.low < list[at].low {
        assert(has_shape(old, new, family, protocol, list[at].low - 1, block.shape));
    }
    at
}

/// Takes up the blocks that ended with a stretch.
fn collect_ended(
    family: IpFamily,
    protocol: Protocol,
    open: &Vec<Open>,
    next: &Vec<Open>,
    high: u128,
    found: &mut Vec<Area>,
    Ghost(old_rules): Ghost<Seq<Condition>>,
    Ghost(new_rules): Ghost<Seq<Condition>>,
    Ghost(previous): Ghost<int>,
)
    requires
        0 <= previous <= high <= family.spec_maximum(),
        are_open(open@, old_rules, new_rules, family, protocol, previous),
        forall|x: int|
            previous <= x < high + 1 ==> #[trigger] grid::same_column(
                old_rules,
                new_rules,
                family,
                protocol,
                x,
                previous,
            ),
        high < family.spec_maximum() ==> are_open(
            next@,
            old_rules,
            new_rules,
            family,
            protocol,
            high + 1,
        ),
        high == family.spec_maximum() ==> next@.len() == 0,
        are_found(old(found)@, old_rules, new_rules, family, protocol, previous),
    ensures
        are_found(final(found)@, old_rules, new_rules, family, protocol, high + 1),
{
    let ghost given = found@;
    let ghost limit = high + 1;
    let mut k: usize = 0;
    assert(blocks_of(found@) =~= blocks_of(given));
    proof {
        lemma_found_below(given, old_rules, new_rules, family, protocol, previous);
    }
    while k < open.len()
        invariant
            k <= open@.len(),
            0 <= previous <= high <= family.spec_maximum(),
            limit == high + 1,
            are_open(open@, old_rules, new_rules, family, protocol, previous),
            forall|x: int|
                previous <= x < limit ==> #[trigger] grid::same_column(
                    old_rules,
                    new_rules,
                    family,
                    protocol,
                    x,
                    previous,
                ),
            high < family.spec_maximum() ==> are_open(
                next@,
                old_rules,
                new_rules,
                family,
                protocol,
                limit,
            ),
            high == family.spec_maximum() ==> next@.len() == 0,
            given.len() <= found@.len(),
            forall|m: int| 0 <= m < given.len() ==> #[trigger] found@[m] == given[m],
            forall|m: int| 0 <= m < given.len() ==> (#[trigger] given[m]).high < previous,
            forall|m: int|
                given.len() <= m < found@.len() ==> (#[trigger] found@[m]).high == high && is_block(
                    old_rules,
                    new_rules,
                    family,
                    protocol,
                    block_of(found@[m]),
                ),
            forall|a: int, b: int|
                given.len() <= a < b < found@.len() ==> (#[trigger] found@[a]).run.start < (
                #[trigger] found@[b]).run.start,
            k < open@.len() ==> forall|m: int|
                given.len() <= m < found@.len() ==> (#[trigger] found@[m]).run.start
                    < open@[k as int].run.start,
            forall|m: int|
                0 <= m < k && !has_run(next@, shape_of((#[trigger] open@[m]).run)) ==> blocks_of(
                    found@,
                ).contains(
                    Block { low: open@[m].low, high, shape: shape_of(open@[m].run) },
                ),
            forall|m: int|
                0 <= m < found@.len() ==> ((#[trigger] found@[m]).run.old matches Some(i) ==> i
                    < old_rules.len()) && (found@[m].run.new matches Some(i) ==> i
                    < new_rules.len()),
        decreases open@.len() - k,
    {
        let entry = open[k];
        let ghost taken = found@;
        assert(is_open(old_rules, new_rules, family, protocol, previous, open@[k as int]));
        if find_open(next, &entry.run).is_none() {
            let area = Area { low: entry.low, high, run: entry.run };
            proof {
                if limit <= family.spec_maximum() {
                    if has_shape(
                        old_rules,
                        new_rules,
                        family,
                        protocol,
                        limit,
                        shape_of(entry.run),
                    ) {
                        assert(has_run(next@, shape_of(entry.run)));
                    }
                }
                lemma_ended(
                    old_rules,
                    new_rules,
                    family,
                    protocol,
                    previous,
                    limit,
                    entry,
                    block_of(area),
                );
            }
            found.push(area);
            assert(blocks_of(found@)[taken.len() as int] == block_of(area));
        }
        proof {
            assert forall|m: int|
                0 <= m < k + 1 && !has_run(
                    next@,
                    shape_of((#[trigger] open@[m]).run),
                ) implies blocks_of(found@).contains(
                Block { low: open@[m].low, high, shape: shape_of(open@[m].run) },
            ) by {
                let block = Block { low: open@[m].low, high, shape: shape_of(open@[m].run) };
                if m < k {
                    assert(blocks_of(taken).contains(block));
                    let z = choose|z: int|
                        0 <= z < blocks_of(taken).len() && blocks_of(taken)[z] == block;
                    assert(blocks_of(found@)[z] == block);
                } else {
                    assert(blocks_of(found@)[taken.len() as int] == block);
                }
            }
            if k + 1 < open@.len() {
                assert(open@[k as int].run.start < open@[k + 1].run.start);
            }
        }
        k = k + 1;
    }
    proof {
        let shown = blocks_of(found@);
        assert forall|block: Block| #[trigger]
            shown.contains(block) <==> is_block(old_rules, new_rules, family, protocol, block)
                && block.high < limit by {
            if shown.contains(block) {
                let m = choose|m: int| 0 <= m < shown.len() && shown[m] == block;
                assert(shown[m] == block_of(found@[m]));
                if m < given.len() {
                    assert(found@[m] == given[m]);
                    assert(blocks_of(given)[m] == block);
                    assert(blocks_of(given).contains(block));
                } else {
                    assert(found@[m].high == high);
                }
            }
            if is_block(old_rules, new_rules, family, protocol, block) && block.high < limit {
                if block.high < previous {
                    assert(blocks_of(given).contains(block));
                    let m = choose|m: int|
                        0 <= m < blocks_of(given).len() && blocks_of(given)[m] == block;
                    assert(found@[m] == given[m]);
                    assert(shown[m] == block);
                } else {
                    let at = lemma_was_open(
                        open@,
                        old_rules,
                        new_rules,
                        family,
                        protocol,
                        previous,
                        limit,
                        block,
                    );
                    assert(!has_run(next@, block.shape)) by {
                        if has_run(next@, block.shape) {
                            let z = choose|z: int|
                                0 <= z < next@.len() && shape_of((#[trigger] next@[z]).run)
                                    == block.shape;
                            assert(is_open(
                                old_rules,
                                new_rules,
                                family,
                                protocol,
                                limit,
                                next@[z],
                            ));
                            assert(has_shape(
                                old_rules,
                                new_rules,
                                family,
                                protocol,
                                limit,
                                block.shape,
                            ));
                        }
                    }
                    assert(shape_of(open@[at].run) == block.shape);
                    assert(shown.contains(
                        Block { low: open@[at].low, high, shape: shape_of(open@[at].run) },
                    ));
                }
            }
        }
        assert forall|a: int, b: int| 0 <= a < b < found@.len() implies {
            ||| (#[trigger] found@[a]).high < (#[trigger] found@[b]).high
            ||| found@[a].high == found@[b].high && found@[a].run.start < found@[b].run.start
        } by {
            if b < given.len() {
                assert(found@[a] == given[a] && found@[b] == given[b]);
            } else if a < given.len() {
                assert(found@[a] == given[a]);
            }
        }
    }
}

proof fn lemma_found_below(
    list: Seq<Area>,
    old: Seq<Condition>,
    new: Seq<Condition>,
    family: IpFamily,
    protocol: Protocol,
    source: int,
)
    requires
        are_found(list, old, new, family, protocol, source),
    ensures
        forall|m: int| 0 <= m < list.len() ==> (#[trigger] list[m]).high < source,
{
    assert forall|m: int| 0 <= m < list.len() implies (#[trigger] list[m]).high < source by {
        assert(blocks_of(list)[m] == block_of(list[m]));
        assert(blocks_of(list).contains(block_of(list[m])));
    }
}

/// All blocks on which the change tells, each once.
pub fn find_blocks(
    before: &ValidatedPolicy,
    after: &ValidatedPolicy,
    family: IpFamily,
    protocol: Protocol,
    grid: &Grid,
) -> (found: Vec<Area>)
    requires
        grid.sound(before@, after@, family, protocol),
    ensures
        are_found(found@, before@, after@, family, protocol, family.spec_maximum() + 1),
{
    let ghost old_rules = before@;
    let ghost new_rules = after@;
    let mut found: Vec<Area> = Vec::new();
    let nothing: Vec<Open> = Vec::new();
    let ghost first = grid.cuts@[0] as int;
    assert(grid.column_sound(old_rules, new_rules, family, protocol, 0));
    let mut open = grow(
        before,
        after,
        family,
        protocol,
        &grid.columns[0],
        grid.cuts[0],
        &nothing,
        Ghost(0int),
    );
    proof {
        assert(blocks_of(found@) =~= Seq::empty());
    }
    let mut k: usize = 1;
    while k < grid.cuts.len()
        invariant
            1 <= k <= grid.cuts@.len(),
            old_rules == before@,
            new_rules == after@,
            grid.sound(old_rules, new_rules, family, protocol),
            are_open(
                open@,
                old_rules,
                new_rules,
                family,
                protocol,
                grid.cuts@[k - 1] as int,
            ),
            are_found(
                found@,
                old_rules,
                new_rules,
                family,
                protocol,
                grid.cuts@[k - 1] as int,
            ),
        decreases grid.cuts@.len() - k,
    {
        let source = grid.cuts[k];
        let ghost previous = grid.cuts@[k - 1] as int;
        proof {
            assert(grid.column_sound(old_rules, new_rules, family, protocol, k - 1));
            assert(grid.column_sound(old_rules, new_rules, family, protocol, k as int));
            assert(grid.cuts@[k - 1] < grid.cuts@[k as int]);
            assert(grid.next(family, k - 1) == source);
        }
        let next = grow(
            before,
            after,
            family,
            protocol,
            &grid.columns[k],
            source,
            &open,
            Ghost(previous),
        );
        assert(grid.cuts@[k as int] <= family.spec_maximum());
        collect_ended(
            family,
            protocol,
            &open,
            &next,
            source - 1,
            &mut found,
            Ghost(old_rules),
            Ghost(new_rules),
            Ghost(previous),
        );
        open = next;
        k = k + 1;
    }
    let maximum = family.maximum();
    proof {
        let last = grid.cuts@.len() - 1;
        assert(grid.column_sound(old_rules, new_rules, family, protocol, last));
        assert(grid.cuts@[last] <= family.spec_maximum());
        assert(grid.next(family, last) == family.spec_maximum() + 1);
    }
    let ghost previous = grid.cuts@[grid.cuts@.len() - 1] as int;
    collect_ended(
        family,
        protocol,
        &open,
        &nothing,
        maximum,
        &mut found,
        Ghost(old_rules),
        Ghost(new_rules),
        Ghost(previous),
    );
    found
}

} // verus!
