//! The settlement of the reference: units are counted anew from the scans for
//! every line, and nothing is changed in place.

use vstd::prelude::*;
use crate::refund::model;
use crate::refund::model::{
    AuthorizedLine, EventView, Flags, LinePlan, LineView, PaymentBlock, ReturnAuthorization,
    ReturnPlan, Stock, Terms,
};
use crate::refund::settle;
use crate::refund::settle::{review_codes, sort_lines, Scan};
use crate::seqs;
use crate::text;
use crate::text::{same_text, sorted_unique};

verus! {

/// How many units each scan gives to a line, and how many these are.
fn give_units(scans: &Vec<Scan>, remaining: &Vec<u32>, sku: &str, want: u32) -> (outcome: (
    Vec<u32>,
    u32,
))
    requires
        remaining@.len() == scans@.len(),
    ensures
        settle::amounts(outcome.0@) == model::allotted(
            settle::scan_views(scans@),
            settle::amounts(remaining@),
            sku@,
            want as nat,
            scans@.len(),
        ),
        outcome.1 == seqs::sum(settle::amounts(outcome.0@)),
        outcome.1 <= want,
{
    let ghost shown = settle::scan_views(scans@);
    let ghost start = settle::amounts(remaining@);
    let mut given: Vec<u32> = Vec::new();
    let mut total: u32 = 0;
    assert(settle::amounts(given@) =~= model::allotted(shown, start, sku@, want as nat, 0));
    while given.len() < scans.len()
        invariant
            given@.len() <= scans@.len() == remaining@.len(),
            shown == settle::scan_views(scans@),
            start == settle::amounts(remaining@),
            settle::amounts(given@) == model::allotted(
                shown,
                start,
                sku@,
                want as nat,
                given@.len(),
            ),
            total == seqs::sum(settle::amounts(given@)),
            total <= want,
        decreases scans@.len() - given@.len(),
    {
        let i: usize = given.len();
        let ghost before = settle::amounts(given@);
        assert(shown[i as int] == scans@[i as int]@);
        assert(start[i as int] == remaining@[i as int] as nat);
        let mut units: u32 = 0;
        if same_text(scans[i].sku, sku) {
            let wanted: u32 = want - total;
            units = if remaining[i] < wanted {
                remaining[i]
            } else {
                wanted
            };
        }
        given.push(units);
        total = total + units;
        proof {
            assert(settle::amounts(given@) =~= before.push(units as nat));
            seqs::lemma_sum_push(before, units as nat);
            assert(model::allotted(shown, start, sku@, want as nat, (i + 1) as nat) =~= before.push(
                units as nat,
            ));
        }
    }
    (given, total)
}

/// Where units came from.
fn list_sources<'a>(scans: &Vec<Scan<'a>>, given: &Vec<u32>) -> (ids: Vec<&'a str>)
    requires
        given@.len() == scans@.len(),
    ensures
        text::text_set(ids@) == model::sources(
            settle::scan_views(scans@),
            settle::amounts(given@),
        ),
{
    let ghost shown = settle::scan_views(scans@);
    let ghost units = settle::amounts(given@);
    let mut ids: Vec<&'a str> = Vec::new();
    let mut i: usize = 0;
    while i < scans.len()
        invariant
            i <= scans@.len() == given@.len(),
            shown == settle::scan_views(scans@),
            units == settle::amounts(given@),
            forall|k: int|
                0 <= k < ids@.len() ==> #[trigger] settle::came_from(
                    shown,
                    units,
                    i as int,
                    ids@[k]@,
                ),
            forall|j: int, t: Seq<char>|
                0 <= j < i && (#[trigger] units[j]) > 0 && #[trigger] shown[j].provenance.contains(t)
                    ==> text::text_set(ids@).contains(t),
        decreases scans@.len() - i,
    {
        let scan = scans[i];
        let ghost before = ids@;
        assert(shown[i as int] == scan@);
        assert(units[i as int] == given@[i as int] as nat);
        if given[i] > 0 {
            ids.push(scan.event_id);
            if let Some(correction) = scan.correction {
                ids.push(correction);
            }
        }
        proof {
            settle::lemma_ids_grow(before, ids@);
            if units[i as int] > 0 {
                assert(ids@[before.len() as int]@ == scan.event_id@);
                assert(text::text_set(ids@).contains(scan.event_id@));
                if let Some(correction) = scan.correction {
                    assert(ids@[before.len() as int + 1]@ == correction@);
                    assert(text::text_set(ids@).contains(correction@));
                }
            }
            assert forall|k: int| 0 <= k < ids@.len() implies #[trigger] settle::came_from(
                shown,
                units,
                i + 1,
                ids@[k]@,
            ) by {
                if k < before.len() {
                    assert(settle::came_from(shown, units, i as int, before[k]@));
                    let j = choose|j: int|
                        0 <= j < i && (#[trigger] units[j]) > 0 && shown[j].provenance.contains(
                            before[k]@,
                        );
                    assert(units[j] > 0);
                } else {
                    assert(units[i as int] > 0);
                    assert(shown[i as int].provenance.contains(ids@[k]@));
                }
            }
        }
        i = i + 1;
    }
    proof {
        assert forall|t: Seq<char>| text::text_set(ids@).contains(t) == model::sources(
            shown,
            units,
        ).contains(t) by {
            if text::text_set(ids@).contains(t) {
                let k = choose|k: int| 0 <= k < ids@.len() && (#[trigger] ids@[k])@ == t;
                assert(settle::came_from(shown, units, scans@.len() as int, ids@[k]@));
            }
            if model::sources(shown, units).contains(t) {
                let j = choose|j: int|
                    0 <= j < shown.len() && (#[trigger] units[j]) > 0
                        && shown[j].provenance.contains(t);
                assert(shown[j].provenance.contains(t));
            }
        }
        assert(text::text_set(ids@) =~= model::sources(shown, units));
    }
    ids
}

/// What remains once units have been given.
fn without_units(remaining: &Vec<u32>, given: &Vec<u32>) -> (rest: Vec<u32>)
    requires
        remaining@.len() == given@.len(),
        forall|i: int| 0 <= i < given@.len() ==> (#[trigger] given@[i]) <= remaining@[i],
    ensures
        rest@.len() == remaining@.len(),
        forall|i: int| 0 <= i < rest@.len() ==> (#[trigger] rest@[i]) == remaining@[i] - given@[i],
{
    let mut rest: Vec<u32> = Vec::new();
    let mut i: usize = 0;
    while i < remaining.len()
        invariant
            i <= remaining@.len() == given@.len(),
            forall|i: int| 0 <= i < given@.len() ==> (#[trigger] given@[i]) <= remaining@[i],
            rest@.len() == i,
            forall|j: int| 0 <= j < i ==> (#[trigger] rest@[j]) == remaining@[j] - given@[j],
        decreases remaining@.len() - i,
    {
        assert(given@[i as int] <= remaining@[i as int]);
        rest.push(remaining[i] - given[i]);
        i = i + 1;
    }
    rest
}

/// What the first units of a line cost: its net in equal shares, and a cent of what is
/// left over for each as long as there is one.
fn cost_of(net: u64, authorized: u32, quantity: u32) -> (cents: u64)
    requires
        authorized > 0,
        quantity <= authorized,
    ensures
        cents == model::cost(net as int, authorized as int, quantity as int),
{
    let unit_base: u64 = net / authorized as u64;
    let left_over: u64 = net % authorized as u64;
    proof {
        settle::lemma_cost(net as int, authorized as int, quantity as int);
    }
    if left_over <= quantity as u64 {
        unit_base * quantity as u64 + left_over
    } else {
        unit_base * quantity as u64 + quantity as u64
    }
}

/// The most units, up to `eligible`, that the capacity covers: one more as long as
/// it does.
fn covered_units(net: u64, authorized: u32, capacity: u64, eligible: u32) -> (units: u32)
    requires
        authorized > 0,
        eligible <= authorized,
    ensures
        units == model::affordable(net as int, authorized as int, capacity as int, eligible as nat),
{
    let mut units: u32 = 0;
    let ghost best = model::affordable(
        net as int,
        authorized as int,
        capacity as int,
        eligible as nat,
    );
    proof {
        settle::lemma_affordable(net as int, authorized as int, capacity as int, eligible as nat);
    }
    while units < eligible && cost_of(net, authorized, units + 1) <= capacity
        invariant
            authorized > 0,
            units <= best <= eligible <= authorized,
            forall|q: int|
                best < q <= eligible ==> #[trigger] model::cost(net as int, authorized as int, q)
                    > capacity,
        decreases eligible - units,
    {
        assert(model::cost(net as int, authorized as int, units + 1) <= capacity);
        units = units + 1;
    }
    proof {
        if units < best {
            settle::lemma_cost_monotone(net as int, authorized as int, units + 1, best as int);
            settle::lemma_affordable(
                net as int,
                authorized as int,
                capacity as int,
                eligible as nat,
            );
        }
    }
    units
}

/// The proposal for one line, and what remains of the scans after it.
fn propose(
    line: &AuthorizedLine,
    scans: &Vec<Scan>,
    remaining: &Vec<u32>,
    cap: u64,
    block: Option<PaymentBlock>,
    Ghost(terms): Ghost<Terms>,
) -> (outcome: (LinePlan, Vec<u32>))
    requires
        line@.authorized_qty > 0,
        line@.sound_money(),
        line@.prior_successful_refund_cents <= line@.net(),
        remaining@.len() == scans@.len(),
        settle::scan_views(scans@) == terms.scans,
        block == model::block_of(terms.events, terms.owner, line@.line_id),
    ensures
        ({
            let stock = Stock { remaining: settle::amounts(remaining@), cap: cap as nat };
            &&& outcome.0@ == model::proposal(terms, stock, line@)
            &&& outcome.1@.len() == scans@.len()
            &&& settle::amounts(outcome.1@) == model::stock_after(terms, stock, line@).remaining
            &&& outcome.0.proposed_cents <= cap
            &&& model::stock_after(terms, stock, line@).cap == cap - outcome.0.proposed_cents
        }),
{
    let ghost stock = Stock { remaining: settle::amounts(remaining@), cap: cap as nat };
    let (given, accepted) = give_units(scans, remaining, line.sku.as_str(), line.authorized_qty);
    proof {
        settle::lemma_allotted(
            terms.scans,
            stock.remaining,
            line@.sku,
            line@.authorized_qty as nat,
            terms.scans.len(),
        );
        assert forall|i: int| 0 <= i < given@.len() implies (#[trigger] given@[i])
            <= remaining@[i] by {
            assert(settle::amounts(given@)[i] == given@[i] as nat);
            assert(stock.remaining[i] == remaining@[i] as nat);
        }
    }
    let ids = list_sources(scans, &given);
    let rest = without_units(remaining, &given);
    let net: u64 = line.paid_subtotal_cents + line.tax_cents - line.discount_cents;
    let maximum: u64 = net - line.prior_successful_refund_cents;
    let capacity: u64 = if maximum <= cap {
        maximum
    } else {
        cap
    };
    let eligible: u32 = match block {
        None => accepted,
        Some(_) => 0,
    };
    let proposed_quantity = covered_units(net, line.authorized_qty, capacity, eligible);
    proof {
        settle::lemma_affordable(
            net as int,
            line.authorized_qty as int,
            capacity as int,
            eligible as nat,
        );
        settle::lemma_cost(net as int, line.authorized_qty as int, proposed_quantity as int);
        assert(net == line@.net());
        assert(capacity == model::least(maximum as int, cap as int));
        let after = model::stock_after(terms, stock, line@).remaining;
        assert forall|i: int| 0 <= i < rest@.len() implies settle::amounts(rest@)[i] == after[i] by {
            assert(settle::amounts(given@)[i] == given@[i] as nat);
        }
        assert(settle::amounts(rest@) =~= after);
    }
    let proposed_cents = cost_of(net, line.authorized_qty, proposed_quantity);
    let plan = LinePlan {
        line_id: line.line_id.clone(),
        authorized_quantity: line.authorized_qty,
        accepted_scan_quantity: accepted,
        review_scan_quantity: 0,
        prior_successful_refund_cents: line.prior_successful_refund_cents,
        maximum_refundable_cents: maximum,
        proposed_quantity,
        proposed_cents,
        provenance_event_ids: sorted_unique(&ids),
    };
    (plan, rest)
}

/// The units of a SKU that no line took.
fn count_left(scans: &Vec<Scan>, remaining: &Vec<u32>, sku: &str) -> (total: u64)
    requires
        remaining@.len() == scans@.len() <= u32::MAX,
    ensures
        total == model::left_over(
            settle::scan_views(scans@),
            settle::amounts(remaining@),
            sku@,
        ),
{
    let ghost shown = settle::scan_views(scans@);
    let ghost terms = Seq::new(
        shown.len(),
        |i: int|
            if shown[i].sku == sku@ {
                settle::amounts(remaining@)[i]
            } else {
                0
            },
    );
    let mut total: u64 = 0;
    let mut i: usize = 0;
    assert(terms.take(0) =~= Seq::<nat>::empty());
    while i < scans.len()
        invariant
            i <= scans@.len() == remaining@.len() <= u32::MAX,
            shown == settle::scan_views(scans@),
            terms.len() == scans@.len(),
            forall|j: int|
                0 <= j < terms.len() ==> (#[trigger] terms[j]) == if shown[j].sku == sku@ {
                    remaining@[j] as nat
                } else {
                    0
                },
            total == seqs::sum(terms.take(i as int)),
            total <= i * 0xffff_ffff,
        decreases scans@.len() - i,
    {
        assert(shown[i as int] == scans@[i as int]@);
        proof {
            seqs::lemma_sum_take(terms, i as int);
            assert(i * 0xffff_ffff + 0xffff_ffff <= 0xffff_ffff * 0xffff_ffff)
                by (nonlinear_arith)
                requires
                    i < 0xffff_ffff,
            ;
        }
        if same_text(scans[i].sku, sku) {
            total = total + remaining[i] as u64;
        }
        i = i + 1;
    }
    assert(terms.take(scans@.len() as int) =~= terms);
    total
}

fn is_named(lines: &Vec<AuthorizedLine>, sku: &str) -> (named: bool)
    ensures
        named == model::has_sku(settle::line_views(lines@), sku@),
{
    let ghost shown = settle::line_views(lines@);
    let mut k: usize = 0;
    while k < lines.len()
        invariant
            k <= lines@.len(),
            shown == settle::line_views(lines@),
            forall|j: int| 0 <= j < k ==> (#[trigger] shown[j]).sku != sku@,
        decreases lines@.len() - k,
    {
        assert(shown[k as int].sku == lines@[k as int].sku@);
        if same_text(lines[k].sku.as_str(), sku) {
            return true;
        }
        k = k + 1;
    }
    false
}

/// The units of SKUs that no line names.
fn count_unnamed(scans: &Vec<Scan>, lines: &Vec<AuthorizedLine>) -> (total: u64)
    requires
        scans@.len() <= u32::MAX,
    ensures
        total == model::unmatched(settle::scan_views(scans@), settle::line_views(lines@)),
{
    let ghost shown = settle::scan_views(scans@);
    let ghost named = settle::line_views(lines@);
    let ghost terms = Seq::new(
        shown.len(),
        |i: int|
            if model::has_sku(named, shown[i].sku) {
                0
            } else {
                shown[i].quantity
            },
    );
    let mut total: u64 = 0;
    let mut i: usize = 0;
    assert(terms.take(0) =~= Seq::<nat>::empty());
    while i < scans.len()
        invariant
            i <= scans@.len() <= u32::MAX,
            shown == settle::scan_views(scans@),
            named == settle::line_views(lines@),
            terms.len() == scans@.len(),
            forall|j: int|
                0 <= j < terms.len() ==> (#[trigger] terms[j]) == if model::has_sku(
                    named,
                    shown[j].sku,
                ) {
                    0
                } else {
                    shown[j].quantity
                },
            total == seqs::sum(terms.take(i as int)),
            total <= i * 0xffff_ffff,
        decreases scans@.len() - i,
    {
        assert(shown[i as int] == scans@[i as int]@);
        proof {
            seqs::lemma_sum_take(terms, i as int);
            assert(i * 0xffff_ffff + 0xffff_ffff <= 0xffff_ffff * 0xffff_ffff)
                by (nonlinear_arith)
                requires
                    i < 0xffff_ffff,
            ;
        }
        if !is_named(lines, scans[i].sku) {
            total = total + scans[i].quantity as u64;
        }
        i = i + 1;
    }
    assert(terms.take(scans@.len() as int) =~= terms);
    total
}

/// Whether no later line names the SKU of a line.
fn is_last_of_sku(
    authorization: &ReturnAuthorization,
    order: &Vec<usize>,
    index: usize,
) -> (last: bool)
    requires
        settle::line_views(authorization.lines@) == authorization@.lines,
        settle::line_order(order@, authorization@.lines),
        index < order@.len(),
    ensures
        last == model::last_of_sku(model::ordered_lines(authorization@.lines), index as int),
{
    let ghost lines = model::ordered_lines(authorization@.lines);
    let sku = authorization.lines[order[index]].sku.as_str();
    assert(authorization.lines@[order@[index as int] as int]@ == lines[index as int]);
    let mut later: usize = order.len();
    while later > index + 1
        invariant
            index < later <= order@.len() == lines.len(),
            lines == model::ordered_lines(authorization@.lines),
            settle::line_views(authorization.lines@) == authorization@.lines,
            settle::line_order(order@, authorization@.lines),
            sku@ == lines[index as int].sku,
            forall|j: int| later <= j < lines.len() ==> (#[trigger] lines[j]).sku != sku@,
        decreases later,
    {
        later = later - 1;
        assert(authorization.lines@[order@[later as int] as int]@ == lines[later as int]);
        if same_text(authorization.lines[order[later]].sku.as_str(), sku) {
            return false;
        }
    }
    true
}

/// The proposals of all lines, what remains after them, and the flags they raise.
struct Proposed {
    plans: Vec<LinePlan>,
    remaining: Vec<u32>,
    any: bool,
    insufficient: bool,
    successful: bool,
    inconclusive: bool,
}

/// Proposes for the lines in identity order.
fn propose_all(
    authorization: &ReturnAuthorization,
    scans: &Vec<Scan>,
    blocks: &Vec<Option<PaymentBlock>>,
    order: &Vec<usize>,
    start_cap: u64,
    Ghost(terms): Ghost<Terms>,
) -> (proposed: Proposed)
    requires
        settle::settling(*authorization, scans@, blocks@, order@, terms),
        start_cap == model::opening_stock(terms, authorization@).cap,
    ensures
        ({
            let lines = model::ordered_lines(authorization@.lines);
            let start = model::opening_stock(terms, authorization@);
            &&& proposed.remaining@.len() == scans@.len()
            &&& settle::amounts(proposed.remaining@) == model::stock_at(
                terms,
                start,
                lines,
                lines.len(),
            ).remaining
            &&& proposed.plans@.len() == lines.len()
            &&& forall|j: int|
                0 <= j < lines.len() ==> (#[trigger] proposed.plans@[j])@ == model::proposal_at(
                    terms,
                    start,
                    lines,
                    j,
                )
            &&& proposed.any == exists|j: int|
                0 <= j < lines.len() && (#[trigger] proposed.plans@[j])@.proposed_cents > 0
            &&& proposed.insufficient == exists|j: int|
                0 <= j < lines.len() && #[trigger] settle::falls_short(terms, start, lines, j)
            &&& proposed.successful == exists|j: int|
                0 <= j < lines.len() && #[trigger] settle::blocked_as(
                    terms,
                    lines,
                    j,
                    PaymentBlock::Successful,
                )
            &&& proposed.inconclusive == exists|j: int|
                0 <= j < lines.len() && #[trigger] settle::blocked_as(
                    terms,
                    lines,
                    j,
                    PaymentBlock::Pending,
                )
        }),
{
    let ghost start = model::opening_stock(terms, authorization@);
    let ghost lines = model::ordered_lines(authorization@.lines);
    let mut remaining: Vec<u32> = Vec::new();
    while remaining.len() < scans.len()
        invariant
            remaining@.len() <= scans@.len(),
            forall|j: int|
                0 <= j < remaining@.len() ==> (#[trigger] remaining@[j]) == scans@[j].quantity,
        decreases scans@.len() - remaining@.len(),
    {
        let i: usize = remaining.len();
        remaining.push(scans[i].quantity);
    }
    assert(settle::amounts(remaining@) =~= start.remaining) by {
        assert forall|i: int| 0 <= i < scans@.len() implies settle::amounts(remaining@)[i]
            == start.remaining[i] by {
            assert(terms.scans[i] == scans@[i]@);
        }
    }
    let mut cap: u64 = start_cap;
    let mut plans: Vec<LinePlan> = Vec::new();
    let mut any = false;
    let mut insufficient = false;
    let mut successful = false;
    let mut inconclusive = false;
    while plans.len() < order.len()
        invariant
            plans@.len() <= order@.len() == lines.len(),
            settle::settling(*authorization, scans@, blocks@, order@, terms),
            lines == model::ordered_lines(authorization@.lines),
            remaining@.len() == scans@.len(),
            settle::amounts(remaining@) == model::stock_at(
                terms,
                start,
                lines,
                plans@.len(),
            ).remaining,
            cap == model::stock_at(terms, start, lines, plans@.len()).cap,
            forall|j: int|
                0 <= j < plans@.len() ==> (#[trigger] plans@[j])@ == model::proposal_at(
                    terms,
                    start,
                    lines,
                    j,
                ),
            any == exists|j: int|
                0 <= j < plans@.len() && (#[trigger] plans@[j])@.proposed_cents > 0,
            insufficient == exists|j: int|
                0 <= j < plans@.len() && #[trigger] settle::falls_short(terms, start, lines, j),
            successful == exists|j: int|
                0 <= j < plans@.len() && #[trigger] settle::blocked_as(
                    terms,
                    lines,
                    j,
                    PaymentBlock::Successful,
                ),
            inconclusive == exists|j: int|
                0 <= j < plans@.len() && #[trigger] settle::blocked_as(
                    terms,
                    lines,
                    j,
                    PaymentBlock::Pending,
                ),
        decreases order@.len() - plans@.len(),
    {
        let k: usize = plans.len();
        let place = order[k];
        let line = &authorization.lines[place];
        let ghost before = plans@;
        let ghost any_before = any;
        assert(line@ == lines[k as int]);
        let (plan, rest) = propose(line, scans, &remaining, cap, blocks[place], Ghost(terms));
        match blocks[place] {
            Some(PaymentBlock::Successful) => {
                successful = true;
                assert(settle::blocked_as(terms, lines, k as int, PaymentBlock::Successful));
            },
            Some(PaymentBlock::Pending) => {
                inconclusive = true;
                assert(settle::blocked_as(terms, lines, k as int, PaymentBlock::Pending));
            },
            None => {
                if plan.proposed_quantity < plan.accepted_scan_quantity {
                    insufficient = true;
                    assert(settle::falls_short(terms, start, lines, k as int));
                }
            },
        }
        if plan.proposed_cents > 0 {
            any = true;
        }
        cap = cap - plan.proposed_cents;
        remaining = rest;
        plans.push(plan);
        proof {
            assert(plans@[k as int]@ == model::proposal_at(terms, start, lines, k as int));
            if any_before {
                let j = choose|j: int| 0 <= j < k && (#[trigger] before[j])@.proposed_cents > 0;
                assert(plans@[j]@.proposed_cents > 0);
            }
        }
    }
    assert(plans@.len() == lines.len());
    assert(start == model::opening_stock(terms, authorization@));
    let proposed = Proposed { plans, remaining, any, insufficient, successful, inconclusive };
    assert(forall|j: int|
        0 <= j < lines.len() ==> (#[trigger] proposed.plans@[j])@ == model::proposal_at(
            terms,
            start,
            lines,
            j,
        ));
    proposed
}

/// Charges the units that no line took, from the last line to the first.
fn charge_left(
    authorization: &ReturnAuthorization,
    scans: &Vec<Scan>,
    blocks: &Vec<Option<PaymentBlock>>,
    order: &Vec<usize>,
    remaining: &Vec<u32>,
    plans: &mut Vec<LinePlan>,
    Ghost(terms): Ghost<Terms>,
) -> (excessive: bool)
    requires
        settle::settling(*authorization, scans@, blocks@, order@, terms),
        remaining@.len() == scans@.len(),
        ({
            let lines = model::ordered_lines(authorization@.lines);
            let start = model::opening_stock(terms, authorization@);
            &&& settle::amounts(remaining@) == model::stock_at(
                terms,
                start,
                lines,
                lines.len(),
            ).remaining
            &&& old(plans)@.len() == lines.len()
            &&& forall|j: int|
                0 <= j < lines.len() ==> (#[trigger] old(plans)@[j])@ == model::proposal_at(
                    terms,
                    start,
                    lines,
                    j,
                )
        }),
    ensures
        ({
            let lines = model::ordered_lines(authorization@.lines);
            let start = model::opening_stock(terms, authorization@);
            &&& final(plans)@.len() == lines.len()
            &&& forall|j: int|
                0 <= j < lines.len() ==> (#[trigger] final(plans)@[j])@ == model::line_plan_at(
                    terms,
                    start,
                    lines,
                    j,
                )
            &&& excessive == exists|j: int|
                0 <= j < lines.len() && #[trigger] settle::in_excess(
                    terms,
                    model::stock_at(terms, start, lines, lines.len()).remaining,
                    lines,
                    j,
                )
        }),
{
    let ghost start = model::opening_stock(terms, authorization@);
    let ghost lines = model::ordered_lines(authorization@.lines);
    let ghost left = model::stock_at(terms, start, lines, lines.len()).remaining;
    let ghost drafts = plans@;
    let mut excessive = false;
    let mut index: usize = order.len();
    while index > 0
        invariant
            index <= order@.len() == plans@.len() == drafts.len() == lines.len(),
            settle::settling(*authorization, scans@, blocks@, order@, terms),
            lines == model::ordered_lines(authorization@.lines),
            remaining@.len() == scans@.len(),
            settle::amounts(remaining@) == left,
            left == model::stock_at(terms, start, lines, lines.len()).remaining,
            forall|j: int|
                0 <= j < drafts.len() ==> (#[trigger] drafts[j])@ == model::proposal_at(
                    terms,
                    start,
                    lines,
                    j,
                ),
            forall|j: int|
                index <= j < plans@.len() ==> (#[trigger] plans@[j])@ == model::line_plan_at(
                    terms,
                    start,
                    lines,
                    j,
                ),
            forall|j: int| 0 <= j < index ==> (#[trigger] plans@[j]) == drafts[j],
            excessive == exists|j: int|
                index <= j < lines.len() && #[trigger] settle::in_excess(terms, left, lines, j),
        decreases index,
    {
        index = index - 1;
        let line = &authorization.lines[order[index]];
        assert(line@ == lines[index as int]);
        let excess = count_left(scans, remaining, line.sku.as_str());
        if excess > 0 {
            excessive = true;
            assert(settle::in_excess(terms, left, lines, index as int));
        }
        if is_last_of_sku(authorization, order, index) {
            plans[index].review_scan_quantity = excess;
        }
        assert(plans@[index as int]@ == model::line_plan_at(terms, start, lines, index as int)) by {
            assert(drafts[index as int]@ == model::proposal_at(terms, start, lines, index as int));
        }
    }
    excessive
}

/// What the payments and prior refunds of a return leave to refund.
fn opening_cap(authorization: &ReturnAuthorization) -> (cap: u64)
    requires
        settle::sound(authorization@),
        settle::line_views(authorization.lines@) == authorization@.lines,
    ensures
        cap == authorization@.captured_cents - model::prior_total(authorization@.lines),
{
    let ghost terms = authorization@.lines.map_values(
        |line: LineView| line.prior_successful_refund_cents as nat,
    );
    let mut cap: u64 = authorization.captured_cents;
    let mut i: usize = 0;
    assert(terms.take(0) =~= Seq::<nat>::empty());
    while i < authorization.lines.len()
        invariant
            i <= authorization.lines@.len() == terms.len(),
            settle::line_views(authorization.lines@) == authorization@.lines,
            terms == authorization@.lines.map_values(
                |line: LineView| line.prior_successful_refund_cents as nat,
            ),
            seqs::sum(terms) <= authorization@.captured_cents,
            cap == authorization@.captured_cents - seqs::sum(terms.take(i as int)),
        decreases authorization.lines@.len() - i,
    {
        proof {
            seqs::lemma_sum_take(terms, i as int);
            assert(authorization@.lines[i as int] == authorization.lines@[i as int]@);
        }
        cap = cap - authorization.lines[i].prior_successful_refund_cents;
        i = i + 1;
    }
    assert(terms.take(terms.len() as int) =~= terms);
    cap
}

/// Settles a return from its corrected scans and blocked lines.
#[verifier::spinoff_prover]
#[verifier::rlimit(60)]
pub fn recount(
    authorization: &ReturnAuthorization,
    scans: &Vec<Scan>,
    blocks: &Vec<Option<PaymentBlock>>,
    raised: Flags,
    Ghost(events): Ghost<Seq<EventView>>,
) -> (plan: ReturnPlan)
    requires
        settle::sound(authorization@),
        scans@.len() <= u32::MAX,
        settle::scan_views(scans@) == model::scans_of(events, authorization@.return_id),
        blocks@.len() == authorization.lines@.len(),
        forall|i: int|
            0 <= i < blocks@.len() ==> (#[trigger] blocks@[i]) == model::block_of(
                events,
                authorization@.return_id,
                authorization@.lines[i].line_id,
            ),
        settle::early_flags(raised, model::flags_of(events, authorization@)),
    ensures
        plan@ == model::plan_of(events, authorization@),
        plan.lines@.len() == authorization.lines@.len(),
{
    let ghost terms = model::terms_of(events, authorization@.return_id);
    let ghost shown = settle::line_views(authorization.lines@);
    let ghost lines = model::ordered_lines(shown);
    assert(authorization@.lines == shown);
    proof {
        assert forall|i: int, j: int| 0 <= i < j < authorization.lines@.len() implies (
        #[trigger] authorization.lines@[i]).line_id@ != (
        #[trigger] authorization.lines@[j]).line_id@ by {
            assert(shown[i].line_id != shown[j].line_id);
        }
    }
    let order = sort_lines(&authorization.lines);
    let cap = opening_cap(authorization);
    let proposed = propose_all(authorization, scans, blocks, &order, cap, Ghost(terms));
    let mut plans = proposed.plans;
    let ghost drafts = plans@;
    let excessive = charge_left(
        authorization,
        scans,
        blocks,
        &order,
        &proposed.remaining,
        &mut plans,
        Ghost(terms),
    );
    let unmatched_scan_quantity = count_unnamed(scans, &authorization.lines);
    assert(unmatched_scan_quantity == model::unmatched(terms.scans, lines)) by {
        let mine = Seq::new(
            terms.scans.len(),
            |i: int|
                if model::has_sku(shown, terms.scans[i].sku) {
                    0
                } else {
                    terms.scans[i].quantity
                },
        );
        let theirs = Seq::new(
            terms.scans.len(),
            |i: int|
                if model::has_sku(lines, terms.scans[i].sku) {
                    0
                } else {
                    terms.scans[i].quantity
                },
        );
        assert forall|i: int| 0 <= i < terms.scans.len() implies mine[i] == theirs[i] by {
            settle::lemma_same_skus(order@, shown, terms.scans[i].sku);
        }
        assert(mine =~= theirs);
    }
    let flags = Flags {
        excess_quantity: excessive,
        insufficient_whole_unit_capacity: proposed.insufficient,
        payment_already_successful: proposed.successful,
        payment_inconclusive: proposed.inconclusive,
        unauthorized_sku: unmatched_scan_quantity > 0,
        ..raised
    };
    assert(flags == model::flags_of(events, authorization@)) by {
        settle::lemma_flags(events, authorization@, flags);
    }
    let review_codes = review_codes(&flags);
    let disposition = if review_codes.len() > 0 {
        "review".to_owned()
    } else if proposed.any {
        "proposed".to_owned()
    } else {
        "no_refund".to_owned()
    };
    let plan = ReturnPlan {
        return_id: authorization.return_id.clone(),
        disposition,
        review_codes,
        unmatched_scan_quantity,
        lines: plans,
    };
    proof {
        let expected = model::plan_of(events, authorization@);
        assert(plan@.lines =~= expected.lines);
        if proposed.any {
            let j = choose|j: int|
                0 <= j < drafts.len() && (#[trigger] drafts[j])@.proposed_cents > 0;
            assert(expected.lines[j].proposed_cents > 0);
        }
        if exists|j: int|
            0 <= j < expected.lines.len() && (#[trigger] expected.lines[j]).proposed_cents > 0 {
            let j = choose|j: int|
                0 <= j < expected.lines.len() && (#[trigger] expected.lines[j]).proposed_cents > 0;
            assert(drafts[j]@.proposed_cents > 0);
        }
        assert(plan.review_codes@.len() == model::texts(plan.review_codes@).len());
    }
    plan
}

} // verus!
