//! Settling one return: units go to lines, lines to cents, and what is left
//! over goes to review.

use vstd::prelude::*;
use crate::refund::model;
use crate::refund::model::{
    AuthView, AuthorizedLine, EventView, Flags, LinePlan, LineView, PaymentBlock,
    ReturnAuthorization, ReturnPlan, ScanView, Stock, Terms,
};
use crate::seqs;
use crate::sorting;
use crate::sorting::order_places;
use crate::text;
use crate::text::{rank_texts, same_text, sorted_unique};

verus! {

/// A scan with its correction applied.
#[derive(Clone, Copy)]
pub struct Scan<'a> {
    pub event_id: &'a str,
    pub sku: &'a str,
    pub quantity: u32,
    pub correction: Option<&'a str>,
}

impl<'a> View for Scan<'a> {
    type V = ScanView;

    open spec fn view(&self) -> ScanView {
        ScanView {
            event_id: self.event_id@,
            sku: self.sku@,
            quantity: self.quantity as nat,
            provenance: match self.correction {
                Some(correction) => set![self.event_id@, correction@],
                None => set![self.event_id@],
            },
        }
    }
}

pub open spec fn scan_views(scans: Seq<Scan>) -> Seq<ScanView> {
    scans.map_values(|scan: Scan| scan@)
}

/// Cost is zero for nothing, grows with the quantity, and never exceeds the net.
pub proof fn lemma_cost(net: int, authorized: int, quantity: int)
    requires
        net >= 0,
        authorized > 0,
        0 <= quantity <= authorized,
    ensures
        0 <= model::cost(net, authorized, quantity) <= net,
        model::cost(net, authorized, 0) == 0,
        quantity < authorized ==> model::cost(net, authorized, quantity) <= model::cost(
            net,
            authorized,
            quantity + 1,
        ),
        0 <= net / authorized * quantity <= net,
{
    let base = net / authorized;
    let rest = net % authorized;
    vstd::arithmetic::div_mod::lemma_fundamental_div_mod(net, authorized);
    assert(net == authorized * base + rest);
    assert(0 <= rest < authorized);
    vstd::arithmetic::div_mod::lemma_div_pos_is_pos(net, authorized);
    assert(0 <= base * quantity <= base * authorized) by (nonlinear_arith)
        requires
            0 <= quantity <= authorized,
            base >= 0,
    ;
    assert(base * authorized == authorized * base) by (nonlinear_arith);
    assert(base * (quantity + 1) == base * quantity + base) by (nonlinear_arith);
    assert(base * 0 == 0) by (nonlinear_arith);
}

pub proof fn lemma_cost_monotone(net: int, authorized: int, low: int, high: int)
    requires
        net >= 0,
        authorized > 0,
        0 <= low <= high <= authorized,
    ensures
        model::cost(net, authorized, low) <= model::cost(net, authorized, high),
    decreases high - low,
{
    if low < high {
        lemma_cost(net, authorized, high - 1);
        lemma_cost_monotone(net, authorized, low, high - 1);
    }
}

/// The affordable quantity is affordable, and the largest such.
pub proof fn lemma_affordable(net: int, authorized: int, capacity: int, quantity: nat)
    requires
        net >= 0,
        authorized > 0,
        quantity <= authorized,
        capacity >= 0,
    ensures
        model::affordable(net, authorized, capacity, quantity) <= quantity,
        model::cost(
            net,
            authorized,
            model::affordable(net, authorized, capacity, quantity) as int,
        ) <= capacity,
        forall|q: int|
            model::affordable(net, authorized, capacity, quantity) < q <= quantity ==> #[trigger] model::cost(
                net,
                authorized,
                q,
            ) > capacity,
    decreases quantity,
{
    lemma_cost(net, authorized, quantity as int);
    if quantity > 0 && model::cost(net, authorized, quantity as int) > capacity {
        lemma_affordable(net, authorized, capacity, (quantity - 1) as nat);
    }
}

pub fn amount_for_first_units(net: u64, authorized_quantity: u32, quantity: u32) -> (amount: u64)
    requires
        quantity <= authorized_quantity || authorized_quantity == 0,
    ensures
        amount == model::cost(net as int, authorized_quantity as int, quantity as int),
{
    if authorized_quantity == 0 {
        return 0;
    }
    let divisor: u64 = authorized_quantity as u64;
    let base: u64 = net / divisor;
    let remainder: u64 = net % divisor;
    proof {
        lemma_cost(net as int, authorized_quantity as int, quantity as int);
    }
    let extra: u64 = if remainder < quantity as u64 {
        remainder
    } else {
        quantity as u64
    };
    base * (quantity as u64) + extra
}

/// The most units, up to `eligible`, that the capacity covers.
fn affordable_units(net: u64, authorized: u32, capacity: u64, eligible: u32) -> (units: u32)
    requires
        authorized > 0,
        eligible <= authorized,
    ensures
        units == model::affordable(net as int, authorized as int, capacity as int, eligible as nat),
{
    let mut units: u32 = eligible;
    while units > 0 && amount_for_first_units(net, authorized, units) > capacity
        invariant
            authorized > 0,
            units <= eligible <= authorized,
            model::affordable(net as int, authorized as int, capacity as int, eligible as nat)
                == model::affordable(
                net as int,
                authorized as int,
                capacity as int,
                units as nat,
            ),
        decreases units,
    {
        units = units - 1;
    }
    units
}

/// What an allotment gives is there, and no more than wanted.
pub proof fn lemma_allotted(
    scans: Seq<ScanView>,
    remaining: Seq<nat>,
    sku: Seq<char>,
    want: nat,
    n: nat,
)
    requires
        n <= scans.len(),
        remaining.len() == scans.len(),
    ensures
        model::allotted(scans, remaining, sku, want, n).len() == n,
        seqs::sum(model::allotted(scans, remaining, sku, want, n)) <= want,
        forall|i: int|
            0 <= i < n ==> (#[trigger] model::allotted(scans, remaining, sku, want, n)[i])
                <= remaining[i],
        forall|i: int|
            0 <= i < n && scans[i].sku != sku ==> (#[trigger] model::allotted(
                scans,
                remaining,
                sku,
                want,
                n,
            )[i]) == 0,
    decreases n,
{
    if n > 0 {
        lemma_allotted(scans, remaining, sku, want, (n - 1) as nat);
        let before = model::allotted(scans, remaining, sku, want, (n - 1) as nat);
        seqs::lemma_sum_push(before, model::allotted(scans, remaining, sku, want, n).last());
        assert(model::allotted(scans, remaining, sku, want, n).drop_last() =~= before);
    }
}

/// The remaining quantities as plain numbers.
pub open spec fn amounts(quantities: Seq<u32>) -> Seq<nat> {
    quantities.map_values(|quantity: u32| quantity as nat)
}

/// Takes up to `want` units of a SKU from the scans, in scan order, and tells
/// how many were taken and from where.
fn allot<'a>(scans: &Vec<Scan<'a>>, remaining: &mut Vec<u32>, sku: &str, want: u32) -> (outcome: (
    u32,
    Vec<&'a str>,
))
    requires
        old(remaining)@.len() == scans@.len(),
    ensures
        ({
            let given = model::allotted(
                scan_views(scans@),
                amounts(old(remaining)@),
                sku@,
                want as nat,
                scans@.len(),
            );
            &&& final(remaining)@.len() == scans@.len()
            &&& forall|i: int|
                0 <= i < scans@.len() ==> #[trigger] final(remaining)@[i] == old(remaining)@[i]
                    - given[i]
            &&& outcome.0 == seqs::sum(given)
            &&& outcome.0 <= want
            &&& text::text_set(outcome.1@) == model::sources(scan_views(scans@), given)
        }),
{
    let ghost shown = scan_views(scans@);
    let ghost start = amounts(remaining@);
    let ghost before = remaining@;
    let mut accepted: u32 = 0;
    let mut ids: Vec<&'a str> = Vec::new();
    let mut i: usize = 0;
    while i < scans.len()
        invariant
            i <= scans@.len(),
            shown == scan_views(scans@),
            start == amounts(before),
            before.len() == scans@.len(),
            remaining@.len() == scans@.len(),
            accepted <= want,
            ({
                let given = model::allotted(shown, start, sku@, want as nat, i as nat);
                &&& given.len() == i
                &&& accepted == seqs::sum(given)
                &&& forall|j: int| 0 <= j < i ==> #[trigger] remaining@[j] == before[j] - given[j]
                &&& forall|j: int| i <= j < scans@.len() ==> #[trigger] remaining@[j] == before[j]
                &&& forall|k: int|
                    0 <= k < ids@.len() ==> #[trigger] came_from(shown, given, i as int, ids@[k]@)
                &&& forall|j: int|
                    0 <= j < i && (#[trigger] given[j]) > 0 ==> {
                        &&& text::text_set(ids@).contains(shown[j].event_id)
                        &&& forall|t: Seq<char>| #[trigger]
                            shown[j].provenance.contains(t) ==> text::text_set(ids@).contains(t)
                    }
            }),
        decreases scans@.len() - i,
    {
        let scan = scans[i];
        let ghost given = model::allotted(shown, start, sku@, want as nat, i as nat);
        let ghost next = model::allotted(shown, start, sku@, want as nat, (i + 1) as nat);
        let ghost ids_before = ids@;
        proof {
            lemma_allotted(shown, start, sku@, want as nat, i as nat);
            lemma_allotted(shown, start, sku@, want as nat, (i + 1) as nat);
            assert(shown[i as int] == scan@);
            seqs::lemma_sum_push(given, next.last());
            assert(next =~= given.push(next.last()));
        }
        let mut taken: u32 = 0;
        if same_text(scan.sku, sku) {
            let wanted: u32 = want - accepted;
            taken = if remaining[i] < wanted {
                remaining[i]
            } else {
                wanted
            };
            if taken > 0 {
                let rest: u32 = remaining[i] - taken;
                remaining.set(i, rest);
                accepted = accepted + taken;
                ids.push(scan.event_id);
                if let Some(correction) = scan.correction {
                    ids.push(correction);
                }
            }
        }
        proof {
            assert(next[i as int] == taken);
            lemma_ids_grow(ids_before, ids@);
            if taken > 0 {
                assert(ids@[ids_before.len() as int]@ == scan.event_id@);
                assert(text::text_set(ids@).contains(scan.event_id@));
                if let Some(correction) = scan.correction {
                    assert(ids@[ids_before.len() as int + 1]@ == correction@);
                    assert(text::text_set(ids@).contains(correction@));
                }
            }
            assert forall|k: int| 0 <= k < ids@.len() implies #[trigger] came_from(
                shown,
                next,
                i + 1,
                ids@[k]@,
            ) by {
                if k < ids_before.len() {
                    assert(came_from(shown, given, i as int, ids_before[k]@));
                    let j = choose|j: int|
                        0 <= j < i && (#[trigger] given[j]) > 0 && shown[j].provenance.contains(
                            ids_before[k]@,
                        );
                    assert(next[j] > 0);
                } else {
                    assert(next[i as int] > 0);
                    assert(shown[i as int].provenance.contains(ids@[k]@));
                }
            }
            assert forall|j: int| 0 <= j < i + 1 && (#[trigger] next[j]) > 0 implies {
                &&& text::text_set(ids@).contains(shown[j].event_id)
                &&& forall|t: Seq<char>| #[trigger]
                    shown[j].provenance.contains(t) ==> text::text_set(ids@).contains(t)
            } by {
                if j < i {
                    assert(given[j] > 0);
                }
            }
        }
        i = i + 1;
    }
    proof {
        let given = model::allotted(shown, start, sku@, want as nat, scans@.len());
        assert forall|t: Seq<char>| text::text_set(ids@).contains(t) == model::sources(shown, given).contains(
            t,
        ) by {
            if text::text_set(ids@).contains(t) {
                let k = choose|k: int| 0 <= k < ids@.len() && (#[trigger] ids@[k])@ == t;
                assert(came_from(shown, given, scans@.len() as int, ids@[k]@));
            }
            if model::sources(shown, given).contains(t) {
                let j = choose|j: int|
                    0 <= j < shown.len() && (#[trigger] given[j]) > 0
                        && shown[j].provenance.contains(t);
                assert(given[j] > 0);
            }
        }
        assert(text::text_set(ids@) =~= model::sources(shown, given));
    }
    (accepted, ids)
}

/// Some of the first `n` scans that gave units has this provenance.
pub open spec fn came_from(scans: Seq<ScanView>, given: Seq<nat>, n: int, id: Seq<char>) -> bool {
    exists|j: int|
        0 <= j < n && (#[trigger] given[j]) > 0 && scans[j].provenance.contains(id)
}

pub proof fn lemma_ids_grow(before: Seq<&str>, after: Seq<&str>)
    requires
        before.len() <= after.len(),
        forall|k: int| 0 <= k < before.len() ==> before[k] == after[k],
    ensures
        forall|t: Seq<char>| #[trigger]
            text::text_set(before).contains(t) ==> text::text_set(after).contains(t),
{
    assert forall|t: Seq<char>| #[trigger] text::text_set(before).contains(t) implies text::text_set(
        after,
    ).contains(t) by {
        let k = choose|k: int| 0 <= k < before.len() && (#[trigger] before[k])@ == t;
        assert(after[k]@ == t);
    }
}

/// What validation promises of an authorization.
pub open spec fn sound(authorization: AuthView) -> bool {
    let lines = authorization.lines;
    &&& lines.len() <= 12
    &&& forall|i: int|
        0 <= i < lines.len() ==> (#[trigger] lines[i]).authorized_qty > 0 && lines[i].sound_money()
            && lines[i].prior_successful_refund_cents <= lines[i].net()
    &&& forall|i: int, j: int|
        0 <= i < j < lines.len() ==> (#[trigger] lines[i]).line_id != (
        #[trigger] lines[j]).line_id
    &&& model::prior_total(lines) <= authorization.captured_cents
}

pub open spec fn line_views(lines: Seq<AuthorizedLine>) -> Seq<LineView> {
    lines.map_values(|line: AuthorizedLine| line@)
}

/// The places of the lines in identity order.
pub open spec fn line_order(order: Seq<usize>, lines: Seq<LineView>) -> bool {
    &&& order.len() == lines.len()
    &&& model::ordered_lines(lines).len() == lines.len()
    &&& forall|k: int|
        0 <= k < order.len() ==> (#[trigger] order[k]) < lines.len() && lines[order[k] as int]
            == model::ordered_lines(lines)[k]
    &&& forall|i: int| 0 <= i < lines.len() ==> #[trigger] model::ordered_lines(lines).contains(lines[i])
}

/// The places of the lines in identity order.
pub fn sort_lines(lines: &Vec<AuthorizedLine>) -> (order: Vec<usize>)
    requires
        forall|i: int, j: int|
            0 <= i < j < lines@.len() ==> (#[trigger] lines@[i]).line_id@ != (
            #[trigger] lines@[j]).line_id@,
    ensures
        line_order(order@, line_views(lines@)),
{
    let ghost shown = line_views(lines@);
    let mut ids: Vec<&str> = Vec::new();
    let mut i: usize = 0;
    while i < lines.len()
        invariant
            i <= lines@.len(),
            ids@.len() == i,
            forall|j: int| 0 <= j < i ==> (#[trigger] ids@[j])@ == lines@[j].line_id@,
        decreases lines@.len() - i,
    {
        ids.push(lines[i].line_id.as_str());
        i = i + 1;
    }
    let ranks = rank_texts(&ids);
    let places = order_places(&ranks);
    let mut order: Vec<usize> = Vec::new();
    let mut p: usize = 0;
    while p < places.len()
        invariant
            p <= places@.len(),
            order@.len() == p,
            forall|k: int| 0 <= k < p ==> (#[trigger] order@[k]) == places@[k].index,
        decreases places@.len() - p,
    {
        order.push(places[p].index);
        p = p + 1;
    }
    proof {
        let listed = Seq::new(order@.len(), |k: int| shown[order@[k] as int].line_id);
        assert forall|a: int, b: int| 0 <= a < b < listed.len() implies text::text_lt(
            #[trigger] listed[a],
            #[trigger] listed[b],
        ) by {
            let (x, y) = (places@[a], places@[b]);
            assert(order@[a] == x.index && order@[b] == y.index);
            let (i, j) = (x.index as int, y.index as int);
            assert(ids@[i]@ == lines@[i].line_id@);
            assert(ids@[j]@ == lines@[j].line_id@);
            assert(i != j);
            if i < j {
                assert(lines@[i].line_id@ != lines@[j].line_id@);
            } else {
                assert(lines@[j].line_id@ != lines@[i].line_id@);
            }
            assert(ranks@[i] != ranks@[j]);
        }
        assert forall|t: Seq<char>| #[trigger] listed.contains(t) <==> model::line_ids(shown).contains(
            t,
        ) by {
            if listed.contains(t) {
                let k = choose|k: int| 0 <= k < listed.len() && listed[k] == t;
                assert(order@[k] == places@[k].index);
                assert(shown[order@[k] as int].line_id == t);
            }
            if model::line_ids(shown).contains(t) {
                let i = choose|i: int| 0 <= i < shown.len() && (#[trigger] shown[i]).line_id == t;
                assert(sorting::placed_somewhere(places@, i));
                let q = choose|q: int| 0 <= q < places@.len() && (#[trigger] places@[q]).index == i;
                assert(order@[q] == i);
                assert(listed[q] == t);
            }
        }
        text::lemma_in_order(listed, model::line_ids(shown));
        let ordered = model::ordered_lines(shown);
        assert forall|k: int| 0 <= k < order@.len() implies (#[trigger] order@[k]) < shown.len()
            && shown[order@[k] as int] == ordered[k] by {
            assert(order@[k] == places@[k].index);
            lemma_line_with(shown, order@[k] as int);
        }
        assert forall|i: int| 0 <= i < shown.len() implies #[trigger] ordered.contains(
            shown[i],
        ) by {
            assert(sorting::placed_somewhere(places@, i));
            let q = choose|q: int| 0 <= q < places@.len() && (#[trigger] places@[q]).index == i;
            assert(order@[q] == i);
            assert(ordered[q] == shown[i]);
        }
    }
    order
}

/// Lines with distinct identities are found by their identity.
pub proof fn lemma_line_with(lines: Seq<LineView>, i: int)
    requires
        0 <= i < lines.len(),
        forall|a: int, b: int|
            0 <= a < b < lines.len() ==> (#[trigger] lines[a]).line_id != (
            #[trigger] lines[b]).line_id,
    ensures
        model::line_with(lines, lines[i].line_id) == lines[i],
{
    assert(lines.contains(lines[i]));
    let found = model::line_with(lines, lines[i].line_id);
    assert(lines.contains(found) && found.line_id == lines[i].line_id);
    let j = choose|j: int| 0 <= j < lines.len() && lines[j] == found;
    if i < j {
        assert(lines[i].line_id != lines[j].line_id);
    } else if j < i {
        assert(lines[j].line_id != lines[i].line_id);
    }
}

/// The sum of the quantities of the chosen scans.
fn quantity_sum(quantities: &Vec<u32>, chosen: &Vec<bool>) -> (total: u64)
    requires
        quantities@.len() == chosen@.len(),
        quantities@.len() <= u32::MAX,
    ensures
        total == seqs::sum(
            Seq::new(
                quantities@.len(),
                |i: int|
                    if chosen@[i] {
                        quantities@[i] as nat
                    } else {
                        0
                    },
            ),
        ),
{
    let ghost terms = Seq::new(
        quantities@.len(),
        |i: int|
            if chosen@[i] {
                quantities@[i] as nat
            } else {
                0nat
            },
    );
    let mut total: u64 = 0;
    let mut i: usize = 0;
    assert(terms.take(0) =~= Seq::<nat>::empty());
    while i < quantities.len()
        invariant
            i <= quantities@.len() == chosen@.len(),
            quantities@.len() <= u32::MAX,
            terms == Seq::new(
                quantities@.len(),
                |i: int|
                    if chosen@[i] {
                        quantities@[i] as nat
                    } else {
                        0nat
                    },
            ),
            total == seqs::sum(terms.take(i as int)),
            total <= i * 0xffff_ffff,
        decreases quantities@.len() - i,
    {
        proof {
            seqs::lemma_sum_take(terms, i as int);
            assert(i * 0xffff_ffff + 0xffff_ffff <= 0xffff_ffff * 0xffff_ffff)
                by (nonlinear_arith)
                requires
                    i < 0xffff_ffff,
            ;
        }
        if chosen[i] {
            total = total + quantities[i] as u64;
        }
        i = i + 1;
    }
    assert(terms.take(quantities@.len() as int) =~= terms);
    total
}

fn push_code(codes: &mut Vec<String>, raised: bool, code: &str)
    ensures
        model::texts(final(codes)@) == model::push_if(model::texts(old(codes)@), raised, code@),
{
    let ghost before = model::texts(codes@);
    if raised {
        codes.push(code.to_owned());
        assert(model::texts(codes@) =~= before.push(code@));
    }
}

/// The codes of the raised flags.
pub fn review_codes(flags: &Flags) -> (codes: Vec<String>)
    ensures
        model::texts(codes@) == model::codes_of(*flags),
{
    let mut codes: Vec<String> = Vec::new();
    assert(model::texts(codes@) =~= Seq::<Seq<char>>::empty());
    push_code(&mut codes, flags.conflicting_event_id, "conflicting_event_id");
    push_code(&mut codes, flags.correction_return_mismatch, "correction_return_mismatch");
    push_code(&mut codes, flags.excess_quantity, "excess_quantity");
    push_code(
        &mut codes,
        flags.insufficient_whole_unit_capacity,
        "insufficient_whole_unit_capacity",
    );
    push_code(&mut codes, flags.non_later_correction, "non_later_correction");
    push_code(&mut codes, flags.orphan_correction, "orphan_correction");
    push_code(&mut codes, flags.payment_already_successful, "payment_already_successful");
    push_code(&mut codes, flags.payment_amount_conflict, "payment_amount_conflict");
    push_code(&mut codes, flags.payment_inconclusive, "payment_inconclusive");
    push_code(&mut codes, flags.unauthorized_sku, "unauthorized_sku");
    codes
}

/// Summing prior refunds of the lines.
fn prior_refunds(lines: &Vec<AuthorizedLine>) -> (total: u64)
    requires
        model::prior_total(line_views(lines@)) <= u64::MAX,
    ensures
        total == model::prior_total(line_views(lines@)),
{
    let ghost terms = line_views(lines@).map_values(
        |line: LineView| line.prior_successful_refund_cents as nat,
    );
    let mut total: u64 = 0;
    let mut i: usize = 0;
    assert(terms.take(0) =~= Seq::<nat>::empty());
    while i < lines.len()
        invariant
            i <= lines@.len(),
            terms == line_views(lines@).map_values(
                |line: LineView| line.prior_successful_refund_cents as nat,
            ),
            seqs::sum(terms) <= u64::MAX,
            total == seqs::sum(terms.take(i as int)),
        decreases lines@.len() - i,
    {
        proof {
            seqs::lemma_sum_take(terms, i as int);
        }
        total = total + lines[i].prior_successful_refund_cents;
        i = i + 1;
    }
    assert(terms.take(lines@.len() as int) =~= terms);
    total
}

/// Which scans have the SKU.
fn scans_with_sku(scans: &Vec<Scan>, sku: &str) -> (chosen: Vec<bool>)
    ensures
        chosen@.len() == scans@.len(),
        forall|i: int|
            0 <= i < scans@.len() ==> (#[trigger] chosen@[i]) == (scan_views(scans@)[i].sku
                == sku@),
{
    let mut chosen: Vec<bool> = Vec::new();
    let mut i: usize = 0;
    while i < scans.len()
        invariant
            i <= scans@.len(),
            chosen@.len() == i,
            forall|j: int|
                0 <= j < i ==> (#[trigger] chosen@[j]) == (scan_views(scans@)[j].sku == sku@),
        decreases scans@.len() - i,
    {
        chosen.push(same_text(scans[i].sku, sku));
        i = i + 1;
    }
    chosen
}

/// Which scans have a SKU that no line names.
fn unauthorized_scans(scans: &Vec<Scan>, lines: &Vec<AuthorizedLine>) -> (chosen: Vec<bool>)
    ensures
        chosen@.len() == scans@.len(),
        forall|i: int|
            0 <= i < scans@.len() ==> (#[trigger] chosen@[i]) == !model::has_sku(
                line_views(lines@),
                scan_views(scans@)[i].sku,
            ),
{
    let ghost shown = line_views(lines@);
    let mut chosen: Vec<bool> = Vec::new();
    let mut i: usize = 0;
    while i < scans.len()
        invariant
            i <= scans@.len(),
            shown == line_views(lines@),
            chosen@.len() == i,
            forall|j: int|
                0 <= j < i ==> (#[trigger] chosen@[j]) == !model::has_sku(
                    shown,
                    scan_views(scans@)[j].sku,
                ),
        decreases scans@.len() - i,
    {
        let sku = scans[i].sku;
        let mut named = false;
        let mut k: usize = 0;
        while k < lines.len()
            invariant
                k <= lines@.len(),
                shown == line_views(lines@),
                named == exists|j: int| 0 <= j < k && (#[trigger] shown[j]).sku == sku@,
            decreases lines@.len() - k,
        {
            if same_text(lines[k].sku.as_str(), sku) {
                named = true;
                assert(shown[k as int].sku == sku@);
            }
            proof {
                if exists|j: int| 0 <= j < k + 1 && (#[trigger] shown[j]).sku == sku@ {
                    let j = choose|j: int| 0 <= j < k + 1 && (#[trigger] shown[j]).sku == sku@;
                    if j < k {
                        assert(shown[j].sku == sku@);
                    }
                }
            }
            k = k + 1;
        }
        chosen.push(!named);
        i = i + 1;
    }
    chosen
}

/// Rearranged lines name the same SKUs.
pub proof fn lemma_same_skus(order: Seq<usize>, lines: Seq<LineView>, sku: Seq<char>)
    requires
        line_order(order, lines),
    ensures
        model::has_sku(model::ordered_lines(lines), sku) == model::has_sku(lines, sku),
{
    let ordered = model::ordered_lines(lines);
    if model::has_sku(ordered, sku) {
        let k = choose|k: int| 0 <= k < ordered.len() && (#[trigger] ordered[k]).sku == sku;
        assert(lines[order[k] as int].sku == sku);
    }
    if model::has_sku(lines, sku) {
        let i = choose|i: int| 0 <= i < lines.len() && (#[trigger] lines[i]).sku == sku;
        assert(ordered.contains(lines[i]));
        let k = choose|k: int| 0 <= k < ordered.len() && ordered[k] == lines[i];
        assert(ordered[k].sku == sku);
    }
}

/// The proposal for one line, taking its units and cents from what remains.
fn serve_line(
    line: &AuthorizedLine,
    scans: &Vec<Scan>,
    remaining: &mut Vec<u32>,
    cap: u64,
    block: Option<PaymentBlock>,
    Ghost(terms): Ghost<Terms>,
) -> (plan: LinePlan)
    requires
        line@.authorized_qty > 0,
        line@.sound_money(),
        line@.prior_successful_refund_cents <= line@.net(),
        old(remaining)@.len() == scans@.len(),
        scan_views(scans@) == terms.scans,
        block == model::block_of(terms.events, terms.owner, line@.line_id),
    ensures
        ({
            let stock = Stock { remaining: amounts(old(remaining)@), cap: cap as nat };
            &&& plan@ == model::proposal(terms, stock, line@)
            &&& final(remaining)@.len() == scans@.len()
            &&& amounts(final(remaining)@) == model::stock_after(terms, stock, line@).remaining
            &&& plan.proposed_cents <= cap
            &&& model::stock_after(terms, stock, line@).cap == cap - plan.proposed_cents
            &&& plan.proposed_quantity <= plan.accepted_scan_quantity
            &&& plan.accepted_scan_quantity <= plan.authorized_quantity
            &&& plan.proposed_cents <= plan.maximum_refundable_cents
        }),
{
    let ghost stock = Stock { remaining: amounts(remaining@), cap: cap as nat };
    let (accepted, ids) = allot(scans, remaining, line.sku.as_str(), line.authorized_qty);
    let ghost given = model::given_to(terms, stock, line@);
    let net: u64 = line.paid_subtotal_cents + line.tax_cents - line.discount_cents;
    let maximum: u64 = net - line.prior_successful_refund_cents;
    let capacity: u64 = if maximum <= cap {
        maximum
    } else {
        cap
    };
    let eligible: u32 = if block.is_none() {
        accepted
    } else {
        0
    };
    let proposed_quantity = affordable_units(net, line.authorized_qty, capacity, eligible);
    proof {
        lemma_affordable(
            net as int,
            line.authorized_qty as int,
            capacity as int,
            eligible as nat,
        );
        lemma_cost(net as int, line.authorized_qty as int, proposed_quantity as int);
        assert(net == line@.net());
        assert(capacity == model::least(maximum as int, cap as int));
        assert(amounts(remaining@) =~= model::stock_after(terms, stock, line@).remaining) by {
            lemma_allotted(
                terms.scans,
                stock.remaining,
                line@.sku,
                line@.authorized_qty as nat,
                terms.scans.len(),
            );
        }
    }
    let proposed_cents = amount_for_first_units(net, line.authorized_qty, proposed_quantity);
    LinePlan {
        line_id: line.line_id.clone(),
        authorized_quantity: line.authorized_qty,
        accepted_scan_quantity: accepted,
        review_scan_quantity: 0,
        prior_successful_refund_cents: line.prior_successful_refund_cents,
        maximum_refundable_cents: maximum,
        proposed_quantity,
        proposed_cents,
        provenance_event_ids: sorted_unique(&ids),
    }
}

/// The raised flags that do not depend on units and cents.
pub open spec fn early_flags(raised: Flags, expected: Flags) -> bool {
    &&& raised.conflicting_event_id == expected.conflicting_event_id
    &&& raised.correction_return_mismatch == expected.correction_return_mismatch
    &&& raised.non_later_correction == expected.non_later_correction
    &&& raised.orphan_correction == expected.orphan_correction
    &&& raised.payment_amount_conflict == expected.payment_amount_conflict
}

/// What is known of a return while it is settled.
pub open spec fn settling(
    authorization: ReturnAuthorization,
    scans: Seq<Scan>,
    blocks: Seq<Option<PaymentBlock>>,
    order: Seq<usize>,
    terms: Terms,
) -> bool {
    let shown = line_views(authorization.lines@);
    &&& sound(authorization@)
    &&& shown == authorization@.lines
    &&& line_order(order, shown)
    &&& scans.len() <= u32::MAX
    &&& scan_views(scans) == terms.scans
    &&& terms.owner == authorization@.return_id
    &&& blocks.len() == authorization.lines@.len()
    &&& forall|i: int|
        0 <= i < blocks.len() ==> (#[trigger] blocks[i]) == model::block_of(
            terms.events,
            terms.owner,
            shown[i].line_id,
        )
}

/// The line falls short although nothing blocks it.
pub open spec fn falls_short(terms: Terms, start: Stock, lines: Seq<LineView>, k: int) -> bool {
    model::block_of(terms.events, terms.owner, lines[k].line_id) is None && model::proposal_at(
        terms,
        start,
        lines,
        k,
    ).proposed_quantity < model::proposal_at(terms, start, lines, k).accepted_scan_quantity
}

pub open spec fn blocked_as(terms: Terms, lines: Seq<LineView>, k: int, block: PaymentBlock) -> bool {
    model::block_of(terms.events, terms.owner, lines[k].line_id) == Some(block)
}

/// The proposals of all lines and the flags that they raise.
struct Served {
    plans: Vec<LinePlan>,
    proposed_any: bool,
    insufficient: bool,
    successful: bool,
    inconclusive: bool,
}

/// Serves the lines in identity order.
fn serve_lines(
    authorization: &ReturnAuthorization,
    scans: &Vec<Scan>,
    blocks: &Vec<Option<PaymentBlock>>,
    order: &Vec<usize>,
    remaining: &mut Vec<u32>,
    Ghost(terms): Ghost<Terms>,
) -> (served: Served)
    requires
        settling(*authorization, scans@, blocks@, order@, terms),
        old(remaining)@.len() == scans@.len(),
        amounts(old(remaining)@) == model::opening_stock(terms, authorization@).remaining,
    ensures
        ({
            let lines = model::ordered_lines(authorization@.lines);
            let start = model::opening_stock(terms, authorization@);
            &&& final(remaining)@.len() == scans@.len()
            &&& amounts(final(remaining)@) == model::stock_at(terms, start, lines, lines.len()).remaining
            &&& served.plans@.len() == lines.len()
            &&& forall|j: int|
                0 <= j < lines.len() ==> (#[trigger] served.plans@[j])@ == model::proposal_at(
                    terms,
                    start,
                    lines,
                    j,
                )
            &&& served.proposed_any == exists|j: int|
                0 <= j < lines.len() && (#[trigger] served.plans@[j])@.proposed_cents > 0
            &&& served.insufficient == exists|j: int|
                0 <= j < lines.len() && #[trigger] falls_short(terms, start, lines, j)
            &&& served.successful == exists|j: int|
                0 <= j < lines.len() && #[trigger] blocked_as(
                    terms,
                    lines,
                    j,
                    PaymentBlock::Successful,
                )
            &&& served.inconclusive == exists|j: int|
                0 <= j < lines.len() && #[trigger] blocked_as(
                    terms,
                    lines,
                    j,
                    PaymentBlock::Pending,
                )
        }),
{
    let ghost start = model::opening_stock(terms, authorization@);
    let ghost lines = model::ordered_lines(authorization@.lines);
    let mut cap: u64 = authorization.captured_cents - prior_refunds(&authorization.lines);
    let mut plans: Vec<LinePlan> = Vec::new();
    let mut proposed_any = false;
    let mut insufficient = false;
    let mut successful = false;
    let mut inconclusive = false;
    let mut k: usize = 0;
    while k < order.len()
        invariant
            k <= order@.len() == lines.len(),
            settling(*authorization, scans@, blocks@, order@, terms),
            lines == model::ordered_lines(authorization@.lines),
            remaining@.len() == scans@.len(),
            ({
                let stock = model::stock_at(terms, start, lines, k as nat);
                &&& amounts(remaining@) == stock.remaining
                &&& cap == stock.cap
            }),
            plans@.len() == k,
            forall|j: int|
                0 <= j < k ==> (#[trigger] plans@[j])@ == model::proposal_at(terms, start, lines, j),
            proposed_any == exists|j: int| 0 <= j < k && (#[trigger] plans@[j])@.proposed_cents > 0,
            insufficient == exists|j: int|
                0 <= j < k && #[trigger] falls_short(terms, start, lines, j),
            successful == exists|j: int|
                0 <= j < k && #[trigger] blocked_as(terms, lines, j, PaymentBlock::Successful),
            inconclusive == exists|j: int|
                0 <= j < k && #[trigger] blocked_as(terms, lines, j, PaymentBlock::Pending),
        decreases order@.len() - k,
    {
        let place = order[k];
        let line = &authorization.lines[place];
        let block = blocks[place];
        let ghost plans_before = plans@;
        let ghost any_before = proposed_any;
        assert(line@ == lines[k as int]);
        let plan = serve_line(line, scans, remaining, cap, block, Ghost(terms));
        if let Some(block) = block {
            match block {
                PaymentBlock::Successful => {
                    successful = true;
                    assert(blocked_as(terms, lines, k as int, PaymentBlock::Successful));
                },
                PaymentBlock::Pending => {
                    inconclusive = true;
                    assert(blocked_as(terms, lines, k as int, PaymentBlock::Pending));
                },
            }
        } else if plan.proposed_quantity < plan.accepted_scan_quantity {
            insufficient = true;
            assert(falls_short(terms, start, lines, k as int));
        }
        if plan.proposed_cents > 0 {
            proposed_any = true;
        }
        cap = cap - plan.proposed_cents;
        plans.push(plan);
        proof {
            assert(plans@[k as int]@ == model::proposal_at(terms, start, lines, k as int));
            if any_before {
                let j = choose|j: int|
                    0 <= j < k && (#[trigger] plans_before[j])@.proposed_cents > 0;
                assert(plans@[j]@.proposed_cents > 0);
            }
        }
        k = k + 1;
    }
    Served { plans, proposed_any, insufficient, successful, inconclusive }
}

pub open spec fn in_excess(
    terms: Terms,
    remaining: Seq<nat>,
    lines: Seq<LineView>,
    k: int,
) -> bool {
    model::left_over(terms.scans, remaining, lines[k].sku) > 0
}

/// Charges the units that no line took to the last line of their SKU.
fn charge_excess(
    authorization: &ReturnAuthorization,
    scans: &Vec<Scan>,
    blocks: &Vec<Option<PaymentBlock>>,
    order: &Vec<usize>,
    remaining: &Vec<u32>,
    plans: &mut Vec<LinePlan>,
    Ghost(terms): Ghost<Terms>,
) -> (excessive: bool)
    requires
        settling(*authorization, scans@, blocks@, order@, terms),
        remaining@.len() == scans@.len(),
        ({
            let lines = model::ordered_lines(authorization@.lines);
            let start = model::opening_stock(terms, authorization@);
            &&& amounts(remaining@) == model::stock_at(terms, start, lines, lines.len()).remaining
            &&& old(plans)@.len() == lines.len()
            &&& forall|j: int|
                0 <= j < lines.len() ==> (#[trigger] old(plans)@[j])@ == model::proposal_at(
                    terms,
                    start,
                    lines,
                    j,
                )
        }),
    ensures
        ({
            let lines = model::ordered_lines(authorization@.lines);
            let start = model::opening_stock(terms, authorization@);
            &&& final(plans)@.len() == lines.len()
            &&& forall|j: int|
                0 <= j < lines.len() ==> (#[trigger] final(plans)@[j])@ == model::line_plan_at(
                    terms,
                    start,
                    lines,
                    j,
                )
            &&& excessive == exists|j: int|
                0 <= j < lines.len() && #[trigger] in_excess(
                    terms,
                    model::stock_at(terms, start, lines, lines.len()).remaining,
                    lines,
                    j,
                )
        }),
{
    let ghost start = model::opening_stock(terms, authorization@);
    let ghost lines = model::ordered_lines(authorization@.lines);
    let ghost left = model::stock_at(terms, start, lines, lines.len()).remaining;
    let ghost drafts = plans@;
    let mut excessive = false;
    let mut index: usize = 0;
    while index < order.len()
        invariant
            index <= order@.len() == plans@.len() == drafts.len() == lines.len(),
            settling(*authorization, scans@, blocks@, order@, terms),
            lines == model::ordered_lines(authorization@.lines),
            remaining@.len() == scans@.len(),
            amounts(remaining@) == left,
            left == model::stock_at(terms, start, lines, lines.len()).remaining,
            forall|j: int|
                0 <= j < drafts.len() ==> (#[trigger] drafts[j])@ == model::proposal_at(
                    terms,
                    start,
                    lines,
                    j,
                ),
            forall|j: int|
                0 <= j < index ==> (#[trigger] plans@[j])@ == model::line_plan_at(terms, start, lines, j),
            forall|j: int| index <= j < plans@.len() ==> (#[trigger] plans@[j]) == drafts[j],
            excessive == exists|j: int|
                0 <= j < index && #[trigger] in_excess(terms, left, lines, j),
        decreases order@.len() - index,
    {
        let line = &authorization.lines[order[index]];
        let sku = line.sku.as_str();
        assert(line@ == lines[index as int]);
        let chosen = scans_with_sku(scans, sku);
        let excess = quantity_sum(remaining, &chosen);
        proof {
            let mine = Seq::new(
                remaining@.len(),
                |i: int|
                    if chosen@[i] {
                        remaining@[i] as nat
                    } else {
                        0nat
                    },
            );
            let theirs = Seq::new(
                terms.scans.len(),
                |i: int|
                    if terms.scans[i].sku == lines[index as int].sku {
                        left[i]
                    } else {
                        0nat
                    },
            );
            assert forall|i: int| 0 <= i < remaining@.len() implies left[i]
                == remaining@[i] as nat by {
                assert(amounts(remaining@)[i] == remaining@[i] as nat);
            }
            assert(mine =~= theirs);
        }
        if excess > 0 {
            excessive = true;
            assert(in_excess(terms, left, lines, index as int));
        }
        let mut last = true;
        let mut later: usize = index + 1;
        while later < order.len()
            invariant
                index < later <= order@.len() == lines.len(),
                settling(*authorization, scans@, blocks@, order@, terms),
                lines == model::ordered_lines(authorization@.lines),
                sku@ == lines[index as int].sku,
                last == forall|j: int|
                    index < j < later ==> (#[trigger] lines[j]).sku != lines[index as int].sku,
            decreases order@.len() - later,
        {
            assert(authorization.lines@[order@[later as int] as int]@ == lines[later as int]);
            if same_text(authorization.lines[order[later]].sku.as_str(), sku) {
                last = false;
            }
            later = later + 1;
        }
        if last {
            plans[index].review_scan_quantity = excess;
        }
        assert(plans@[index as int]@ == model::line_plan_at(terms, start, lines, index as int)) by {
            assert(drafts[index as int]@ == model::proposal_at(terms, start, lines, index as int));
        }
        index = index + 1;
    }
    excessive
}

/// Settles a return from its corrected scans and blocked lines.
#[verifier::spinoff_prover]
#[verifier::rlimit(60)]
pub fn settle(
    authorization: &ReturnAuthorization,
    scans: &Vec<Scan>,
    blocks: &Vec<Option<PaymentBlock>>,
    raised: Flags,
    Ghost(events): Ghost<Seq<EventView>>,
) -> (plan: ReturnPlan)
    requires
        sound(authorization@),
        scans@.len() <= u32::MAX,
        scan_views(scans@) == model::scans_of(events, authorization@.return_id),
        blocks@.len() == authorization.lines@.len(),
        forall|i: int|
            0 <= i < blocks@.len() ==> (#[trigger] blocks@[i]) == model::block_of(
                events,
                authorization@.return_id,
                authorization@.lines[i].line_id,
            ),
        early_flags(raised, model::flags_of(events, authorization@)),
    ensures
        plan@ == model::plan_of(events, authorization@),
        plan.lines@.len() == authorization.lines@.len(),
{
    let ghost terms = model::terms_of(events, authorization@.return_id);
    let ghost start = model::opening_stock(terms, authorization@);
    let ghost shown = line_views(authorization.lines@);
    let ghost lines = model::ordered_lines(shown);
    assert(authorization@.lines == shown);
    proof {
        assert forall|i: int, j: int| 0 <= i < j < authorization.lines@.len() implies (
        #[trigger] authorization.lines@[i]).line_id@ != (
        #[trigger] authorization.lines@[j]).line_id@ by {
            assert(shown[i].line_id != shown[j].line_id);
        }
    }
    let order = sort_lines(&authorization.lines);
    let mut remaining: Vec<u32> = Vec::new();
    let mut i: usize = 0;
    while i < scans.len()
        invariant
            i <= scans@.len(),
            remaining@.len() == i,
            forall|j: int| 0 <= j < i ==> (#[trigger] remaining@[j]) == scans@[j].quantity,
        decreases scans@.len() - i,
    {
        remaining.push(scans[i].quantity);
        i = i + 1;
    }
    let quantities = copy_of(&remaining);
    assert(amounts(remaining@) =~= start.remaining);
    let served = serve_lines(
        authorization,
        scans,
        blocks,
        &order,
        &mut remaining,
        Ghost(terms),
    );
    let mut plans = served.plans;
    let ghost drafts = plans@;
    let excessive = charge_excess(
        authorization,
        scans,
        blocks,
        &order,
        &remaining,
        &mut plans,
        Ghost(terms),
    );
    let unknown = unauthorized_scans(scans, &authorization.lines);
    let unmatched_scan_quantity = quantity_sum(&quantities, &unknown);
    assert(unmatched_scan_quantity == model::unmatched(terms.scans, lines)) by {
        let mine = Seq::new(
            quantities@.len(),
            |i: int|
                if unknown@[i] {
                    quantities@[i] as nat
                } else {
                    0nat
                },
        );
        let theirs = Seq::new(
            terms.scans.len(),
            |i: int|
                if model::has_sku(lines, terms.scans[i].sku) {
                    0nat
                } else {
                    terms.scans[i].quantity
                },
        );
        assert forall|i: int| 0 <= i < scans@.len() implies mine[i] == theirs[i] by {
            lemma_same_skus(order@, shown, terms.scans[i].sku);
            assert(terms.scans[i] == scans@[i]@);
        }
        assert(mine =~= theirs);
    }
    let flags = Flags {
        excess_quantity: excessive,
        insufficient_whole_unit_capacity: served.insufficient,
        payment_already_successful: served.successful,
        payment_inconclusive: served.inconclusive,
        unauthorized_sku: unmatched_scan_quantity > 0,
        ..raised
    };
    assert(flags == model::flags_of(events, authorization@)) by {
        lemma_flags(events, authorization@, flags);
    }
    let review_codes = review_codes(&flags);
    let disposition = if review_codes.len() > 0 {
        "review".to_owned()
    } else if served.proposed_any {
        "proposed".to_owned()
    } else {
        "no_refund".to_owned()
    };
    let plan = ReturnPlan {
        return_id: authorization.return_id.clone(),
        disposition,
        review_codes,
        unmatched_scan_quantity,
        lines: plans,
    };
    proof {
        let expected = model::plan_of(events, authorization@);
        assert(plan@.lines =~= expected.lines);
        if served.proposed_any {
            let j = choose|j: int|
                0 <= j < drafts.len() && (#[trigger] drafts[j])@.proposed_cents > 0;
            assert(expected.lines[j].proposed_cents > 0);
        }
        if exists|j: int|
            0 <= j < expected.lines.len() && (#[trigger] expected.lines[j]).proposed_cents > 0 {
            let j = choose|j: int|
                0 <= j < expected.lines.len() && (#[trigger] expected.lines[j]).proposed_cents > 0;
            assert(drafts[j]@.proposed_cents > 0);
        }
        assert(plan.review_codes@.len() == model::texts(plan.review_codes@).len());
    }
    plan
}

/// Flags raised for the stated reasons are the flags of the return.
pub proof fn lemma_flags(events: Seq<EventView>, authorization: AuthView, flags: Flags)
    requires
        early_flags(flags, model::flags_of(events, authorization)),
        ({
            let terms = model::terms_of(events, authorization.return_id);
            let start = model::opening_stock(terms, authorization);
            let lines = model::ordered_lines(authorization.lines);
            &&& flags.excess_quantity == exists|j: int|
                0 <= j < lines.len() && #[trigger] in_excess(
                    terms,
                    model::stock_at(terms, start, lines, lines.len()).remaining,
                    lines,
                    j,
                )
            &&& flags.insufficient_whole_unit_capacity == exists|j: int|
                0 <= j < lines.len() && #[trigger] falls_short(terms, start, lines, j)
            &&& flags.payment_already_successful == exists|j: int|
                0 <= j < lines.len() && #[trigger] blocked_as(
                    terms,
                    lines,
                    j,
                    PaymentBlock::Successful,
                )
            &&& flags.payment_inconclusive == exists|j: int|
                0 <= j < lines.len() && #[trigger] blocked_as(
                    terms,
                    lines,
                    j,
                    PaymentBlock::Pending,
                )
            &&& flags.unauthorized_sku == (model::unmatched(terms.scans, lines) > 0)
        }),
    ensures
        flags == model::flags_of(events, authorization),
{
    let terms = model::terms_of(events, authorization.return_id);
    let start = model::opening_stock(terms, authorization);
    let lines = model::ordered_lines(authorization.lines);
    let left = model::stock_at(terms, start, lines, lines.len()).remaining;
    let expected = model::flags_of(events, authorization);
    assert(flags.excess_quantity == expected.excess_quantity) by {
        if flags.excess_quantity {
            let j = choose|j: int|
                0 <= j < lines.len() && #[trigger] in_excess(terms, left, lines, j);
            assert(model::left_over(terms.scans, left, lines[j].sku) > 0);
        }
        if expected.excess_quantity {
            let j = choose|j: int|
                0 <= j < lines.len() && model::left_over(terms.scans, left, (#[trigger] lines[j]).sku) > 0;
            assert(in_excess(terms, left, lines, j));
        }
    }
    assert(flags.insufficient_whole_unit_capacity == expected.insufficient_whole_unit_capacity) by {
        if flags.insufficient_whole_unit_capacity {
            let j = choose|j: int|
                0 <= j < lines.len() && #[trigger] falls_short(terms, start, lines, j);
            assert(model::block_of(events, authorization.return_id, lines[j].line_id) is None);
        }
        if expected.insufficient_whole_unit_capacity {
            let j = choose|j: int|
                0 <= j < lines.len() && model::block_of(
                    events,
                    authorization.return_id,
                    (#[trigger] lines[j]).line_id,
                ) is None && model::proposal_at(terms, start, lines, j).proposed_quantity < model::proposal_at(
                    terms,
                    start,
                    lines,
                    j,
                ).accepted_scan_quantity;
            assert(falls_short(terms, start, lines, j));
        }
    }
    assert(flags.payment_already_successful == expected.payment_already_successful) by {
        if flags.payment_already_successful {
            let j = choose|j: int|
                0 <= j < lines.len() && #[trigger] blocked_as(
                    terms,
                    lines,
                    j,
                    PaymentBlock::Successful,
                );
            assert(model::block_of(events, authorization.return_id, lines[j].line_id) is Some);
        }
        if expected.payment_already_successful {
            let j = choose|j: int|
                0 <= j < lines.len() && model::block_of(
                    events,
                    authorization.return_id,
                    (#[trigger] lines[j]).line_id,
                ) == Some(PaymentBlock::Successful);
            assert(blocked_as(terms, lines, j, PaymentBlock::Successful));
        }
    }
    assert(flags.payment_inconclusive == expected.payment_inconclusive) by {
        if flags.payment_inconclusive {
            let j = choose|j: int|
                0 <= j < lines.len() && #[trigger] blocked_as(
                    terms,
                    lines,
                    j,
                    PaymentBlock::Pending,
                );
            assert(model::block_of(events, authorization.return_id, lines[j].line_id) is Some);
        }
        if expected.payment_inconclusive {
            let j = choose|j: int|
                0 <= j < lines.len() && model::block_of(
                    events,
                    authorization.return_id,
                    (#[trigger] lines[j]).line_id,
                ) == Some(PaymentBlock::Pending);
            assert(blocked_as(terms, lines, j, PaymentBlock::Pending));
        }
    }
}

fn copy_of(values: &Vec<u32>) -> (copy: Vec<u32>)
    ensures
        copy@ == values@,
{
    let mut copy: Vec<u32> = Vec::new();
    let mut i: usize = 0;
    while i < values.len()
        invariant
            i <= values@.len(),
            copy@ =~= values@.take(i as int),
        decreases values@.len() - i,
    {
        copy.push(values[i]);
        i = i + 1;
    }
    copy
}

} // verus!
