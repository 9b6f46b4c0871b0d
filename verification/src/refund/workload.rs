//! A synthetic snapshot of representative size, and deterministic shuffles.

use vstd::prelude::*;
use crate::refund::canonical;
use crate::refund::laws;
use crate::refund::reconcile;
use crate::refund::validate;
use crate::seqs;
use crate::seqs::swap_items;
use crate::text;
use crate::text::{push_decimal, push_padded};
use crate::refund::model::{
    AuthView, AuthorizedLine, Event, EventView, LineView, PaymentStatus, ReturnAuthorization, Snapshot,
    SnapshotView,
};

verus! {

pub const RETURN_COUNT: usize = 25_000;

pub const ADVERSARIAL_RETURN_COUNT: usize = 500;

pub const EVENT_COUNT: usize = 250_000;

/// One step of the shuffle's generator.
pub open spec fn stirred(state: u64) -> u64 {
    let first = state ^ (state << 13u64);
    let second = first ^ (first >> 7u64);
    second ^ (second << 17u64)
}

/// A sequence and the state of the generator.
pub struct Shuffle<T> {
    pub items: Seq<T>,
    pub state: u64,
}

/// The shuffle of the places up to `index`, from the last one down.
pub open spec fn shuffled<T>(items: Seq<T>, state: u64, index: nat) -> Shuffle<T>
    decreases index,
{
    if index == 0 {
        Shuffle { items, state }
    } else {
        let next = stirred(state);
        shuffled(
            seqs::swapped(items, index as int, next as int % (index as int + 1)),
            next,
            (index - 1) as nat,
        )
    }
}

fn stir(state: u64) -> (next: u64)
    ensures
        next == stirred(state),
{
    let first: u64 = state ^ (state << 13u64);
    let second: u64 = first ^ (first >> 7u64);
    second ^ (second << 17u64)
}

pub open spec fn last_index(len: nat) -> nat {
    if len == 0 {
        0
    } else {
        (len - 1) as nat
    }
}

fn shuffle_slice<T>(values: &mut Vec<T>, state: &mut u64)
    ensures
        final(values)@.len() == old(values)@.len(),
        (Shuffle { items: final(values)@, state: *final(state) }) == shuffled(
            old(values)@,
            *old(state),
            last_index(old(values)@.len()),
        ),
{
    if values.len() == 0 {
        return;
    }
    let mut index: usize = values.len() - 1;
    while index > 0
        invariant
            index < values@.len() == old(values)@.len(),
            shuffled(values@, *state, index as nat) == shuffled(
                old(values)@,
                *old(state),
                last_index(old(values)@.len()),
            ),
        decreases index,
    {
        *state = stir(*state);
        let count: usize = values.len();
        assert(index < count);
        let upper: usize = index + 1;
        let swap_index: usize = (*state % (upper as u64)) as usize;
        swap_items(values, swap_index, index);
        index = index - 1;
    }
}

/// The lines of the first `n` authorizations shuffled in turn.
pub open spec fn lines_shuffled(authorizations: Seq<AuthView>, state: u64, n: nat) -> Shuffle<AuthView>
    decreases n,
{
    if n == 0 {
        Shuffle { items: authorizations, state }
    } else {
        let before = lines_shuffled(authorizations, state, (n - 1) as nat);
        let old = before.items[n - 1];
        let lines = shuffled(old.lines, before.state, last_index(old.lines.len()));
        Shuffle {
            items: before.items.update(n - 1, AuthView { lines: lines.items, ..old }),
            state: lines.state,
        }
    }
}

/// A snapshot with its events, its returns and the lines of each shuffled.
pub open spec fn snapshot_shuffled(snapshot: SnapshotView, seed: u64) -> SnapshotView {
    let events = shuffled(
        snapshot.events,
        seed ^ 0x9e37_79b9_7f4a_7c15u64,
        last_index(snapshot.events.len()),
    );
    let authorizations = shuffled(
        snapshot.returns,
        events.state,
        last_index(snapshot.returns.len()),
    );
    SnapshotView {
        snapshot_id: snapshot.snapshot_id,
        returns: lines_shuffled(
            authorizations.items,
            authorizations.state,
            snapshot.returns.len(),
        ).items,
        events: events.items,
    }
}

/// A shuffle moves items without looking at them.
proof fn lemma_shuffle_maps<A, B>(items: Seq<A>, state: u64, index: nat, f: spec_fn(A) -> B)
    requires
        index == last_index(items.len()) || index < items.len(),
    ensures
        shuffled(items.map_values(f), state, index).items == shuffled(items, state, index).items.map_values(
            f,
        ),
        shuffled(items.map_values(f), state, index).state == shuffled(items, state, index).state,
        shuffled(items, state, index).items.len() == items.len(),
    decreases index,
{
    if index > 0 {
        let next = stirred(state);
        let place = next as int % (index as int + 1);
        let moved = seqs::swapped(items, index as int, place);
        assert(seqs::swapped(items.map_values(f), index as int, place) =~= moved.map_values(f));
        lemma_shuffle_maps(moved, next, (index - 1) as nat, f);
    }
}

/// Shuffles returns, lines, and events with a small deterministic generator.
pub fn deterministic_shuffle(snapshot: &mut Snapshot, seed: u64)
    ensures
        final(snapshot)@ == snapshot_shuffled(old(snapshot)@, seed),
{
    let ghost start = snapshot@;
    let mut state: u64 = seed ^ 0x9e37_79b9_7f4a_7c15;
    proof {
        lemma_shuffle_maps(
            snapshot.events@,
            state,
            last_index(snapshot.events@.len()),
            |event: Event| event@,
        );
    }
    shuffle_slice(&mut snapshot.events, &mut state);
    proof {
        lemma_shuffle_maps(
            snapshot.returns@,
            state,
            last_index(snapshot.returns@.len()),
            |authorization: ReturnAuthorization| authorization@,
        );
    }
    shuffle_slice(&mut snapshot.returns, &mut state);
    let ghost turned = snapshot@;
    let ghost first = state;
    let mut i: usize = 0;
    while i < snapshot.returns.len()
        invariant
            i <= snapshot.returns@.len() == turned.returns.len(),
            snapshot@.snapshot_id == turned.snapshot_id,
            snapshot@.events == turned.events,
            (Shuffle { items: snapshot@.returns, state }) == lines_shuffled(
                turned.returns,
                first,
                i as nat,
            ),
        decreases snapshot.returns@.len() - i,
    {
        let ghost before = snapshot@.returns;
        let ghost then = state;
        let ghost lines = snapshot.returns@[i as int].lines@;
        proof {
            lemma_shuffle_maps(lines, state, last_index(lines.len()), |line: AuthorizedLine| line@);
            assert(before[i as int] == snapshot.returns@[i as int]@);
        }
        shuffle_slice(&mut snapshot.returns[i].lines, &mut state);
        proof {
            let moved = shuffled(
                before[i as int].lines,
                then,
                last_index(before[i as int].lines.len()),
            );
            assert(snapshot@.returns =~= before.update(
                i as int,
                AuthView { lines: moved.items, ..before[i as int] },
            ));
        }
        i = i + 1;
    }
}

proof fn lemma_shuffle_multiset<T>(items: Seq<T>, state: u64, index: nat)
    requires
        index == last_index(items.len()) || index < items.len(),
    ensures
        shuffled(items, state, index).items.to_multiset() == items.to_multiset(),
        shuffled(items, state, index).items.len() == items.len(),
    decreases index,
{
    if index > 0 {
        let next = stirred(state);
        let place = next as int % (index as int + 1);
        seqs::lemma_swapped(items, index as int, place);
        lemma_shuffle_multiset(seqs::swapped(items, index as int, place), next, (index - 1) as nat);
    }
}

proof fn lemma_lines_shuffled(authorizations: Seq<AuthView>, state: u64, n: nat)
    requires
        n <= authorizations.len(),
    ensures
        lines_shuffled(authorizations, state, n).items.len() == authorizations.len(),
        forall|i: int|
            0 <= i < authorizations.len() ==> laws::same_terms(
                authorizations[i],
                #[trigger] lines_shuffled(authorizations, state, n).items[i],
            ),
    decreases n,
{
    if n > 0 {
        lemma_lines_shuffled(authorizations, state, (n - 1) as nat);
        let before = lines_shuffled(authorizations, state, (n - 1) as nat);
        let lines = before.items[n - 1].lines;
        lemma_shuffle_multiset(lines, before.state, last_index(lines.len()));
        assert forall|i: int| 0 <= i < authorizations.len() implies laws::same_terms(
            authorizations[i],
            #[trigger] lines_shuffled(authorizations, state, n).items[i],
        ) by {
            assert(laws::same_terms(authorizations[i], before.items[i]));
        }
    }
}

/// A shuffle keeps everything that a snapshot holds.
pub proof fn shuffle_rearranges(snapshot: SnapshotView, seed: u64)
    ensures
        laws::rearranged(snapshot, snapshot_shuffled(snapshot, seed)),
{
    let after = snapshot_shuffled(snapshot, seed);
    let state = seed ^ 0x9e37_79b9_7f4a_7c15u64;
    lemma_shuffle_multiset(snapshot.events, state, last_index(snapshot.events.len()));
    let events = shuffled(snapshot.events, state, last_index(snapshot.events.len()));
    lemma_shuffle_multiset(snapshot.returns, events.state, last_index(snapshot.returns.len()));
    let turned = shuffled(snapshot.returns, events.state, last_index(snapshot.returns.len()));
    lemma_lines_shuffled(turned.items, turned.state, snapshot.returns.len());
    assert(laws::reordered(snapshot.returns, turned.items, after.returns));
}

/// A shuffled snapshot gives the report of the snapshot.
pub proof fn shuffle_keeps_the_report(snapshot: SnapshotView, seed: u64)
    requires
        validate::snapshot_error(snapshot) is None,
    ensures
        validate::snapshot_error(snapshot_shuffled(snapshot, seed)) is None,
        reconcile::outcome(snapshot_shuffled(snapshot, seed)) == reconcile::outcome(snapshot),
{
    shuffle_rearranges(snapshot, seed);
    laws::input_order_is_irrelevant(snapshot, snapshot_shuffled(snapshot, seed));
}

/// A prefix and a number of five places.
fn numbered(prefix: &str, number: usize) -> (id: String)
    ensures
        id@ == prefix@ + text::padded(number as nat, 5),
{
    let mut id = prefix.to_owned();
    push_padded(&mut id, number as u64, 5);
    id
}

/// A prefix, a number of five places, a dash and a number of two.
pub open spec fn pair_id(prefix: Seq<char>, number: nat, part: nat) -> Seq<char> {
    prefix + text::padded(number, 5) + "-"@ + text::padded(part, 2)
}

fn paired(prefix: &str, number: usize, part: usize) -> (id: String)
    ensures
        id@ == pair_id(prefix@, number as nat, part as nat),
{
    let mut id = prefix.to_owned();
    push_padded(&mut id, number as u64, 5);
    id.append("-");
    push_padded(&mut id, part as u64, 2);
    id
}

/// A prefix, a number of five places and a suffix.
pub open spec fn tagged_id(prefix: Seq<char>, number: nat, suffix: Seq<char>) -> Seq<char> {
    prefix + text::padded(number, 5) + suffix
}

fn tagged(prefix: &str, number: usize, suffix: &str) -> (id: String)
    ensures
        id@ == tagged_id(prefix@, number as nat, suffix@),
{
    let mut id = prefix.to_owned();
    push_padded(&mut id, number as u64, 5);
    id.append(suffix);
    id
}

fn with_number(prefix: &str, number: usize) -> (id: String)
    ensures
        id@ == prefix@ + text::decimal(number as nat),
{
    let mut id = prefix.to_owned();
    push_decimal(&mut id, number as u64);
    id
}

pub open spec fn return_name(index: nat) -> Seq<char> {
    if index < ADVERSARIAL_RETURN_COUNT {
        "adv-return-"@ + text::padded(index, 5)
    } else {
        "return-"@ + text::padded(index, 5)
    }
}

fn name_return(index: usize) -> (id: String)
    ensures
        id@ == return_name(index as nat),
{
    if index < ADVERSARIAL_RETURN_COUNT {
        numbered("adv-return-", index)
    } else {
        numbered("return-", index)
    }
}

pub open spec fn line_count(index: nat) -> nat {
    if index < 20_000 {
        3
    } else {
        2
    }
}

pub open spec fn parcel_count(index: nat) -> nat {
    if index < 15_000 {
        2
    } else {
        1
    }
}

/// A line of two units whose price leaves a remainder.
pub open spec fn has_remainder(index: nat, line: nat) -> bool {
    index < ADVERSARIAL_RETURN_COUNT && index % 5 == 2 && line == 0
}

pub open spec fn line_quantity(index: nat, line: nat) -> u32 {
    if has_remainder(index, line) {
        2
    } else {
        1
    }
}

pub open spec fn line_price(index: nat, line: nat) -> u64 {
    if has_remainder(index, line) {
        901
    } else {
        (900 + (index + line) % 97) as u64
    }
}

pub open spec fn made_line(index: nat, line: nat) -> LineView {
    LineView {
        line_id: pair_id("line-"@, index, line),
        sku: "sku-"@ + text::padded(line, 2),
        authorized_qty: line_quantity(index, line),
        paid_subtotal_cents: line_price(index, line),
        tax_cents: 80,
        discount_cents: 30,
        prior_successful_refund_cents: 0,
    }
}

fn price_of(index: usize, line: usize) -> (price: u64)
    requires
        index <= 0xffff,
        line <= 0xffff,
    ensures
        price == line_price(index as nat, line as nat),
        price < 1000,
{
    if index < ADVERSARIAL_RETURN_COUNT && index % 5 == 2 && line == 0 {
        901
    } else {
        900 + ((index + line) % 97) as u64
    }
}

fn quantity_of(index: usize, line: usize) -> (quantity: u32)
    ensures
        quantity == line_quantity(index as nat, line as nat),
{
    if index < ADVERSARIAL_RETURN_COUNT && index % 5 == 2 && line == 0 {
        2
    } else {
        1
    }
}

fn sku_of(line: usize) -> (sku: String)
    ensures
        sku@ == "sku-"@ + text::padded(line as nat, 2),
{
    let mut sku = "sku-".to_owned();
    push_padded(&mut sku, line as u64, 2);
    sku
}

fn make_line(index: usize, line: usize) -> (made: AuthorizedLine)
    requires
        index <= 0xffff,
        line <= 0xffff,
    ensures
        made@ == made_line(index as nat, line as nat),
{
    AuthorizedLine {
        line_id: paired("line-", index, line),
        sku: sku_of(line),
        authorized_qty: quantity_of(index, line),
        paid_subtotal_cents: price_of(index, line),
        tax_cents: 80,
        discount_cents: 30,
        prior_successful_refund_cents: 0,
    }
}

pub open spec fn made_authorization(index: nat) -> AuthView {
    AuthView {
        return_id: return_name(index),
        captured_cents: captured(index, line_count(index)) as u64,
        lines: Seq::new(line_count(index), |line: int| made_line(index, line as nat)),
    }
}

/// The net amounts of the first `n` lines.
pub open spec fn captured(index: nat, n: nat) -> nat
    decreases n,
{
    if n == 0 {
        0
    } else {
        captured(index, (n - 1) as nat) + line_price(index, (n - 1) as nat) as nat + 50
    }
}

fn make_authorization(index: usize) -> (made: ReturnAuthorization)
    requires
        index < RETURN_COUNT,
    ensures
        made@ == made_authorization(index as nat),
{
    let count: usize = if index < 20_000 {
        3
    } else {
        2
    };
    let mut lines: Vec<AuthorizedLine> = Vec::new();
    let mut captured_cents: u64 = 0;
    let mut line: usize = 0;
    while line < count
        invariant
            line <= count <= 3,
            index < RETURN_COUNT,
            captured_cents == captured(index as nat, line as nat),
            captured_cents <= line * 2000,
            lines@.len() == line,
            forall|j: int|
                0 <= j < line ==> (#[trigger] lines@[j])@ == made_line(index as nat, j as nat),
        decreases count - line,
    {
        lines.push(make_line(index, line));
        captured_cents = captured_cents + price_of(index, line) + 80 - 30;
        line = line + 1;
    }
    let made = ReturnAuthorization { return_id: name_return(index), captured_cents, lines };
    assert(made@.lines =~= made_authorization(index as nat).lines);
    made
}

/// The scan of one line.
pub open spec fn made_scan(index: nat, line: nat, ingestion_id: u64, quantity: u32) -> EventView {
    EventView::WarehouseScan {
        event_id: pair_id("scan-"@, index, line),
        source_system_id: "warehouse-"@ + text::decimal(index % 2),
        source_timestamp: (1_000 + line) as u64,
        ingestion_id,
        return_id: return_name(index),
        parcel_id: pair_id("parcel-"@, index, line % parcel_count(index)),
        sku: "sku-"@ + text::padded(line, 2),
        quantity,
    }
}

fn make_scan(index: usize, line: usize, ingestion_id: u64, quantity: u32) -> (made: Event)
    requires
        line <= 0xffff,
    ensures
        made@ == made_scan(index as nat, line as nat, ingestion_id, quantity),
{
    let parcels: usize = if index < 15_000 {
        2
    } else {
        1
    };
    Event::WarehouseScan {
        event_id: paired("scan-", index, line),
        source_system_id: with_number("warehouse-", index % 2),
        source_timestamp: 1_000 + line as u64,
        ingestion_id,
        return_id: name_return(index),
        parcel_id: paired("parcel-", index, line % parcels),
        sku: sku_of(line),
        quantity,
    }
}

/// The delivery of one parcel.
pub open spec fn made_delivery(index: nat, parcel: nat, ingestion_id: u64) -> EventView {
    EventView::Carrier {
        event_id: pair_id("carrier-"@, index, parcel),
        source_system_id: "carrier-"@ + text::decimal(index % 3),
        source_timestamp: (2_000 - parcel) as u64,
        ingestion_id,
        return_id: return_name(index),
        parcel_id: pair_id("parcel-"@, index, parcel),
        status: "delivered"@,
    }
}

fn make_delivery(index: usize, parcel: usize, ingestion_id: u64) -> (made: Event)
    requires
        parcel <= 2_000,
    ensures
        made@ == made_delivery(index as nat, parcel as nat, ingestion_id),
{
    Event::Carrier {
        event_id: paired("carrier-", index, parcel),
        source_system_id: with_number("carrier-", index % 3),
        source_timestamp: 2_000 - parcel as u64,
        ingestion_id,
        return_id: name_return(index),
        parcel_id: paired("parcel-", index, parcel),
        status: "delivered".to_owned(),
    }
}

/// A payment result for the first line of a return.
pub open spec fn made_payment(
    index: nat,
    suffix: Seq<char>,
    status: PaymentStatus,
    source_timestamp: u64,
    ingestion_id: u64,
) -> EventView {
    EventView::PaymentResult {
        event_id: "payment-"@ + text::padded(index, 5) + "-"@ + suffix,
        source_system_id: "payment-provider"@,
        source_timestamp,
        ingestion_id,
        return_id: return_name(index),
        line_id: pair_id("line-"@, index, 0),
        refund_id: "refund-"@ + text::padded(index, 5),
        amount_cents: (line_price(index, 0) + 50) as u64,
        status,
    }
}

fn payment_variant(
    index: usize,
    suffix: &str,
    status: PaymentStatus,
    source_timestamp: u64,
    ingestion_id: u64,
) -> (made: Event)
    requires
        index < RETURN_COUNT,
    ensures
        made@ == made_payment(index as nat, suffix@, status, source_timestamp, ingestion_id),
{
    let mut event_id = numbered("payment-", index);
    event_id.append("-");
    event_id.append(suffix);
    Event::PaymentResult {
        event_id,
        source_system_id: "payment-provider".to_owned(),
        source_timestamp,
        ingestion_id,
        return_id: name_return(index),
        line_id: paired("line-", index, 0),
        refund_id: numbered("refund-", index),
        amount_cents: price_of(index, 0) + 80 - 30,
        status,
    }
}

/// The scans, deliveries and failed payment of a return.
pub open spec fn ordinary_events(index: nat, start: nat) -> Seq<EventView> {
    let lines = line_count(index);
    let parcels = parcel_count(index);
    Seq::new(
        lines,
        |line: int|
            made_scan(
                index,
                line as nat,
                (start + line) as u64,
                line_quantity(index, line as nat),
            ),
    ) + Seq::new(
        parcels,
        |parcel: int| made_delivery(index, parcel as nat, (start + lines + parcel) as u64),
    ) + seq![
        made_payment(index, "failed"@, PaymentStatus::Failed, 3_000, (start + lines + parcels) as u64),
    ]
}

/// What disturbs an adversarial return: `start` is where its events begin, and
/// `next` where its ordinary events end.
pub open spec fn disturbance(index: nat, start: nat, next: nat) -> EventView {
    if index % 5 == 0 {
        made_scan(index, 0, start as u64, 1)
    } else if index % 5 == 1 {
        made_scan(index, 0, start as u64, 2)
    } else if index % 5 == 2 {
        EventView::Correction {
            event_id: "correction-"@ + text::padded(index, 5),
            source_system_id: "warehouse-0"@,
            source_timestamp: 4_000,
            ingestion_id: 1,
            return_id: return_name(index),
            target_event_id: pair_id("scan-"@, index, 0),
            replacement_sku: "sku-00"@,
            replacement_quantity: 1,
        }
    } else if index % 5 == 3 {
        EventView::WarehouseScan {
            event_id: tagged_id("scan-"@, index, "-excess"@),
            source_system_id: "warehouse-1"@,
            source_timestamp: 4_000,
            ingestion_id: next as u64,
            return_id: return_name(index),
            parcel_id: tagged_id("parcel-"@, index, "-01"@),
            sku: "sku-00"@,
            quantity: 1,
        }
    } else {
        EventView::WarehouseScan {
            event_id: tagged_id("scan-"@, index, "-unknown"@),
            source_system_id: "warehouse-0"@,
            source_timestamp: 4_000,
            ingestion_id: next as u64,
            return_id: return_name(index),
            parcel_id: tagged_id("parcel-"@, index, "-00"@),
            sku: "sku-unauthorized"@,
            quantity: 1,
        }
    }
}

/// The further payment results of an adversarial return.
pub open spec fn later_payments(index: nat, next: nat) -> Seq<EventView> {
    if index % 5 == 0 || index % 5 == 3 {
        seq![made_payment(index, "pending"@, PaymentStatus::Pending, 3_001, (next + 1) as u64)]
    } else if index % 5 == 2 {
        seq![made_payment(index, "failed"@, PaymentStatus::Failed, 3_000, (next - 1) as u64)]
    } else {
        seq![
            made_payment(index, "successful"@, PaymentStatus::Successful, 3_001, (next + 1) as u64),
            made_payment(index, "delayed-pending"@, PaymentStatus::Pending, 3_001, (next + 2) as u64),
        ]
    }
}

/// All events of a return, the first with ingestion identity `start`.
pub open spec fn events_of_return(index: nat, start: nat) -> Seq<EventView> {
    let ordinary = ordinary_events(index, start);
    let next = start + ordinary.len();
    if index < ADVERSARIAL_RETURN_COUNT {
        ordinary.push(disturbance(index, start, next)) + later_payments(index, next)
    } else {
        ordinary
    }
}

/// The events of the first `n` returns.
pub open spec fn history(first: nat, n: nat) -> Seq<EventView>
    decreases n,
{
    if n == 0 {
        Seq::empty()
    } else {
        let before = history(first, (n - 1) as nat);
        before + events_of_return((n - 1) as nat, first + before.len())
    }
}

/// A carrier event that only adds volume.
pub open spec fn made_filler(filler: nat, ingestion_id: u64) -> EventView {
    let index = filler % (RETURN_COUNT as nat);
    EventView::Carrier {
        event_id: "carrier-filler-"@ + text::padded(filler, 6),
        source_system_id: "carrier-"@ + text::decimal(filler % 3),
        source_timestamp: (10_000 - filler % 1_000) as u64,
        ingestion_id,
        return_id: return_name(index),
        parcel_id: pair_id(
            "parcel-"@,
            index,
            if index < 15_000 {
                filler % 2
            } else {
                0
            },
        ),
        status: if filler % 2 == 0 {
            "in_transit"@
        } else {
            "delivered"@
        },
    }
}

pub open spec fn first_ingestion(seed: u64) -> nat {
    if seed < 1 {
        1
    } else {
        seed as nat
    }
}

/// The representative snapshot of a seed.
pub open spec fn representative(seed: u64) -> SnapshotView {
    let first = first_ingestion(seed);
    let ordinary = history(first, RETURN_COUNT as nat);
    SnapshotView {
        snapshot_id: "representative"@,
        returns: Seq::new(RETURN_COUNT as nat, |index: int| made_authorization(index as nat)),
        events: ordinary + Seq::new(
            (EVENT_COUNT - ordinary.len()) as nat,
            |k: int| made_filler(k as nat, (first + ordinary.len() + k) as u64),
        ),
    }
}

fn make_disturbance(index: usize, start: u64, next: u64) -> (made: Event)
    ensures
        made@ == disturbance(index as nat, start as nat, next as nat),
{
    if index % 5 == 0 {
        make_scan(index, 0, start, 1)
    } else if index % 5 == 1 {
        make_scan(index, 0, start, 2)
    } else if index % 5 == 2 {
        Event::Correction {
            event_id: numbered("correction-", index),
            source_system_id: "warehouse-0".to_owned(),
            source_timestamp: 4_000,
            ingestion_id: 1,
            return_id: name_return(index),
            target_event_id: paired("scan-", index, 0),
            replacement_sku: "sku-00".to_owned(),
            replacement_quantity: 1,
        }
    } else if index % 5 == 3 {
        Event::WarehouseScan {
            event_id: tagged("scan-", index, "-excess"),
            source_system_id: "warehouse-1".to_owned(),
            source_timestamp: 4_000,
            ingestion_id: next,
            return_id: name_return(index),
            parcel_id: tagged("parcel-", index, "-01"),
            sku: "sku-00".to_owned(),
            quantity: 1,
        }
    } else {
        Event::WarehouseScan {
            event_id: tagged("scan-", index, "-unknown"),
            source_system_id: "warehouse-0".to_owned(),
            source_timestamp: 4_000,
            ingestion_id: next,
            return_id: name_return(index),
            parcel_id: tagged("parcel-", index, "-00"),
            sku: "sku-unauthorized".to_owned(),
            quantity: 1,
        }
    }
}

fn record(events: &mut Vec<Event>, event: Event)
    ensures
        canonical::views(final(events)@) == canonical::views(old(events)@).push(event@),
        final(events)@.len() == old(events)@.len() + 1,
{
    events.push(event);
    assert(canonical::views(events@) =~= canonical::views(old(events)@).push(event@));
}

fn record_ordinary(events: &mut Vec<Event>, index: usize, start: u64)
    requires
        index < RETURN_COUNT,
        start <= u64::MAX - 10,
    ensures
        canonical::views(final(events)@) == canonical::views(old(events)@) + ordinary_events(
            index as nat,
            start as nat,
        ),
{
    let lines: usize = if index < 20_000 {
        3
    } else {
        2
    };
    let parcels: usize = if index < 15_000 {
        2
    } else {
        1
    };
    let ghost before = canonical::views(events@);
    let ghost wanted = ordinary_events(index as nat, start as nat);
    let mut line: usize = 0;
    assert(before =~= before + wanted.take(0));
    while line < lines
        invariant
            line <= lines <= 3,
            lines == line_count(index as nat),
            wanted == ordinary_events(index as nat, start as nat),
            index < RETURN_COUNT,
            start <= u64::MAX - 10,
            canonical::views(events@) == before + wanted.take(line as int),
        decreases lines - line,
    {
        record(events, make_scan(index, line, start + line as u64, quantity_of(index, line)));
        assert(canonical::views(events@) =~= before + wanted.take(line + 1));
        line = line + 1;
    }
    let mut parcel: usize = 0;
    while parcel < parcels
        invariant
            parcel <= parcels <= 2,
            lines <= 3,
            lines == line_count(index as nat),
            parcels == parcel_count(index as nat),
            wanted == ordinary_events(index as nat, start as nat),
            start <= u64::MAX - 10,
            canonical::views(events@) == before + wanted.take(lines + parcel),
        decreases parcels - parcel,
    {
        record(events, make_delivery(index, parcel, start + lines as u64 + parcel as u64));
        assert(canonical::views(events@) =~= before + wanted.take(lines + parcel + 1));
        parcel = parcel + 1;
    }
    record(
        events,
        payment_variant(
            index,
            "failed",
            PaymentStatus::Failed,
            3_000,
            start + lines as u64 + parcels as u64,
        ),
    );
    assert(canonical::views(events@) =~= before + wanted);
}

fn record_return(events: &mut Vec<Event>, index: usize, start: u64)
    requires
        index < RETURN_COUNT,
        start <= u64::MAX - 20,
    ensures
        canonical::views(final(events)@) == canonical::views(old(events)@) + events_of_return(
            index as nat,
            start as nat,
        ),
        final(events)@.len() <= old(events)@.len() + 9,
        old(events)@.len() <= final(events)@.len(),
{
    let ghost before = canonical::views(events@);
    let ghost ordinary = ordinary_events(index as nat, start as nat);
    let old_len: usize = events.len();
    record_ordinary(events, index, start);
    assert(canonical::views(events@).len() == events@.len());
    assert(events@.len() == old_len + ordinary.len());
    if index < ADVERSARIAL_RETURN_COUNT {
        let next: u64 = start + (events.len() - old_len) as u64;
        let ghost disturbed = disturbance(index as nat, start as nat, next as nat);
        record(events, make_disturbance(index, start, next));
        assert(canonical::views(events@) =~= before + ordinary.push(disturbed));
        if index % 5 == 0 || index % 5 == 3 {
            record(
                events,
                payment_variant(index, "pending", PaymentStatus::Pending, 3_001, next + 1),
            );
        } else if index % 5 == 2 {
            record(
                events,
                payment_variant(index, "failed", PaymentStatus::Failed, 3_000, next - 1),
            );
        } else {
            record(
                events,
                payment_variant(index, "successful", PaymentStatus::Successful, 3_001, next + 1),
            );
            record(
                events,
                payment_variant(index, "delayed-pending", PaymentStatus::Pending, 3_001, next + 2),
            );
        }
        assert(canonical::views(events@) =~= before + (ordinary.push(disturbed) + later_payments(
            index as nat,
            next as nat,
        )));
    }
    assert(canonical::views(events@).len() == events@.len());
}

fn make_filler(filler: usize, ingestion_id: u64) -> (made: Event)
    ensures
        made@ == made_filler(filler as nat, ingestion_id),
{
    let index: usize = filler % RETURN_COUNT;
    let parcel: usize = if index < 15_000 {
        filler % 2
    } else {
        0
    };
    let mut event_id = "carrier-filler-".to_owned();
    push_padded(&mut event_id, filler as u64, 6);
    Event::Carrier {
        event_id,
        source_system_id: with_number("carrier-", filler % 3),
        source_timestamp: 10_000 - (filler % 1_000) as u64,
        ingestion_id,
        return_id: name_return(index),
        parcel_id: paired("parcel-", index, parcel),
        status: if filler % 2 == 0 {
            "in_transit".to_owned()
        } else {
            "delivered".to_owned()
        },
    }
}

/// Generates a snapshot of the exact representative shape.
///
/// The seed controls only the ingestion identities.
pub fn generate_representative(seed: u64) -> (snapshot: Snapshot)
    requires
        seed <= u64::MAX - EVENT_COUNT,
    ensures
        snapshot@ == representative(seed),
{
    let first: u64 = if seed < 1 {
        1
    } else {
        seed
    };
    let mut authorizations: Vec<ReturnAuthorization> = Vec::new();
    let mut events: Vec<Event> = Vec::new();
    let mut index: usize = 0;
    assert(canonical::views(events@) =~= history(first as nat, 0));
    while index < RETURN_COUNT
        invariant
            index <= RETURN_COUNT,
            first == first_ingestion(seed),
            seed <= u64::MAX - EVENT_COUNT,
            canonical::views(events@) == history(first as nat, index as nat),
            events@.len() <= 9 * index,
            authorizations@.len() == index,
            forall|j: int|
                0 <= j < index ==> (#[trigger] authorizations@[j])@ == made_authorization(j as nat),
        decreases RETURN_COUNT - index,
    {
        assert(canonical::views(events@).len() == events@.len());
        let start: u64 = first + events.len() as u64;
        record_return(&mut events, index, start);
        authorizations.push(make_authorization(index));
        index = index + 1;
    }
    let ghost ordinary = canonical::views(events@);
    let ghost wanted = representative(seed);
    assert(ordinary.len() == events@.len());
    let mut filler: usize = 0;
    assert(ordinary =~= wanted.events.take(ordinary.len() as int));
    while events.len() < EVENT_COUNT
        invariant
            first == first_ingestion(seed),
            seed <= u64::MAX - EVENT_COUNT,
            ordinary == history(first as nat, RETURN_COUNT as nat),
            wanted == representative(seed),
            events@.len() == ordinary.len() + filler <= EVENT_COUNT,
            canonical::views(events@) == wanted.events.take(events@.len() as int),
        decreases EVENT_COUNT - events@.len(),
    {
        let ingestion_id: u64 = first + events.len() as u64;
        let ghost before = canonical::views(events@);
        record(&mut events, make_filler(filler, ingestion_id));
        assert(canonical::views(events@) =~= wanted.events.take(events@.len() as int));
        filler = filler + 1;
    }
    let snapshot = Snapshot {
        snapshot_id: "representative".to_owned(),
        returns: authorizations,
        events,
    };
    assert(snapshot@.returns =~= wanted.returns);
    assert(snapshot@.events =~= wanted.events);
    snapshot
}

/// An event with another ingestion identity.
pub open spec fn ingested_as(event: EventView, ingestion_id: u64) -> EventView {
    match event {
        EventView::WarehouseScan {
            event_id,
            source_system_id,
            source_timestamp,
            ingestion_id: _,
            return_id,
            parcel_id,
            sku,
            quantity,
        } => EventView::WarehouseScan {
            event_id,
            source_system_id,
            source_timestamp,
            ingestion_id,
            return_id,
            parcel_id,
            sku,
            quantity,
        },
        EventView::Correction {
            event_id,
            source_system_id,
            source_timestamp,
            ingestion_id: _,
            return_id,
            target_event_id,
            replacement_sku,
            replacement_quantity,
        } => EventView::Correction {
            event_id,
            source_system_id,
            source_timestamp,
            ingestion_id,
            return_id,
            target_event_id,
            replacement_sku,
            replacement_quantity,
        },
        EventView::Carrier {
            event_id,
            source_system_id,
            source_timestamp,
            ingestion_id: _,
            return_id,
            parcel_id,
            status,
        } => EventView::Carrier {
            event_id,
            source_system_id,
            source_timestamp,
            ingestion_id,
            return_id,
            parcel_id,
            status,
        },
        EventView::PaymentResult {
            event_id,
            source_system_id,
            source_timestamp,
            ingestion_id: _,
            return_id,
            line_id,
            refund_id,
            amount_cents,
            status,
        } => EventView::PaymentResult {
            event_id,
            source_system_id,
            source_timestamp,
            ingestion_id,
            return_id,
            line_id,
            refund_id,
            amount_cents,
            status,
        },
    }
}

/// Two events that differ at most in their ingestion identities.
pub open spec fn same_but_ingestion(a: EventView, b: EventView) -> bool {
    ingested_as(a, 0) == ingested_as(b, 0)
}

/// Two lists of events that differ at most in ingestion identities.
pub open spec fn all_same_but_ingestion(a: Seq<EventView>, b: Seq<EventView>) -> bool {
    &&& a.len() == b.len()
    &&& forall|k: int| 0 <= k < a.len() ==> same_but_ingestion(#[trigger] a[k], b[k])
}

proof fn lemma_returns_alike(index: nat, a: nat, b: nat)
    ensures
        all_same_but_ingestion(events_of_return(index, a), events_of_return(index, b)),
        events_of_return(index, a).len() <= 9,
        events_of_return(index, a).len() >= line_count(index) + parcel_count(index),
{
    let (x, y) = (events_of_return(index, a), events_of_return(index, b));
    let (p, q) = (ordinary_events(index, a), ordinary_events(index, b));
    assert(p.len() == q.len() == line_count(index) + parcel_count(index) + 1);
    assert(all_same_but_ingestion(p, q)) by {
        assert forall|k: int| 0 <= k < p.len() implies same_but_ingestion(
            #[trigger] p[k],
            q[k],
        ) by {}
    }
    if index < ADVERSARIAL_RETURN_COUNT {
        let (m, n) = (a + p.len(), b + p.len());
        let (u, v) = (later_payments(index, m), later_payments(index, n));
        assert(u.len() == v.len() && u.len() <= 2);
        assert(all_same_but_ingestion(u, v)) by {
            assert forall|k: int| 0 <= k < u.len() implies same_but_ingestion(
                #[trigger] u[k],
                v[k],
            ) by {}
        }
        let (d, e) = (disturbance(index, a, m), disturbance(index, b, n));
        assert(same_but_ingestion(d, e));
        assert(x == p.push(d) + u && y == q.push(e) + v);
        assert forall|k: int| 0 <= k < x.len() implies same_but_ingestion(
            #[trigger] x[k],
            y[k],
        ) by {
            if k < p.len() {
                assert(x[k] == p[k] && y[k] == q[k]);
            } else if k > p.len() {
                assert(x[k] == u[k - p.len() - 1] && y[k] == v[k - p.len() - 1]);
            }
        }
    }
}

proof fn lemma_histories_alike(a: nat, b: nat, n: nat)
    ensures
        all_same_but_ingestion(history(a, n), history(b, n)),
        history(a, n).len() <= 9 * n,
    decreases n,
{
    if n > 0 {
        let last = (n - 1) as nat;
        lemma_histories_alike(a, b, last);
        let (p, q) = (history(a, last), history(b, last));
        lemma_returns_alike(last, a + p.len(), b + q.len());
        let (u, v) = (events_of_return(last, a + p.len()), events_of_return(last, b + q.len()));
        let (x, y) = (history(a, n), history(b, n));
        assert forall|k: int| 0 <= k < x.len() implies same_but_ingestion(
            #[trigger] x[k],
            y[k],
        ) by {
            if k < p.len() {
                assert(x[k] == p[k] && y[k] == q[k]);
            } else {
                assert(x[k] == u[k - p.len()] && y[k] == v[k - p.len()]);
            }
        }
    }
}

/// The seed controls only ingestion identities: the snapshots of two seeds agree
/// in everything else, event by event.
pub proof fn seeds_change_only_ingestion(a: u64, b: u64)
    ensures
        representative(a).snapshot_id == representative(b).snapshot_id,
        representative(a).returns == representative(b).returns,
        all_same_but_ingestion(representative(a).events, representative(b).events),
{
    let n = RETURN_COUNT as nat;
    let (p, q) = (history(first_ingestion(a), n), history(first_ingestion(b), n));
    lemma_histories_alike(first_ingestion(a), first_ingestion(b), n);
    let (x, y) = (representative(a).events, representative(b).events);
    assert forall|k: int| 0 <= k < x.len() implies same_but_ingestion(#[trigger] x[k], y[k]) by {
        if k < p.len() {
            assert(x[k] == p[k] && y[k] == q[k]);
        }
    }
    assert(representative(a).returns =~= representative(b).returns);
}

/// The lines of the first `n` returns.
proof fn lemma_line_total(n: nat)
    requires
        n <= RETURN_COUNT,
    ensures
        seqs::sum(Seq::new(n, |i: int| line_count(i as nat))) == if n <= 20_000 {
            3 * n
        } else {
            20_000 + 2 * n
        },
    decreases n,
{
    let counts = Seq::new(n, |i: int| line_count(i as nat));
    if n > 0 {
        lemma_line_total((n - 1) as nat);
        assert(counts.drop_last() =~= Seq::new((n - 1) as nat, |i: int| line_count(i as nat)));
    }
}

/// The parcels of the first `n` returns.
proof fn lemma_parcel_total(n: nat)
    requires
        n <= RETURN_COUNT,
    ensures
        seqs::sum(Seq::new(n, |i: int| parcel_count(i as nat))) == if n <= 15_000 {
            2 * n
        } else {
            15_000 + n
        },
    decreases n,
{
    let counts = Seq::new(n, |i: int| parcel_count(i as nat));
    if n > 0 {
        lemma_parcel_total((n - 1) as nat);
        assert(counts.drop_last() =~= Seq::new((n - 1) as nat, |i: int| parcel_count(i as nat)));
    }
}

/// The disclosed shape: 25,000 returns with 70,000 lines, sent in 40,000 parcels,
/// 250,000 events, and 500 adversarial returns.
pub proof fn representatives_have_the_disclosed_shape(seed: u64)
    ensures
        representative(seed).returns.len() == 25_000,
        seqs::sum(representative(seed).returns.map_values(|a: AuthView| a.lines.len())) == 70_000,
        seqs::sum(
            Seq::new(representative(seed).returns.len(), |i: int| parcel_count(i as nat)),
        ) == 40_000,
        representative(seed).events.len() == 250_000,
        forall|i: int|
            0 <= i < 500 ==> (#[trigger] representative(seed).returns[i]).return_id
                == "adv-return-"@ + text::padded(i as nat, 5),
        forall|i: int|
            500 <= i < 25_000 ==> (#[trigger] representative(seed).returns[i]).return_id
                == "return-"@ + text::padded(i as nat, 5),
{
    let n = RETURN_COUNT as nat;
    let shown = representative(seed);
    lemma_line_total(n);
    lemma_parcel_total(n);
    lemma_histories_alike(first_ingestion(seed), first_ingestion(seed), n);
    assert(shown.returns.map_values(|a: AuthView| a.lines.len()) =~= Seq::new(
        n,
        |i: int| line_count(i as nat),
    ));
}

} // verus!
