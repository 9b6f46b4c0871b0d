//! Which snapshots are safe to interpret.

use vstd::prelude::*;
use crate::refund::canonical;
use crate::refund::model;
use crate::refund::model::{AuthView, Event, EventView, LineView, Snapshot, SnapshotView};
use crate::refund::payments;
use crate::refund::settle;
use crate::seqs;
use crate::text;
use crate::text::{joined, joined3, rank_texts, same_text};

verus! {

/// The line identity occurs earlier in the snapshot.
pub open spec fn line_seen(snapshot: SnapshotView, i: int, k: int) -> bool {
    exists|a: int, b: int|
        0 <= a < snapshot.returns.len() && 0 <= b < snapshot.returns[a].lines.len() && (a < i || (a
            == i && b < k)) && (#[trigger] snapshot.returns[a].lines[b]).line_id
            == snapshot.returns[i].lines[k].line_id
}

/// What is wrong with line `k` of return `i`.
pub open spec fn line_fault(snapshot: SnapshotView, i: int, k: int) -> Option<Seq<char>> {
    let line = snapshot.returns[i].lines[k];
    if line_seen(snapshot, i, k) {
        Some("duplicate line_id "@ + line.line_id)
    } else if line.authorized_qty == 0 {
        Some("line "@ + line.line_id + " has zero authorized quantity"@)
    } else if !line.sound_money() {
        Some("invalid monetary values for line "@ + line.line_id)
    } else if line.prior_successful_refund_cents > line.net() {
        Some("prior refund exceeds line value for "@ + line.line_id)
    } else if model::prior_total(snapshot.returns[i].lines.take(k + 1)) > u64::MAX {
        Some("prior refund total overflow"@)
    } else {
        None
    }
}

/// The fault of the first faulty one of the first `n` lines of return `i`.
pub open spec fn first_line_fault(snapshot: SnapshotView, i: int, n: nat) -> Option<Seq<char>>
    decreases n,
{
    if n == 0 {
        None
    } else {
        match first_line_fault(snapshot, i, (n - 1) as nat) {
            Some(fault) => Some(fault),
            None => line_fault(snapshot, i, n - 1),
        }
    }
}

/// What is wrong with return `i`.
pub open spec fn return_fault(snapshot: SnapshotView, i: int) -> Option<Seq<char>> {
    let authorization = snapshot.returns[i];
    let id = authorization.return_id;
    if exists|a: int| 0 <= a < i && (#[trigger] snapshot.returns[a]).return_id == id {
        Some("duplicate return_id "@ + id)
    } else if authorization.lines.len() > 12 {
        Some("return "@ + id + " exceeds 12 lines"@)
    } else {
        match first_line_fault(snapshot, i, authorization.lines.len()) {
            Some(fault) => Some(fault),
            None => if model::prior_total(authorization.lines) > authorization.captured_cents {
                Some("prior refunds exceed captured payment for "@ + id)
            } else {
                None
            },
        }
    }
}

/// The fault of the first faulty one of the first `n` returns.
pub open spec fn first_return_fault(snapshot: SnapshotView, n: nat) -> Option<Seq<char>>
    decreases n,
{
    if n == 0 {
        None
    } else {
        match first_return_fault(snapshot, (n - 1) as nat) {
            Some(fault) => Some(fault),
            None => return_fault(snapshot, n - 1),
        }
    }
}

pub open spec fn known_return(snapshot: SnapshotView, id: Seq<char>) -> bool {
    exists|a: int|
        0 <= a < snapshot.returns.len() && (#[trigger] snapshot.returns[a]).return_id == id
}

/// Return `a` has a line of this identity.
pub open spec fn has_line(snapshot: SnapshotView, a: int, line: Seq<char>) -> bool {
    exists|b: int|
        0 <= b < snapshot.returns[a].lines.len() && (
        #[trigger] snapshot.returns[a].lines[b]).line_id == line
}

/// What is wrong with an event.
pub open spec fn event_fault(snapshot: SnapshotView, event: EventView) -> Option<Seq<char>> {
    if !known_return(snapshot, event.owner()) {
        Some("event "@ + event.id() + " references unknown return "@ + event.owner())
    } else {
        match event {
            EventView::PaymentResult { return_id, line_id, .. } => if !exists|a: int|
                0 <= a < snapshot.returns.len() && #[trigger] has_line(snapshot, a, line_id) {
                Some(
                    "payment result references line "@ + line_id + " absent from authorizations"@,
                )
            } else {
                let a = choose|a: int|
                    0 <= a < snapshot.returns.len() && #[trigger] has_line(snapshot, a, line_id);
                let owner = snapshot.returns[a].return_id;
                if owner != return_id {
                    Some(
                        "payment result references line "@ + line_id + " owned by return "@ + owner
                            + ", not "@ + return_id,
                    )
                } else {
                    None
                }
            },
            _ => None,
        }
    }
}

/// The fault of the first faulty one of the first `n` events.
pub open spec fn first_event_fault(snapshot: SnapshotView, n: nat) -> Option<Seq<char>>
    decreases n,
{
    if n == 0 {
        None
    } else {
        match first_event_fault(snapshot, (n - 1) as nat) {
            Some(fault) => Some(fault),
            None => event_fault(snapshot, snapshot.events[n - 1]),
        }
    }
}

/// The parcel that an event speaks of, if it speaks of one.
pub open spec fn parcel_of(event: EventView) -> Option<Seq<char>> {
    match event {
        EventView::WarehouseScan { parcel_id, .. } => Some(parcel_id),
        EventView::Carrier { parcel_id, .. } => Some(parcel_id),
        _ => None,
    }
}

/// An event of the return speaks of the parcel.
pub open spec fn names_parcel(
    events: Seq<EventView>,
    id: Seq<char>,
    parcel: Seq<char>,
) -> bool {
    exists|j: int|
        0 <= j < events.len() && (#[trigger] events[j]).owner() == id && parcel_of(events[j])
            == Some(parcel)
}

/// The events of the return speak of more than four parcels.
pub open spec fn crowded(events: Seq<EventView>, id: Seq<char>) -> bool {
    exists|parcels: Seq<Seq<char>>| #[trigger] five_parcels(events, id, parcels)
}

pub open spec fn five_parcels(
    events: Seq<EventView>,
    id: Seq<char>,
    parcels: Seq<Seq<char>>,
) -> bool {
    &&& parcels.len() == 5
    &&& parcels.no_duplicates()
    &&& forall|p: int|
        0 <= p < parcels.len() ==> names_parcel(events, id, #[trigger] parcels[p])
}

pub open spec fn first_crowded(events: Seq<EventView>, id: Seq<char>) -> bool {
    crowded(events, id) && forall|other: Seq<char>| #[trigger]
        crowded(events, other) ==> text::text_le(id, other)
}

/// Why a snapshot is refused, if it is.
pub open spec fn snapshot_error(snapshot: SnapshotView) -> Option<Seq<char>> {
    if snapshot.snapshot_id.len() == 0 {
        Some("snapshot_id must not be empty"@)
    } else {
        match first_return_fault(snapshot, snapshot.returns.len()) {
            Some(fault) => Some(fault),
            None => match first_event_fault(snapshot, snapshot.events.len()) {
                Some(fault) => Some(fault),
                None => if exists|id: Seq<char>| #[trigger] crowded(snapshot.events, id) {
                    let id = choose|id: Seq<char>| #[trigger] first_crowded(snapshot.events, id);
                    Some("return "@ + id + " exceeds 4 parcels"@)
                } else {
                    None
                },
            },
        }
    }
}

proof fn lemma_line_fault_stays(snapshot: SnapshotView, i: int, n: nat, m: nat)
    requires
        n <= m,
        first_line_fault(snapshot, i, n) is Some,
    ensures
        first_line_fault(snapshot, i, m) == first_line_fault(snapshot, i, n),
    decreases m,
{
    if n < m {
        lemma_line_fault_stays(snapshot, i, n, (m - 1) as nat);
    }
}

proof fn lemma_return_fault_stays(snapshot: SnapshotView, n: nat, m: nat)
    requires
        n <= m,
        first_return_fault(snapshot, n) is Some,
    ensures
        first_return_fault(snapshot, m) == first_return_fault(snapshot, n),
    decreases m,
{
    if n < m {
        lemma_return_fault_stays(snapshot, n, (m - 1) as nat);
    }
}

proof fn lemma_event_fault_stays(snapshot: SnapshotView, n: nat, m: nat)
    requires
        n <= m,
        first_event_fault(snapshot, n) is Some,
    ensures
        first_event_fault(snapshot, m) == first_event_fault(snapshot, n),
    decreases m,
{
    if n < m {
        lemma_event_fault_stays(snapshot, n, (m - 1) as nat);
    }
}

proof fn lemma_no_line_fault(snapshot: SnapshotView, i: int, n: nat, k: int)
    requires
        first_line_fault(snapshot, i, n) is None,
        0 <= k < n,
    ensures
        line_fault(snapshot, i, k) is None,
    decreases n,
{
    if k < n - 1 {
        lemma_no_line_fault(snapshot, i, (n - 1) as nat, k);
    }
}

proof fn lemma_no_return_fault(snapshot: SnapshotView, n: nat, i: int)
    requires
        first_return_fault(snapshot, n) is None,
        0 <= i < n,
    ensures
        return_fault(snapshot, i) is None,
    decreases n,
{
    if i < n - 1 {
        lemma_no_return_fault(snapshot, (n - 1) as nat, i);
    }
}

proof fn lemma_no_event_fault(snapshot: SnapshotView, n: nat, i: int)
    requires
        first_event_fault(snapshot, n) is None,
        0 <= i < n,
    ensures
        event_fault(snapshot, snapshot.events[i]) is None,
    decreases n,
{
    if i < n - 1 {
        lemma_no_event_fault(snapshot, (n - 1) as nat, i);
    }
}

/// An authorization that nothing is wrong with.
pub open spec fn faultless_return(authorization: AuthView) -> bool {
    let lines = authorization.lines;
    &&& lines.len() <= 12
    &&& forall|k: int|
        0 <= k < lines.len() ==> (#[trigger] lines[k]).authorized_qty > 0 && lines[k].sound_money()
            && lines[k].prior_successful_refund_cents <= lines[k].net()
    &&& forall|k: int, l: int|
        0 <= k < l < lines.len() ==> (#[trigger] lines[k]).line_id != (#[trigger] lines[l]).line_id
    &&& model::prior_total(lines) <= authorization.captured_cents
}

/// A snapshot that nothing is wrong with, whatever order it is in.
pub open spec fn faultless(snapshot: SnapshotView) -> bool {
    let owners = snapshot.returns;
    &&& snapshot.snapshot_id.len() > 0
    &&& forall|i: int| 0 <= i < owners.len() ==> faultless_return(#[trigger] owners[i])
    &&& forall|i: int, j: int|
        0 <= i < j < owners.len() ==> (#[trigger] owners[i]).return_id != (
        #[trigger] owners[j]).return_id
    &&& forall|i: int, j: int, line: Seq<char>|
        0 <= i < j < owners.len() && #[trigger] has_line(snapshot, i, line)
            ==> !#[trigger] has_line(snapshot, j, line)
    &&& forall|j: int|
        0 <= j < snapshot.events.len() ==> event_fault(
            snapshot,
            #[trigger] snapshot.events[j],
        ) is None
    &&& forall|id: Seq<char>| !#[trigger] crowded(snapshot.events, id)
}

/// A snapshot is refused exactly where something is wrong with it.
pub proof fn lemma_faultless(snapshot: SnapshotView)
    ensures
        snapshot_error(snapshot) is None <==> faultless(snapshot),
{
    if snapshot_error(snapshot) is None {
        lemma_accepted_is_faultless(snapshot);
    }
    if faultless(snapshot) {
        lemma_faultless_is_accepted(snapshot);
    }
}

proof fn lemma_accepted_is_faultless(snapshot: SnapshotView)
    requires
        snapshot_error(snapshot) is None,
    ensures
        faultless(snapshot),
{
    lemma_interpretable(snapshot);
    let n = snapshot.returns.len();
    assert forall|i: int| 0 <= i < n implies faultless_return(#[trigger] snapshot.returns[i]) by {
        lemma_no_return_fault(snapshot, n, i);
        assert(settle::sound(snapshot.returns[i]));
    }
    assert forall|i: int, j: int, line: Seq<char>|
        0 <= i < j < n && #[trigger] has_line(snapshot, i, line) implies !#[trigger] has_line(
        snapshot,
        j,
        line,
    ) by {
        if has_line(snapshot, j, line) {
            let k = choose|k: int|
                0 <= k < snapshot.returns[i].lines.len() && (
                #[trigger] snapshot.returns[i].lines[k]).line_id == line;
            let l = choose|l: int|
                0 <= l < snapshot.returns[j].lines.len() && (
                #[trigger] snapshot.returns[j].lines[l]).line_id == line;
            lemma_no_return_fault(snapshot, n, j);
            lemma_no_line_fault(snapshot, j, snapshot.returns[j].lines.len(), l);
            assert(snapshot.returns[i].lines[k].line_id == snapshot.returns[j].lines[l].line_id);
            assert(line_seen(snapshot, j, l));
        }
    }
    assert forall|j: int| 0 <= j < snapshot.events.len() implies event_fault(
        snapshot,
        #[trigger] snapshot.events[j],
    ) is None by {
        lemma_no_event_fault(snapshot, snapshot.events.len(), j);
    }
}

proof fn lemma_faultless_lines(snapshot: SnapshotView, i: int, n: nat)
    requires
        faultless(snapshot),
        0 <= i < snapshot.returns.len(),
        n <= snapshot.returns[i].lines.len(),
    ensures
        first_line_fault(snapshot, i, n) is None,
    decreases n,
{
    if n > 0 {
        lemma_faultless_lines(snapshot, i, (n - 1) as nat);
        let lines = snapshot.returns[i].lines;
        let k = n - 1;
        assert(faultless_return(snapshot.returns[i]));
        assert(lines[k].authorized_qty > 0);
        if line_seen(snapshot, i, k) {
            let (a, b) = choose|a: int, b: int|
                0 <= a < snapshot.returns.len() && 0 <= b < snapshot.returns[a].lines.len() && (a
                    < i || (a == i && b < k)) && (#[trigger] snapshot.returns[a].lines[b]).line_id
                    == lines[k].line_id;
            assert(snapshot.returns[i].lines[k].line_id == lines[k].line_id);
            assert(has_line(snapshot, i, lines[k].line_id));
            if a < i {
                assert(has_line(snapshot, a, lines[k].line_id));
            }
        }
        let weight = |line: LineView| line.prior_successful_refund_cents as nat;
        let amounts = lines.map_values(weight);
        assert(lines.take(k + 1).map_values(weight) =~= amounts.take(k + 1));
        seqs::lemma_sum_take(amounts, k);
    }
}

proof fn lemma_faultless_is_accepted(snapshot: SnapshotView)
    requires
        faultless(snapshot),
    ensures
        snapshot_error(snapshot) is None,
{
    lemma_faultless_returns(snapshot, snapshot.returns.len());
    lemma_faultless_events(snapshot, snapshot.events.len());
}

proof fn lemma_faultless_returns(snapshot: SnapshotView, n: nat)
    requires
        faultless(snapshot),
        n <= snapshot.returns.len(),
    ensures
        first_return_fault(snapshot, n) is None,
    decreases n,
{
    if n > 0 {
        lemma_faultless_returns(snapshot, (n - 1) as nat);
        assert(faultless_return(snapshot.returns[n - 1]));
        lemma_faultless_lines(snapshot, n - 1, snapshot.returns[n - 1].lines.len());
    }
}

proof fn lemma_faultless_events(snapshot: SnapshotView, n: nat)
    requires
        faultless(snapshot),
        n <= snapshot.events.len(),
    ensures
        first_event_fault(snapshot, n) is None,
    decreases n,
{
    if n > 0 {
        lemma_faultless_events(snapshot, (n - 1) as nat);
        assert(event_fault(snapshot, snapshot.events[n - 1]) is None);
    }
}

/// What holds of every snapshot that is not refused.
pub open spec fn interpretable(snapshot: SnapshotView) -> bool {
    &&& forall|i: int| 0 <= i < snapshot.returns.len() ==> settle::sound(#[trigger] snapshot.returns[i])
    &&& forall|i: int, j: int|
        0 <= i < j < snapshot.returns.len() ==> (#[trigger] snapshot.returns[i]).return_id != (
        #[trigger] snapshot.returns[j]).return_id
    &&& forall|j: int|
        0 <= j < snapshot.events.len() ==> known_return(
            snapshot,
            (#[trigger] snapshot.events[j]).owner(),
        )
    &&& forall|i: int|
        0 <= i < snapshot.returns.len() ==> payments::payments_name_lines(
            snapshot.events,
            (#[trigger] snapshot.returns[i]).return_id,
            snapshot.returns[i].lines,
        )
}

pub proof fn lemma_interpretable(snapshot: SnapshotView)
    requires
        snapshot_error(snapshot) is None,
    ensures
        interpretable(snapshot),
{
    let n = snapshot.returns.len();
    assert forall|i: int| 0 <= i < n implies settle::sound(#[trigger] snapshot.returns[i]) by {
        lemma_no_return_fault(snapshot, n, i);
        let lines = snapshot.returns[i].lines;
        assert forall|k: int| 0 <= k < lines.len() implies (#[trigger] lines[k]).authorized_qty > 0
            && lines[k].sound_money() && lines[k].prior_successful_refund_cents
            <= lines[k].net() by {
            lemma_no_line_fault(snapshot, i, lines.len(), k);
        }
        assert forall|a: int, b: int| 0 <= a < b < lines.len() implies (#[trigger] lines[a]).line_id
            != (#[trigger] lines[b]).line_id by {
            lemma_no_line_fault(snapshot, i, lines.len(), b);
            if lines[a].line_id == lines[b].line_id {
                assert(snapshot.returns[i].lines[a].line_id
                    == snapshot.returns[i].lines[b].line_id);
                assert(line_seen(snapshot, i, b));
            }
        }
    }
    assert forall|i: int, j: int| 0 <= i < j < n implies (#[trigger] snapshot.returns[i]).return_id
        != (#[trigger] snapshot.returns[j]).return_id by {
        lemma_no_return_fault(snapshot, n, j);
    }
    assert forall|j: int| 0 <= j < snapshot.events.len() implies known_return(
        snapshot,
        (#[trigger] snapshot.events[j]).owner(),
    ) by {
        lemma_no_event_fault(snapshot, snapshot.events.len(), j);
    }
    assert forall|i: int| 0 <= i < n implies payments::payments_name_lines(
        snapshot.events,
        (#[trigger] snapshot.returns[i]).return_id,
        snapshot.returns[i].lines,
    ) by {
        let owner = snapshot.returns[i].return_id;
        let lines = snapshot.returns[i].lines;
        assert forall|event: EventView| #[trigger]
            crate::refund::model::trusted(snapshot.events, event) && event is PaymentResult
                && event.owner() == owner implies exists|k: int|
            0 <= k < lines.len() && (#[trigger] lines[k]).line_id
                == event->PaymentResult_line_id by {
            let j = choose|j: int| 0 <= j < snapshot.events.len() && snapshot.events[j] == event;
            lemma_no_event_fault(snapshot, snapshot.events.len(), j);
            let line = event->PaymentResult_line_id;
            let a = choose|a: int|
                0 <= a < snapshot.returns.len() && #[trigger] has_line(snapshot, a, line);
            assert(snapshot.returns[a].return_id == owner);
            if a < i {
                assert(snapshot.returns[a].return_id != snapshot.returns[i].return_id);
            } else if i < a {
                assert(snapshot.returns[i].return_id != snapshot.returns[a].return_id);
            }
            let b = choose|b: int|
                0 <= b < snapshot.returns[a].lines.len() && (
                #[trigger] snapshot.returns[a].lines[b]).line_id == line;
            assert(lines[b].line_id == line);
        }
    }
}

/// Marks the places whose number occurs earlier.
fn repeats(ranks: &Vec<usize>, count: usize) -> (repeated: Vec<bool>)
    requires
        count <= ranks@.len(),
        forall|i: int| 0 <= i < ranks@.len() ==> (#[trigger] ranks@[i]) < ranks@.len(),
    ensures
        repeated@.len() == count,
        forall|p: int|
            0 <= p < count ==> (#[trigger] repeated@[p]) == exists|q: int|
                0 <= q < p && (#[trigger] ranks@[q]) == ranks@[p],
{
    let mut seen: Vec<bool> = Vec::new();
    let mut i: usize = 0;
    while i < ranks.len()
        invariant
            i <= ranks@.len(),
            seen@.len() == i,
            forall|r: int| 0 <= r < i ==> !#[trigger] seen@[r],
        decreases ranks@.len() - i,
    {
        seen.push(false);
        i = i + 1;
    }
    let mut repeated: Vec<bool> = Vec::new();
    let mut p: usize = 0;
    while p < count
        invariant
            p <= count <= ranks@.len() == seen@.len(),
            forall|i: int| 0 <= i < ranks@.len() ==> (#[trigger] ranks@[i]) < ranks@.len(),
            repeated@.len() == p,
            forall|r: int|
                0 <= r < seen@.len() ==> (#[trigger] seen@[r]) == exists|q: int|
                    0 <= q < p && (#[trigger] ranks@[q]) == r,
            forall|x: int|
                0 <= x < p ==> (#[trigger] repeated@[x]) == exists|q: int|
                    0 <= q < x && (#[trigger] ranks@[q]) == ranks@[x],
        decreases count - p,
    {
        let rank = ranks[p];
        let ghost before = seen@;
        repeated.push(seen[rank]);
        seen.set(rank, true);
        proof {
            assert forall|r: int| 0 <= r < seen@.len() implies (#[trigger] seen@[r]) == exists|q: int|
                0 <= q < p + 1 && (#[trigger] ranks@[q]) == r by {
                assert(before[r] == exists|q: int| 0 <= q < p && (#[trigger] ranks@[q]) == r);
                if r == rank {
                    assert(ranks@[p as int] == r);
                }
                if before[r] {
                    let q = choose|q: int| 0 <= q < p && (#[trigger] ranks@[q]) == r;
                    assert(ranks@[q] == r);
                }
            }
        }
        p = p + 1;
    }
    repeated
}

/// For every number, the first of the `count` places that has it.
fn first_places(ranks: &Vec<usize>, count: usize) -> (places: Vec<Option<usize>>)
    requires
        count <= ranks@.len(),
        forall|i: int| 0 <= i < ranks@.len() ==> (#[trigger] ranks@[i]) < ranks@.len(),
    ensures
        places@.len() == ranks@.len(),
        forall|r: int|
            0 <= r < places@.len() ==> match #[trigger] places@[r] {
                Some(p) => p < count && ranks@[p as int] == r,
                None => forall|q: int| 0 <= q < count ==> (#[trigger] ranks@[q]) != r,
            },
{
    let mut places: Vec<Option<usize>> = Vec::new();
    let mut i: usize = 0;
    while i < ranks.len()
        invariant
            i <= ranks@.len(),
            places@.len() == i,
            forall|r: int| 0 <= r < i ==> (#[trigger] places@[r]) is None,
        decreases ranks@.len() - i,
    {
        places.push(None);
        i = i + 1;
    }
    let mut p: usize = 0;
    while p < count
        invariant
            p <= count <= ranks@.len() == places@.len(),
            forall|i: int| 0 <= i < ranks@.len() ==> (#[trigger] ranks@[i]) < ranks@.len(),
            forall|r: int|
                0 <= r < places@.len() ==> match #[trigger] places@[r] {
                    Some(x) => x < p && ranks@[x as int] == r,
                    None => forall|q: int| 0 <= q < p ==> (#[trigger] ranks@[q]) != r,
                },
        decreases count - p,
    {
        let rank = ranks[p];
        if places[rank].is_none() {
            places.set(rank, Some(p));
        }
        p = p + 1;
    }
    places
}

/// The lines of all returns in one sequence, and where each return begins.
struct LineIndex<'a> {
    offsets: Vec<usize>,
    owners: Vec<usize>,
    ids: Vec<&'a str>,
}

spec fn lines_in(snapshot: SnapshotView, a: int) -> int {
    snapshot.returns[a].lines.len() as int
}

/// The index covers the first `n` returns and the first `m` lines of return `n`.
spec fn index_covers(
    offsets: Seq<usize>,
    owners: Seq<usize>,
    ids: Seq<&str>,
    snapshot: SnapshotView,
    n: int,
    m: int,
) -> bool {
    let total = owners.len() as int;
    &&& ids.len() == total
    &&& offsets.len() == (if m >= 0 {
        n + 1
    } else {
        n
    })
    &&& n <= snapshot.returns.len()
    &&& m >= 0 ==> n < snapshot.returns.len() && offsets[n] + m == total && m <= lines_in(
        snapshot,
        n,
    )
    &&& forall|a: int| 0 <= a < n ==> (#[trigger] offsets[a]) + lines_in(snapshot, a) <= total
    &&& forall|a: int, b: int|
        0 <= a < b < offsets.len() ==> (#[trigger] offsets[a]) + lines_in(snapshot, a)
            <= #[trigger] offsets[b]
    &&& forall|a: int, b: int|
        0 <= a < offsets.len() && 0 <= b < lines_in(snapshot, a) && offsets[a] + b < total
            ==> owners[offsets[a] + b] == a && ids[offsets[a] + b]@ == (
        #[trigger] snapshot.returns[a].lines[b]).line_id
    &&& forall|p: int|
        0 <= p < total ==> (#[trigger] owners[p]) < offsets.len() && offsets[owners[p] as int] <= p
            < offsets[owners[p] as int] + lines_in(snapshot, owners[p] as int)
}

fn index_lines<'a>(snapshot: &'a Snapshot) -> (index: LineIndex<'a>)
    ensures
        index_covers(
            index.offsets@,
            index.owners@,
            index.ids@,
            snapshot@,
            snapshot.returns@.len() as int,
            -1,
        ),
{
    let ghost shown = snapshot@;
    let mut offsets: Vec<usize> = Vec::new();
    let mut owners: Vec<usize> = Vec::new();
    let mut ids: Vec<&'a str> = Vec::new();
    let mut i: usize = 0;
    while i < snapshot.returns.len()
        invariant
            i <= snapshot.returns@.len(),
            shown == snapshot@,
            index_covers(offsets@, owners@, ids@, shown, i as int, -1),
        decreases snapshot.returns@.len() - i,
    {
        let authorization = &snapshot.returns[i];
        assert(shown.returns[i as int] == authorization@);
        offsets.push(ids.len());
        let mut k: usize = 0;
        while k < authorization.lines.len()
            invariant
                k <= authorization.lines@.len(),
                i < snapshot.returns@.len(),
                shown == snapshot@,
                *authorization == snapshot.returns@[i as int],
                shown.returns[i as int] == authorization@,
                index_covers(offsets@, owners@, ids@, shown, i as int, k as int),
            decreases authorization.lines@.len() - k,
        {
            let ghost (owners_before, ids_before) = (owners@, ids@);
            let ghost total = owners@.len() as int;
            let line_id = authorization.lines[k].line_id.as_str();
            ids.push(line_id);
            owners.push(i);
            proof {
                assert forall|a: int, b: int|
                    0 <= a < offsets@.len() && 0 <= b < lines_in(shown, a) && offsets@[a] + b < total
                        + 1 implies owners@[offsets@[a] + b] == a && ids@[offsets@[a] + b]@ == (
                #[trigger] shown.returns[a].lines[b]).line_id by {
                    if offsets@[a] + b < total {
                        assert(owners_before[offsets@[a] + b] == a);
                    } else {
                        if a < i {
                            assert(offsets@[a] + lines_in(shown, a) <= offsets@[i as int]);
                        }
                        assert(a == i && b == k);
                    }
                }
            }
            k = k + 1;
        }
        i = i + 1;
    }
    LineIndex { offsets, owners, ids }
}

/// In the index, earlier means earlier.
proof fn lemma_line_seen(
    offsets: Seq<usize>,
    owners: Seq<usize>,
    ids: Seq<&str>,
    ranks: Seq<usize>,
    snapshot: SnapshotView,
    i: int,
    k: int,
)
    requires
        index_covers(offsets, owners, ids, snapshot, snapshot.returns.len() as int, -1),
        ranks.len() >= ids.len(),
        forall|p: int, q: int|
            0 <= p < ids.len() && 0 <= q < ids.len() ==> (#[trigger] ranks[p] == #[trigger] ranks[q]
                <==> ids[p]@ == ids[q]@),
        0 <= i < snapshot.returns.len(),
        0 <= k < lines_in(snapshot, i),
    ensures
        offsets[i] + k < ids.len(),
        line_seen(snapshot, i, k) == exists|q: int|
            0 <= q < offsets[i] + k && (#[trigger] ranks[q]) == ranks[offsets[i] + k],
{
    let at = offsets[i] + k;
    assert(offsets[i] + lines_in(snapshot, i) <= owners.len());
    let here = snapshot.returns[i].lines[k];
    assert(ids[at]@ == here.line_id);
    if line_seen(snapshot, i, k) {
        let (a, b) = choose|a: int, b: int|
            0 <= a < snapshot.returns.len() && 0 <= b < snapshot.returns[a].lines.len() && (a < i
                || (a == i && b < k)) && (#[trigger] snapshot.returns[a].lines[b]).line_id
                == snapshot.returns[i].lines[k].line_id;
        assert(offsets[a] + lines_in(snapshot, a) <= owners.len());
        let q = offsets[a] + b;
        let there = snapshot.returns[a].lines[b];
        assert(ids[q]@ == there.line_id);
        if a < i {
            assert(offsets[a] + lines_in(snapshot, a) <= offsets[i]);
        }
        assert(ranks[q] == ranks[at]);
    }
    if exists|q: int| 0 <= q < at && (#[trigger] ranks[q]) == ranks[at] {
        let q = choose|q: int| 0 <= q < at && (#[trigger] ranks[q]) == ranks[at];
        let a = owners[q] as int;
        let b = q - offsets[a];
        let there = snapshot.returns[a].lines[b];
        assert(ids[offsets[a] + b]@ == there.line_id);
        if a > i {
            assert(offsets[i] + lines_in(snapshot, i) <= offsets[a]);
        }
        assert(line_seen(snapshot, i, k));
    }
}

/// A line of the snapshot has this identity, and the index tells whose.
proof fn lemma_line_owner(
    offsets: Seq<usize>,
    owners: Seq<usize>,
    ids: Seq<&str>,
    snapshot: SnapshotView,
    line: Seq<char>,
    found: Option<usize>,
)
    requires
        index_covers(offsets, owners, ids, snapshot, snapshot.returns.len() as int, -1),
        first_return_fault(snapshot, snapshot.returns.len()) is None,
        match found {
            Some(p) => p < ids.len() && ids[p as int]@ == line,
            None => forall|p: int| 0 <= p < ids.len() ==> (#[trigger] ids[p])@ != line,
        },
    ensures
        (exists|a: int| 0 <= a < snapshot.returns.len() && #[trigger] has_line(snapshot, a, line))
            == (found is Some),
        found matches Some(p) ==> owners[p as int] < snapshot.returns.len() && (choose|a: int|
            0 <= a < snapshot.returns.len() && #[trigger] has_line(snapshot, a, line))
            == owners[p as int],
{
    if exists|a: int| 0 <= a < snapshot.returns.len() && #[trigger] has_line(snapshot, a, line) {
        let a = choose|a: int|
            0 <= a < snapshot.returns.len() && #[trigger] has_line(snapshot, a, line);
        let b = choose|b: int|
            0 <= b < snapshot.returns[a].lines.len() && (
            #[trigger] snapshot.returns[a].lines[b]).line_id == line;
        assert(offsets[a] + lines_in(snapshot, a) <= owners.len());
        let there = snapshot.returns[a].lines[b];
        assert(ids[offsets[a] + b]@ == there.line_id);
        assert(found is Some);
    }
    if let Some(p) = found {
        let a = owners[p as int] as int;
        let b = p - offsets[a];
        let there = snapshot.returns[a].lines[b];
        assert(ids[offsets[a] + b]@ == there.line_id);
        assert(has_line(snapshot, a, line));
        let c = choose|c: int|
            0 <= c < snapshot.returns.len() && #[trigger] has_line(snapshot, c, line);
        let d = choose|d: int|
            0 <= d < snapshot.returns[c].lines.len() && (
            #[trigger] snapshot.returns[c].lines[d]).line_id == line;
        if a < c {
            lemma_no_return_fault(snapshot, snapshot.returns.len(), c);
            lemma_no_line_fault(snapshot, c, snapshot.returns[c].lines.len(), d);
            assert(snapshot.returns[a].lines[b].line_id == snapshot.returns[c].lines[d].line_id);
            assert(line_seen(snapshot, c, d));
        } else if c < a {
            lemma_no_return_fault(snapshot, snapshot.returns.len(), a);
            lemma_no_line_fault(snapshot, a, snapshot.returns[a].lines.len(), b);
            assert(snapshot.returns[c].lines[d].line_id == snapshot.returns[a].lines[b].line_id);
            assert(line_seen(snapshot, a, b));
        }
    }
}

/// Checks one return.
fn check_return(
    snapshot: &Snapshot,
    i: usize,
    repeated: bool,
    line_repeated: &Vec<bool>,
    offset: usize,
) -> (fault: Option<String>)
    requires
        i < snapshot.returns@.len(),
        repeated == exists|a: int|
            0 <= a < i && (#[trigger] snapshot@.returns[a]).return_id
                == snapshot@.returns[i as int].return_id,
        offset + snapshot.returns@[i as int].lines@.len() <= line_repeated@.len(),
        forall|k: int|
            0 <= k < snapshot.returns@[i as int].lines@.len() ==> line_repeated@[offset + k]
                == #[trigger] line_seen(snapshot@, i as int, k),
    ensures
        match fault {
            Some(fault) => return_fault(snapshot@, i as int) == Some(fault@),
            None => return_fault(snapshot@, i as int) is None,
        },
{
    let ghost shown = snapshot@;
    let authorization = &snapshot.returns[i];
    let id = authorization.return_id.as_str();
    assert(shown.returns[i as int] == authorization@);
    if repeated {
        return Some(joined("duplicate return_id ", id));
    }
    if authorization.lines.len() > 12 {
        return Some(joined3("return ", id, " exceeds 12 lines"));
    }
    let ghost lines = authorization@.lines;
    let ghost terms = lines.map_values(|line: LineView| line.prior_successful_refund_cents as nat);
    let mut total: u64 = 0;
    let mut k: usize = 0;
    assert(lines.take(0).map_values(|line: LineView| line.prior_successful_refund_cents as nat)
        =~= Seq::<nat>::empty());
    while k < authorization.lines.len()
        invariant
            k <= authorization.lines@.len(),
            i < snapshot.returns@.len(),
            shown == snapshot@,
            *authorization == snapshot.returns@[i as int],
            shown.returns[i as int] == authorization@,
            lines == authorization@.lines,
            offset + authorization.lines@.len() <= line_repeated@.len(),
            forall|k: int|
                0 <= k < snapshot.returns@[i as int].lines@.len() ==> line_repeated@[offset + k]
                    == #[trigger] line_seen(snapshot@, i as int, k),
            first_line_fault(shown, i as int, k as nat) is None,
            total == model::prior_total(lines.take(k as int)),
            return_fault(shown, i as int) == (match first_line_fault(
                shown,
                i as int,
                lines.len(),
            ) {
                Some(fault) => Some(fault),
                None => if model::prior_total(lines) > authorization.captured_cents {
                    Some("prior refunds exceed captured payment for "@ + id@)
                } else {
                    None
                },
            }),
        decreases authorization.lines@.len() - k,
    {
        let line = &authorization.lines[k];
        let line_id = line.line_id.as_str();
        let ghost fault = line_fault(shown, i as int, k as int);
        proof {
            assert(lines[k as int] == line@);
            assert(first_line_fault(shown, i as int, (k + 1) as nat) == fault);
            if fault is Some {
                lemma_line_fault_stays(shown, i as int, (k + 1) as nat, lines.len());
            }
            assert(line_repeated@[offset + k] == line_seen(shown, i as int, k as int));
            let cents = |line: LineView| line.prior_successful_refund_cents as nat;
            assert(lines.take(k + 1).map_values(cents) =~= lines.take(k as int).map_values(
                cents,
            ).push(cents(line@)));
            crate::seqs::lemma_sum_push(lines.take(k as int).map_values(cents), cents(line@));
        }
        let bound = line_repeated.len();
        assert(offset + k < bound);
        if line_repeated[offset + k] {
            return Some(joined("duplicate line_id ", line_id));
        }
        if line.authorized_qty == 0 {
            return Some(joined3("line ", line_id, " has zero authorized quantity"));
        }
        let net: u64 = match line.paid_subtotal_cents.checked_add(line.tax_cents) {
            Some(gross) => if gross >= line.discount_cents {
                gross - line.discount_cents
            } else {
                return Some(joined("invalid monetary values for line ", line_id));
            },
            None => {
                return Some(joined("invalid monetary values for line ", line_id));
            },
        };
        if line.prior_successful_refund_cents > net {
            return Some(joined("prior refund exceeds line value for ", line_id));
        }
        match total.checked_add(line.prior_successful_refund_cents) {
            Some(sum) => {
                total = sum;
            },
            None => {
                return Some("prior refund total overflow".to_owned());
            },
        }
        k = k + 1;
    }
    assert(lines.take(lines.len() as int) =~= lines);
    if total > authorization.captured_cents {
        return Some(joined("prior refunds exceed captured payment for ", id));
    }
    None
}

/// The message for a line of another return.
fn foreign_line_message(line_id: &str, owner: &str, return_id: &str) -> (message: String)
    ensures
        message@ == "payment result references line "@ + line_id@ + " owned by return "@ + owner@
            + ", not "@ + return_id@,
{
    let mut message = joined3("payment result references line ", line_id, " owned by return ");
    message.append(owner);
    message.append(", not ");
    message.append(return_id);
    message
}

/// Checks that a payment result names a line of its own return.
fn validate_payment_line(
    snapshot: &Snapshot,
    event: &Event,
    owner: Option<usize>,
) -> (fault: Option<String>)
    requires
        known_return(snapshot@, event@.owner()),
        event@ matches EventView::PaymentResult { line_id, .. } ==> {
            &&& (exists|a: int|
                0 <= a < snapshot@.returns.len() && #[trigger] has_line(snapshot@, a, line_id)) == (
            owner is Some)
            &&& owner matches Some(a) ==> a < snapshot@.returns.len() && (choose|a: int|
                0 <= a < snapshot@.returns.len() && #[trigger] has_line(snapshot@, a, line_id))
                == a
        },
    ensures
        match fault {
            Some(fault) => event_fault(snapshot@, event@) == Some(fault@),
            None => event_fault(snapshot@, event@) is None,
        },
{
    match event {
        Event::PaymentResult { return_id, line_id, .. } => match owner {
            None => Some(
                joined3(
                    "payment result references line ",
                    line_id.as_str(),
                    " absent from authorizations",
                ),
            ),
            Some(a) => {
                assert(snapshot@.returns[a as int] == snapshot.returns@[a as int]@);
                let owner = snapshot.returns[a].return_id.as_str();
                if same_text(owner, return_id.as_str()) {
                    None
                } else {
                    Some(foreign_line_message(line_id.as_str(), owner, return_id.as_str()))
                }
            },
        },
        _ => None,
    }
}

/// The parcel that an event speaks of.
fn parcel_text(event: &Event) -> (parcel: Option<&str>)
    ensures
        match parcel {
            Some(parcel) => parcel_of(event@) == Some(parcel@),
            None => parcel_of(event@) is None,
        },
{
    match event {
        Event::WarehouseScan { parcel_id, .. } | Event::Carrier { parcel_id, .. } => Some(
            parcel_id.as_str(),
        ),
        _ => None,
    }
}

/// The places of up to five events that name different parcels of one return,
/// out of the first `n` events.
spec fn parcels_found(
    places: Seq<usize>,
    events: Seq<EventView>,
    ranks: Seq<usize>,
    rank: int,
    n: int,
) -> bool {
    &&& places.len() <= 5
    &&& forall|x: int|
        0 <= x < places.len() ==> (#[trigger] places[x]) < n && ranks[places[x] as int] == rank
            && parcel_of(events[places[x] as int]) is Some
    &&& forall|x: int, y: int|
        0 <= x < y < places.len() ==> parcel_of(events[#[trigger] places[x] as int]) != parcel_of(
            events[#[trigger] places[y] as int],
        )
    &&& places.len() < 5 ==> forall|j: int|
        0 <= j < n && (#[trigger] ranks[j]) == rank && parcel_of(events[j]) is Some ==> exists|
            x: int,
        |
            0 <= x < places.len() && parcel_of(events[#[trigger] places[x] as int]) == parcel_of(
                events[j],
            )
}

/// Five different parcels were found exactly when the return is crowded.
proof fn lemma_parcels_found(
    places: Seq<usize>,
    events: Seq<EventView>,
    ranks: Seq<usize>,
    rank: int,
    id: Seq<char>,
)
    requires
        ranks.len() == events.len(),
        parcels_found(places, events, ranks, rank, events.len() as int),
        forall|j: int|
            0 <= j < events.len() ==> ((#[trigger] ranks[j]) == rank <==> events[j].owner() == id),
    ensures
        crowded(events, id) == (places.len() == 5),
{
    let listed = Seq::new(places.len(), |x: int| parcel_of(events[places[x] as int])->0);
    assert forall|x: int, y: int| 0 <= x < listed.len() && 0 <= y < listed.len() && x
        != y implies listed[x] != listed[y] by {
        let (a, b) = (places[x], places[y]);
        if x < y {
            assert(parcel_of(events[places[x] as int]) != parcel_of(events[places[y] as int]));
        } else {
            assert(parcel_of(events[places[y] as int]) != parcel_of(events[places[x] as int]));
        }
    }
    if places.len() == 5 {
        assert forall|p: int| 0 <= p < listed.len() implies names_parcel(
            events,
            id,
            #[trigger] listed[p],
        ) by {
            let j = places[p] as int;
            assert(ranks[j] == rank);
            assert(events[j].owner() == id);
        }
        assert(five_parcels(events, id, listed));
    } else if crowded(events, id) {
        let parcels = choose|parcels: Seq<Seq<char>>| #[trigger] five_parcels(events, id, parcels);
        parcels.unique_seq_to_set();
        listed.unique_seq_to_set();
        assert forall|t: Seq<char>| parcels.to_set().contains(t) implies listed.to_set().contains(
            t,
        ) by {
            let p = choose|p: int| 0 <= p < parcels.len() && parcels[p] == t;
            assert(names_parcel(events, id, parcels[p]));
            let j = choose|j: int|
                0 <= j < events.len() && (#[trigger] events[j]).owner() == id && parcel_of(
                    events[j],
                ) == Some(t);
            assert(ranks[j] == rank);
            let x = choose|x: int|
                0 <= x < places.len() && parcel_of(events[#[trigger] places[x] as int])
                    == parcel_of(events[j]);
            assert(listed[x] == t);
        }
        vstd::set_lib::lemma_len_subset(parcels.to_set(), listed.to_set());
    }
}

/// The return with more than four parcels that stands first, if there is one.
fn crowded_return<'a>(
    events: &'a Vec<Event>,
    ranks: &Vec<usize>,
    base: usize,
) -> (found: Option<&'a str>)
    requires
        ranks@.len() == base + events@.len(),
        forall|i: int| 0 <= i < ranks@.len() ==> (#[trigger] ranks@[i]) < ranks@.len(),
        forall|i: int, j: int|
            0 <= i < events@.len() && 0 <= j < events@.len() ==> {
                &&& (ranks@[base + i] < ranks@[base + j] <==> text::text_lt(
                    (#[trigger] events@[i])@.owner(),
                    (#[trigger] events@[j])@.owner(),
                ))
                &&& (ranks@[base + i] == ranks@[base + j] <==> events@[i]@.owner()
                    == events@[j]@.owner())
            },
    ensures
        match found {
            Some(id) => first_crowded(canonical::views(events@), id@),
            None => forall|id: Seq<char>| !#[trigger] crowded(canonical::views(events@), id),
        },
{
    let ghost all = canonical::views(events@);
    let ghost owners = ranks@.skip(base as int);
    let mut parcels: Vec<Vec<usize>> = Vec::new();
    let mut i: usize = 0;
    while i < ranks.len()
        invariant
            i <= ranks@.len(),
            parcels@.len() == i,
            forall|r: int| 0 <= r < i ==> (#[trigger] parcels@[r])@.len() == 0,
        decreases ranks@.len() - i,
    {
        parcels.push(Vec::new());
        i = i + 1;
    }
    let mut j: usize = 0;
    while j < events.len()
        invariant
            j <= events@.len(),
            all == canonical::views(events@),
            ranks@.len() == base + events@.len(),
            owners == ranks@.skip(base as int),
            parcels@.len() == ranks@.len(),
            forall|i: int| 0 <= i < ranks@.len() ==> (#[trigger] ranks@[i]) < ranks@.len(),
            forall|r: int|
                0 <= r < parcels@.len() ==> parcels_found(
                    (#[trigger] parcels@[r])@,
                    all,
                    owners,
                    r,
                    j as int,
                ),
        decreases events@.len() - j,
    {
        let bound = ranks.len();
        assert(base + j < bound);
        let rank = ranks[base + j];
        let ghost before = parcels@;
        assert(owners[j as int] == rank);
        if let Some(parcel) = parcel_text(&events[j]) {
            let mut known = parcels[rank].len() >= 5;
            let mut x: usize = 0;
            while x < parcels[rank].len()
                invariant
                    rank < parcels@.len(),
                    j < events@.len(),
                    all == canonical::views(events@),
                    parcel_of(all[j as int]) == Some(parcel@),
                    parcels_found(parcels@[rank as int]@, all, owners, rank as int, j as int),
                    x <= parcels@[rank as int]@.len(),
                    known == (parcels@[rank as int]@.len() >= 5 || exists|y: int|
                        0 <= y < x && parcel_of(
                            all[#[trigger] parcels@[rank as int]@[y] as int],
                        ) == Some(parcel@)),
                decreases parcels@[rank as int]@.len() - x,
            {
                let place = parcels[rank][x];
                if let Some(other) = parcel_text(&events[place]) {
                    if same_text(other, parcel) {
                        known = true;
                        assert(parcel_of(all[parcels@[rank as int]@[x as int] as int])
                            == Some(parcel@));
                    }
                }
                x = x + 1;
            }
            if !known {
                parcels[rank].push(j);
                proof {
                    let old_list = before[rank as int]@;
                    let list = parcels@[rank as int]@;
                    assert(list == old_list.push(j));
                    assert forall|i: int|
                        0 <= i < j + 1 && (#[trigger] owners[i]) == rank && parcel_of(
                            all[i],
                        ) is Some implies exists|x: int|
                        0 <= x < list.len() && parcel_of(all[#[trigger] list[x] as int])
                            == parcel_of(all[i]) by {
                        if i < j {
                            let x = choose|x: int|
                                0 <= x < old_list.len() && parcel_of(
                                    all[#[trigger] old_list[x] as int],
                                ) == parcel_of(all[i]);
                            assert(list[x] == old_list[x]);
                        } else {
                            assert(list[old_list.len() as int] == j);
                        }
                    }
                }
            }
        }
        proof {
            assert forall|r: int| 0 <= r < parcels@.len() implies parcels_found(
                (#[trigger] parcels@[r])@,
                all,
                owners,
                r,
                j + 1,
            ) by {
                assert(parcels_found(before[r]@, all, owners, r, j as int));
            }
        }
        j = j + 1;
    }
    proof {
        assert forall|r: int, k: int| 0 <= r < parcels@.len() && 0 <= k < all.len() && owners[k]
            == r implies (#[trigger] parcels@[r]@.len() == 5) == crowded(
            all,
            (#[trigger] all[k]).owner(),
        ) by {
            let id = all[k].owner();
            assert forall|x: int| 0 <= x < all.len() implies ((#[trigger] owners[x]) == r
                <==> all[x].owner() == id) by {
                let (a, b) = (events@[x], events@[k]);
                assert(ranks@[base + x] == owners[x]);
                assert(ranks@[base + k] == owners[k]);
            }
            lemma_parcels_found(parcels@[r]@, all, owners, r, id);
        }
    }
    let mut r: usize = 0;
    while r < parcels.len()
        invariant
            r <= parcels@.len() == ranks@.len(),
            ranks@.len() == base + events@.len(),
            all == canonical::views(events@),
            owners == ranks@.skip(base as int),
            forall|q: int| 0 <= q < r ==> (#[trigger] parcels@[q])@.len() < 5,
            forall|q: int|
                0 <= q < parcels@.len() ==> parcels_found(
                    (#[trigger] parcels@[q])@,
                    all,
                    owners,
                    q,
                    events@.len() as int,
                ),
            forall|q: int, k: int|
                0 <= q < parcels@.len() && 0 <= k < all.len() && owners[k] == q ==> (
                #[trigger] parcels@[q]@.len() == 5) == crowded(all, (#[trigger] all[k]).owner()),
            forall|i: int, j: int|
                0 <= i < events@.len() && 0 <= j < events@.len() ==> {
                    &&& (ranks@[base + i] < ranks@[base + j] <==> text::text_lt(
                        (#[trigger] events@[i])@.owner(),
                        (#[trigger] events@[j])@.owner(),
                    ))
                    &&& (ranks@[base + i] == ranks@[base + j] <==> events@[i]@.owner()
                        == events@[j]@.owner())
                },
            forall|i: int| 0 <= i < ranks@.len() ==> (#[trigger] ranks@[i]) < ranks@.len(),
        decreases parcels@.len() - r,
    {
        if parcels[r].len() >= 5 {
            let place = parcels[r][0];
            let id = events[place].return_id();
            proof {
                assert(parcels_found(
                    parcels@[r as int]@,
                    all,
                    owners,
                    r as int,
                    events@.len() as int,
                ));
                assert(owners[place as int] == r);
                assert(all[place as int].owner() == id@);
                assert(crowded(all, id@));
                assert forall|other: Seq<char>| #[trigger] crowded(all, other) implies text::text_le(
                    id@,
                    other,
                ) by {
                    let k = lemma_crowded_event(all, other);
                    let q = owners[k] as int;
                    assert(ranks@[base + k] == owners[k]);
                    assert(parcels@[q]@.len() == 5) by {
                        let here = all[k];
                        assert((parcels@[q]@.len() == 5) == crowded(all, all[k].owner()));
                    }
                    assert(q >= r);
                    let (a, b) = (events@[place as int], events@[k]);
                    assert(ranks@[base + place] == r);
                    text::lemma_text_total(id@, other);
                }
            }
            return Some(id);
        }
        r = r + 1;
    }
    proof {
        assert forall|id: Seq<char>| !#[trigger] crowded(all, id) by {
            if crowded(all, id) {
                let k = lemma_crowded_event(all, id);
                let q = owners[k] as int;
                assert(ranks@[base + k] == owners[k]);
                assert((parcels@[q]@.len() == 5) == crowded(all, all[k].owner()));
            }
        }
    }
    None
}

/// A crowded return has an event.
proof fn lemma_crowded_event(events: Seq<EventView>, id: Seq<char>) -> (k: int)
    requires
        crowded(events, id),
    ensures
        0 <= k < events.len(),
        events[k].owner() == id,
{
    let parcels = choose|parcels: Seq<Seq<char>>| #[trigger] five_parcels(events, id, parcels);
    assert(names_parcel(events, id, parcels[0]));
    choose|j: int|
        0 <= j < events.len() && (#[trigger] events[j]).owner() == id && parcel_of(events[j])
            == Some(parcels[0])
}

/// The return identities of authorizations, then those of events.
pub fn return_texts<'a>(snapshot: &'a Snapshot) -> (ids: Vec<&'a str>)
    ensures
        ids@.len() == snapshot.returns@.len() + snapshot.events@.len(),
        forall|i: int|
            0 <= i < snapshot.returns@.len() ==> (#[trigger] ids@[i])@
                == snapshot@.returns[i].return_id,
        forall|j: int|
            0 <= j < snapshot.events@.len() ==> ids@[snapshot.returns@.len() + j]@ == (
            #[trigger] snapshot@.events[j]).owner(),
{
    let mut ids: Vec<&'a str> = Vec::new();
    let mut i: usize = 0;
    while i < snapshot.returns.len()
        invariant
            i <= snapshot.returns@.len(),
            ids@.len() == i,
            forall|a: int|
                0 <= a < i ==> (#[trigger] ids@[a])@ == snapshot@.returns[a].return_id,
        decreases snapshot.returns@.len() - i,
    {
        ids.push(snapshot.returns[i].return_id.as_str());
        i = i + 1;
    }
    let mut j: usize = 0;
    while j < snapshot.events.len()
        invariant
            j <= snapshot.events@.len(),
            ids@.len() == snapshot.returns@.len() + j,
            forall|a: int|
                0 <= a < snapshot.returns@.len() ==> (#[trigger] ids@[a])@
                    == snapshot@.returns[a].return_id,
            forall|b: int|
                0 <= b < j ==> ids@[snapshot.returns@.len() + b]@ == (
                #[trigger] snapshot@.events[b]).owner(),
        decreases snapshot.events@.len() - j,
    {
        ids.push(snapshot.events[j].return_id());
        j = j + 1;
    }
    ids
}

/// Checks the returns one after another.
fn check_returns(
    snapshot: &Snapshot,
    return_ranks: &Vec<usize>,
    index: &LineIndex,
    line_ranks: &Vec<usize>,
) -> (fault: Option<String>)
    requires
        return_ranks@.len() >= snapshot.returns@.len(),
        forall|i: int|
            0 <= i < return_ranks@.len() ==> (#[trigger] return_ranks@[i]) < return_ranks@.len(),
        forall|a: int, b: int|
            0 <= a < snapshot.returns@.len() && 0 <= b < snapshot.returns@.len() ==> (
            #[trigger] return_ranks@[a] == #[trigger] return_ranks@[b]
                <==> snapshot@.returns[a].return_id == snapshot@.returns[b].return_id),
        index_covers(
            index.offsets@,
            index.owners@,
            index.ids@,
            snapshot@,
            snapshot.returns@.len() as int,
            -1,
        ),
        line_ranks@.len() >= index.ids@.len(),
        forall|i: int|
            0 <= i < line_ranks@.len() ==> (#[trigger] line_ranks@[i]) < line_ranks@.len(),
        forall|p: int, q: int|
            0 <= p < index.ids@.len() && 0 <= q < index.ids@.len() ==> (#[trigger] line_ranks@[p]
                == #[trigger] line_ranks@[q] <==> index.ids@[p]@ == index.ids@[q]@),
    ensures
        match fault {
            Some(fault) => first_return_fault(snapshot@, snapshot@.returns.len()) == Some(fault@),
            None => first_return_fault(snapshot@, snapshot@.returns.len()) is None,
        },
{
    let ghost shown = snapshot@;
    let repeated = repeats(return_ranks, snapshot.returns.len());
    let line_repeated = repeats(line_ranks, index.ids.len());
    let mut i: usize = 0;
    while i < snapshot.returns.len()
        invariant
            i <= snapshot.returns@.len() == repeated@.len(),
            shown == snapshot@,
            return_ranks@.len() >= snapshot.returns@.len(),
            forall|a: int, b: int|
                0 <= a < snapshot.returns@.len() && 0 <= b < snapshot.returns@.len() ==> (
                #[trigger] return_ranks@[a] == #[trigger] return_ranks@[b]
                    <==> snapshot@.returns[a].return_id == snapshot@.returns[b].return_id),
            index_covers(
                index.offsets@,
                index.owners@,
                index.ids@,
                shown,
                snapshot.returns@.len() as int,
                -1,
            ),
            line_ranks@.len() >= index.ids@.len() == line_repeated@.len(),
            forall|p: int, q: int|
                0 <= p < index.ids@.len() && 0 <= q < index.ids@.len() ==> (
                #[trigger] line_ranks@[p] == #[trigger] line_ranks@[q] <==> index.ids@[p]@
                    == index.ids@[q]@),
            forall|p: int|
                0 <= p < repeated@.len() ==> (#[trigger] repeated@[p]) == exists|q: int|
                    0 <= q < p && (#[trigger] return_ranks@[q]) == return_ranks@[p],
            forall|p: int|
                0 <= p < line_repeated@.len() ==> (#[trigger] line_repeated@[p]) == exists|q: int|
                    0 <= q < p && (#[trigger] line_ranks@[q]) == line_ranks@[p],
            first_return_fault(shown, i as nat) is None,
        decreases snapshot.returns@.len() - i,
    {
        let offset = index.offsets[i];
        proof {
            assert(offset + lines_in(shown, i as int) <= index.owners@.len());
            assert(repeated@[i as int] == exists|a: int|
                0 <= a < i && (#[trigger] shown.returns[a]).return_id
                    == shown.returns[i as int].return_id) by {
                if repeated@[i as int] {
                    let q = choose|q: int|
                        0 <= q < i && (#[trigger] return_ranks@[q]) == return_ranks@[i as int];
                    assert(shown.returns[q].return_id == shown.returns[i as int].return_id);
                }
                if exists|a: int|
                    0 <= a < i && (#[trigger] shown.returns[a]).return_id
                        == shown.returns[i as int].return_id {
                    let a = choose|a: int|
                        0 <= a < i && (#[trigger] shown.returns[a]).return_id
                            == shown.returns[i as int].return_id;
                    assert(return_ranks@[a] == return_ranks@[i as int]);
                }
            }
            assert forall|k: int| 0 <= k < lines_in(shown, i as int) implies line_repeated@[offset
                + k] == #[trigger] line_seen(shown, i as int, k) by {
                lemma_line_seen(
                    index.offsets@,
                    index.owners@,
                    index.ids@,
                    line_ranks@,
                    shown,
                    i as int,
                    k,
                );
            }
            assert(first_return_fault(shown, (i + 1) as nat) == return_fault(shown, i as int));
        }
        if let Some(fault) = check_return(snapshot, i, repeated[i], &line_repeated, offset) {
            proof {
                lemma_return_fault_stays(shown, (i + 1) as nat, shown.returns.len());
            }
            return Some(fault);
        }
        i = i + 1;
    }
    None
}

/// The line identities of the lines, then of the payment results; other events
/// stand in with their own identity.
fn line_texts<'a>(snapshot: &'a Snapshot, index: &LineIndex<'a>) -> (ids: Vec<&'a str>)
    ensures
        ids@.len() == index.ids@.len() + snapshot.events@.len(),
        forall|p: int| 0 <= p < index.ids@.len() ==> (#[trigger] ids@[p]) == index.ids@[p],
        forall|j: int|
            0 <= j < snapshot.events@.len() ==> ((#[trigger] snapshot@.events[j]) matches
                EventView::PaymentResult { line_id, .. } ==> ids@[index.ids@.len() + j]@
                == line_id),
{
    let mut ids: Vec<&'a str> = Vec::new();
    let mut p: usize = 0;
    while p < index.ids.len()
        invariant
            p <= index.ids@.len(),
            ids@.len() == p,
            forall|q: int| 0 <= q < p ==> (#[trigger] ids@[q]) == index.ids@[q],
        decreases index.ids@.len() - p,
    {
        ids.push(index.ids[p]);
        p = p + 1;
    }
    let mut j: usize = 0;
    while j < snapshot.events.len()
        invariant
            j <= snapshot.events@.len(),
            ids@.len() == index.ids@.len() + j,
            forall|q: int| 0 <= q < index.ids@.len() ==> (#[trigger] ids@[q]) == index.ids@[q],
            forall|b: int|
                0 <= b < j ==> ((#[trigger] snapshot@.events[b]) matches EventView::PaymentResult {
                    line_id,
                    ..
                } ==> ids@[index.ids@.len() + b]@ == line_id),
        decreases snapshot.events@.len() - j,
    {
        let text = match &snapshot.events[j] {
            Event::PaymentResult { line_id, .. } => line_id.as_str(),
            other => other.event_id(),
        };
        ids.push(text);
        j = j + 1;
    }
    ids
}

/// Checks a snapshot and tells why it is refused, if it is.
pub fn validate_snapshot(snapshot: &Snapshot) -> (fault: Option<String>)
    ensures
        match fault {
            Some(fault) => snapshot_error(snapshot@) == Some(fault@),
            None => snapshot_error(snapshot@) is None,
        },
{
    let ghost shown = snapshot@;
    if snapshot.snapshot_id.as_str().is_empty() {
        return Some("snapshot_id must not be empty".to_owned());
    }
    let ids = return_texts(snapshot);
    let return_ranks = rank_texts(&ids);
    let index = index_lines(snapshot);
    let lines = line_texts(snapshot, &index);
    let line_ranks = rank_texts(&lines);
    let base = snapshot.returns.len();
    let line_base = index.ids.len();
    proof {
        assert forall|a: int, b: int| 0 <= a < base && 0 <= b < base implies (
        #[trigger] return_ranks@[a] == #[trigger] return_ranks@[b] <==> shown.returns[a].return_id
            == shown.returns[b].return_id) by {
            assert(ids@[a]@ == shown.returns[a].return_id);
            assert(ids@[b]@ == shown.returns[b].return_id);
        }
        assert forall|p: int, q: int| 0 <= p < line_base && 0 <= q < line_base implies (
        #[trigger] line_ranks@[p] == #[trigger] line_ranks@[q] <==> index.ids@[p]@
            == index.ids@[q]@) by {
            assert(lines@[p] == index.ids@[p]);
            assert(lines@[q] == index.ids@[q]);
        }
    }
    if let Some(fault) = check_returns(snapshot, &return_ranks, &index, &line_ranks) {
        return Some(fault);
    }
    let known = first_places(&return_ranks, base);
    let line_known = first_places(&line_ranks, line_base);
    let mut j: usize = 0;
    while j < snapshot.events.len()
        invariant
            j <= snapshot.events@.len(),
            shown == snapshot@,
            shown.snapshot_id.len() > 0,
            base == snapshot.returns@.len(),
            line_base == index.ids@.len(),
            ids@.len() == base + snapshot.events@.len(),
            forall|i: int|
                0 <= i < base ==> (#[trigger] ids@[i])@ == shown.returns[i].return_id,
            forall|j: int|
                0 <= j < snapshot.events@.len() ==> ids@[base + j]@ == (
                #[trigger] shown.events[j]).owner(),
            text::ranks_of(return_ranks@, ids@),
            index_covers(index.offsets@, index.owners@, index.ids@, shown, base as int, -1),
            lines@.len() == line_base + snapshot.events@.len(),
            forall|p: int| 0 <= p < line_base ==> (#[trigger] lines@[p]) == index.ids@[p],
            forall|j: int|
                0 <= j < snapshot.events@.len() ==> ((#[trigger] shown.events[j]) matches
                    EventView::PaymentResult { line_id, .. } ==> lines@[line_base + j]@
                    == line_id),
            text::ranks_of(line_ranks@, lines@),
            known@.len() == return_ranks@.len(),
            forall|r: int|
                0 <= r < known@.len() ==> match #[trigger] known@[r] {
                    Some(p) => p < base && return_ranks@[p as int] == r,
                    None => forall|q: int| 0 <= q < base ==> (#[trigger] return_ranks@[q]) != r,
                },
            line_known@.len() == line_ranks@.len(),
            forall|r: int|
                0 <= r < line_known@.len() ==> match #[trigger] line_known@[r] {
                    Some(p) => p < line_base && line_ranks@[p as int] == r,
                    None => forall|q: int| 0 <= q < line_base ==> (#[trigger] line_ranks@[q]) != r,
                },
            first_return_fault(shown, shown.returns.len()) is None,
            first_event_fault(shown, j as nat) is None,
        decreases snapshot.events@.len() - j,
    {
        let event = &snapshot.events[j];
        let (bound, line_bound) = (ids.len(), lines.len());
        assert(base + j < bound && line_base + j < line_bound);
        assert(shown.events[j as int] == event@);
        proof {
            assert(first_event_fault(shown, (j + 1) as nat) == event_fault(shown, event@));
        }
        let rank = return_ranks[base + j];
        if known[rank].is_none() {
            proof {
                if known_return(shown, event@.owner()) {
                    let a = choose|a: int|
                        0 <= a < shown.returns.len() && (#[trigger] shown.returns[a]).return_id
                            == event@.owner();
                    assert(ids@[a]@ == shown.returns[a].return_id);
                    assert(return_ranks@[a] == return_ranks@[base + j]);
                }
                lemma_event_fault_stays(shown, (j + 1) as nat, shown.events.len());
            }
            let mut message = joined3("event ", event.event_id(), " references unknown return ");
            message.append(event.return_id());
            return Some(message);
        }
        proof {
            let p = known@[rank as int]->0 as int;
            assert(return_ranks@[p] == return_ranks@[base + j]);
            assert(shown.returns[p].return_id == event@.owner());
        }
        let line_rank = line_ranks[line_base + j];
        let place = line_known[line_rank];
        let owner: Option<usize> = match place {
            Some(p) => Some(index.owners[p]),
            None => None,
        };
        proof {
            if let EventView::PaymentResult { line_id, .. } = event@ {
                assert(lines@[line_base + j]@ == line_id);
                assert(place is None ==> forall|p: int|
                    0 <= p < index.ids@.len() ==> (#[trigger] index.ids@[p])@ != line_id) by {
                    if place is None {
                        assert forall|p: int| 0 <= p < index.ids@.len() implies (
                        #[trigger] index.ids@[p])@ != line_id by {
                            assert(lines@[p] == index.ids@[p]);
                            assert(line_ranks@[p] != line_rank);
                            assert(line_ranks@[line_base + j] == line_rank);
                        }
                    }
                }
                if let Some(p) = place {
                    assert(lines@[p as int] == index.ids@[p as int]);
                    assert(line_ranks@[p as int] == line_ranks@[line_base + j]);
                }
                lemma_line_owner(
                    index.offsets@,
                    index.owners@,
                    index.ids@,
                    shown,
                    line_id,
                    place,
                );
            }
        }
        if let Some(fault) = validate_payment_line(snapshot, event, owner) {
            proof {
                lemma_event_fault_stays(shown, (j + 1) as nat, shown.events.len());
            }
            return Some(fault);
        }
        j = j + 1;
    }
    proof {
        assert forall|i: int, j: int|
            0 <= i < snapshot.events@.len() && 0 <= j < snapshot.events@.len() implies {
            &&& (return_ranks@[base + i] < return_ranks@[base + j] <==> text::text_lt(
                (#[trigger] snapshot.events@[i])@.owner(),
                (#[trigger] snapshot.events@[j])@.owner(),
            ))
            &&& (return_ranks@[base + i] == return_ranks@[base + j]
                <==> snapshot.events@[i]@.owner() == snapshot.events@[j]@.owner())
        } by {
            assert(ids@[base + i]@ == shown.events[i].owner());
            assert(ids@[base + j]@ == shown.events[j].owner());
        }
        assert(canonical::views(snapshot.events@) == shown.events);
    }
    match crowded_return(&snapshot.events, &return_ranks, base) {
        Some(id) => {
            proof {
                let chosen = choose|id: Seq<char>| #[trigger] first_crowded(shown.events, id);
                assert(first_crowded(shown.events, id@));
                assert(crowded(shown.events, id@) && crowded(shown.events, chosen));
                text::lemma_text_total(id@, chosen);
            }
            Some(joined3("return ", id, " exceeds 4 parcels"))
        },
        None => None,
    }
}

} // verus!
