//! The identities of the reference: occurrences are counted by number, in one
//! pass, and listed in the order of the numbers.

use vstd::prelude::*;
use crate::refund::canonical;
use crate::refund::canonical::{same_event, Canonical};
use crate::refund::model;
use crate::refund::model::{AccountingView, Event, EventAccounting, EventView};
use crate::refund::owned;
use crate::seqs;
use crate::text;
use crate::text::rank_texts;

verus! {

/// What has been counted for one identity.
#[derive(Clone, Copy)]
struct Tally {
    first: Option<usize>,
    occurrences: usize,
    contested: bool,
}

/// Equal numbers stand for equal identities, smaller ones for earlier ones.
spec fn numbered(ranks: Seq<usize>, events: Seq<EventView>) -> bool {
    &&& ranks.len() == events.len()
    &&& forall|i: int| 0 <= i < ranks.len() ==> (#[trigger] ranks[i]) < ranks.len()
    &&& forall|i: int, j: int|
        0 <= i < ranks.len() && 0 <= j < ranks.len() ==> {
            &&& (#[trigger] ranks[i] < #[trigger] ranks[j] <==> text::text_lt(
                events[i].id(),
                events[j].id(),
            ))
            &&& (ranks[i] == ranks[j] <==> events[i].id() == events[j].id())
        }
}

/// How often a number stands among the first `k`.
spec fn count_of(ranks: Seq<usize>, rank: int, k: nat) -> nat
    decreases k,
{
    if k == 0 {
        0
    } else {
        count_of(ranks, rank, (k - 1) as nat) + if ranks[k - 1] == rank {
            1nat
        } else {
            0
        }
    }
}

/// How many of the first `k` numbers are below another.
spec fn count_below(ranks: Seq<usize>, rank: int, k: nat) -> nat
    decreases k,
{
    if k == 0 {
        0
    } else {
        count_below(ranks, rank, (k - 1) as nat) + if ranks[k - 1] < rank {
            1nat
        } else {
            0
        }
    }
}

/// The numbers below the next one are those below this one, and this one.
proof fn lemma_below(ranks: Seq<usize>, rank: int, k: nat)
    ensures
        count_below(ranks, rank + 1, k) == count_below(ranks, rank, k) + count_of(ranks, rank, k),
        count_below(ranks, rank + 1, k) <= k,
    decreases k,
{
    if k > 0 {
        lemma_below(ranks, rank, (k - 1) as nat);
    }
}

/// A number that stands somewhere is counted.
proof fn lemma_some_count(ranks: Seq<usize>, i: int, rank: int, k: nat)
    requires
        0 <= i < k,
        ranks[i] == rank,
    ensures
        count_of(ranks, rank, k) > 0,
    decreases k,
{
    if i < k - 1 {
        lemma_some_count(ranks, i, rank, (k - 1) as nat);
    }
}

/// One of the first `k` events has the number and differs from the event.
spec fn differs(
    ranks: Seq<usize>,
    events: Seq<EventView>,
    rank: int,
    event: EventView,
    k: int,
) -> bool {
    exists|i: int| 0 <= i < k && (#[trigger] ranks[i]) == rank && events[i] != event
}

/// The tally of a number over the first `k` events.
spec fn counts(tally: Tally, ranks: Seq<usize>, events: Seq<EventView>, rank: int, k: int) -> bool {
    &&& tally.occurrences == count_of(ranks, rank, k as nat)
    &&& tally.occurrences <= k
    &&& match tally.first {
        None => !tally.contested && forall|i: int| 0 <= i < k ==> (#[trigger] ranks[i]) != rank,
        Some(first) => first < k && ranks[first as int] == rank && tally.contested == differs(
            ranks,
            events,
            rank,
            events[first as int],
            k,
        ),
    }
}

/// The tallies of all numbers over the first `k` events.
spec fn all_counted(tallies: Seq<Tally>, ranks: Seq<usize>, events: Seq<EventView>, k: int) -> bool {
    &&& tallies.len() == ranks.len()
    &&& forall|r: int|
        0 <= r < tallies.len() ==> counts(#[trigger] tallies[r], ranks, events, r, k)
}

/// One more event is counted.
proof fn lemma_counted(
    before: Tally,
    after: Tally,
    ranks: Seq<usize>,
    events: Seq<EventView>,
    rank: int,
    k: int,
)
    requires
        0 <= k < ranks.len(),
        counts(before, ranks, events, rank, k),
        ranks[k] != rank ==> after == before,
        ranks[k] == rank ==> after.occurrences == before.occurrences + 1,
        ranks[k] == rank && before.first is None ==> after.first is Some && after.first->0 == k
            && !after.contested,
        ranks[k] == rank && before.first is Some ==> after.first == before.first && after.contested
            == (before.contested || events[before.first->0 as int] != events[k]),
    ensures
        counts(after, ranks, events, rank, k + 1),
{
    assert(count_of(ranks, rank, (k + 1) as nat) == count_of(ranks, rank, k as nat) + if ranks[k]
        == rank {
        1nat
    } else {
        0
    });
    match before.first {
        None => {
            if ranks[k] == rank {
                assert(!differs(ranks, events, rank, events[k], k + 1)) by {
                    if differs(ranks, events, rank, events[k], k + 1) {
                        let i = choose|i: int|
                            0 <= i < k + 1 && (#[trigger] ranks[i]) == rank && events[i]
                                != events[k];
                        assert(i < k);
                    }
                }
            }
        },
        Some(first) => {
            let event = events[first as int];
            if differs(ranks, events, rank, event, k) {
                let i = choose|i: int|
                    0 <= i < k && (#[trigger] ranks[i]) == rank && events[i] != event;
                assert(0 <= i < k + 1 && ranks[i] == rank && events[i] != event);
            }
            if differs(ranks, events, rank, event, k + 1) {
                let i = choose|i: int|
                    0 <= i < k + 1 && (#[trigger] ranks[i]) == rank && events[i] != event;
                if i < k {
                    assert(differs(ranks, events, rank, event, k));
                }
            }
            if ranks[k] == rank && events[k] != event {
                assert(differs(ranks, events, rank, event, k + 1));
            }
        },
    }
}

/// Counts the occurrences of every identity.
fn tally_events(events: &Vec<Event>, ranks: &Vec<usize>) -> (tallies: Vec<Tally>)
    requires
        numbered(ranks@, canonical::views(events@)),
    ensures
        all_counted(tallies@, ranks@, canonical::views(events@), ranks@.len() as int),
{
    let ghost all = canonical::views(events@);
    let mut tallies: Vec<Tally> = Vec::new();
    while tallies.len() < ranks.len()
        invariant
            tallies@.len() <= ranks@.len(),
            forall|r: int|
                0 <= r < tallies@.len() ==> counts(#[trigger] tallies@[r], ranks@, all, r, 0),
        decreases ranks@.len() - tallies@.len(),
    {
        tallies.push(Tally { first: None, occurrences: 0, contested: false });
    }
    let mut k: usize = 0;
    while k < events.len()
        invariant
            k <= events@.len() == ranks@.len(),
            all == canonical::views(events@),
            numbered(ranks@, all),
            all_counted(tallies@, ranks@, all, k as int),
        decreases events@.len() - k,
    {
        let rank = ranks[k];
        let before = tallies[rank];
        let ghost earlier = tallies@;
        assert(counts(before, ranks@, all, rank as int, k as int));
        let after = match before.first {
            None => Tally { first: Some(k), occurrences: before.occurrences + 1, contested: false },
            Some(first) => Tally {
                first: Some(first),
                occurrences: before.occurrences + 1,
                contested: before.contested || !same_event(&events[first], &events[k]),
            },
        };
        tallies.set(rank, after);
        proof {
            assert forall|r: int| 0 <= r < tallies@.len() implies counts(
                #[trigger] tallies@[r],
                ranks@,
                all,
                r,
                k + 1,
            ) by {
                assert(counts(earlier[r], ranks@, all, r, k as int));
                lemma_counted(earlier[r], tallies@[r], ranks@, all, r, k as int);
            }
        }
        k = k + 1;
    }
    tallies
}

/// As often as its number an identity occurs.
proof fn lemma_occurrences(ranks: Seq<usize>, events: Seq<EventView>, first: int, k: int)
    requires
        numbered(ranks, events),
        0 <= first < events.len(),
        0 <= k <= events.len(),
    ensures
        model::occurrences(events.take(k), events[first].id()).len() == count_of(
            ranks,
            ranks[first] as int,
            k as nat,
        ),
    decreases k,
{
    let id = events[first].id();
    reveal(Seq::filter);
    if k > 0 {
        lemma_occurrences(ranks, events, first, k - 1);
        assert(events.take(k).drop_last() =~= events.take(k - 1));
        assert(events.take(k).last() == events[k - 1]);
        assert((ranks[k - 1] == ranks[first]) == (events[k - 1].id() == id));
    }
}

/// What a whole tally tells of its identity.
proof fn lemma_tallied(tally: Tally, ranks: Seq<usize>, events: Seq<EventView>, rank: int)
    requires
        numbered(ranks, events),
        counts(tally, ranks, events, rank, ranks.len() as int),
        tally.first is Some,
    ensures
        model::conflicted(events, events[tally.first->0 as int].id()) == tally.contested,
        model::occurrences(events, events[tally.first->0 as int].id()).len() == tally.occurrences,
        tally.occurrences > 0,
        forall|i: int|
            0 <= i < ranks.len() && (#[trigger] ranks[i]) == rank ==> events[i].id()
                == events[tally.first->0 as int].id(),
        !tally.contested ==> forall|i: int|
            0 <= i < ranks.len() && (#[trigger] ranks[i]) == rank ==> events[i]
                == events[tally.first->0 as int],
{
    let first = tally.first->0 as int;
    let id = events[first].id();
    let n = ranks.len() as int;
    assert forall|i: int| 0 <= i < n && (#[trigger] ranks[i]) == rank implies events[i].id()
        == id by {
        assert(ranks[i] == ranks[first]);
    }
    assert(model::conflicted(events, id) == tally.contested) by {
        if tally.contested {
            let i = choose|i: int|
                0 <= i < n && (#[trigger] ranks[i]) == rank && events[i] != events[first];
            assert(events[i].id() == id && events[first].id() == id);
        }
        if model::conflicted(events, id) {
            let (i, j) = choose|i: int, j: int|
                0 <= i < events.len() && 0 <= j < events.len() && (#[trigger] events[i]).id() == id
                    && (#[trigger] events[j]).id() == id && events[i] != events[j];
            assert(ranks[i] == ranks[first]);
            assert(ranks[j] == ranks[first]);
            assert(differs(ranks, events, rank, events[first], n));
        }
    }
    assert(events.take(n) =~= events);
    lemma_occurrences(ranks, events, first, n);
    lemma_some_count(ranks, first, rank, n as nat);
}

/// Which identities nothing contests, by the events that bear them.
fn list_clear(ranks: &Vec<usize>, tallies: &Vec<Tally>, Ghost(events): Ghost<Seq<EventView>>) -> (clear:
    Vec<bool>)
    requires
        numbered(ranks@, events),
        all_counted(tallies@, ranks@, events, ranks@.len() as int),
    ensures
        clear@.len() == events.len(),
        forall|i: int|
            0 <= i < events.len() ==> (#[trigger] clear@[i]) == !model::conflicted(
                events,
                events[i].id(),
            ),
{
    let mut clear: Vec<bool> = Vec::new();
    while clear.len() < ranks.len()
        invariant
            clear@.len() <= ranks@.len() == events.len(),
            numbered(ranks@, events),
            all_counted(tallies@, ranks@, events, ranks@.len() as int),
            forall|i: int|
                0 <= i < clear@.len() ==> (#[trigger] clear@[i]) == !model::conflicted(
                    events,
                    events[i].id(),
                ),
        decreases ranks@.len() - clear@.len(),
    {
        let i: usize = clear.len();
        let rank = ranks[i];
        let tally = tallies[rank];
        proof {
            assert(counts(tally, ranks@, events, rank as int, ranks@.len() as int));
            assert(ranks@[i as int] == rank);
            lemma_tallied(tally, ranks@, events, rank as int);
        }
        clear.push(!tally.contested);
    }
    clear
}

/// The rows of the numbers below `r`, in the order of the numbers, each with a place
/// at which its identity stands.
spec fn rows_below(
    rows: Seq<AccountingView>,
    firsts: Seq<int>,
    ranks: Seq<usize>,
    events: Seq<EventView>,
    r: int,
) -> bool {
    &&& rows.len() == firsts.len()
    &&& forall|k: int|
        0 <= k < firsts.len() ==> 0 <= (#[trigger] firsts[k]) < events.len() && ranks[firsts[k]] < r
            && rows[k] == model::accounting_for(events, events[firsts[k]].id())
    &&& forall|a: int, b: int|
        0 <= a < b < firsts.len() ==> ranks[#[trigger] firsts[a]] < ranks[#[trigger] firsts[b]]
    &&& forall|i: int|
        0 <= i < events.len() && (#[trigger] ranks[i]) < r ==> has_row(firsts, ranks, ranks[i])
}

spec fn has_row(firsts: Seq<int>, ranks: Seq<usize>, rank: usize) -> bool {
    exists|k: int| 0 <= k < firsts.len() && ranks[#[trigger] firsts[k]] == rank
}

/// A number without events adds no row.
proof fn lemma_no_row(
    rows: Seq<AccountingView>,
    firsts: Seq<int>,
    ranks: Seq<usize>,
    events: Seq<EventView>,
    r: int,
)
    requires
        rows_below(rows, firsts, ranks, events, r),
        ranks.len() == events.len(),
        forall|i: int| 0 <= i < ranks.len() ==> (#[trigger] ranks[i]) != r,
    ensures
        rows_below(rows, firsts, ranks, events, r + 1),
{
}

/// A number with events adds the row of its identity.
proof fn lemma_one_row(
    rows: Seq<AccountingView>,
    firsts: Seq<int>,
    ranks: Seq<usize>,
    events: Seq<EventView>,
    first: int,
    r: int,
)
    requires
        rows_below(rows, firsts, ranks, events, r),
        ranks.len() == events.len(),
        0 <= first < events.len(),
        ranks[first] == r,
    ensures
        rows_below(
            rows.push(model::accounting_for(events, events[first].id())),
            firsts.push(first),
            ranks,
            events,
            r + 1,
        ),
{
    let all = firsts.push(first);
    let more = rows.push(model::accounting_for(events, events[first].id()));
    assert forall|k: int| 0 <= k < all.len() implies 0 <= (#[trigger] all[k]) < events.len()
        && ranks[all[k]] < r + 1 && more[k] == model::accounting_for(
        events,
        events[all[k]].id(),
    ) by {
        if k < firsts.len() {
            assert(all[k] == firsts[k] && more[k] == rows[k]);
        }
    }
    assert forall|a: int, b: int| 0 <= a < b < all.len() implies ranks[#[trigger] all[a]]
        < ranks[#[trigger] all[b]] by {
        assert(all[a] == firsts[a]);
        if b < firsts.len() {
            assert(all[b] == firsts[b]);
        }
    }
    assert forall|i: int| 0 <= i < events.len() && (#[trigger] ranks[i]) < r + 1 implies has_row(
        all,
        ranks,
        ranks[i],
    ) by {
        if ranks[i] < r {
            assert(has_row(firsts, ranks, ranks[i]));
            let k = choose|k: int| 0 <= k < firsts.len() && ranks[#[trigger] firsts[k]] == ranks[i];
            assert(ranks[all[k]] == ranks[i]);
        } else {
            assert(ranks[all[firsts.len() as int]] == ranks[i]);
        }
    }
}

/// One place for each uncontested identity whose number is below `r`.
spec fn kept_below(
    accepted: Seq<usize>,
    ranks: Seq<usize>,
    events: Seq<EventView>,
    r: int,
) -> bool {
    &&& forall|k: int|
        0 <= k < accepted.len() ==> (#[trigger] accepted[k]) < events.len()
            && ranks[accepted[k] as int] < r && model::trusted(events, events[accepted[k] as int])
    &&& forall|a: int, b: int|
        0 <= a < b < accepted.len() ==> ranks[#[trigger] accepted[a] as int]
            < ranks[#[trigger] accepted[b] as int]
    &&& forall|i: int|
        0 <= i < events.len() && (#[trigger] ranks[i]) < r && !model::conflicted(
            events,
            events[i].id(),
        ) ==> owned::owned(accepted, events, events[i])
}

/// A number without events, or with contested ones, adds no place.
proof fn lemma_none_kept(
    accepted: Seq<usize>,
    ranks: Seq<usize>,
    events: Seq<EventView>,
    r: int,
)
    requires
        kept_below(accepted, ranks, events, r),
        ranks.len() == events.len(),
        forall|i: int|
            0 <= i < ranks.len() && (#[trigger] ranks[i]) == r ==> model::conflicted(
                events,
                events[i].id(),
            ),
    ensures
        kept_below(accepted, ranks, events, r + 1),
{
}

/// A number with uncontested events adds the place of the first.
proof fn lemma_one_kept(
    accepted: Seq<usize>,
    ranks: Seq<usize>,
    events: Seq<EventView>,
    first: usize,
    r: int,
)
    requires
        kept_below(accepted, ranks, events, r),
        ranks.len() == events.len(),
        first < events.len(),
        ranks[first as int] == r,
        !model::conflicted(events, events[first as int].id()),
        forall|i: int|
            0 <= i < ranks.len() && (#[trigger] ranks[i]) == r ==> events[i]
                == events[first as int],
    ensures
        kept_below(accepted.push(first), ranks, events, r + 1),
{
    let more = accepted.push(first);
    assert(events.contains(events[first as int]));
    assert forall|k: int| 0 <= k < more.len() implies (#[trigger] more[k]) < events.len()
        && ranks[more[k] as int] < r + 1 && model::trusted(events, events[more[k] as int]) by {
        if k < accepted.len() {
            assert(more[k] == accepted[k]);
        }
    }
    assert forall|a: int, b: int| 0 <= a < b < more.len() implies ranks[#[trigger] more[a] as int]
        < ranks[#[trigger] more[b] as int] by {
        assert(more[a] == accepted[a]);
        if b < accepted.len() {
            assert(more[b] == accepted[b]);
        }
    }
    assert forall|i: int|
        0 <= i < events.len() && (#[trigger] ranks[i]) < r + 1 && !model::conflicted(
            events,
            events[i].id(),
        ) implies owned::owned(more, events, events[i]) by {
        if ranks[i] < r {
            assert(owned::owned(accepted, events, events[i]));
            let k = choose|k: int|
                0 <= k < accepted.len() && events[#[trigger] accepted[k] as int] == events[i];
            assert(events[more[k] as int] == events[i]);
        } else {
            assert(events[more[accepted.len() as int] as int] == events[i]);
        }
    }
}

/// Rows of all numbers are the accounting of the events.
proof fn lemma_all_rows(
    rows: Seq<AccountingView>,
    firsts: Seq<int>,
    ranks: Seq<usize>,
    events: Seq<EventView>,
)
    requires
        numbered(ranks, events),
        rows_below(rows, firsts, ranks, events, ranks.len() as int),
    ensures
        rows == model::accounting_of(events),
{
    let listed = firsts.map_values(|first: int| events[first].id());
    assert forall|a: int, b: int| 0 <= a < b < listed.len() implies text::text_lt(
        #[trigger] listed[a],
        #[trigger] listed[b],
    ) by {
        assert(ranks[firsts[a]] < ranks[firsts[b]]);
    }
    assert forall|t: Seq<char>| #[trigger] listed.contains(t) <==> model::event_ids(
        events,
    ).contains(t) by {
        if listed.contains(t) {
            let k = choose|k: int| 0 <= k < listed.len() && listed[k] == t;
            assert(events[firsts[k]].id() == t);
        }
        if model::event_ids(events).contains(t) {
            let i = choose|i: int| 0 <= i < events.len() && (#[trigger] events[i]).id() == t;
            assert(ranks[i] < ranks.len());
            assert(has_row(firsts, ranks, ranks[i]));
            let k = choose|k: int| 0 <= k < firsts.len() && ranks[#[trigger] firsts[k]] == ranks[i];
            assert(listed[k] == t);
        }
    }
    text::lemma_in_order(listed, model::event_ids(events));
    assert(rows =~= model::accounting_of(events));
}

/// Places of all numbers are the accepted ones.
proof fn lemma_all_kept(accepted: Seq<usize>, ranks: Seq<usize>, events: Seq<EventView>)
    requires
        numbered(ranks, events),
        kept_below(accepted, ranks, events, ranks.len() as int),
    ensures
        canonical::selects(accepted, events),
{
    assert forall|a: int, b: int| 0 <= a < b < accepted.len() implies text::text_lt(
        events[#[trigger] accepted[a] as int].id(),
        events[#[trigger] accepted[b] as int].id(),
    ) by {
        assert(ranks[accepted[a] as int] < ranks[accepted[b] as int]);
    }
    assert forall|event: EventView| #[trigger] model::trusted(events, event) implies exists|k: int|
        0 <= k < accepted.len() && events[#[trigger] accepted[k] as int] == event by {
        let i = choose|i: int| 0 <= i < events.len() && events[i] == event;
        assert(ranks[i] < ranks.len());
        assert(owned::owned(accepted, events, events[i]));
    }
}

/// The row of an identity, as its tally has it.
fn row_of(event: &Event, tally: Tally) -> (row: EventAccounting)
    ensures
        row@.event_id == event@.id(),
        row@.input_occurrences == tally.occurrences,
        row@.disposition == (if tally.contested {
            "quarantined_conflict"@
        } else if tally.occurrences == 1 {
            "accepted"@
        } else {
            "accepted_with_exact_retries"@
        }),
{
    let disposition = if tally.contested {
        "quarantined_conflict".to_owned()
    } else if tally.occurrences == 1 {
        "accepted".to_owned()
    } else {
        "accepted_with_exact_retries".to_owned()
    };
    EventAccounting {
        event_id: event.event_id().to_owned(),
        input_occurrences: tally.occurrences,
        disposition,
    }
}

/// How many rows are contested, and how many retries the others have.
spec fn sums(rows: Seq<AccountingView>, conflicts: nat, duplicates: nat) -> bool {
    &&& conflicts == model::rows_with(rows, "quarantined_conflict"@)
    &&& duplicates == seqs::sum(rows.map_values(|row: AccountingView| canonical::retries(row)))
}

/// One row more is summed.
proof fn lemma_sums(rows: Seq<AccountingView>, row: AccountingView, conflicts: nat, duplicates: nat)
    requires
        sums(rows, conflicts, duplicates),
    ensures
        row.disposition == "quarantined_conflict"@ ==> sums(
            rows.push(row),
            conflicts + 1,
            duplicates,
        ),
        row.disposition != "quarantined_conflict"@ ==> sums(
            rows.push(row),
            conflicts,
            duplicates + canonical::retries(row),
        ),
{
    let of_row = |row: AccountingView| canonical::retries(row);
    let more = rows.push(row);
    reveal(Seq::filter);
    assert(more.drop_last() =~= rows);
    assert(more.map_values(of_row) =~= rows.map_values(of_row).push(canonical::retries(row)));
    seqs::lemma_sum_push(rows.map_values(of_row), canonical::retries(row));
}

proof fn lemma_dispositions()
    ensures
        "quarantined_conflict"@ != "accepted"@,
        "quarantined_conflict"@ != "accepted_with_exact_retries"@,
{
    reveal_strlit("quarantined_conflict");
    reveal_strlit("accepted");
    reveal_strlit("accepted_with_exact_retries");
    assert("quarantined_conflict"@.len() == 20);
    assert("accepted"@.len() == 8);
    assert("accepted_with_exact_retries"@.len() == 27);
}

/// Collapses exact retries and quarantines contested identities.
pub fn tally_identities(events: &Vec<Event>) -> (canonical: Canonical)
    ensures
        canonical.describes(canonical::views(events@)),
{
    let ghost all = canonical::views(events@);
    let mut ids: Vec<&str> = Vec::new();
    while ids.len() < events.len()
        invariant
            ids@.len() <= events@.len(),
            all == canonical::views(events@),
            forall|j: int| 0 <= j < ids@.len() ==> (#[trigger] ids@[j])@ == all[j].id(),
        decreases events@.len() - ids@.len(),
    {
        let i: usize = ids.len();
        ids.push(events[i].event_id());
    }
    let ranks = rank_texts(&ids);
    assert(numbered(ranks@, all)) by {
        assert forall|i: int, j: int|
            0 <= i < ranks@.len() && 0 <= j < ranks@.len() implies {
            &&& (#[trigger] ranks@[i] < #[trigger] ranks@[j] <==> text::text_lt(
                all[i].id(),
                all[j].id(),
            ))
            &&& (ranks@[i] == ranks@[j] <==> all[i].id() == all[j].id())
        } by {
            assert(ids@[i]@ == all[i].id() && ids@[j]@ == all[j].id());
        }
    }
    let tallies = tally_events(events, &ranks);
    let clear = list_clear(&ranks, &tallies, Ghost(all));
    let mut accepted: Vec<usize> = Vec::new();
    let mut rows: Vec<EventAccounting> = Vec::new();
    let mut exact_duplicates: usize = 0;
    let mut conflicts: usize = 0;
    let ghost n = ranks@.len();
    let ghost mut firsts: Seq<int> = Seq::empty();
    let ghost mut shown: Seq<AccountingView> = Seq::empty();
    let mut r: usize = 0;
    proof {
        lemma_dispositions();
        reveal(Seq::filter);
        assert(shown.map_values(|row: AccountingView| canonical::retries(row)) =~= Seq::<
            nat,
        >::empty());
        assert(rows@.map_values(|row: EventAccounting| row@) =~= shown);
    }
    while r < tallies.len()
        invariant
            r <= tallies@.len() == n,
            n == ranks@.len() == all.len() == events@.len(),
            all == canonical::views(events@),
            numbered(ranks@, all),
            all_counted(tallies@, ranks@, all, n as int),
            "quarantined_conflict"@ != "accepted"@,
            "quarantined_conflict"@ != "accepted_with_exact_retries"@,
            shown == rows@.map_values(|row: EventAccounting| row@),
            rows_below(shown, firsts, ranks@, all, r as int),
            kept_below(accepted@, ranks@, all, r as int),
            sums(shown, conflicts as nat, exact_duplicates as nat),
            accepted@.len() + conflicts == rows@.len(),
            rows@.len() <= r,
            exact_duplicates <= count_below(ranks@, r as int, n),
        decreases tallies@.len() - r,
    {
        let tally = tallies[r];
        proof {
            assert(counts(tally, ranks@, all, r as int, n as int));
            lemma_below(ranks@, r as int, n);
        }
        match tally.first {
            None => {
                proof {
                    lemma_no_row(shown, firsts, ranks@, all, r as int);
                    lemma_none_kept(accepted@, ranks@, all, r as int);
                }
            },
            Some(first) => {
                let ghost id = all[first as int].id();
                let ghost row = model::accounting_for(all, id);
                let ghost before = rows@;
                proof {
                    lemma_tallied(tally, ranks@, all, r as int);
                    lemma_one_row(shown, firsts, ranks@, all, first as int, r as int);
                    lemma_sums(shown, row, conflicts as nat, exact_duplicates as nat);
                    if tally.contested {
                        lemma_none_kept(accepted@, ranks@, all, r as int);
                    } else {
                        lemma_one_kept(accepted@, ranks@, all, first, r as int);
                    }
                }
                if tally.contested {
                    conflicts = conflicts + 1;
                } else {
                    exact_duplicates = exact_duplicates + (tally.occurrences - 1);
                    accepted.push(first);
                }
                rows.push(row_of(&events[first], tally));
                proof {
                    assert(rows@[before.len() as int]@ == row);
                    firsts = firsts.push(first as int);
                    shown = shown.push(row);
                    assert(rows@.map_values(|row: EventAccounting| row@) =~= shown);
                }
            },
        }
        r = r + 1;
    }
    proof {
        lemma_all_rows(shown, firsts, ranks@, all);
        lemma_all_kept(accepted@, ranks@, all);
    }
    Canonical { accepted, clear, event_accounting: rows, exact_duplicates, conflicts }
}

} // verus!
