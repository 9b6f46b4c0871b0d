//! What the payment results of a return say of its lines.

use vstd::prelude::*;
use crate::refund::canonical;
use crate::refund::model;
use crate::refund::model::{AuthorizedLine, Event, EventView, LineView, PaymentBlock, PaymentStatus};
use crate::refund::owned;
use crate::refund::settle;
use crate::sorting;
use crate::sorting::{order_places, Place};
use crate::text;
use crate::text::{is_text_le, rank_texts, same_text};

verus! {

/// The payment results for one line, among the first `n` events of a return.
spec fn line_payments(
    pays: Seq<usize>,
    mine: Seq<usize>,
    events: Seq<EventView>,
    line: Seq<char>,
    n: int,
) -> bool {
    &&& forall|p: int|
        0 <= p < pays.len() ==> (#[trigger] pays[p]) < events.len() && pays_line(
            events[pays[p] as int],
            line,
        ) && mine.contains(pays[p])
    &&& forall|k: int|
        0 <= k < n && pays_line(events[#[trigger] mine[k] as int], line) ==> pays.contains(mine[k])
}

pub open spec fn pays_line(event: EventView, line: Seq<char>) -> bool {
    event matches EventView::PaymentResult { line_id, .. } && line_id == line
}

/// The fields of a payment result.
#[derive(Clone, Copy)]
struct Payment<'a> {
    line: &'a str,
    refund: &'a str,
    amount: u64,
    status: PaymentStatus,
}

fn payment_of(event: &Event) -> (payment: Option<Payment>)
    ensures
        match payment {
            Some(payment) => event@ is PaymentResult && event@->PaymentResult_line_id
                == payment.line@ && event@->PaymentResult_refund_id == payment.refund@
                && event@->amount_cents == payment.amount && event@->PaymentResult_status
                == payment.status,
            None => !(event@ is PaymentResult),
        },
{
    match event {
        Event::PaymentResult { line_id, refund_id, amount_cents, status, .. } => Some(
            Payment {
                line: line_id.as_str(),
                refund: refund_id.as_str(),
                amount: *amount_cents,
                status: *status,
            },
        ),
        _ => None,
    }
}

fn collect_payments<'a>(
    events: &'a Vec<Event>,
    mine: &Vec<usize>,
    line: &str,
    Ghost(owner): Ghost<Seq<char>>,
) -> (pays: Vec<usize>)
    requires
        owned::owns(mine@, canonical::views(events@), owner),
    ensures
        line_payments(pays@, mine@, canonical::views(events@), line@, mine@.len() as int),
{
    let ghost all = canonical::views(events@);
    let mut pays: Vec<usize> = Vec::new();
    let mut k: usize = 0;
    while k < mine.len()
        invariant
            k <= mine@.len(),
            all == canonical::views(events@),
            owned::owns(mine@, all, owner),
            line_payments(pays@, mine@, all, line@, k as int),
        decreases mine@.len() - k,
    {
        let ghost before = pays@;
        let place = mine[k];
        let takes = match payment_of(&events[place]) {
            Some(payment) => same_text(payment.line, line),
            None => false,
        };
        if takes {
            pays.push(place);
            proof {
                assert(mine@.contains(mine@[k as int]));
                assert forall|x: int|
                    0 <= x < k + 1 && pays_line(all[#[trigger] mine@[x] as int], line@) implies pays@.contains(
                mine@[x]) by {
                    if x < k {
                        assert(before.contains(mine@[x]));
                        let p = choose|p: int| 0 <= p < before.len() && before[p] == mine@[x];
                        assert(pays@[p] == mine@[x]);
                    } else {
                        assert(pays@[before.len() as int] == mine@[x]);
                    }
                }
            }
        }
        k = k + 1;
    }
    pays
}

/// The attempts of a line are its payment results.
proof fn lemma_attempts(
    pays: Seq<usize>,
    mine: Seq<usize>,
    events: Seq<EventView>,
    owner: Seq<char>,
    line: Seq<char>,
)
    requires
        owned::owns(mine, events, owner),
        line_payments(pays, mine, events, line, mine.len() as int),
    ensures
        forall|p: int|
            0 <= p < pays.len() ==> model::attempt(
                events,
                events[#[trigger] pays[p] as int],
                owner,
                line,
                events[pays[p] as int]->PaymentResult_refund_id,
            ),
        forall|event: EventView, refund: Seq<char>| #[trigger]
            model::attempt(events, event, owner, line, refund) ==> event->PaymentResult_refund_id
                == refund && exists|p: int|
                0 <= p < pays.len() && events[#[trigger] pays[p] as int] == event,
{
    assert forall|p: int| 0 <= p < pays.len() implies model::attempt(
        events,
        events[#[trigger] pays[p] as int],
        owner,
        line,
        events[pays[p] as int]->PaymentResult_refund_id,
    ) by {
        let k = choose|k: int| 0 <= k < mine.len() && mine[k] == pays[p];
        assert(model::trusted(events, events[mine[k] as int]));
    }
    assert forall|event: EventView, refund: Seq<char>| #[trigger]
        model::attempt(events, event, owner, line, refund) implies event->PaymentResult_refund_id == refund
        && exists|p: int| 0 <= p < pays.len() && events[#[trigger] pays[p] as int] == event by {
        assert(owned::owned(mine, events, event));
        let k = choose|k: int| 0 <= k < mine.len() && events[#[trigger] mine[k] as int] == event;
        assert(pays.contains(mine[k]));
        let p = choose|p: int| 0 <= p < pays.len() && pays[p] == mine[k];
        assert(events[pays[p] as int] == event);
    }
}

spec fn refund_at(pays: Seq<usize>, events: Seq<EventView>, p: int) -> Seq<char> {
    events[pays[p] as int]->PaymentResult_refund_id
}

/// What a run of results for one refund shows of the attempt.
proof fn lemma_attempt_run(
    pays: Seq<usize>,
    mine: Seq<usize>,
    events: Seq<EventView>,
    owner: Seq<char>,
    line: Seq<char>,
    members: Seq<int>,
    refund: Seq<char>,
    differ: bool,
    success: bool,
    pending: bool,
)
    requires
        owned::owns(mine, events, owner),
        line_payments(pays, mine, events, line, mine.len() as int),
        members.len() > 0,
        forall|m: int|
            0 <= m < members.len() ==> 0 <= (#[trigger] members[m]) < pays.len() && refund_at(
                pays,
                events,
                members[m],
            ) == refund,
        forall|p: int|
            0 <= p < pays.len() && refund_at(pays, events, p) == refund
                ==> #[trigger] members.contains(p),
        differ == exists|m: int|
            0 <= m < members.len() && events[pays[#[trigger] members[m]] as int]->amount_cents
                != events[pays[members[0]] as int]->amount_cents,
        success == exists|m: int|
            0 <= m < members.len() && events[pays[
            #[trigger] members[m]] as int]->PaymentResult_status == PaymentStatus::Successful,
        pending == exists|m: int|
            0 <= m < members.len() && events[pays[
            #[trigger] members[m]] as int]->PaymentResult_status == PaymentStatus::Pending,
    ensures
        model::amounts_differ(events, owner, line, refund) == differ,
        model::attempt_has(events, owner, line, refund, PaymentStatus::Successful) == success,
        model::attempt_has(events, owner, line, refund, PaymentStatus::Pending) == pending,
{
    lemma_attempts(pays, mine, events, owner, line);
    let first = events[pays[members[0]] as int];
    assert(model::attempt(events, first, owner, line, refund));
    assert forall|event: EventView| #[trigger]
        model::attempt(events, event, owner, line, refund) implies exists|m: int|
        0 <= m < members.len() && events[pays[#[trigger] members[m]] as int] == event by {
        let p = choose|p: int| 0 <= p < pays.len() && events[#[trigger] pays[p] as int] == event;
        assert(refund_at(pays, events, p) == refund);
        assert(members.contains(p));
        let m = choose|m: int| 0 <= m < members.len() && members[m] == p;
        assert(events[pays[members[m]] as int] == event);
    }
    assert forall|m: int| 0 <= m < members.len() implies model::attempt(
        events,
        events[pays[#[trigger] members[m]] as int],
        owner,
        line,
        refund,
    ) by {
        assert(refund_at(pays, events, members[m]) == refund);
    }
    if differ {
        let m = choose|m: int|
            0 <= m < members.len() && events[pays[#[trigger] members[m]] as int]->amount_cents
                != first->amount_cents;
        assert(model::attempt(events, events[pays[members[m]] as int], owner, line, refund));
    }
    if model::amounts_differ(events, owner, line, refund) {
        let (a, b) = choose|a: EventView, b: EventView| #[trigger]
            model::attempt(events, a, owner, line, refund) && #[trigger] model::attempt(
                events,
                b,
                owner,
                line,
                refund,
            ) && a->amount_cents != b->amount_cents;
        let x = choose|m: int|
            0 <= m < members.len() && events[pays[#[trigger] members[m]] as int] == a;
        let y = choose|m: int|
            0 <= m < members.len() && events[pays[#[trigger] members[m]] as int] == b;
        assert(events[pays[members[x]] as int] == a && events[pays[members[y]] as int] == b);
    }
    if success {
        let m = choose|m: int|
            0 <= m < members.len() && events[pays[
            #[trigger] members[m]] as int]->PaymentResult_status == PaymentStatus::Successful;
        assert(model::attempt(events, events[pays[members[m]] as int], owner, line, refund));
    }
    if pending {
        let m = choose|m: int|
            0 <= m < members.len() && events[pays[
            #[trigger] members[m]] as int]->PaymentResult_status == PaymentStatus::Pending;
        assert(model::attempt(events, events[pays[members[m]] as int], owner, line, refund));
    }
}

/// What blocks one line, and whether any of its attempts names two amounts.
pub struct LineState {
    pub block: Option<PaymentBlock>,
    pub contradictory: bool,
}

impl LineState {
    pub open spec fn describes(
        self,
        events: Seq<EventView>,
        owner: Seq<char>,
        line: Seq<char>,
    ) -> bool {
        &&& self.block == model::block_of(events, owner, line)
        &&& self.contradictory == exists|refund: Seq<char>| #[trigger]
            model::amounts_differ(events, owner, line, refund)
    }
}

/// The state of a line from the decisions of its attempts.
proof fn lemma_line_state(
    pays: Seq<usize>,
    mine: Seq<usize>,
    events: Seq<EventView>,
    owner: Seq<char>,
    line: Seq<char>,
    decided: Option<int>,
    pending: bool,
    contradictory: bool,
)
    requires
        owned::owns(mine, events, owner),
        line_payments(pays, mine, events, line, mine.len() as int),
        match decided {
            Some(q) => 0 <= q < pays.len() && model::decides(
                events,
                owner,
                line,
                refund_at(pays, events, q),
            ) && forall|p: int|
                0 <= p < pays.len() && model::decides(
                    events,
                    owner,
                    line,
                    #[trigger] refund_at(pays, events, p),
                ) ==> text::text_le(refund_at(pays, events, p), refund_at(pays, events, q)),
            None => forall|p: int|
                0 <= p < pays.len() ==> !model::decides(
                    events,
                    owner,
                    line,
                    #[trigger] refund_at(pays, events, p),
                ),
        },
        pending == exists|p: int|
            0 <= p < pays.len() && model::attempt_has(
                events,
                owner,
                line,
                #[trigger] refund_at(pays, events, p),
                PaymentStatus::Pending,
            ),
        contradictory == exists|p: int|
            0 <= p < pays.len() && model::amounts_differ(
                events,
                owner,
                line,
                #[trigger] refund_at(pays, events, p),
            ),
    ensures
        model::block_of(events, owner, line) == (match decided {
            Some(q) => Some(
                if model::amounts_differ(events, owner, line, refund_at(pays, events, q)) {
                    PaymentBlock::Pending
                } else {
                    PaymentBlock::Successful
                },
            ),
            None => if pending {
                Some(PaymentBlock::Pending)
            } else {
                None
            },
        }),
        contradictory == exists|refund: Seq<char>| #[trigger]
            model::amounts_differ(events, owner, line, refund),
{
    lemma_attempts(pays, mine, events, owner, line);
    assert forall|refund: Seq<char>| #[trigger] model::decides(
        events,
        owner,
        line,
        refund,
    ) implies exists|p: int|
        0 <= p < pays.len() && #[trigger] refund_at(pays, events, p) == refund by {
        let a = if model::amounts_differ(events, owner, line, refund) {
            let (a, b) = choose|a: EventView, b: EventView| #[trigger]
                model::attempt(events, a, owner, line, refund) && #[trigger] model::attempt(
                    events,
                    b,
                    owner,
                    line,
                    refund,
                ) && a->amount_cents != b->amount_cents;
            a
        } else {
            choose|a: EventView| #[trigger]
                model::attempt(events, a, owner, line, refund) && a->PaymentResult_status
                    == PaymentStatus::Successful
        };
        assert(model::attempt(events, a, owner, line, refund));
        let p = choose|p: int| 0 <= p < pays.len() && events[#[trigger] pays[p] as int] == a;
        assert(refund_at(pays, events, p) == refund);
    }
    if contradictory {
        let p = choose|p: int|
            0 <= p < pays.len() && model::amounts_differ(
                events,
                owner,
                line,
                #[trigger] refund_at(pays, events, p),
            );
        assert(model::amounts_differ(events, owner, line, refund_at(pays, events, p)));
    }
    if exists|refund: Seq<char>| #[trigger] model::amounts_differ(events, owner, line, refund) {
        let refund = choose|refund: Seq<char>| #[trigger]
            model::amounts_differ(events, owner, line, refund);
        assert(model::decides(events, owner, line, refund));
        let p = choose|p: int|
            0 <= p < pays.len() && #[trigger] refund_at(pays, events, p) == refund;
        assert(model::amounts_differ(events, owner, line, refund_at(pays, events, p)));
    }
    match decided {
        Some(q) => {
            let refund = refund_at(pays, events, q);
            assert(model::decides_last(events, owner, line, refund));
            owned::lemma_block_decided(events, owner, line, refund);
        },
        None => {
            if exists|refund: Seq<char>| #[trigger] model::decides(events, owner, line, refund) {
                let refund = choose|refund: Seq<char>| #[trigger]
                    model::decides(events, owner, line, refund);
                let p = choose|p: int|
                    0 <= p < pays.len() && #[trigger] refund_at(pays, events, p) == refund;
                assert(!model::decides(events, owner, line, refund_at(pays, events, p)));
            }
            if exists|refund: Seq<char>| #[trigger]
                model::attempt_has(events, owner, line, refund, PaymentStatus::Pending) {
                let refund = choose|refund: Seq<char>| #[trigger]
                    model::attempt_has(events, owner, line, refund, PaymentStatus::Pending);
                let a = choose|a: EventView| #[trigger]
                    model::attempt(events, a, owner, line, refund) && a->PaymentResult_status
                        == PaymentStatus::Pending;
                let p = choose|p: int|
                    0 <= p < pays.len() && events[#[trigger] pays[p] as int] == a;
                assert(model::attempt_has(
                    events,
                    owner,
                    line,
                    refund_at(pays, events, p),
                    PaymentStatus::Pending,
                ));
            }
            if pending {
                let p = choose|p: int|
                    0 <= p < pays.len() && model::attempt_has(
                        events,
                        owner,
                        line,
                        #[trigger] refund_at(pays, events, p),
                        PaymentStatus::Pending,
                    );
                assert(model::attempt_has(
                    events,
                    owner,
                    line,
                    refund_at(pays, events, p),
                    PaymentStatus::Pending,
                ));
            }
        },
    }
}

/// Judges a line by looking, for each of its results, at all results of the
/// same refund.
pub fn line_state_by_scanning(
    events: &Vec<Event>,
    mine: &Vec<usize>,
    line: &str,
    Ghost(owner): Ghost<Seq<char>>,
) -> (state: LineState)
    requires
        owned::owns(mine@, canonical::views(events@), owner),
    ensures
        state.describes(canonical::views(events@), owner, line@),
{
    let ghost all = canonical::views(events@);
    let pays = collect_payments(events, mine, line, Ghost(owner));
    let mut decided: Option<usize> = None;
    let mut decided_differ = false;
    let mut pending_any = false;
    let mut contradictory = false;
    let mut p: usize = 0;
    while p < pays.len()
        invariant
            p <= pays@.len(),
            all == canonical::views(events@),
            owned::owns(mine@, all, owner),
            line_payments(pays@, mine@, all, line@, mine@.len() as int),
            match decided {
                Some(q) => q < p && model::decides(
                    all,
                    owner,
                    line@,
                    refund_at(pays@, all, q as int),
                ) && decided_differ == model::amounts_differ(
                    all,
                    owner,
                    line@,
                    refund_at(pays@, all, q as int),
                ) && forall|x: int|
                    0 <= x < p && model::decides(all, owner, line@, #[trigger] refund_at(pays@, all, x))
                        ==> text::text_le(refund_at(pays@, all, x), refund_at(pays@, all, q as int)),
                None => forall|x: int|
                    0 <= x < p ==> !model::decides(all, owner, line@, #[trigger] refund_at(pays@, all, x)),
            },
            pending_any == exists|x: int|
                0 <= x < p && model::attempt_has(
                    all,
                    owner,
                    line@,
                    #[trigger] refund_at(pays@, all, x),
                    PaymentStatus::Pending,
                ),
            contradictory == exists|x: int|
                0 <= x < p && model::amounts_differ(
                    all,
                    owner,
                    line@,
                    #[trigger] refund_at(pays@, all, x),
                ),
        decreases pays@.len() - p,
    {
        let ghost refund = refund_at(pays@, all, p as int);
        if let Some(payment) = payment_of(&events[pays[p]]) {
            let (differ, success, pending) = attempt_by_scanning(
                events,
                mine,
                &pays,
                payment.refund,
                p,
                Ghost(owner),
                Ghost(line@),
            );
            if differ || success {
                let replaces = match decided {
                    None => true,
                    Some(q) => match payment_of(&events[pays[q]]) {
                        Some(old) => {
                            let le = is_text_le(old.refund, payment.refund);
                            proof {
                                text::lemma_text_total(old.refund@, payment.refund@);
                                if le {
                                    assert forall|x: int|
                                        0 <= x < p && model::decides(
                                            all,
                                            owner,
                                            line@,
                                            #[trigger] refund_at(pays@, all, x),
                                        ) implies text::text_le(refund_at(pays@, all, x), refund) by {
                                        text::lemma_text_transitive(
                                            refund_at(pays@, all, x),
                                            refund_at(pays@, all, q as int),
                                            refund,
                                        );
                                    }
                                }
                            }
                            le
                        },
                        None => false,
                    },
                };
                proof {
                    text::lemma_text_total(refund, refund);
                }
                if replaces {
                    decided = Some(p);
                    decided_differ = differ;
                }
            }
            if pending {
                pending_any = true;
                assert(model::attempt_has(
                    all,
                    owner,
                    line@,
                    refund_at(pays@, all, p as int),
                    PaymentStatus::Pending,
                ));
            }
            if differ {
                contradictory = true;
                assert(model::amounts_differ(all, owner, line@, refund_at(pays@, all, p as int)));
            }
        }
        p = p + 1;
    }
    let ghost decided_at: Option<int> = match decided {
        Some(q) => Some(q as int),
        None => None,
    };
    proof {
        lemma_line_state(
            pays@,
            mine@,
            all,
            owner,
            line@,
            decided_at,
            pending_any,
            contradictory,
        );
    }
    let block = match decided {
        Some(_) => if decided_differ {
            Some(PaymentBlock::Pending)
        } else {
            Some(PaymentBlock::Successful)
        },
        None => if pending_any {
            Some(PaymentBlock::Pending)
        } else {
            None
        },
    };
    LineState { block, contradictory }
}

/// Looks at all results of one refund: whether amounts differ, whether one
/// succeeded, whether one is pending.
fn attempt_by_scanning(
    events: &Vec<Event>,
    mine: &Vec<usize>,
    pays: &Vec<usize>,
    refund: &str,
    at: usize,
    Ghost(owner): Ghost<Seq<char>>,
    Ghost(line): Ghost<Seq<char>>,
) -> (seen: (bool, bool, bool))
    requires
        owned::owns(mine@, canonical::views(events@), owner),
        line_payments(pays@, mine@, canonical::views(events@), line, mine@.len() as int),
        at < pays@.len(),
        refund_at(pays@, canonical::views(events@), at as int) == refund@,
    ensures
        seen.0 == model::amounts_differ(canonical::views(events@), owner, line, refund@),
        seen.1 == model::attempt_has(canonical::views(events@), owner, line, refund@, PaymentStatus::Successful),
        seen.2 == model::attempt_has(canonical::views(events@), owner, line, refund@, PaymentStatus::Pending),
{
    let ghost all = canonical::views(events@);
    let mut first: Option<u64> = None;
    let mut differ = false;
    let mut success = false;
    let mut pending = false;
    let ghost mut members: Seq<int> = Seq::empty();
    let mut p: usize = 0;
    while p < pays.len()
        invariant
            p <= pays@.len(),
            all == canonical::views(events@),
            line_payments(pays@, mine@, all, line, mine@.len() as int),
            at < pays@.len(),
            refund_at(pays@, all, at as int) == refund@,
            forall|m: int|
                0 <= m < members.len() ==> 0 <= (#[trigger] members[m]) < p && refund_at(
                    pays@,
                    all,
                    members[m],
                ) == refund@,
            forall|x: int|
                0 <= x < p && refund_at(pays@, all, x) == refund@ ==> #[trigger] members.contains(
                    x,
                ),
            first is None <==> members.len() == 0,
            first is Some ==> first->0 == all[pays@[members[0]] as int]->amount_cents,
            differ == exists|m: int|
                0 <= m < members.len() && all[pays@[#[trigger] members[m]] as int]->amount_cents
                    != all[pays@[members[0]] as int]->amount_cents,
            success == exists|m: int|
                0 <= m < members.len() && all[pays@[
                #[trigger] members[m]] as int]->PaymentResult_status == PaymentStatus::Successful,
            pending == exists|m: int|
                0 <= m < members.len() && all[pays@[
                #[trigger] members[m]] as int]->PaymentResult_status == PaymentStatus::Pending,
        decreases pays@.len() - p,
    {
        let ghost before = members;
        if let Some(payment) = payment_of(&events[pays[p]]) {
            if same_text(payment.refund, refund) {
                let ghost (d0, s0, p0) = (differ, success, pending);
                match first {
                    None => {
                        first = Some(payment.amount);
                    },
                    Some(amount) => {
                        if amount != payment.amount {
                            differ = true;
                        }
                    },
                }
                match payment.status {
                    PaymentStatus::Successful => {
                        success = true;
                    },
                    PaymentStatus::Pending => {
                        pending = true;
                    },
                    PaymentStatus::Failed => {},
                }
                proof {
                    members = members.push(p as int);
                    let last = before.len() as int;
                    assert(members[last] == p);
                    assert(members[0] == (if before.len() == 0 {
                        p as int
                    } else {
                        before[0]
                    }));
                    assert forall|x: int|
                        0 <= x < p + 1 && refund_at(pays@, all, x)
                            == refund@ implies #[trigger] members.contains(x) by {
                        if x < p {
                            assert(before.contains(x));
                            let m = choose|m: int| 0 <= m < before.len() && before[m] == x;
                            assert(members[m] == x);
                        }
                    }
                    if d0 {
                        let m = choose|m: int|
                            0 <= m < before.len() && all[pays@[
                            #[trigger] before[m]] as int]->amount_cents
                                != all[pays@[before[0]] as int]->amount_cents;
                        assert(members[m] == before[m]);
                    }
                    if s0 {
                        let m = choose|m: int|
                            0 <= m < before.len() && all[pays@[
                            #[trigger] before[m]] as int]->PaymentResult_status
                                == PaymentStatus::Successful;
                        assert(members[m] == before[m]);
                    }
                    if p0 {
                        let m = choose|m: int|
                            0 <= m < before.len() && all[pays@[
                            #[trigger] before[m]] as int]->PaymentResult_status
                                == PaymentStatus::Pending;
                        assert(members[m] == before[m]);
                    }
                    assert forall|m: int| 0 <= m < before.len() implies before[m]
                        == #[trigger] members[m] by {}
                }
            }
        }
        p = p + 1;
    }
    proof {
        assert(members.contains(at as int));
        lemma_attempt_run(
            pays@,
            mine@,
            all,
            owner,
            line,
            members,
            refund@,
            differ,
            success,
            pending,
        );
    }
    (differ, success, pending)
}

/// The results as plain values.
spec fn results_match(
    results: Seq<(u64, PaymentStatus)>,
    pays: Seq<usize>,
    events: Seq<EventView>,
) -> bool {
    &&& results.len() == pays.len()
    &&& forall|x: int|
        0 <= x < pays.len() ==> (#[trigger] results[x]).0 == events[pays[x] as int]->amount_cents
            && results[x].1 == events[pays[x] as int]->PaymentResult_status
}

/// Equal ranks stand for equal refunds.
spec fn ranks_match(ranks: Seq<usize>, pays: Seq<usize>, events: Seq<EventView>) -> bool {
    &&& ranks.len() == pays.len()
    &&& forall|x: int, y: int|
        0 <= x < pays.len() && 0 <= y < pays.len() ==> (#[trigger] ranks[x] == #[trigger] ranks[y]
            <==> refund_at(pays, events, x) == refund_at(pays, events, y))
}

proof fn lemma_judged_run(
    pays: Seq<usize>,
    mine: Seq<usize>,
    results: Seq<(u64, PaymentStatus)>,
    ranks: Seq<usize>,
    places: Seq<Place>,
    all: Seq<EventView>,
    owner: Seq<char>,
    line: Seq<char>,
    begin: int,
    end: int,
    differ: bool,
    success: bool,
    pending: bool,
)
    requires
        owned::owns(mine, all, owner),
        line_payments(pays, mine, all, line, mine.len() as int),
        results_match(results, pays, all),
        ranks_match(ranks, pays, all),
        sorting::orders(places, ranks),
        0 <= begin < end <= places.len(),
        begin > 0 ==> places[begin - 1].rank < places[begin].rank,
        forall|q: int| begin <= q < end ==> (#[trigger] places[q]).rank == places[begin].rank,
        end < places.len() ==> places[end].rank != places[begin].rank,
        differ == exists|q: int|
            begin <= q < end && results[(#[trigger] places[q]).index as int].0
                != results[places[begin].index as int].0,
        success == exists|q: int|
            begin <= q < end && results[(#[trigger] places[q]).index as int].1
                == PaymentStatus::Successful,
        pending == exists|q: int|
            begin <= q < end && results[(#[trigger] places[q]).index as int].1
                == PaymentStatus::Pending,
    ensures
        ({
            let refund = refund_at(pays, all, places[begin].index as int);
            &&& forall|x: int|
                begin <= x < end ==> refund_at(pays, all, (#[trigger] places[x]).index as int)
                    == refund
            &&& forall|x: int| 0 <= x < begin ==> (#[trigger] places[x]).rank < places[begin].rank
            &&& differ == model::amounts_differ(all, owner, line, refund)
            &&& success == model::attempt_has(all, owner, line, refund, PaymentStatus::Successful)
            &&& pending == model::attempt_has(all, owner, line, refund, PaymentStatus::Pending)
        }),
{
    let first = places[begin].index;
    let refund = refund_at(pays, all, first as int);
    let members = Seq::new((end - begin) as nat, |m: int| places[begin + m].index as int);
    lemma_run_is_rank(ranks, places, begin, end);
    lemma_run_members(pays, ranks, places, all, begin, end, members);
    assert(members[0] == first);
    assert(differ == exists|m: int|
        0 <= m < members.len() && all[pays[#[trigger] members[m]] as int]->amount_cents
            != all[pays[members[0]] as int]->amount_cents) by {
        lemma_run_exists(
            places,
            begin,
            end,
            members,
            |x: int| results[x].0 != results[first as int].0,
            |x: int| all[pays[x] as int]->amount_cents != all[pays[members[0]] as int]->amount_cents,
        );
    }
    assert(success == exists|m: int|
        0 <= m < members.len() && all[pays[#[trigger] members[m]] as int]->PaymentResult_status
            == PaymentStatus::Successful) by {
        lemma_run_exists(
            places,
            begin,
            end,
            members,
            |x: int| results[x].1 == PaymentStatus::Successful,
            |x: int| all[pays[x] as int]->PaymentResult_status == PaymentStatus::Successful,
        );
    }
    assert(pending == exists|m: int|
        0 <= m < members.len() && all[pays[#[trigger] members[m]] as int]->PaymentResult_status
            == PaymentStatus::Pending) by {
        lemma_run_exists(
            places,
            begin,
            end,
            members,
            |x: int| results[x].1 == PaymentStatus::Pending,
            |x: int| all[pays[x] as int]->PaymentResult_status == PaymentStatus::Pending,
        );
    }
    lemma_attempt_run(pays, mine, all, owner, line, members, refund, differ, success, pending);
    assert forall|x: int| begin <= x < end implies refund_at(
        pays,
        all,
        (#[trigger] places[x]).index as int,
    ) == refund by {
        assert(members[x - begin] == places[x].index);
    }
}

/// A run of equal ranks that cannot be extended holds all places of its rank.
proof fn lemma_run_is_rank(ranks: Seq<usize>, places: Seq<Place>, begin: int, end: int)
    requires
        sorting::orders(places, ranks),
        0 <= begin < end <= places.len(),
        begin > 0 ==> places[begin - 1].rank < places[begin].rank,
        forall|q: int| begin <= q < end ==> (#[trigger] places[q]).rank == places[begin].rank,
        end < places.len() ==> places[end].rank != places[begin].rank,
    ensures
        forall|p: int|
            0 <= p < places.len() ==> ((#[trigger] places[p]).rank == places[begin].rank <==> begin
                <= p < end),
        forall|p: int| 0 <= p < begin ==> (#[trigger] places[p]).rank < places[begin].rank,
{
    assert forall|p: int| 0 <= p < begin implies (#[trigger] places[p]).rank
        < places[begin].rank by {
        if p < begin - 1 {
            let y = places[begin - 1];
        }
    }
    assert forall|p: int| end <= p < places.len() implies (#[trigger] places[p]).rank
        != places[begin].rank by {
        let (x, y) = (places[end], places[begin]);
    }
}

/// The members of a run are the results of its refund.
proof fn lemma_run_members(
    pays: Seq<usize>,
    ranks: Seq<usize>,
    places: Seq<Place>,
    all: Seq<EventView>,
    begin: int,
    end: int,
    members: Seq<int>,
)
    requires
        ranks_match(ranks, pays, all),
        sorting::orders(places, ranks),
        0 <= begin < end <= places.len(),
        forall|p: int|
            0 <= p < places.len() ==> ((#[trigger] places[p]).rank == places[begin].rank <==> begin
                <= p < end),
        members == Seq::new((end - begin) as nat, |m: int| places[begin + m].index as int),
    ensures
        forall|m: int|
            0 <= m < members.len() ==> 0 <= (#[trigger] members[m]) < pays.len() && refund_at(
                pays,
                all,
                members[m],
            ) == refund_at(pays, all, places[begin].index as int),
        forall|p: int|
            0 <= p < pays.len() && refund_at(pays, all, p) == refund_at(
                pays,
                all,
                places[begin].index as int,
            ) ==> #[trigger] members.contains(p),
{
    let first = places[begin].index as int;
    assert forall|m: int| 0 <= m < members.len() implies 0 <= (#[trigger] members[m]) < pays.len()
        && refund_at(pays, all, members[m]) == refund_at(pays, all, first) by {
        let here = places[begin + m];
        assert(ranks[here.index as int] == ranks[first]);
    }
    assert forall|p: int|
        0 <= p < pays.len() && refund_at(pays, all, p) == refund_at(
            pays,
            all,
            first,
        ) implies #[trigger] members.contains(p) by {
        assert(sorting::placed_somewhere(places, p));
        let q = choose|q: int| 0 <= q < places.len() && (#[trigger] places[q]).index == p;
        assert(ranks[p] == ranks[first]);
        assert(places[q].rank == places[begin].rank);
        assert(members[q - begin] == p);
    }
}

/// What holds somewhere in a run holds of one of its members.
proof fn lemma_run_exists(
    places: Seq<Place>,
    begin: int,
    end: int,
    members: Seq<int>,
    a: spec_fn(int) -> bool,
    b: spec_fn(int) -> bool,
)
    requires
        0 <= begin < end <= places.len(),
        members == Seq::new((end - begin) as nat, |m: int| places[begin + m].index as int),
        forall|m: int|
            0 <= m < members.len() ==> a(#[trigger] members[m]) == b(members[m]),
    ensures
        (exists|q: int| begin <= q < end && a((#[trigger] places[q]).index as int)) == (exists|
            m: int,
        |
            0 <= m < members.len() && b(#[trigger] members[m])),
{
    if exists|q: int| begin <= q < end && a((#[trigger] places[q]).index as int) {
        let q = choose|q: int| begin <= q < end && a((#[trigger] places[q]).index as int);
        assert(members[q - begin] == places[q].index);
        assert(b(members[q - begin]));
    }
    if exists|m: int| 0 <= m < members.len() && b(#[trigger] members[m]) {
        let m = choose|m: int| 0 <= m < members.len() && b(#[trigger] members[m]);
        let place = places[begin + m];
        assert(a(place.index as int));
    }
}

/// Judges the attempt whose results begin at `start`, and tells where they end.
fn judge_run(
    mine: &Vec<usize>,
    pays: &Vec<usize>,
    results: &Vec<(u64, PaymentStatus)>,
    ranks: &Vec<usize>,
    places: &Vec<Place>,
    start: usize,
    Ghost(all): Ghost<Seq<EventView>>,
    Ghost(owner): Ghost<Seq<char>>,
    Ghost(line): Ghost<Seq<char>>,
) -> (run: (usize, bool, bool, bool))
    requires
        owned::owns(mine@, all, owner),
        line_payments(pays@, mine@, all, line, mine@.len() as int),
        results_match(results@, pays@, all),
        ranks_match(ranks@, pays@, all),
        sorting::orders(places@, ranks@),
        start < places@.len(),
        start > 0 ==> places@[start - 1].rank < places@[start as int].rank,
    ensures
        ({
            let refund = refund_at(pays@, all, places@[start as int].index as int);
            &&& start < run.0 <= places@.len()
            &&& run.0 < places@.len() ==> places@[run.0 - 1].rank < places@[run.0 as int].rank
            &&& forall|x: int|
                start <= x < run.0 ==> refund_at(
                    pays@,
                    all,
                    (#[trigger] places@[x]).index as int,
                ) == refund
            &&& forall|x: int|
                0 <= x < start ==> (#[trigger] places@[x]).rank < places@[start as int].rank
            &&& run.1 == model::amounts_differ(all, owner, line, refund)
            &&& run.2 == model::attempt_has(all, owner, line, refund, PaymentStatus::Successful)
            &&& run.3 == model::attempt_has(all, owner, line, refund, PaymentStatus::Pending)
        }),
{
    let first = places[start].index;
    let ghost refund = refund_at(pays@, all, first as int);
    let ghost begin = start as int;
    let ghost n = pays@.len() as int;
        let mut differ = false;
        let mut success = false;
        let mut pending = false;
        let mut end: usize = start;
        while end < places.len() && places[end].rank == places[start].rank
            invariant
                start <= end <= places@.len() == n,
                start < n,
                n == pays@.len() == results@.len() == ranks@.len(),
                first == places@[start as int].index,
                sorting::orders(places@, ranks@),
                forall|q: int| start <= q < end ==> (#[trigger] places@[q]).rank
                    == places@[start as int].rank,
                differ == exists|q: int|
                    start <= q < end && results@[(#[trigger] places@[q]).index as int].0
                        != results@[first as int].0,
                success == exists|q: int|
                    start <= q < end && results@[(#[trigger] places@[q]).index as int].1
                        == PaymentStatus::Successful,
                pending == exists|q: int|
                    start <= q < end && results@[(#[trigger] places@[q]).index as int].1
                        == PaymentStatus::Pending,
            decreases n - end,
        {
            let ghost (d0, s0, p0) = (differ, success, pending);
            let (amount, status) = results[places[end].index];
            let ghost here = places@[end as int];
            if amount != results[first].0 {
                differ = true;
            }
            match status {
                PaymentStatus::Successful => {
                    success = true;
                },
                PaymentStatus::Pending => {
                    pending = true;
                },
                PaymentStatus::Failed => {},
            }
            end = end + 1;
        }
    proof {
        lemma_judged_run(
            pays@,
            mine@,
            results@,
            ranks@,
            places@,
            all,
            owner,
            line,
            begin,
            end as int,
            differ,
            success,
            pending,
        );
        if end < n {
            let (x, y) = (places@[end - 1], places@[end as int]);
        }
    }
    (end, differ, success, pending)
}

/// Judges a line by grouping its results by refund.
pub fn line_state_by_grouping(
    events: &Vec<Event>,
    mine: &Vec<usize>,
    line: &str,
    Ghost(owner): Ghost<Seq<char>>,
) -> (state: LineState)
    requires
        owned::owns(mine@, canonical::views(events@), owner),
    ensures
        state.describes(canonical::views(events@), owner, line@),
{
    let ghost all = canonical::views(events@);
    let pays = collect_payments(events, mine, line, Ghost(owner));
    let mut refunds: Vec<&str> = Vec::new();
    let mut results: Vec<(u64, PaymentStatus)> = Vec::new();
    let mut p: usize = 0;
    while p < pays.len()
        invariant
            p <= pays@.len(),
            all == canonical::views(events@),
            line_payments(pays@, mine@, all, line@, mine@.len() as int),
            refunds@.len() == p,
            results@.len() == p,
            forall|x: int| 0 <= x < p ==> (#[trigger] refunds@[x])@ == refund_at(pays@, all, x),
            forall|x: int|
                0 <= x < p ==> (#[trigger] results@[x]).0 == all[pays@[x] as int]->amount_cents
                    && results@[x].1 == all[pays@[x] as int]->PaymentResult_status,
        decreases pays@.len() - p,
    {
        match payment_of(&events[pays[p]]) {
            Some(payment) => {
                refunds.push(payment.refund);
                results.push((payment.amount, payment.status));
            },
            None => {
                assert(pays_line(all[pays@[p as int] as int], line@));
                assert(false);
            },
        }
        p = p + 1;
    }
    let ranks = rank_texts(&refunds);
    let places = order_places(&ranks);
    let ghost n = pays@.len() as int;
    proof {
        assert forall|x: int, y: int| 0 <= x < n && 0 <= y < n implies (#[trigger] ranks@[x]
            == #[trigger] ranks@[y] <==> refund_at(pays@, all, x) == refund_at(pays@, all, y)) by {
            assert(refunds@[x]@ == refund_at(pays@, all, x));
            assert(refunds@[y]@ == refund_at(pays@, all, y));
        }
    }
    let mut decided: Option<usize> = None;
    let mut decided_differ = false;
    let mut pending_any = false;
    let mut contradictory = false;
    let mut start: usize = 0;
    while start < places.len()
        invariant
            start <= places@.len() == n,
            n == pays@.len() == refunds@.len() == results@.len(),
            all == canonical::views(events@),
            owned::owns(mine@, all, owner),
            line_payments(pays@, mine@, all, line@, mine@.len() as int),
            forall|x: int| 0 <= x < n ==> (#[trigger] refunds@[x])@ == refund_at(pays@, all, x),
            results_match(results@, pays@, all),
            ranks_match(ranks@, pays@, all),
            text::ranks_of(ranks@, refunds@),
            sorting::orders(places@, ranks@),
            start > 0 && start < n ==> places@[start - 1].rank < places@[start as int].rank,
            match decided {
                Some(q) => (exists|x: int| 0 <= x < start && (#[trigger] places@[x]).index == q)
                    && q < n && model::decides(all, owner, line@, refund_at(pays@, all, q as int))
                    && decided_differ == model::amounts_differ(
                    all,
                    owner,
                    line@,
                    refund_at(pays@, all, q as int),
                ) && forall|x: int|
                    0 <= x < start && model::decides(
                        all,
                        owner,
                        line@,
                        refund_at(pays@, all, (#[trigger] places@[x]).index as int),
                    ) ==> text::text_le(
                        refund_at(pays@, all, places@[x].index as int),
                        refund_at(pays@, all, q as int),
                    ),
                None => forall|x: int|
                    0 <= x < start ==> !model::decides(
                        all,
                        owner,
                        line@,
                        refund_at(pays@, all, (#[trigger] places@[x]).index as int),
                    ),
            },
            pending_any == exists|x: int|
                0 <= x < start && model::attempt_has(
                    all,
                    owner,
                    line@,
                    refund_at(pays@, all, (#[trigger] places@[x]).index as int),
                    PaymentStatus::Pending,
                ),
            contradictory == exists|x: int|
                0 <= x < start && model::amounts_differ(
                    all,
                    owner,
                    line@,
                    refund_at(pays@, all, (#[trigger] places@[x]).index as int),
                ),
        decreases n - start,
    {
        let first = places[start].index;
        let ghost refund = refund_at(pays@, all, first as int);
        let ghost begin = start as int;
        let (end, differ, success, pending) = judge_run(
            mine,
            &pays,
            &results,
            &ranks,
            &places,
            start,
            Ghost(all),
            Ghost(owner),
            Ghost(line@),
        );
        proof {
            assert forall|x: int| 0 <= x < begin implies text::text_lt(
                refund_at(pays@, all, (#[trigger] places@[x]).index as int),
                refund,
            ) by {
                let y = places@[begin];
                assert(places@[x].rank != y.rank);
                assert(ranks@[places@[x].index as int] < ranks@[first as int]);
                assert(refunds@[places@[x].index as int]@ == refund_at(
                    pays@,
                    all,
                    places@[x].index as int,
                ));
                assert(refunds@[first as int]@ == refund);
            }
            text::lemma_text_total(refund, refund);
        }
        if differ || success {
            decided = Some(first);
            decided_differ = differ;
        }
        let ghost (p0, c0) = (pending_any, contradictory);
        if pending {
            pending_any = true;
        }
        if differ {
            contradictory = true;
        }
        proof {
            let here = places@[begin];
            assert(refund_at(pays@, all, here.index as int) == refund);
        }
        start = end;
    }
    let ghost decided_at: Option<int> = match decided {
        Some(q) => Some(q as int),
        None => None,
    };
    proof {
        assert forall|p: int| 0 <= p < n implies exists|x: int|
            #![trigger places@[x]]
            0 <= x < n && places@[x].index == p && refund_at(
                pays@,
                all,
                places@[x].index as int,
            ) == #[trigger] refund_at(pays@, all, p) by {
            assert(sorting::placed_somewhere(places@, p));
            let x = choose|x: int| 0 <= x < n && (#[trigger] places@[x]).index == p;
            assert(places@[x].index == p);
        }
        lemma_line_state(
            pays@,
            mine@,
            all,
            owner,
            line@,
            decided_at,
            pending_any,
            contradictory,
        );
    }
    let block = match decided {
        Some(_) => if decided_differ {
            Some(PaymentBlock::Pending)
        } else {
            Some(PaymentBlock::Successful)
        },
        None => if pending_any {
            Some(PaymentBlock::Pending)
        } else {
            None
        },
    };
    LineState { block, contradictory }
}

/// Every payment result of the return names one of the lines.
pub open spec fn payments_name_lines(
    events: Seq<EventView>,
    owner: Seq<char>,
    lines: Seq<LineView>,
) -> bool {
    forall|event: EventView| #[trigger]
        model::trusted(events, event) && event is PaymentResult && event.owner() == owner ==> exists|
            i: int,
        |
            0 <= i < lines.len() && (#[trigger] lines[i]).line_id == event->PaymentResult_line_id
}

/// Attempts that name two amounts are made on one of the lines.
proof fn lemma_contradiction_on_line(
    all: Seq<EventView>,
    lines: Seq<AuthorizedLine>,
    owner: Seq<char>,
)
    requires
        payments_name_lines(all, owner, settle::line_views(lines)),
    ensures
        (exists|line: Seq<char>, refund: Seq<char>| #[trigger]
            model::amounts_differ(all, owner, line, refund)) ==> exists|j: int, refund: Seq<char>|
            0 <= j < lines.len() && #[trigger] model::amounts_differ(
                all,
                owner,
                lines[j].line_id@,
                refund,
            ),
{
    let shown = settle::line_views(lines);
    if exists|line: Seq<char>, refund: Seq<char>| #[trigger]
        model::amounts_differ(all, owner, line, refund) {
        let (line, refund) = choose|line: Seq<char>, refund: Seq<char>| #[trigger]
            model::amounts_differ(all, owner, line, refund);
        let (a, b) = choose|a: EventView, b: EventView| #[trigger]
            model::attempt(all, a, owner, line, refund) && #[trigger] model::attempt(
                all,
                b,
                owner,
                line,
                refund,
            ) && a->amount_cents != b->amount_cents;
        assert(model::trusted(all, a));
        let j = choose|j: int|
            0 <= j < shown.len() && (#[trigger] shown[j]).line_id == a->PaymentResult_line_id;
        assert(model::amounts_differ(all, owner, lines[j].line_id@, refund));
    }
}

/// What blocks each line, and whether any attempt names two amounts.
pub fn judge_lines(
    events: &Vec<Event>,
    mine: &Vec<usize>,
    lines: &Vec<AuthorizedLine>,
    Ghost(owner): Ghost<Seq<char>>,
) -> (judged: (Vec<Option<PaymentBlock>>, bool))
    requires
        owned::owns(mine@, canonical::views(events@), owner),
        payments_name_lines(canonical::views(events@), owner, settle::line_views(lines@)),
    ensures
        judged.0@.len() == lines@.len(),
        forall|i: int|
            0 <= i < lines@.len() ==> (#[trigger] judged.0@[i]) == model::block_of(
                canonical::views(events@),
                owner,
                lines@[i].line_id@,
            ),
        judged.1 == exists|line: Seq<char>, refund: Seq<char>| #[trigger]
            model::amounts_differ(canonical::views(events@), owner, line, refund),
{
    let ghost all = canonical::views(events@);
    let mut blocks: Vec<Option<PaymentBlock>> = Vec::new();
    let mut contradictory = false;
    let mut i: usize = 0;
    while i < lines.len()
        invariant
            i <= lines@.len(),
            all == canonical::views(events@),
            owned::owns(mine@, all, owner),
            blocks@.len() == i,
            forall|j: int|
                0 <= j < i ==> (#[trigger] blocks@[j]) == model::block_of(
                    all,
                    owner,
                    lines@[j].line_id@,
                ),
            contradictory == exists|j: int, refund: Seq<char>|
                0 <= j < i && #[trigger] model::amounts_differ(all, owner, lines@[j].line_id@, refund),
        decreases lines@.len() - i,
    {
        let line = lines[i].line_id.as_str();
        let state = line_state_by_grouping(events, mine, line, Ghost(owner));
        blocks.push(state.block);
        if state.contradictory {
            contradictory = true;
            proof {
                let refund = choose|refund: Seq<char>| #[trigger]
                    model::amounts_differ(all, owner, line@, refund);
                assert(model::amounts_differ(all, owner, lines@[i as int].line_id@, refund));
            }
        }
        i = i + 1;
    }
    proof {
        lemma_contradiction_on_line(all, lines@, owner);
    }
    (blocks, contradictory)
}

/// What blocks each line, and whether any attempt names two amounts, found by
/// scanning the events of the return again for every line.
pub fn scan_lines(
    events: &Vec<Event>,
    mine: &Vec<usize>,
    lines: &Vec<AuthorizedLine>,
    Ghost(owner): Ghost<Seq<char>>,
) -> (judged: (Vec<Option<PaymentBlock>>, bool))
    requires
        owned::owns(mine@, canonical::views(events@), owner),
        payments_name_lines(canonical::views(events@), owner, settle::line_views(lines@)),
    ensures
        judged.0@.len() == lines@.len(),
        forall|i: int|
            0 <= i < lines@.len() ==> (#[trigger] judged.0@[i]) == model::block_of(
                canonical::views(events@),
                owner,
                lines@[i].line_id@,
            ),
        judged.1 == exists|line: Seq<char>, refund: Seq<char>| #[trigger]
            model::amounts_differ(canonical::views(events@), owner, line, refund),
{
    let ghost all = canonical::views(events@);
    let mut blocks: Vec<Option<PaymentBlock>> = Vec::new();
    let mut contradictory = false;
    while blocks.len() < lines.len()
        invariant
            all == canonical::views(events@),
            owned::owns(mine@, all, owner),
            blocks@.len() <= lines@.len(),
            forall|j: int|
                0 <= j < blocks@.len() ==> (#[trigger] blocks@[j]) == model::block_of(
                    all,
                    owner,
                    lines@[j].line_id@,
                ),
            contradictory == exists|j: int, refund: Seq<char>|
                0 <= j < blocks@.len() && #[trigger] model::amounts_differ(
                    all,
                    owner,
                    lines@[j].line_id@,
                    refund,
                ),
        decreases lines@.len() - blocks@.len(),
    {
        let i: usize = blocks.len();
        let line = lines[i].line_id.as_str();
        let state = line_state_by_scanning(events, mine, line, Ghost(owner));
        contradictory = contradictory || state.contradictory;
        proof {
            if state.contradictory {
                let refund = choose|refund: Seq<char>| #[trigger]
                    model::amounts_differ(all, owner, line@, refund);
                assert(model::amounts_differ(all, owner, lines@[i as int].line_id@, refund));
            }
        }
        blocks.push(state.block);
    }
    proof {
        lemma_contradiction_on_line(all, lines@, owner);
    }
    (blocks, contradictory)
}

} // verus!
