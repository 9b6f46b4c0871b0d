//! The order of hits, and the cases they stand for.

use vstd::prelude::*;
use crate::sorting;
use crate::sorting::{Ranked, sort};
use crate::support::cases;
use crate::support::cases::{Account, Case, exact_excerpt};

verus! {

/// A hit of a search. Scores are compared by their keys: a greater key is a better
/// score.
#[derive(Clone, Copy, Debug, PartialEq, Eq, Structural)]
pub struct ScoredCase {
    pub key: i64,
    pub case_id: u64,
}

impl Ranked for ScoredCase {
    /// The better score comes first, and of equal scores the smaller id.
    open spec fn le(self, other: Self) -> bool {
        self.key > other.key || (self.key == other.key && self.case_id <= other.case_id)
    }

    proof fn le_total(a: Self, b: Self) {
    }

    proof fn le_transitive(a: Self, b: Self, c: Self) {
    }

    fn is_le(self, other: Self) -> bool {
        self.key > other.key || (self.key == other.key && self.case_id <= other.case_id)
    }
}

/// The hits of a search, the best first.
pub fn rank_hits(hits: &Vec<ScoredCase>) -> (ranked: Vec<ScoredCase>)
    ensures
        sorting::arranges(ranked@, hits@),
        ranked@.len() == hits@.len(),
{
    sort(hits)
}

/// The order of hits does not depend on the order in which they were found.
pub proof fn rankings_are_unique(a: Seq<ScoredCase>, b: Seq<ScoredCase>, hits: Seq<ScoredCase>)
    requires
        sorting::arranges(a, hits),
        sorting::arranges(b, hits),
    ensures
        a == b,
    decreases a.len(),
{
    broadcast use vstd::seq_lib::group_to_multiset_ensures;

    assert(a.to_multiset().len() == a.len() && b.to_multiset().len() == b.len());
    if a.len() == 0 {
        assert(a =~= b);
    } else {
        let last_a = a.last();
        let last_b = b.last();
        vstd::seq_lib::to_multiset_contains(a, last_a);
        vstd::seq_lib::to_multiset_contains(b, last_a);
        vstd::seq_lib::to_multiset_contains(a, last_b);
        vstd::seq_lib::to_multiset_contains(b, last_b);
        assert(a.contains(last_b) && b.contains(last_a));
        let i = choose|i: int| 0 <= i < a.len() && a[i] == last_b;
        let j = choose|j: int| 0 <= j < b.len() && b[j] == last_a;
        if i < a.len() - 1 {
            assert(a[i].le(a[a.len() - 1]));
        }
        if j < b.len() - 1 {
            assert(b[j].le(b[b.len() - 1]));
        }
        assert(last_a == last_b);
        let rest = a.drop_last();
        assert(a =~= rest.push(last_a));
        assert(b =~= b.drop_last().push(last_b));
        assert(rest.to_multiset() =~= a.to_multiset().remove(last_a));
        assert(b.drop_last().to_multiset() =~= b.to_multiset().remove(last_b));
        assert forall|p: int, q: int| 0 <= p < q < rest.len() implies #[trigger] rest[p].le(
            #[trigger] rest[q],
        ) by {
            assert(a[p].le(a[q]));
        }
        assert forall|p: int, q: int|
            0 <= p < q < b.drop_last().len() implies #[trigger] b.drop_last()[p].le(
            #[trigger] b.drop_last()[q],
        ) by {
            assert(b[p].le(b[q]));
        }
        rankings_are_unique(rest, b.drop_last(), rest);
    }
}

/// What is shown of a case that was found.
#[derive(Clone, Debug, PartialEq, Eq)]
pub struct Hit {
    pub case_id: u64,
    pub product_area: String,
    pub language: String,
    pub excerpt: String,
}

/// A hit as plain values.
pub struct Shown {
    pub case_id: u64,
    pub product_area: Seq<char>,
    pub language: Seq<char>,
    pub excerpt: Seq<char>,
}

impl View for Hit {
    type V = Shown;

    open spec fn view(&self) -> Shown {
        Shown {
            case_id: self.case_id,
            product_area: self.product_area@,
            language: self.language@,
            excerpt: self.excerpt@,
        }
    }
}

pub open spec fn shown_hits(hits: Seq<Hit>) -> Seq<Shown> {
    hits.map_values(|hit: Hit| hit@)
}

/// The first case of an id, or the end.
pub open spec fn place_of(list: Seq<Account>, case_id: u64, from: int) -> int
    decreases list.len() - from,
{
    if from < 0 || from >= list.len() || list[from].case_id == case_id {
        from
    } else {
        place_of(list, case_id, from + 1)
    }
}

/// What is shown of the first `n` ids: nothing of those that are no cases.
pub open spec fn shown_of(ranked: Seq<u64>, list: Seq<Account>, n: nat) -> Seq<Shown>
    decreases n,
{
    if n == 0 {
        Seq::empty()
    } else {
        let before = shown_of(ranked, list, (n - 1) as nat);
        let at = place_of(list, ranked[n - 1], 0);
        if at < list.len() {
            before.push(
                Shown {
                    case_id: ranked[n - 1],
                    product_area: list[at].product_area,
                    language: list[at].language,
                    excerpt: cases::excerpt_of(list[at].body),
                },
            )
        } else {
            before
        }
    }
}

pub(crate) fn find_case(list: &[Case], case_id: u64) -> (at: usize)
    ensures
        at == place_of(cases::accounts(list@), case_id, 0),
        at <= list@.len(),
{
    let ghost all = cases::accounts(list@);
    let mut i: usize = 0;
    while i < list.len()
        invariant
            i <= list@.len(),
            all == cases::accounts(list@),
            place_of(all, case_id, 0) == place_of(all, case_id, i as int),
        decreases list@.len() - i,
    {
        assert(all[i as int] == list@[i as int]@);
        if list[i].case_id == case_id {
            return i;
        }
        i = i + 1;
    }
    i
}

/// What is shown of the best ids, at most `limit` of them: nothing of those that are
/// no cases any more.
pub fn present_hits(ranked: &[u64], list: &[Case], limit: usize) -> (hits: Vec<Hit>)
    ensures
        shown_hits(hits@) == shown_of(
            ranked@,
            cases::accounts(list@),
            if limit <= ranked@.len() {
                limit as nat
            } else {
                ranked@.len()
            },
        ),
{
    let ghost all = cases::accounts(list@);
    let mut hits: Vec<Hit> = Vec::new();
    let mut i: usize = 0;
    assert(shown_hits(hits@) =~= Seq::empty());
    while i < ranked.len() && i < limit
        invariant
            i <= ranked@.len(),
            i <= limit,
            all == cases::accounts(list@),
            shown_hits(hits@) == shown_of(ranked@, all, i as nat),
        decreases ranked@.len() - i,
    {
        let at: usize = find_case(list, ranked[i]);
        if at < list.len() {
            let ghost before = hits@;
            assert(all[at as int] == list@[at as int]@);
            let hit = Hit {
                case_id: ranked[i],
                product_area: list[at].product_area.as_str().to_owned(),
                language: list[at].language.as_str().to_owned(),
                excerpt: exact_excerpt(list[at].body.as_str()),
            };
            let ghost told = hit@;
            hits.push(hit);
            assert(shown_hits(hits@) =~= shown_hits(before).push(told));
        }
        i = i + 1;
    }
    hits
}

/// Whatever is shown was taken from a case of that id, word for word: its area, its
/// language and the beginning of its body.
pub proof fn shown_hits_quote_their_cases(ranked: Seq<u64>, list: Seq<Account>, n: nat)
    requires
        n <= ranked.len(),
    ensures
        forall|i: int|
            0 <= i < shown_of(ranked, list, n).len() ==> quotes(
                #[trigger] shown_of(ranked, list, n)[i],
                list,
            ),
    decreases n,
{
    if n > 0 {
        shown_hits_quote_their_cases(ranked, list, (n - 1) as nat);
        let at = place_of(list, ranked[n - 1], 0);
        lemma_place_of(list, ranked[n - 1], 0);
        if at < list.len() {
            assert(cases::excerpt_of(list[at].body).is_prefix_of(list[at].body));
            let last = shown_of(ranked, list, n).last();
            assert(is_quoted(last, list[at]));
            assert(quotes(last, list));
        }
        let before = shown_of(ranked, list, (n - 1) as nat);
        assert forall|i: int| 0 <= i < shown_of(ranked, list, n).len() implies quotes(
            #[trigger] shown_of(ranked, list, n)[i],
            list,
        ) by {
            if i < before.len() {
                assert(shown_of(ranked, list, n)[i] == before[i]);
            }
        }
    }
}

pub proof fn lemma_place_of(list: Seq<Account>, case_id: u64, from: int)
    requires
        0 <= from <= list.len(),
    ensures
        from <= place_of(list, case_id, from) <= list.len(),
        place_of(list, case_id, from) < list.len() ==> list[place_of(
            list,
            case_id,
            from,
        )].case_id == case_id,
    decreases list.len() - from,
{
    if from < list.len() && list[from].case_id != case_id {
        lemma_place_of(list, case_id, from + 1);
    }
}

/// What is shown comes from a case.
pub open spec fn is_quoted(shown: Shown, account: Account) -> bool {
    &&& shown.case_id == account.case_id
    &&& shown.product_area == account.product_area
    &&& shown.language == account.language
    &&& shown.excerpt.is_prefix_of(account.body)
}

/// What is shown comes from one of the cases.
pub open spec fn quotes(shown: Shown, list: Seq<Account>) -> bool {
    exists|k: int| 0 <= k < list.len() && is_quoted(shown, #[trigger] list[k])
}

} // verus!
