//! What holds of every search, of what is shown of it, and of how it is judged.

use vstd::prelude::*;
use crate::chars;
use crate::kiosk;
use crate::sorting;
use crate::support::cases;
use crate::support::cases::Account;
use crate::support::recall;
use crate::support::recall::Query;
use crate::support::refresh;
use crate::support::search;
use crate::support::search::ScoredCase;

verus! {

/// Ranking leaves the hits as they are and puts them in order: a better score comes
/// before a worse one, and of two equal scores the smaller id.
pub proof fn better_hits_come_first(
    ranked: Seq<ScoredCase>,
    hits: Seq<ScoredCase>,
    p: int,
    q: int,
)
    requires
        sorting::arranges(ranked, hits),
        0 <= p < q < ranked.len(),
    ensures
        ranked.to_multiset() == hits.to_multiset(),
        ranked[p].key >= ranked[q].key,
        ranked[p].key == ranked[q].key ==> ranked[p].case_id <= ranked[q].case_id,
{
    assert(sorting::Ranked::le(ranked[p], ranked[q]));
}

/// An excerpt is the first 96 characters of a body, or all of a shorter one.
pub proof fn excerpts_are_the_first_characters(body: Seq<char>)
    ensures
        body.len() >= 96 ==> cases::excerpt_of(body).len() == 96,
        body.len() <= 96 ==> cases::excerpt_of(body).len() == body.len(),
        forall|i: int|
            0 <= i < cases::excerpt_of(body).len() ==> #[trigger] cases::excerpt_of(body)[i]
                == body[i],
{
}

/// Some case has an id.
pub open spec fn is_known(list: Seq<Account>, case_id: u64) -> bool {
    exists|k: int| 0 <= k < list.len() && (#[trigger] list[k]).case_id == case_id
}

proof fn lemma_known(list: Seq<Account>, case_id: u64, from: int)
    requires
        0 <= from <= list.len(),
    ensures
        from <= search::place_of(list, case_id, from) <= list.len(),
        search::place_of(list, case_id, from) < list.len() <==> exists|k: int|
            from <= k < list.len() && (#[trigger] list[k]).case_id == case_id,
        search::place_of(list, case_id, from) < list.len() ==> list[search::place_of(
            list,
            case_id,
            from,
        )].case_id == case_id,
    decreases list.len() - from,
{
    if from < list.len() && list[from].case_id != case_id {
        lemma_known(list, case_id, from + 1);
    }
}

/// Every ranked id of which there is a case is shown, in the order of the ranking, and
/// nothing else is: the last one shown is the last such id, and those before it are what
/// is shown of the ids before it.
pub proof fn known_cases_are_shown_in_order(ranked: Seq<u64>, list: Seq<Account>, n: nat)
    requires
        0 < n <= ranked.len(),
    ensures
        ({
            let before = search::shown_of(ranked, list, (n - 1) as nat);
            let shown = search::shown_of(ranked, list, n);
            if is_known(list, ranked[n - 1]) {
                &&& shown.len() == before.len() + 1
                &&& shown.drop_last() == before
                &&& shown.last().case_id == ranked[n - 1]
                &&& exists|k: int|
                    {
                        &&& 0 <= k < list.len()
                        &&& (#[trigger] list[k]).case_id == ranked[n - 1]
                        &&& shown.last().product_area == list[k].product_area
                        &&& shown.last().language == list[k].language
                        &&& shown.last().excerpt == list[k].body.take(
                            if list[k].body.len() < 96 {
                                list[k].body.len() as int
                            } else {
                                96
                            },
                        )
                    }
            } else {
                shown == before
            }
        }),
{
    let id = ranked[n - 1];
    lemma_known(list, id, 0);
    let before = search::shown_of(ranked, list, (n - 1) as nat);
    let shown = search::shown_of(ranked, list, n);
    let at = search::place_of(list, id, 0);
    if is_known(list, id) {
        let k = choose|k: int| 0 <= k < list.len() && (#[trigger] list[k]).case_id == id;
        assert(at < list.len());
        assert(shown.drop_last() =~= before);
        assert(list[at].body.take(list[at].body.len() as int) =~= list[at].body);
    }
}

/// The first `limit` hits of a search hold the useful case.
pub open spec fn found_early(hits: Seq<u64>, useful_case: u64, limit: int) -> bool {
    hits.take(
        if limit < hits.len() {
            limit
        } else {
            hits.len() as int
        },
    ).contains(useful_case)
}

/// The searches, by their places, that were in a language, if one is given, and found
/// their useful case early.
pub open spec fn useful_searches(
    results: Seq<Vec<u64>>,
    queries: Seq<Query>,
    language: Option<Seq<char>>,
    limit: int,
    n: nat,
) -> Set<int> {
    Set::new(
        |i: int|
            0 <= i < n && (language matches Some(name) ==> queries[i].language@ == name)
                && found_early(results[i]@, queries[i].useful_case, limit),
    )
}

/// Recall counts the searches that found their useful case among the first hits.
pub proof fn recall_counts_the_useful_searches(
    results: Seq<Vec<u64>>,
    queries: Seq<Query>,
    language: Option<Seq<char>>,
    limit: int,
    n: nat,
)
    requires
        limit >= 0,
    ensures
        useful_searches(results, queries, language, limit, n).finite(),
        recall::useful_count(results, queries, language, limit, n) == useful_searches(
            results,
            queries,
            language,
            limit,
            n,
        ).len(),
    decreases n,
{
    let all = useful_searches(results, queries, language, limit, n);
    if n == 0 {
        assert(all =~= Set::empty());
    } else {
        let before = useful_searches(results, queries, language, limit, (n - 1) as nat);
        recall_counts_the_useful_searches(results, queries, language, limit, (n - 1) as nat);
        let hits = results[n - 1]@;
        let useful = queries[n - 1].useful_case;
        lemma_found_early(hits, useful, limit);
        if all.contains(n - 1) {
            assert(all =~= before.insert(n - 1));
        } else {
            assert(all =~= before);
        }
    }
}

proof fn lemma_found_early(hits: Seq<u64>, useful_case: u64, limit: int)
    requires
        limit >= 0,
    ensures
        recall::is_useful(hits, useful_case, limit) <==> found_early(hits, useful_case, limit),
{
    let first = hits.take(
        if limit < hits.len() {
            limit
        } else {
            hits.len() as int
        },
    );
    if recall::is_useful(hits, useful_case, limit) {
        let i = choose|i: int|
            0 <= i < hits.len() && i < limit && #[trigger] hits[i] == useful_case;
        assert(first[i] == useful_case);
    }
    if first.contains(useful_case) {
        let i = choose|i: int| 0 <= i < first.len() && first[i] == useful_case;
        assert(hits[i] == useful_case);
    }
}

/// The searches of a language are counted, found or not.
pub proof fn languages_count_their_searches(queries: Seq<Query>, language: Seq<char>, n: nat)
    ensures
        Set::new(|i: int| 0 <= i < n && queries[i].language@ == language).finite(),
        recall::language_count(queries, language, n) == Set::new(
            |i: int| 0 <= i < n && queries[i].language@ == language,
        ).len(),
    decreases n,
{
    let all = Set::new(|i: int| 0 <= i < n && queries[i].language@ == language);
    if n == 0 {
        assert(all =~= Set::empty());
    } else {
        languages_count_their_searches(queries, language, (n - 1) as nat);
        let before = Set::new(|i: int| 0 <= i < n - 1 && queries[i].language@ == language);
        let shorter = Set::new(
            |i: int| 0 <= i < ((n - 1) as nat) && queries[i].language@ == language,
        );
        assert(before =~= shorter);
        if all.contains(n - 1) {
            assert(all =~= before.insert(n - 1));
        } else {
            assert(all =~= before);
        }
    }
}

/// What a table finds under an id is the case of that id, and it finds one exactly if
/// there is one.
pub proof fn tables_find_their_cases(rows: Seq<Account>, id: u64)
    requires
        refresh::distinct(rows),
    ensures
        refresh::found(rows, id) is Some <==> is_known(rows, id),
        forall|k: int|
            0 <= k < rows.len() && (#[trigger] rows[k]).case_id == id ==> refresh::found(rows, id)
                == Some(rows[k]),
{
    lemma_known(rows, id, 0);
    let at = search::place_of(rows, id, 0);
    assert forall|k: int| 0 <= k < rows.len() && (#[trigger] rows[k]).case_id == id implies at
        == k by {
        assert(at < rows.len());
        if at < k {
            assert(rows[at].case_id != rows[k].case_id);
        } else if k < at {
            assert(rows[k].case_id != rows[at].case_id);
        }
    }
}

/// A text stands in another with something before it and something behind it.
pub open spec fn holds_text(whole: Seq<char>, part: Seq<char>) -> bool {
    exists|front: Seq<char>, back: Seq<char>| #[trigger] (front + part + back) == whole
}

/// A line names a private field exactly if, in lower case, it holds the name of one.
pub proof fn private_fields_are_noticed(line: Seq<char>)
    ensures
        refresh::names_private_field(line) <==> {
            let lower = refresh::in_lower_case(line);
            ||| holds_text(lower, "email_address"@)
            ||| holds_text(lower, "account_id"@)
            ||| holds_text(lower, "customer_name"@)
            ||| holds_text(lower, "attachment"@)
        },
{
    let lower = refresh::in_lower_case(line);
    lemma_holds(lower, "email_address"@);
    lemma_holds(lower, "account_id"@);
    lemma_holds(lower, "customer_name"@);
    lemma_holds(lower, "attachment"@);
}

proof fn lemma_holds(whole: Seq<char>, part: Seq<char>)
    ensures
        kiosk::search::occurs(part, whole) <==> holds_text(whole, part),
{
    if kiosk::search::occurs(part, whole) {
        let i = choose|i: int| #[trigger] kiosk::search::stands_at(part, whole, i);
        assert(whole.take(i) + part + whole.skip(i + part.len()) =~= whole) by {
            assert(whole.take(i) + whole.subrange(i, i + part.len()) + whole.skip(i + part.len())
                =~= whole);
        }
    }
    if holds_text(whole, part) {
        let (front, back) = choose|front: Seq<char>, back: Seq<char>| #[trigger]
            (front + part + back) == whole;
        let at = front.len() as int;
        assert(whole.subrange(at, at + part.len()) =~= part);
        assert(kiosk::search::stands_at(part, whole, at));
    }
}

/// A text in lower case is its characters in lower case, one after another.
pub proof fn lower_case_goes_by_character(a: Seq<char>, c: char)
    ensures
        refresh::in_lower_case(a.push(c)) == refresh::in_lower_case(a) + chars::lower_case(c),
        refresh::in_lower_case(Seq::empty()) == Seq::<char>::empty(),
{
    assert(a.push(c).drop_last() =~= a);
}

/// What a hit shows is its case's id, area and language, a space between them, and the
/// excerpt: nothing of the subject, the resolution or the dates.
pub proof fn hits_show_no_more_than_four_fields(a: Account, b: Account, ranked: Seq<u64>)
    requires
        a.case_id == b.case_id,
        a.product_area == b.product_area,
        a.language == b.language,
        cases::excerpt_of(a.body) == cases::excerpt_of(b.body),
    ensures
        search::shown_of(ranked, seq![a], ranked.len()) == search::shown_of(
            ranked,
            seq![b],
            ranked.len(),
        ),
{
    lemma_same_shown(a, b, ranked, ranked.len());
}

proof fn lemma_same_shown(a: Account, b: Account, ranked: Seq<u64>, n: nat)
    requires
        n <= ranked.len(),
        a.case_id == b.case_id,
        a.product_area == b.product_area,
        a.language == b.language,
        cases::excerpt_of(a.body) == cases::excerpt_of(b.body),
    ensures
        search::shown_of(ranked, seq![a], n) == search::shown_of(ranked, seq![b], n),
    decreases n,
{
    if n > 0 {
        lemma_same_shown(a, b, ranked, (n - 1) as nat);
        reveal_with_fuel(search::place_of, 3);
        let id = ranked[n - 1];
        assert(search::place_of(seq![a], id, 0) == search::place_of(seq![b], id, 0));
    }
}

} // verus!
