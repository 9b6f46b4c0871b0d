//! How many searches found the case that was useful.

use vstd::prelude::*;
use crate::text::same_text;

verus! {

#[derive(Clone, Copy, Debug)]
pub struct Query {
    pub language: &'static str,
    pub text: &'static str,
    pub useful_case: u64,
}

/// A search found the useful case among its first hits.
pub open spec fn is_useful(hits: Seq<u64>, useful_case: u64, limit: int) -> bool {
    exists|i: int| 0 <= i < hits.len() && i < limit && #[trigger] hits[i] == useful_case
}

/// How many of the first `n` searches were useful. With a language, only those in it
/// count.
pub open spec fn useful_count(
    results: Seq<Vec<u64>>,
    queries: Seq<Query>,
    language: Option<Seq<char>>,
    limit: int,
    n: nat,
) -> nat
    decreases n,
{
    if n == 0 {
        0
    } else {
        let before = useful_count(results, queries, language, limit, (n - 1) as nat);
        if counts(queries[n - 1], language) && is_useful(
            results[n - 1]@,
            queries[n - 1].useful_case,
            limit,
        ) {
            before + 1
        } else {
            before
        }
    }
}

/// How many of the first `n` searches were in a language.
pub open spec fn language_count(queries: Seq<Query>, language: Seq<char>, n: nat) -> nat
    decreases n,
{
    if n == 0 {
        0
    } else {
        language_count(queries, language, (n - 1) as nat) + (if queries[n - 1].language@
            == language {
            1nat
        } else {
            0nat
        })
    }
}

pub open spec fn counts(query: Query, language: Option<Seq<char>>) -> bool {
    match language {
        Some(language) => query.language@ == language,
        None => true,
    }
}

/// The searches that have both hits and a query.
pub open spec fn paired(results: Seq<Vec<u64>>, queries: Seq<Query>) -> nat {
    if results.len() <= queries.len() {
        results.len()
    } else {
        queries.len()
    }
}

fn found_in(hits: &Vec<u64>, useful_case: u64, limit: usize) -> (found: bool)
    ensures
        found == is_useful(hits@, useful_case, limit as int),
{
    let mut i: usize = 0;
    while i < hits.len() && i < limit
        invariant
            i <= hits@.len(),
            i <= limit,
            forall|k: int| 0 <= k < i ==> #[trigger] hits@[k] != useful_case,
        decreases hits@.len() - i,
    {
        if hits[i] == useful_case {
            return true;
        }
        i = i + 1;
    }
    false
}

/// How many searches found the useful case among their first hits.
pub fn recall_count(results: &[Vec<u64>], queries: &[Query], limit: usize) -> (count: usize)
    ensures
        count == useful_count(
            results@,
            queries@,
            None,
            limit as int,
            paired(results@, queries@),
        ),
{
    let mut count: usize = 0;
    let mut i: usize = 0;
    while i < results.len() && i < queries.len()
        invariant
            i <= results@.len(),
            i <= queries@.len(),
            count <= i,
            count == useful_count(results@, queries@, None, limit as int, i as nat),
        decreases results@.len() - i,
    {
        if found_in(&results[i], queries[i].useful_case, limit) {
            count = count + 1;
        }
        i = i + 1;
    }
    count
}

/// How many searches of a language found the useful case among their first hits, and
/// how many there were.
pub fn recall_by_language(
    results: &[Vec<u64>],
    queries: &[Query],
    language: &str,
    limit: usize,
) -> (count: (usize, usize))
    ensures
        count.0 == useful_count(
            results@,
            queries@,
            Some(language@),
            limit as int,
            paired(results@, queries@),
        ),
        count.1 == language_count(queries@, language@, paired(results@, queries@)),
{
    let mut found: usize = 0;
    let mut total: usize = 0;
    let mut i: usize = 0;
    while i < results.len() && i < queries.len()
        invariant
            i <= results@.len(),
            i <= queries@.len(),
            found <= i,
            total <= i,
            found == useful_count(
                results@,
                queries@,
                Some(language@),
                limit as int,
                i as nat,
            ),
            total == language_count(queries@, language@, i as nat),
        decreases results@.len() - i,
    {
        if same_text(queries[i].language, language) {
            total = total + 1;
            if found_in(&results[i], queries[i].useful_case, limit) {
                found = found + 1;
            }
        }
        i = i + 1;
    }
    (found, total)
}

/// A longer look finds no less.
pub proof fn a_longer_look_finds_no_less(
    results: Seq<Vec<u64>>,
    queries: Seq<Query>,
    language: Option<Seq<char>>,
    limit: int,
    longer: int,
    n: nat,
)
    requires
        limit <= longer,
    ensures
        useful_count(results, queries, language, limit, n) <= useful_count(
            results,
            queries,
            language,
            longer,
            n,
        ),
    decreases n,
{
    if n > 0 {
        a_longer_look_finds_no_less(results, queries, language, limit, longer, (n - 1) as nat);
        let hits = results[n - 1]@;
        let useful = queries[n - 1].useful_case;
        if is_useful(hits, useful, limit) {
            let i = choose|i: int| 0 <= i < hits.len() && i < limit && #[trigger] hits[i] == useful;
            assert(is_useful(hits, useful, longer));
        }
    }
}

} // verus!
