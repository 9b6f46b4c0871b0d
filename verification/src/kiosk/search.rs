//! Finding an item by what a visitor calls it.

use vstd::prelude::*;
use crate::chars;
use crate::chars::{chars_of, lowered};
use crate::kiosk::model::Item;
use crate::kiosk::store;
use crate::kiosk::store::{Article, Kiosk};
use crate::seqs;
use crate::sorting;
use crate::sorting::{Ranked, sort};
use crate::text;
use crate::text::rank_texts;

verus! {

/// A letter or a digit of ASCII.
pub open spec fn is_plain(c: char) -> bool {
    ('0' <= c && c <= '9') || ('a' <= c && c <= 'z') || ('A' <= c && c <= 'Z')
}

/// The small letter of a capital of ASCII; any other character is kept.
pub open spec fn small(c: char) -> char {
    if 'A' <= c && c <= 'Z' {
        ((c as u32) + 32) as char
    } else {
        c
    }
}

/// The letters and digits of a text, in small letters.
pub open spec fn normalized(value: Seq<char>) -> Seq<char> {
    value.filter(|c: char| is_plain(c)).map_values(|c: char| small(c))
}

fn small_of(c: char) -> (result: char)
    requires
        is_plain(c),
    ensures
        result == small(c),
{
    if 'A' <= c && c <= 'Z' {
        ((c as u32) as u8 + 32u8) as char
    } else {
        c
    }
}

/// The letters and digits of a text, in small letters.
pub fn normalize(value: &str) -> (plain: String)
    ensures
        plain@ == normalized(value@),
{
    let letters = chars_of(value);
    let ghost keep = |c: char| is_plain(c);
    let ghost lower = |c: char| small(c);
    let mut plain = String::new();
    let mut i: usize = 0;
    proof {
        reveal(Seq::filter);
        assert(value@.take(0) =~= Seq::empty());
        assert(value@.take(0).filter(keep).map_values(lower) =~= Seq::empty());
    }
    while i < letters.len()
        invariant
            i <= letters@.len(),
            letters@ == value@,
            keep == (|c: char| is_plain(c)),
            lower == (|c: char| small(c)),
            plain@ == value@.take(i as int).filter(keep).map_values(lower),
        decreases letters@.len() - i,
    {
        let c: char = letters[i];
        let ghost before = value@.take(i as int).filter(keep);
        proof {
            seqs::lemma_filter_step(value@, keep, i as int);
        }
        if ('0' <= c && c <= '9') || ('a' <= c && c <= 'z') || ('A' <= c && c <= 'Z') {
            plain.push(small_of(c));
            assert(before.push(c).map_values(lower) =~= before.map_values(lower).push(small(c)));
        }
        i = i + 1;
    }
    assert(value@.take(i as int) =~= value@);
    plain
}

pub open spec fn least(a: nat, b: nat) -> nat {
    if a <= b {
        a
    } else {
        b
    }
}

/// How many characters must be put in, taken out or exchanged to get from one text
/// to another.
pub open spec fn distance(a: Seq<char>, b: Seq<char>) -> nat
    decreases a.len() + b.len(),
{
    if a.len() == 0 {
        b.len()
    } else if b.len() == 0 {
        a.len()
    } else {
        least(
            least(distance(a, b.drop_last()) + 1, distance(a.drop_last(), b) + 1),
            distance(a.drop_last(), b.drop_last()) + (if a.last() == b.last() {
                0nat
            } else {
                1nat
            }),
        )
    }
}

/// A distance is no greater than the longer of the two texts.
pub proof fn lemma_distance_bound(a: Seq<char>, b: Seq<char>)
    ensures
        distance(a, b) <= a.len() || distance(a, b) <= b.len(),
    decreases a.len() + b.len(),
{
    if a.len() > 0 && b.len() > 0 {
        lemma_distance_bound(a.drop_last(), b.drop_last());
    }
}

/// How many characters must be put in, taken out or exchanged to get from one text
/// to another.
pub fn edit_distance(left: &str, right: &str) -> (edits: usize)
    ensures
        edits == distance(left@, right@),
{
    let from = chars_of(left);
    let to = chars_of(right);
    let mut previous: Vec<u128> = Vec::new();
    let mut start: usize = 0;
    while start < to.len()
        invariant
            start <= to@.len(),
            previous@.len() == start,
            from@.take(0) == Seq::<char>::empty(),
            forall|k: int|
                0 <= k < start ==> (#[trigger] previous@[k]) == distance(from@.take(0), to@.take(k)),
        decreases to@.len() - start,
    {
        previous.push(start as u128);
        start = start + 1;
    }
    previous.push(start as u128);
    let mut i: usize = 0;
    while i < from.len()
        invariant
            i <= from@.len(),
            previous@.len() == to@.len() + 1,
            forall|k: int|
                0 <= k <= to@.len() ==> (#[trigger] previous@[k]) == distance(
                    from@.take(i as int),
                    to@.take(k),
                ),
            forall|k: int| 0 <= k <= to@.len() ==> (#[trigger] previous@[k]) <= usize::MAX,
        decreases from@.len() - i,
    {
        let c: char = from[i];
        let ghost shorter = from@.take(i as int);
        let ghost longer = from@.take(i + 1);
        let mut current: Vec<u128> = Vec::new();
        current.push(i as u128 + 1);
        let mut j: usize = 0;
        let to_count: usize = to.len();
        let from_count: usize = from.len();
        proof {
            assert(longer.drop_last() =~= shorter);
            assert(to@.take(0) =~= Seq::empty());
            assert(distance(longer, to@.take(0)) == i + 1);
        }
        while j < to.len()
            invariant
                i < from@.len() == from_count,
                j <= to@.len() == to_count,
                current@.len() == j + 1,
                previous@.len() == to@.len() + 1,
                c == from@[i as int],
                shorter == from@.take(i as int),
                longer == from@.take(i + 1),
                longer.drop_last() == shorter,
                longer.last() == c,
                forall|k: int|
                    0 <= k <= to@.len() ==> (#[trigger] previous@[k]) == distance(
                        shorter,
                        to@.take(k),
                    ),
                forall|k: int| 0 <= k <= to@.len() ==> (#[trigger] previous@[k]) <= usize::MAX,
                forall|k: int|
                    0 <= k <= j ==> (#[trigger] current@[k]) == distance(longer, to@.take(k)),
                forall|k: int| 0 <= k <= j ==> (#[trigger] current@[k]) <= usize::MAX,
            decreases to@.len() - j,
        {
            let inserted: u128 = current[j] + 1;
            let removed: u128 = previous[j + 1] + 1;
            let kept: u128 = if c == to[j] {
                previous[j]
            } else {
                previous[j] + 1
            };
            let mut best: u128 = inserted;
            if removed < best {
                best = removed;
            }
            if kept < best {
                best = kept;
            }
            proof {
                let wider = to@.take(j + 1);
                assert(wider.drop_last() =~= to@.take(j as int));
                assert(wider.last() == to@[j as int]);
                assert(best == distance(longer, wider));
                lemma_distance_bound(longer, wider);
            }
            current.push(best);
            j = j + 1;
        }
        previous = current;
        i = i + 1;
    }
    proof {
        assert(from@.take(i as int) =~= left@);
        assert(to@.take(to@.len() as int) =~= right@);
        assert(previous@[to@.len() as int] == distance(left@, right@));
    }
    previous[to.len()] as usize
}

/// A word starts at a place.
pub open spec fn opens_word(value: Seq<char>, i: int) -> bool {
    !chars::whitespace(value[i]) && (i == 0 || chars::whitespace(value[i - 1]))
}

/// The first letters of the words that start before a place, in lower case.
pub open spec fn initials_of(value: Seq<char>, n: nat) -> Seq<char>
    decreases n,
{
    if n == 0 {
        Seq::empty()
    } else {
        let before = initials_of(value, (n - 1) as nat);
        if opens_word(value, n - 1) {
            before + chars::lower_case(value[n - 1])
        } else {
            before
        }
    }
}

/// The first letters of the words of a text, in lower case.
pub fn initials(value: &str) -> (letters: String)
    ensures
        letters@ == initials_of(value@, value@.len()),
{
    let all = chars_of(value);
    let mut letters = String::new();
    let mut fresh: bool = true;
    let mut i: usize = 0;
    while i < all.len()
        invariant
            i <= all@.len(),
            all@ == value@,
            fresh == (i == 0 || chars::whitespace(all@[i - 1])),
            letters@ == initials_of(value@, i as nat),
        decreases all@.len() - i,
    {
        let c: char = all[i];
        let blank: bool = c.is_whitespace();
        if fresh && !blank {
            letters.append(lowered(c).as_str());
        }
        fresh = blank;
        i = i + 1;
    }
    letters
}

/// A text stands in another at a place.
pub open spec fn stands_at(part: Seq<char>, whole: Seq<char>, i: int) -> bool {
    0 <= i <= whole.len() - part.len() && whole.subrange(i, i + part.len()) == part
}

/// A text stands somewhere in another.
pub open spec fn occurs(part: Seq<char>, whole: Seq<char>) -> bool {
    exists|i: int| #[trigger] stands_at(part, whole, i)
}

fn is_at(part: &Vec<char>, whole: &Vec<char>, at: usize) -> (result: bool)
    requires
        at + part@.len() <= whole@.len(),
    ensures
        result == stands_at(part@, whole@, at as int),
{
    let total: usize = whole.len();
    let mut i: usize = 0;
    while i < part.len()
        invariant
            i <= part@.len(),
            at + part@.len() <= whole@.len() == total,
            forall|k: int| 0 <= k < i ==> #[trigger] part@[k] == whole@[at + k],
        decreases part@.len() - i,
    {
        if part[i] != whole[at + i] {
            proof {
                if stands_at(part@, whole@, at as int) {
                    assert(whole@.subrange(at as int, at + part@.len())[i as int] == whole@[at
                        + i]);
                }
            }
            return false;
        }
        i = i + 1;
    }
    assert(whole@.subrange(at as int, at + part@.len()) =~= part@);
    true
}

/// Whether a text stands somewhere in another.
pub fn does_occur(part: &Vec<char>, whole: &Vec<char>) -> (result: bool)
    ensures
        result == occurs(part@, whole@),
{
    if part.len() > whole.len() {
        return false;
    }
    let last: usize = whole.len() - part.len();
    let mut at: usize = 0;
    loop
        invariant
            part@.len() <= whole@.len(),
            last == whole@.len() - part@.len(),
            at <= last,
            forall|k: int| 0 <= k < at ==> !#[trigger] stands_at(part@, whole@, k),
        decreases last - at,
    {
        if is_at(part, whole, at) {
            return true;
        }
        if at == last {
            proof {
                if occurs(part@, whole@) {
                    let k = choose|k: int| #[trigger] stands_at(part@, whole@, k);
                    assert(k <= last);
                }
            }
            return false;
        }
        at = at + 1;
    }
}

/// How far what is called is from a field.
pub open spec fn field_score(field: Seq<char>, query: Seq<char>) -> nat {
    if field == query {
        0
    } else if occurs(query, field) || occurs(field, query) {
        1
    } else {
        distance(field, query) + 2
    }
}

/// How far what is called is from an item: from the nearest of its fields, or its
/// initials with its name.
pub open spec fn score(item: Article, query: Seq<char>) -> nat {
    least(
        least(
            least(
                field_score(normalized(item.asset_tag), query),
                field_score(normalized(item.serial), query),
            ),
            least(
                field_score(normalized(item.name), query),
                field_score(normalized(item.nickname), query),
            ),
        ),
        field_score(initials_of(item.name, item.name.len()) + normalized(item.name), query),
    )
}

fn score_field(field: &str, query: &str) -> (points: u128)
    ensures
        points == field_score(field@, query@),
{
    if text::same_text(field, query) {
        return 0;
    }
    let a = chars_of(field);
    let b = chars_of(query);
    if does_occur(&b, &a) || does_occur(&a, &b) {
        return 1;
    }
    edit_distance(field, query) as u128 + 2
}

fn lesser(a: u128, b: u128) -> (result: u128)
    ensures
        result == least(a as nat, b as nat),
{
    if a <= b {
        a
    } else {
        b
    }
}

fn score_item(item: &Item, query: &str) -> (points: u128)
    ensures
        points == score(item@, query@),
{
    let name = normalize(item.name.as_str());
    let mut lettered = initials(item.name.as_str());
    lettered.append(name.as_str());
    lesser(
        lesser(
            lesser(
                score_field(normalize(item.asset_tag.as_str()).as_str(), query),
                score_field(normalize(item.serial.as_str()).as_str(), query),
            ),
            lesser(
                score_field(name.as_str(), query),
                score_field(normalize(item.nickname.as_str()).as_str(), query),
            ),
        ),
        score_field(lettered.as_str(), query),
    )
}

/// An item with its score and the rank of its id.
#[derive(Clone, Copy, Debug, PartialEq, Eq, Structural)]
pub struct Candidate {
    pub points: u128,
    pub rank: usize,
    pub index: usize,
}

impl Ranked for Candidate {
    open spec fn le(self, other: Self) -> bool {
        self.points < other.points || (self.points == other.points && (self.rank < other.rank || (
        self.rank == other.rank && self.index <= other.index)))
    }

    proof fn le_total(a: Self, b: Self) {
    }

    proof fn le_transitive(a: Self, b: Self, c: Self) {
    }

    fn is_le(self, other: Self) -> bool {
        self.points < other.points || (self.points == other.points && (self.rank < other.rank || (
        self.rank == other.rank && self.index <= other.index)))
    }
}

/// An item is found no later than another: it scores less, or the same with an id
/// that is no greater.
pub open spec fn no_worse(a: Article, b: Article, query: Seq<char>) -> bool {
    score(a, query) < score(b, query) || (score(a, query) == score(b, query) && text::text_le(
        a.id,
        b.id,
    ))
}

/// Every item once, none before a better one.
pub open spec fn is_ranking(order: Seq<int>, items: Seq<Article>, query: Seq<char>) -> bool {
    &&& order.len() == items.len()
    &&& forall|p: int| 0 <= p < order.len() ==> 0 <= (#[trigger] order[p]) < items.len()
    &&& forall|p: int, q: int|
        0 <= p < q < order.len() ==> (#[trigger] order[p]) != (#[trigger] order[q]) && no_worse(
            items[order[p]],
            items[order[q]],
            query,
        )
}

/// The first of the items by a ranking.
pub open spec fn best(items: Seq<Article>, order: Seq<int>, limit: nat) -> Seq<Seq<char>> {
    Seq::new(least(limit, order.len()), |k: int| items[order[k]].id)
}

pub open spec fn texts(found: Seq<String>) -> Seq<Seq<char>> {
    found.map_values(|id: String| id@)
}

/// The ids of the items nearest to what is called, the nearest first.
pub fn search(kiosk: &Kiosk, query: &str, limit: usize) -> (found: Vec<String>)
    ensures
        exists|order: Seq<int>|
            {
                &&& #[trigger] is_ranking(order, kiosk@.items, normalized(query@))
                &&& texts(found@) == best(kiosk@.items, order, limit as nat)
            },
{
    let wanted = normalize(query);
    let items = kiosk.items();
    let ghost all = kiosk@.items;
    let mut ids: Vec<&str> = Vec::new();
    let mut i: usize = 0;
    while i < items.len()
        invariant
            i == ids@.len() <= items@.len(),
            forall|k: int| 0 <= k < i ==> (#[trigger] ids@[k])@ == items@[k].id@,
        decreases items@.len() - i,
    {
        ids.push(items[i].id.as_str());
        i = i + 1;
    }
    let ranks = rank_texts(&ids);
    let mut unsorted: Vec<Candidate> = Vec::new();
    i = 0;
    while i < items.len()
        invariant
            i == unsorted@.len() <= items@.len(),
            ranks@.len() == items@.len(),
            forall|k: int|
                0 <= k < i ==> (#[trigger] unsorted@[k]).index == k && unsorted@[k].rank
                    == ranks@[k] && unsorted@[k].points == score(items@[k]@, wanted@),
        decreases items@.len() - i,
    {
        unsorted.push(
            Candidate {
                points: score_item(&items[i], wanted.as_str()),
                rank: ranks[i],
                index: i,
            },
        );
        i = i + 1;
    }
    let sorted = sort(&unsorted);
    let ghost order = sorted@.map_values(|candidate: Candidate| candidate.index as int);
    proof {
        assert(all =~= store::articles(items@));
        lemma_ranking(sorted@, unsorted@, ranks@, ids@, all, wanted@);
    }
    let mut found: Vec<String> = Vec::new();
    i = 0;
    while i < sorted.len() && i < limit
        invariant
            i == found@.len() <= sorted@.len(),
            i <= limit,
            all == store::articles(items@),
            order == sorted@.map_values(|candidate: Candidate| candidate.index as int),
            is_ranking(order, all, wanted@),
            forall|k: int| 0 <= k < i ==> (#[trigger] found@[k])@ == all[order[k]].id,
        decreases sorted@.len() - i,
    {
        proof {
            assert(order[i as int] == sorted@[i as int].index);
            assert(0 <= order[i as int] < all.len());
        }
        found.push(items[sorted[i].index].id.as_str().to_owned());
        i = i + 1;
    }
    assert(texts(found@) =~= best(all, order, limit as nat));
    found
}

proof fn lemma_ranking(
    sorted: Seq<Candidate>,
    unsorted: Seq<Candidate>,
    ranks: Seq<usize>,
    ids: Seq<&str>,
    items: Seq<Article>,
    query: Seq<char>,
)
    requires
        sorting::arranges(sorted, unsorted),
        text::ranks_of(ranks, ids),
        unsorted.len() == items.len() == ranks.len(),
        forall|k: int| 0 <= k < items.len() ==> (#[trigger] ids[k])@ == items[k].id,
        forall|k: int|
            0 <= k < items.len() ==> (#[trigger] unsorted[k]).index == k && unsorted[k].rank
                == ranks[k] && unsorted[k].points == score(items[k], query),
    ensures
        is_ranking(
            sorted.map_values(|candidate: Candidate| candidate.index as int),
            items,
            query,
        ),
{
    let order = sorted.map_values(|candidate: Candidate| candidate.index as int);
    let n = items.len() as int;
    sorted.to_multiset_ensures();
    unsorted.to_multiset_ensures();
    assert(unsorted.no_duplicates()) by {
        assert forall|a: int, b: int| 0 <= a < n && 0 <= b < n && a != b implies unsorted[a]
            != unsorted[b] by {
            assert(unsorted[a].index == a);
            assert(unsorted[b].index == b);
        }
    }
    unsorted.lemma_multiset_has_no_duplicates();
    sorted.lemma_multiset_has_no_duplicates_conv();
    assert forall|p: int| 0 <= p < sorted.len() implies (#[trigger] sorted[p]).index < n
        && sorted[p] == unsorted[sorted[p].index as int] by {
        sorting::lemma_arranges_contains(sorted, unsorted, sorted[p]);
        assert(sorted.contains(sorted[p]));
        let k = choose|k: int| 0 <= k < n && unsorted[k] == sorted[p];
        assert(unsorted[k].index == k);
    }
    assert forall|p: int, q: int| 0 <= p < q < order.len() implies (#[trigger] order[p]) != (
    #[trigger] order[q]) && no_worse(items[order[p]], items[order[q]], query) by {
        assert(sorted[p].le(sorted[q]));
        assert(sorted[p] != sorted[q]);
        let a = order[p];
        let b = order[q];
        assert(unsorted[a] == sorted[p] && unsorted[b] == sorted[q]);
        assert(ids[a]@ == items[a].id && ids[b]@ == items[b].id);
        text::lemma_text_total(items[a].id, items[b].id);
    }
}

} // verus!
