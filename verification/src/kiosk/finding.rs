//! What finds an item, and which of two items is found first.

use vstd::prelude::*;
use crate::chars;
use crate::kiosk::search;
use crate::kiosk::store::Article;
use crate::seqs;
use crate::text;

verus! {

/// What a character leaves of itself: a digit or a small letter itself, a capital its
/// small letter, anything else nothing.
pub proof fn letters_and_digits_are_kept(c: char)
    ensures
        '0' <= c <= '9' || 'a' <= c <= 'z' ==> search::normalized(seq![c]) == seq![c],
        'A' <= c <= 'Z' ==> search::normalized(seq![c]) == seq![((c as u32) + 32) as char],
        !('0' <= c <= '9') && !('a' <= c <= 'z') && !('A' <= c <= 'Z') ==> search::normalized(
            seq![c],
        ) == Seq::<char>::empty(),
{
    let keep = |c: char| search::is_plain(c);
    let one = seq![c];
    seqs::lemma_filter_step(one, keep, 0);
    assert(one.take(0) =~= Seq::empty());
    assert(one.take(1) =~= one);
    reveal(Seq::filter);
    assert(Seq::<char>::empty().filter(keep) =~= Seq::empty());
    if search::is_plain(c) {
        assert(one.filter(keep) =~= one);
        assert(search::normalized(one) =~= seq![search::small(c)]);
    } else {
        assert(search::normalized(one) =~= Seq::empty());
    }
}

/// What a text leaves is what its characters leave, one after another.
pub proof fn texts_are_plain_piece_by_piece(a: Seq<char>, b: Seq<char>)
    ensures
        search::normalized(a + b) == search::normalized(a) + search::normalized(b),
    decreases b.len(),
{
    let keep = |c: char| search::is_plain(c);
    let lower = |c: char| search::small(c);
    reveal(Seq::filter);
    if b.len() == 0 {
        assert(a + b =~= a);
        assert(search::normalized(b) =~= Seq::empty());
        assert(search::normalized(a) + search::normalized(b) =~= search::normalized(a));
    } else {
        let front = b.drop_last();
        texts_are_plain_piece_by_piece(a, front);
        assert((a + b).drop_last() =~= a + front);
        assert((a + b).last() == b.last());
        assert(search::normalized(a + b) =~= search::normalized(a) + search::normalized(b));
    }
}

/// What a text leaves holds digits and small letters alone, and leaves itself.
pub proof fn plain_texts_stay(value: Seq<char>)
    ensures
        forall|i: int|
            0 <= i < search::normalized(value).len() ==> ('0' <= #[trigger] search::normalized(
                value,
            )[i] <= '9' || 'a' <= search::normalized(value)[i] <= 'z'),
        search::normalized(search::normalized(value)) == search::normalized(value),
    decreases value.len(),
{
    if value.len() == 0 {
        reveal(Seq::filter);
        assert(search::normalized(value) =~= Seq::empty());
    } else {
        let front = value.drop_last();
        let last = seq![value.last()];
        assert(value =~= front + last);
        plain_texts_stay(front);
        texts_are_plain_piece_by_piece(front, last);
        letters_and_digits_are_kept(value.last());
        let left = search::normalized(last);
        if left.len() > 0 {
            assert(left =~= seq![left[0]]);
            letters_and_digits_are_kept(left[0]);
        } else {
            assert(left =~= Seq::empty());
            reveal(Seq::filter);
            assert(search::normalized(left) =~= Seq::empty());
        }
        texts_are_plain_piece_by_piece(search::normalized(front), left);
    }
}

/// A single character was put in, taken out or exchanged.
pub open spec fn one_edit(from: Seq<char>, to: Seq<char>) -> bool {
    exists|front: Seq<char>, back: Seq<char>, before: Seq<char>, after: Seq<char>|
        #[trigger] edits(from, to, front, before, after, back)
}

pub open spec fn edits(
    from: Seq<char>,
    to: Seq<char>,
    front: Seq<char>,
    before: Seq<char>,
    after: Seq<char>,
    back: Seq<char>,
) -> bool {
    &&& before.len() <= 1 && after.len() <= 1
    &&& from == front + before + back
    &&& to == front + after + back
}

/// One text turns into another in `n` single edits.
pub open spec fn turns_into(from: Seq<char>, to: Seq<char>, n: nat) -> bool
    decreases n,
{
    if n == 0 {
        from == to
    } else {
        exists|between: Seq<char>|
            #[trigger] one_edit(from, between) && turns_into(between, to, (n - 1) as nat)
    }
}

/// A distance does not depend on which of the two texts comes first.
pub proof fn distance_is_symmetric(a: Seq<char>, b: Seq<char>)
    ensures
        search::distance(a, b) == search::distance(b, a),
    decreases a.len() + b.len(),
{
    if a.len() > 0 && b.len() > 0 {
        distance_is_symmetric(a, b.drop_last());
        distance_is_symmetric(a.drop_last(), b);
        distance_is_symmetric(a.drop_last(), b.drop_last());
    }
}

proof fn lemma_distance_zero(a: Seq<char>)
    ensures
        search::distance(a, a) == 0,
    decreases a.len(),
{
    if a.len() > 0 {
        lemma_distance_zero(a.drop_last());
    }
}

proof fn lemma_distance_edit(
    a: Seq<char>,
    front: Seq<char>,
    before: Seq<char>,
    after: Seq<char>,
    back: Seq<char>,
)
    requires
        before.len() <= 1,
        after.len() <= 1,
    ensures
        search::distance(a, front + after + back) <= search::distance(a, front + before + back) + 1,
    decreases a.len() + back.len(),
{
    let x = front + before + back;
    let y = front + after + back;
    if a.len() == 0 {
    } else if back.len() > 0 {
        let rest = back.drop_last();
        assert(x.drop_last() =~= front + before + rest);
        assert(y.drop_last() =~= front + after + rest);
        assert(x.last() == back.last() && y.last() == back.last());
        lemma_distance_edit(a, front, before, after, rest);
        lemma_distance_edit(a.drop_last(), front, before, after, back);
        lemma_distance_edit(a.drop_last(), front, before, after, rest);
    } else {
        assert(x =~= front + before);
        assert(y =~= front + after);
        lemma_distance_edit(a.drop_last(), front, before, after, back);
        lemma_step(a, front);
        if before.len() == 0 {
            assert(x =~= front);
            if after.len() == 0 {
                assert(y =~= front);
            } else {
                assert(y.drop_last() =~= front);
            }
        } else {
            assert(x.drop_last() =~= front);
            if after.len() == 0 {
                assert(y =~= front);
            } else {
                assert(y.drop_last() =~= front);
            }
            lemma_step(a, y);
        }
    }
}

/// A character more makes at most one edit more.
proof fn lemma_step(a: Seq<char>, b: Seq<char>)
    requires
        a.len() > 0,
    ensures
        search::distance(a, b) <= search::distance(a.drop_last(), b) + 1,
{
}

proof fn lemma_turn_on(from: Seq<char>, between: Seq<char>, to: Seq<char>, n: nat)
    requires
        turns_into(from, between, n),
        one_edit(between, to),
    ensures
        turns_into(from, to, n + 1),
    decreases n,
{
    if n == 0 {
        assert(turns_into(to, to, 0));
    } else {
        let next = choose|next: Seq<char>|
            #[trigger] one_edit(from, next) && turns_into(next, between, (n - 1) as nat);
        lemma_turn_on(next, between, to, (n - 1) as nat);
    }
}

proof fn lemma_turn_push(from: Seq<char>, to: Seq<char>, c: char, n: nat)
    requires
        turns_into(from, to, n),
    ensures
        turns_into(from.push(c), to.push(c), n),
    decreases n,
{
    if n > 0 {
        let next = choose|next: Seq<char>|
            #[trigger] one_edit(from, next) && turns_into(next, to, (n - 1) as nat);
        lemma_turn_push(next, to, c, (n - 1) as nat);
        let (front, back, before, after) = choose|
            front: Seq<char>,
            back: Seq<char>,
            before: Seq<char>,
            after: Seq<char>,
        | #[trigger]
            edits(from, next, front, before, after, back);
        assert(from.push(c) =~= front + before + back.push(c));
        assert(next.push(c) =~= front + after + back.push(c));
        assert(edits(from.push(c), next.push(c), front, before, after, back.push(c)));
        assert(one_edit(from.push(c), next.push(c)));
    }
}

/// The distance of two texts is a number of edits that turns one into the other.
pub proof fn distance_is_reached(a: Seq<char>, b: Seq<char>)
    ensures
        turns_into(a, b, search::distance(a, b)),
    decreases a.len() + b.len(),
{
    let none = Seq::<char>::empty();
    if a.len() == 0 && b.len() == 0 {
        assert(a =~= b);
    } else if b.len() > 0 && (a.len() == 0 || search::distance(a, b) == search::distance(
        a,
        b.drop_last(),
    ) + 1) {
        let front = b.drop_last();
        distance_is_reached(a, front);
        assert(front =~= front + none + none);
        assert(b =~= front + seq![b.last()] + none);
        assert(edits(front, b, front, none, seq![b.last()], none));
        lemma_turn_on(a, front, b, search::distance(a, front));
    } else if b.len() == 0 || search::distance(a, b) == search::distance(a.drop_last(), b) + 1 {
        let front = a.drop_last();
        distance_is_reached(front, b);
        assert(front =~= front + none + none);
        assert(a =~= front + seq![a.last()] + none);
        assert(edits(a, front, front, seq![a.last()], none, none));
        assert(one_edit(a, front));
        if b.len() == 0 {
            assert(search::distance(front, b) == front.len());
        }
        assert(turns_into(front, b, (search::distance(a, b) - 1) as nat));
    } else {
        let (p, q) = (a.drop_last(), b.drop_last());
        let n = search::distance(p, q);
        distance_is_reached(p, q);
        lemma_turn_push(p, q, a.last(), n);
        assert(p.push(a.last()) =~= a);
        if a.last() == b.last() {
            assert(q.push(b.last()) =~= b);
        } else {
            let between = q.push(a.last());
            assert(between =~= q + seq![a.last()] + none);
            assert(b =~= q + seq![b.last()] + none);
            assert(edits(between, b, q, seq![a.last()], seq![b.last()], none));
            lemma_turn_on(a, between, b, n);
        }
    }
}

/// No smaller number of edits turns one text into the other.
pub proof fn distance_is_least(a: Seq<char>, b: Seq<char>, n: nat)
    requires
        turns_into(a, b, n),
    ensures
        search::distance(a, b) <= n,
    decreases n,
{
    if n == 0 {
        lemma_distance_zero(a);
    } else {
        let next = choose|next: Seq<char>|
            #[trigger] one_edit(a, next) && turns_into(next, b, (n - 1) as nat);
        distance_is_least(next, b, (n - 1) as nat);
        let (front, back, before, after) = choose|
            front: Seq<char>,
            back: Seq<char>,
            before: Seq<char>,
            after: Seq<char>,
        | #[trigger]
            edits(a, next, front, before, after, back);
        lemma_distance_edit(b, front, after, before, back);
        distance_is_symmetric(a, b);
        distance_is_symmetric(next, b);
    }
}

/// What an item is called by: its tag, serial number, name and nickname in plain
/// letters, and its initials with its name.
pub open spec fn called(item: Article) -> Seq<Seq<char>> {
    seq![
        search::normalized(item.asset_tag),
        search::normalized(item.serial),
        search::normalized(item.name),
        search::normalized(item.nickname),
        search::initials_of(item.name, item.name.len()) + search::normalized(item.name),
    ]
}

/// An item is called exactly so.
pub open spec fn called_exactly(item: Article, query: Seq<char>) -> bool {
    exists|f: int| 0 <= f < 5 && #[trigger] called(item)[f] == query
}

/// A text is a stretch of another.
pub open spec fn stretch(part: Seq<char>, whole: Seq<char>) -> bool {
    exists|front: Seq<char>, back: Seq<char>| #[trigger] (front + part + back) == whole
}

/// What an item is called by holds a text, or the text holds it.
pub open spec fn called_in_part(item: Article, query: Seq<char>) -> bool {
    exists|f: int|
        0 <= f < 5 && (stretch(query, #[trigger] called(item)[f]) || stretch(
            called(item)[f],
            query,
        ))
}

/// An item is no further from a text than another, counted in single edits.
pub open spec fn no_further(a: Article, b: Article, query: Seq<char>) -> bool {
    exists|f: int|
        0 <= f < 5 && forall|g: int|
            0 <= g < 5 ==> search::distance(#[trigger] called(a)[f], query) <= search::distance(
                #[trigger] called(b)[g],
                query,
            )
}

proof fn lemma_stretch(part: Seq<char>, whole: Seq<char>)
    ensures
        search::occurs(part, whole) <==> stretch(part, whole),
{
    if search::occurs(part, whole) {
        let i = choose|i: int| #[trigger] search::stands_at(part, whole, i);
        assert(whole.take(i) + part + whole.skip(i + part.len()) =~= whole) by {
            assert(whole.take(i) + whole.subrange(i, i + part.len()) + whole.skip(i + part.len())
                =~= whole);
        }
    }
    if stretch(part, whole) {
        let (front, back) = choose|front: Seq<char>, back: Seq<char>| #[trigger]
            (front + part + back) == whole;
        let at = front.len() as int;
        assert(whole.subrange(at, at + part.len()) =~= part);
        assert(search::stands_at(part, whole, at));
    }
}

/// What a score says of an item.
proof fn lemma_score(item: Article, query: Seq<char>) -> (f: int)
    ensures
        search::score(item, query) == 0 <==> called_exactly(item, query),
        search::score(item, query) <= 1 <==> called_in_part(item, query),
        0 <= f < 5,
        !called_in_part(item, query) ==> search::score(item, query) == search::distance(
            called(item)[f],
            query,
        ) + 2,
        !called_in_part(item, query) ==> forall|g: int|
            0 <= g < 5 ==> search::distance(called(item)[f], query) <= search::distance(
                #[trigger] called(item)[g],
                query,
            ),
{
    let all = called(item);
    let s = search::score(item, query);
    assert forall|g: int| 0 <= g < 5 implies s <= search::field_score(#[trigger] all[g], query) by {
        assert(g == 0 || g == 1 || g == 2 || g == 3 || g == 4);
    }
    assert(s == search::field_score(all[0], query) || s == search::field_score(all[1], query) || s
        == search::field_score(all[2], query) || s == search::field_score(all[3], query) || s
        == search::field_score(all[4], query));
    let f: int = if s == search::field_score(all[0], query) {
        0
    } else if s == search::field_score(all[1], query) {
        1
    } else if s == search::field_score(all[2], query) {
        2
    } else if s == search::field_score(all[3], query) {
        3
    } else {
        4
    };
    assert(s == search::field_score(all[f], query));
    assert forall|g: int| 0 <= g < 5 implies (search::field_score(#[trigger] all[g], query) <= 1
        <==> stretch(query, all[g]) || stretch(all[g], query)) by {
        lemma_stretch(query, all[g]);
        lemma_stretch(all[g], query);
        if all[g] == query {
            assert(Seq::<char>::empty() + query + Seq::<char>::empty() =~= all[g]);
        }
    }
    if called_in_part(item, query) {
        let g = choose|g: int|
            0 <= g < 5 && (stretch(query, #[trigger] all[g]) || stretch(all[g], query));
        assert(search::field_score(all[g], query) <= 1);
    } else {
        assert forall|g: int| 0 <= g < 5 implies search::field_score(#[trigger] all[g], query)
            == search::distance(all[g], query) + 2 by {}
    }
    f
}

/// A search shows the items that are called exactly so first, in the order of their
/// ids; then those called so in part; then the others, fewest edits away first. No item
/// is left out for one that comes behind it.
pub proof fn nearer_items_are_found_first(
    items: Seq<Article>,
    query: Seq<char>,
    order: Seq<int>,
    p: int,
    q: int,
)
    requires
        search::is_ranking(order, items, search::normalized(query)),
        0 <= p < q < items.len(),
    ensures
        ({
            let wanted = search::normalized(query);
            let (a, b) = (items[order[p]], items[order[q]]);
            &&& called_exactly(b, wanted) ==> called_exactly(a, wanted)
            &&& called_in_part(b, wanted) ==> called_in_part(a, wanted)
            &&& !called_in_part(a, wanted) ==> no_further(a, b, wanted)
            &&& called_exactly(b, wanted) ==> text::text_le(a.id, b.id)
            &&& called_in_part(b, wanted) && !called_exactly(a, wanted) ==> text::text_le(
                a.id,
                b.id,
            )
            &&& !called_in_part(a, wanted) && no_further(b, a, wanted) ==> text::text_le(a.id, b.id)
        }),
{
    let wanted = search::normalized(query);
    let (i, j) = (order[p], order[q]);
    let (a, b) = (items[i], items[j]);
    assert(search::no_worse(a, b, wanted));
    let f = lemma_score(a, wanted);
    let g = lemma_score(b, wanted);
    if !called_in_part(a, wanted) {
        assert forall|h: int| 0 <= h < 5 implies search::distance(#[trigger] called(a)[f], wanted)
            <= search::distance(#[trigger] called(b)[h], wanted) by {}
        assert(no_further(a, b, wanted));
        if no_further(b, a, wanted) {
            let h = choose|h: int|
                0 <= h < 5 && forall|k: int|
                    0 <= k < 5 ==> search::distance(#[trigger] called(b)[h], wanted)
                        <= search::distance(#[trigger] called(a)[k], wanted);
            assert(search::distance(called(b)[h], wanted) <= search::distance(
                called(a)[f],
                wanted,
            ));
            assert(search::distance(called(b)[g], wanted) <= search::distance(
                called(b)[h],
                wanted,
            ));
        }
    }
}

/// An item whose tag, serial number, name or nickname is in plain letters what is
/// asked for comes before every item that nothing of the kind can be said of.
pub proof fn exact_matches_come_first(
    items: Seq<Article>,
    query: Seq<char>,
    order: Seq<int>,
    p: int,
    q: int,
)
    requires
        search::is_ranking(order, items, search::normalized(query)),
        0 <= p < items.len(),
        0 <= q < items.len(),
        ({
            let item = items[order[p]];
            let wanted = search::normalized(query);
            ||| search::normalized(item.asset_tag) == wanted
            ||| search::normalized(item.serial) == wanted
            ||| search::normalized(item.name) == wanted
            ||| search::normalized(item.nickname) == wanted
        }),
        !called_exactly(items[order[q]], search::normalized(query)),
    ensures
        p < q,
{
    let wanted = search::normalized(query);
    let all = called(items[order[p]]);
    assert(all[0] == wanted || all[1] == wanted || all[2] == wanted || all[3] == wanted);
    assert(called_exactly(items[order[p]], wanted));
    if q < p {
        nearer_items_are_found_first(items, query, order, q, p);
    }
}

/// The initials of two texts with white space between them are those of the one and
/// then those of the other.
pub proof fn initials_follow_the_words(a: Seq<char>, gap: char, b: Seq<char>)
    requires
        chars::whitespace(gap),
    ensures
        ({
            let whole = a + seq![gap] + b;
            search::initials_of(whole, whole.len()) == search::initials_of(a, a.len())
                + search::initials_of(b, b.len())
        }),
{
    let whole = a + seq![gap] + b;
    lemma_initials_front(a, whole, a.len());
    assert(whole[a.len() as int] == gap);
    lemma_initials_back(a, gap, b, b.len());
}

proof fn lemma_initials_front(a: Seq<char>, whole: Seq<char>, n: nat)
    requires
        n <= a.len() <= whole.len(),
        forall|i: int| 0 <= i < a.len() ==> a[i] == #[trigger] whole[i],
    ensures
        search::initials_of(whole, n) == search::initials_of(a, n),
    decreases n,
{
    if n > 0 {
        lemma_initials_front(a, whole, (n - 1) as nat);
        assert(a[n - 1] == whole[n - 1]);
        if n > 1 {
            assert(a[n - 2] == whole[n - 2]);
        }
    }
}

proof fn lemma_initials_back(a: Seq<char>, gap: char, b: Seq<char>, n: nat)
    requires
        chars::whitespace(gap),
        n <= b.len(),
    ensures
        search::initials_of(a + seq![gap] + b, a.len() + 1 + n) == search::initials_of(
            a,
            a.len(),
        ) + search::initials_of(b, n),
    decreases n,
{
    let whole = a + seq![gap] + b;
    let head = search::initials_of(a, a.len());
    let at = (a.len() + 1 + n) as nat;
    assert(whole[a.len() as int] == gap);
    if n == 0 {
        lemma_initials_front(a, whole, a.len());
        assert(!search::opens_word(whole, a.len() as int));
        assert(head + search::initials_of(b, 0) =~= head);
    } else {
        lemma_initials_back(a, gap, b, (n - 1) as nat);
        assert(whole[at - 1] == b[n - 1]);
        if n > 1 {
            assert(whole[at - 2] == b[n - 2]);
        }
        assert(search::opens_word(whole, at - 1) == search::opens_word(b, n - 1));
        assert((at - 1) as nat == a.len() + 1 + (n - 1) as nat);
        if search::opens_word(b, n - 1) {
            assert(head + (search::initials_of(b, (n - 1) as nat) + chars::lower_case(b[n - 1]))
                =~= head + search::initials_of(b, (n - 1) as nat) + chars::lower_case(b[n - 1]));
        }
    }
}

/// The initials of a word are its first character in lower case; of nothing, nothing.
pub proof fn a_word_has_one_initial(word: Seq<char>, n: nat)
    requires
        n <= word.len(),
        forall|i: int| 0 <= i < word.len() ==> !chars::whitespace(#[trigger] word[i]),
    ensures
        search::initials_of(word, n) == if n == 0 {
            Seq::<char>::empty()
        } else {
            chars::lower_case(word[0])
        },
    decreases n,
{
    if n > 0 {
        a_word_has_one_initial(word, (n - 1) as nat);
        if n == 1 {
            assert(Seq::<char>::empty() + chars::lower_case(word[0]) =~= chars::lower_case(
                word[0],
            ));
        } else {
            assert(!chars::whitespace(word[n - 2]));
        }
    }
}

/// A search shows as many items as are asked for, or all where there are fewer: the first
/// by the ranking, each by its id.
pub proof fn searches_show_as_many_as_asked(
    items: Seq<Article>,
    query: Seq<char>,
    order: Seq<int>,
    limit: nat,
)
    requires
        search::is_ranking(order, items, query),
    ensures
        ({
            let found = search::best(items, order, limit);
            &&& limit <= items.len() ==> found.len() == limit
            &&& limit > items.len() ==> found.len() == items.len()
            &&& forall|k: int|
                0 <= k < found.len() ==> #[trigger] found[k] == items[order[k]].id
            &&& forall|p: int, q: int|
                0 <= p < q < found.len() ==> #[trigger] order[p] != #[trigger] order[q]
        }),
{
}

} // verus!
