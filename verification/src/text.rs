//! Text as sequences of characters: its byte order, order-preserving ranks,
//! decimal numerals, and assembly of messages.

use vstd::prelude::*;
use vstd::utf8;
use crate::sorting;
use crate::sorting::{order_places, sort, Ranked};

verus! {

/// Lexicographic order on bytes, a prefix before what it begins.
pub open spec fn bytes_le(a: Seq<u8>, b: Seq<u8>) -> bool
    decreases a.len(),
{
    if a.len() == 0 {
        true
    } else if b.len() == 0 {
        false
    } else if a[0] != b[0] {
        a[0] < b[0]
    } else {
        bytes_le(a.drop_first(), b.drop_first())
    }
}

/// The order of strings: that of their UTF-8 bytes.
pub open spec fn text_le(a: Seq<char>, b: Seq<char>) -> bool {
    bytes_le(utf8::encode_utf8(a), utf8::encode_utf8(b))
}

/// As `text_le`, without equality.
pub open spec fn text_lt(a: Seq<char>, b: Seq<char>) -> bool {
    text_le(a, b) && a != b
}

proof fn lemma_bytes_total(a: Seq<u8>, b: Seq<u8>)
    ensures
        bytes_le(a, b) || bytes_le(b, a),
        bytes_le(a, b) && bytes_le(b, a) ==> a == b,
    decreases a.len(),
{
    if a.len() > 0 && b.len() > 0 {
        lemma_bytes_total(a.drop_first(), b.drop_first());
        if a[0] == b[0] && a.drop_first() == b.drop_first() {
            assert(a =~= seq![a[0]] + a.drop_first());
            assert(b =~= seq![b[0]] + b.drop_first());
        }
    } else if a.len() == 0 && b.len() == 0 {
        assert(a =~= b);
    }
}

proof fn lemma_bytes_transitive(a: Seq<u8>, b: Seq<u8>, c: Seq<u8>)
    requires
        bytes_le(a, b),
        bytes_le(b, c),
    ensures
        bytes_le(a, c),
    decreases a.len(),
{
    if a.len() > 0 && b.len() > 0 && c.len() > 0 && a[0] == b[0] && b[0] == c[0] {
        lemma_bytes_transitive(a.drop_first(), b.drop_first(), c.drop_first());
    }
}

/// The order of text is total and antisymmetric.
pub proof fn lemma_text_total(a: Seq<char>, b: Seq<char>)
    ensures
        text_le(a, b) || text_le(b, a),
        text_le(a, b) && text_le(b, a) ==> a == b,
        a != b ==> text_lt(a, b) || text_lt(b, a),
        !(text_lt(a, b) && text_lt(b, a)),
        text_le(a, a),
{
    lemma_bytes_total(utf8::encode_utf8(a), utf8::encode_utf8(b));
    lemma_bytes_total(utf8::encode_utf8(a), utf8::encode_utf8(a));
    vstd::utf8::encode_utf8_decode_utf8(a);
    vstd::utf8::encode_utf8_decode_utf8(b);
}

pub proof fn lemma_text_transitive(a: Seq<char>, b: Seq<char>, c: Seq<char>)
    requires
        text_le(a, b),
        text_le(b, c),
    ensures
        text_le(a, c),
        text_lt(a, b) || text_lt(b, c) ==> text_lt(a, c),
{
    lemma_bytes_transitive(utf8::encode_utf8(a), utf8::encode_utf8(b), utf8::encode_utf8(c));
    if a == c {
        lemma_text_total(a, b);
    }
}

/// Whether `a` stands before `b` or equals it.
pub fn is_text_le(a: &str, b: &str) -> (result: bool)
    ensures
        result == text_le(a@, b@),
{
    let left = a.as_bytes();
    let right = b.as_bytes();
    let mut i: usize = 0;
    proof {
        assert(left@.skip(0) =~= left@);
        assert(right@.skip(0) =~= right@);
    }
    while i < left.len()
        invariant
            i <= left@.len(),
            i <= right@.len(),
            left@ == utf8::encode_utf8(a@),
            right@ == utf8::encode_utf8(b@),
            bytes_le(left@, right@) == bytes_le(left@.skip(i as int), right@.skip(i as int)),
        decreases left@.len() - i,
    {
        if i >= right.len() {
            return false;
        }
        if left[i] != right[i] {
            return left[i] < right[i];
        }
        proof {
            assert(left@.skip(i as int).drop_first() =~= left@.skip(i + 1));
            assert(right@.skip(i as int).drop_first() =~= right@.skip(i + 1));
        }
        i = i + 1;
    }
    true
}

/// Whether two texts have the same characters.
pub fn same_text(a: &str, b: &str) -> (result: bool)
    ensures
        result == (a@ == b@),
{
    let left = a.as_bytes();
    let right = b.as_bytes();
    proof {
        vstd::utf8::encode_utf8_decode_utf8(a@);
        vstd::utf8::encode_utf8_decode_utf8(b@);
    }
    if left.len() != right.len() {
        return false;
    }
    let mut i: usize = 0;
    while i < left.len()
        invariant
            i <= left@.len(),
            left@.len() == right@.len(),
            left@ == utf8::encode_utf8(a@),
            right@ == utf8::encode_utf8(b@),
            forall|j: int| 0 <= j < i ==> left@[j] == right@[j],
        decreases left@.len() - i,
    {
        if left[i] != right[i] {
            return false;
        }
        i = i + 1;
    }
    assert(left@ =~= right@);
    true
}

/// A text with the place it came from.
#[derive(Clone, Copy)]
struct PlacedText<'a> {
    text: &'a str,
    place: usize,
}

impl<'a> Ranked for PlacedText<'a> {
    closed spec fn le(self, other: Self) -> bool {
        text_le(self.text@, other.text@)
    }

    proof fn le_total(a: Self, b: Self) {
        lemma_text_total(a.text@, b.text@);
    }

    proof fn le_transitive(a: Self, b: Self, c: Self) {
        lemma_text_transitive(a.text@, b.text@, c.text@);
    }

    fn is_le(self, other: Self) -> bool {
        is_text_le(self.text, other.text)
    }
}

/// Numbers that order as the texts do.
pub open spec fn ranks_of(ranks: Seq<usize>, texts: Seq<&str>) -> bool {
    &&& ranks.len() == texts.len()
    &&& forall|i: int| 0 <= i < ranks.len() ==> (#[trigger] ranks[i]) < ranks.len()
    &&& forall|i: int, j: int|
        0 <= i < ranks.len() && 0 <= j < ranks.len() ==> {
            &&& (#[trigger] ranks[i] < #[trigger] ranks[j] <==> text_lt(texts[i]@, texts[j]@))
            &&& (ranks[i] == ranks[j] <==> texts[i]@ == texts[j]@)
        }
}

/// Ranks the texts: equal texts get equal numbers, earlier ones smaller numbers.
pub fn rank_texts(texts: &Vec<&str>) -> (ranks: Vec<usize>)
    ensures
        ranks_of(ranks@, texts@),
{
    let mut keyed: Vec<PlacedText> = Vec::new();
    let mut ranks: Vec<usize> = Vec::new();
    let mut i: usize = 0;
    while i < texts.len()
        invariant
            i <= texts@.len(),
            keyed@.len() == i,
            ranks@.len() == i,
            forall|j: int|
                0 <= j < i ==> (#[trigger] keyed@[j]).text == texts@[j] && keyed@[j].place == j,
        decreases texts@.len() - i,
    {
        keyed.push(PlacedText { text: texts[i], place: i });
        ranks.push(0);
        i = i + 1;
    }
    let sorted = sort(&keyed);
    let ghost n = texts@.len() as int;
    proof {
        assert(keyed@.no_duplicates());
        keyed@.lemma_multiset_has_no_duplicates();
        sorted@.lemma_multiset_has_no_duplicates_conv();
        assert forall|p: int| 0 <= p < n implies (#[trigger] sorted@[p]).place < n && sorted@[p]
            == keyed@[sorted@[p].place as int] by {
            sorting::lemma_arranges_contains(sorted@, keyed@, sorted@[p]);
            assert(sorted@.contains(sorted@[p]));
            let k = choose|k: int| 0 <= k < n && keyed@[k] == sorted@[p];
            assert(keyed@[k].place == k);
        }
        assert forall|p: int, q: int| 0 <= p < q < n implies (#[trigger] sorted@[p]).place != (
        #[trigger] sorted@[q]).place by {}
    }
    let ghost mut given: Seq<usize> = Seq::empty();
    let mut rank: usize = 0;
    let mut p: usize = 0;
    while p < sorted.len()
        invariant
            p <= sorted@.len() == n,
            n == texts@.len(),
            ranks@.len() == n,
            keyed@.len() == n,
            sorting::ascending(sorted@),
            forall|q: int|
                0 <= q < n ==> (#[trigger] sorted@[q]).place < n && sorted@[q]
                    == keyed@[sorted@[q].place as int],
            forall|a: int, b: int|
                0 <= a < b < n ==> (#[trigger] sorted@[a]).place != (#[trigger] sorted@[b]).place,
            given.len() == p,
            p > 0 ==> rank == given[p - 1],
            p == 0 ==> rank == 0,
            rank <= p,
            p > 0 ==> rank < p,
            forall|q: int| 0 <= q < p ==> (#[trigger] given[q]) < n,
            forall|q: int| 0 <= q < p ==> ranks@[(#[trigger] sorted@[q]).place as int] == given[q],
            forall|a: int, b: int|
                0 <= a <= b < p ==> {
                    &&& #[trigger] given[a] <= #[trigger] given[b]
                    &&& (given[a] == given[b] <==> sorted@[a].text@ == sorted@[b].text@)
                },
        decreases n - p,
    {
        let current = sorted[p];
        if p > 0 && !same_text(sorted[p - 1].text, current.text) {
            rank = rank + 1;
        }
        let ghost before = given;
        ranks.set(current.place, rank);
        proof {
            given = given.push(rank);
            assert forall|a: int, b: int| 0 <= a <= b < p + 1 implies {
                &&& #[trigger] given[a] <= #[trigger] given[b]
                &&& (given[a] == given[b] <==> sorted@[a].text@ == sorted@[b].text@)
            } by {
                if b == p && a < p {
                    assert(before[a] <= before[p - 1]);
                    assert(sorted@[a].le(sorted@[b]));
                    if a < p - 1 {
                        assert(sorted@[a].le(sorted@[p - 1]));
                    } else {
                        lemma_text_total(sorted@[a].text@, sorted@[a].text@);
                    }
                    assert(sorted@[p - 1].le(sorted@[b]));
                    lemma_text_total(sorted@[a].text@, sorted@[p - 1].text@);
                    lemma_text_total(sorted@[b].text@, sorted@[p - 1].text@);
                }
            }
            assert forall|q: int| 0 <= q < p + 1 implies ranks@[(
            #[trigger] sorted@[q]).place as int] == given[q] by {
                if q < p {
                    assert(sorted@[q].place != sorted@[p as int].place);
                }
            }
        }
        p = p + 1;
    }
    proof {
        assert forall|i: int|
            #![trigger texts@[i]]
            0 <= i < n implies exists|q: int|
            0 <= q < n && (#[trigger] sorted@[q]).place == i by {
            sorting::lemma_arranges_contains(sorted@, keyed@, keyed@[i]);
            assert(keyed@.contains(keyed@[i]));
            let q = choose|q: int| 0 <= q < n && sorted@[q] == keyed@[i];
            assert(sorted@[q].place == i);
        }
        assert forall|i: int| 0 <= i < n implies (#[trigger] ranks@[i]) < n by {
            let text = texts@[i];
            let q = choose|q: int| 0 <= q < n && (#[trigger] sorted@[q]).place == i;
            assert(ranks@[sorted@[q].place as int] == given[q]);
        }
        assert forall|i: int, j: int| 0 <= i < n && 0 <= j < n implies {
            &&& (#[trigger] ranks@[i] < #[trigger] ranks@[j] <==> text_lt(texts@[i]@, texts@[j]@))
            &&& (ranks@[i] == ranks@[j] <==> texts@[i]@ == texts@[j]@)
        } by {
            let (first, second) = (texts@[i], texts@[j]);
            let a = choose|q: int| 0 <= q < n && (#[trigger] sorted@[q]).place == i;
            let b = choose|q: int| 0 <= q < n && (#[trigger] sorted@[q]).place == j;
            assert(ranks@[sorted@[a].place as int] == given[a]);
            assert(ranks@[sorted@[b].place as int] == given[b]);
            assert(sorted@[a].text == texts@[i]);
            assert(sorted@[b].text == texts@[j]);
            lemma_text_total(texts@[i]@, texts@[j]@);
            if a < b {
                assert(sorted@[a].le(sorted@[b]));
                assert(given[a] <= given[b]);
            } else if b < a {
                assert(sorted@[b].le(sorted@[a]));
                assert(given[b] <= given[a]);
            }
        }
    }
    ranks
}

/// Texts in strictly ascending order.
pub open spec fn ascending_texts(s: Seq<Seq<char>>) -> bool {
    forall|i: int, j: int| 0 <= i < j < s.len() ==> text_lt(#[trigger] s[i], #[trigger] s[j])
}

/// The texts of a set, each once, in ascending order.
pub open spec fn lists(s: Seq<Seq<char>>, texts: Set<Seq<char>>) -> bool {
    ascending_texts(s) && forall|t: Seq<char>| #[trigger] s.contains(t) <==> texts.contains(t)
}

/// The texts of a finite set in ascending order.
pub open spec fn in_order(texts: Set<Seq<char>>) -> Seq<Seq<char>> {
    choose|s: Seq<Seq<char>>| lists(s, texts)
}

/// Only one sequence lists a set.
pub proof fn lemma_listing_unique(a: Seq<Seq<char>>, b: Seq<Seq<char>>, texts: Set<Seq<char>>)
    requires
        lists(a, texts),
        lists(b, texts),
    ensures
        a == b,
    decreases a.len() + b.len(),
{
    if a.len() > 0 && b.len() > 0 {
        let (x, y) = (a.last(), b.last());
        assert(a[a.len() - 1] == x && b[b.len() - 1] == y);
        assert(a.contains(x) && b.contains(y));
        assert(b.contains(x) && a.contains(y));
        let i = choose|i: int| 0 <= i < b.len() && b[i] == x;
        let j = choose|j: int| 0 <= j < a.len() && a[j] == y;
        if i < b.len() - 1 {
            assert(text_lt(b[i], b[b.len() - 1]));
            if j < a.len() - 1 {
                assert(text_lt(a[j], a[a.len() - 1]));
            }
            lemma_text_total(x, y);
        }
        assert(x == y);
        let rest = texts.remove(x);
        lemma_listing_front(a, texts);
        lemma_listing_front(b, texts);
        lemma_listing_unique(a.drop_last(), b.drop_last(), rest);
        assert(a =~= a.drop_last().push(x));
        assert(b =~= b.drop_last().push(y));
    } else if a.len() > 0 {
        assert(a.contains(a[0]));
        assert(b.contains(a[0]));
    } else if b.len() > 0 {
        assert(b.contains(b[0]));
        assert(a.contains(b[0]));
    } else {
        assert(a =~= b);
    }
}

proof fn lemma_listing_front(a: Seq<Seq<char>>, texts: Set<Seq<char>>)
    requires
        lists(a, texts),
        a.len() > 0,
    ensures
        lists(a.drop_last(), texts.remove(a.last())),
{
    let front = a.drop_last();
    assert forall|t: Seq<char>| #[trigger] front.contains(t) <==> texts.remove(a.last()).contains(
        t,
    ) by {
        if front.contains(t) {
            let i = choose|i: int| 0 <= i < front.len() && front[i] == t;
            assert(a[i] == t);
            assert(a.contains(t));
            assert(text_lt(a[i], a[a.len() - 1]));
        }
        if texts.contains(t) && t != a.last() {
            assert(a.contains(t));
            let i = choose|i: int| 0 <= i < a.len() && a[i] == t;
            assert(front[i] == t);
        }
    }
    assert forall|i: int, j: int| 0 <= i < j < front.len() implies text_lt(
        #[trigger] front[i],
        #[trigger] front[j],
    ) by {
        assert(text_lt(a[i], a[j]));
    }
}

/// A finite set of texts has a greatest text.
proof fn lemma_greatest(texts: Set<Seq<char>>) -> (greatest: Seq<char>)
    requires
        texts.finite(),
        texts.len() > 0,
    ensures
        texts.contains(greatest),
        forall|t: Seq<char>| #[trigger] texts.contains(t) ==> text_le(t, greatest),
    decreases texts.len(),
{
    let some = texts.choose();
    let rest = texts.remove(some);
    if rest.len() == 0 {
        assert forall|t: Seq<char>| #[trigger] texts.contains(t) implies text_le(t, some) by {
            if t != some {
                assert(rest.contains(t));
                assert(rest.len() > 0);
            }
            lemma_text_total(some, some);
        }
        some
    } else {
        let other = lemma_greatest(rest);
        lemma_text_total(some, other);
        let greatest = if text_le(some, other) {
            other
        } else {
            some
        };
        assert forall|t: Seq<char>| #[trigger] texts.contains(t) implies text_le(t, greatest) by {
            lemma_text_total(t, t);
            if t != some {
                assert(rest.contains(t));
                lemma_text_transitive(t, other, greatest);
            }
        }
        greatest
    }
}

/// A finite set of texts has a listing.
pub proof fn lemma_listed(texts: Set<Seq<char>>)
    requires
        texts.finite(),
    ensures
        lists(in_order(texts), texts),
    decreases texts.len(),
{
    if texts.len() == 0 {
        let listing = Seq::<Seq<char>>::empty();
        assert(texts =~= Set::empty());
        assert(lists(listing, texts));
    } else {
        let greatest = lemma_greatest(texts);
        let rest = texts.remove(greatest);
        lemma_listed(rest);
        let front = in_order(rest);
        let listing = front.push(greatest);
        assert forall|i: int, j: int| 0 <= i < j < listing.len() implies text_lt(
            #[trigger] listing[i],
            #[trigger] listing[j],
        ) by {
            if j == front.len() {
                assert(front.contains(front[i]));
                assert(rest.contains(front[i]));
                assert(texts.contains(front[i]));
            }
        }
        assert forall|t: Seq<char>| #[trigger] listing.contains(t) <==> texts.contains(t) by {
            if listing.contains(t) {
                let i = choose|i: int| 0 <= i < listing.len() && listing[i] == t;
                if i < front.len() {
                    assert(front.contains(t));
                }
            }
            if texts.contains(t) {
                if t == greatest {
                    assert(listing[front.len() as int] == t);
                } else {
                    assert(rest.contains(t));
                    assert(front.contains(t));
                    let i = choose|i: int| 0 <= i < front.len() && front[i] == t;
                    assert(listing[i] == t);
                }
            }
        }
        assert(lists(listing, texts));
    }
}

/// A listing is the ordered enumeration of its set.
pub proof fn lemma_in_order(s: Seq<Seq<char>>, texts: Set<Seq<char>>)
    requires
        lists(s, texts),
    ensures
        in_order(texts) == s,
{
    lemma_listing_unique(in_order(texts), s, texts);
}

/// The decimal digit of a value below ten.
pub open spec fn digit(value: nat) -> char {
    if value == 0 {
        '0'
    } else if value == 1 {
        '1'
    } else if value == 2 {
        '2'
    } else if value == 3 {
        '3'
    } else if value == 4 {
        '4'
    } else if value == 5 {
        '5'
    } else if value == 6 {
        '6'
    } else if value == 7 {
        '7'
    } else if value == 8 {
        '8'
    } else {
        '9'
    }
}

/// The decimal numeral of a number, without leading zeros.
pub open spec fn decimal(value: nat) -> Seq<char>
    decreases value,
{
    if value < 10 {
        seq![digit(value)]
    } else {
        decimal(value / 10).push(digit(value % 10))
    }
}

/// The last `width` decimal digits of a number.
pub open spec fn digits(value: nat, width: nat) -> Seq<char>
    decreases width,
{
    if width == 0 {
        Seq::empty()
    } else {
        digits(value / 10, (width - 1) as nat).push(digit(value % 10))
    }
}

/// A numeral filled with leading zeros to at least `width` digits.
pub open spec fn padded(value: nat, width: nat) -> Seq<char> {
    if decimal(value).len() < width {
        digits(value, width)
    } else {
        decimal(value)
    }
}

/// Appending a character, as `String::push` does.
pub assume_specification[ std::string::String::push ](s: &mut std::string::String, ch: char)
    ensures
        final(s)@ == old(s)@.push(ch),
;

fn digit_char(value: u64) -> (result: char)
    requires
        value < 10,
    ensures
        result == digit(value as nat),
{
    match value {
        0 => '0',
        1 => '1',
        2 => '2',
        3 => '3',
        4 => '4',
        5 => '5',
        6 => '6',
        7 => '7',
        8 => '8',
        _ => '9',
    }
}

/// Appends the decimal numeral of `value`.
pub fn push_decimal(out: &mut String, value: u64)
    ensures
        final(out)@ == old(out)@ + decimal(value as nat),
    decreases value,
{
    if value >= 10 {
        push_decimal(out, value / 10);
    }
    let ghost before = out@;
    out.push(digit_char(value % 10));
    proof {
        if value < 10 {
            assert(before.push(digit(value as nat)) =~= old(out)@ + decimal(value as nat));
        } else {
            assert(before.push(digit((value % 10) as nat)) =~= old(out)@ + decimal(value as nat));
        }
    }
}

fn push_digits(out: &mut String, value: u64, width: u32)
    ensures
        final(out)@ == old(out)@ + digits(value as nat, width as nat),
    decreases width,
{
    if width > 0 {
        push_digits(out, value / 10, width - 1);
        let ghost before = out@;
        out.push(digit_char(value % 10));
        assert(before.push(digit((value % 10) as nat)) =~= old(out)@ + digits(
            value as nat,
            width as nat,
        ));
    } else {
        assert(out@ =~= old(out)@ + digits(value as nat, 0));
    }
}

fn numeral_length(value: u64) -> (length: u32)
    ensures
        length == decimal(value as nat).len(),
    decreases value,
{
    if value < 10 {
        1
    } else {
        let rest = numeral_length(value / 10);
        proof {
            lemma_numeral_short((value / 10) as nat);
        }
        rest + 1
    }
}

proof fn lemma_numeral_short(value: nat)
    requires
        value <= u64::MAX,
    ensures
        decimal(value).len() <= 20,
{
    reveal_with_fuel(decimal, 20);
}

/// Appends the numeral of `value`, filled with zeros to `width` digits.
pub fn push_padded(out: &mut String, value: u64, width: u32)
    ensures
        final(out)@ == old(out)@ + padded(value as nat, width as nat),
{
    if numeral_length(value) < width {
        push_digits(out, value, width);
    } else {
        push_decimal(out, value);
    }
}

/// The concatenation of two texts.
pub fn joined(a: &str, b: &str) -> (result: String)
    ensures
        result@ == a@ + b@,
{
    let mut result = a.to_owned();
    result.append(b);
    result
}

/// The concatenation of three texts.
pub fn joined3(a: &str, b: &str, c: &str) -> (result: String)
    ensures
        result@ == a@ + b@ + c@,
{
    let mut result = a.to_owned();
    result.append(b);
    result.append(c);
    result
}

/// A text in quotes, as `Debug` of `str` shows it.
pub uninterp spec fn quoted_text(text: Seq<char>) -> Seq<char>;

/// Shows a text in quotes by `Debug` of `str`, whose escapes follow from the text
/// alone. Which characters are escaped is left to that name.
#[verifier::external_body]
pub(crate) fn quoted(text: &str) -> (shown: String)
    ensures
        shown@ == quoted_text(text@),
{
    format!("{:?}", text)
}

/// The set of the given texts.
pub open spec fn text_set(texts: Seq<&str>) -> Set<Seq<char>> {
    Set::new(|t: Seq<char>| exists|i: int| 0 <= i < texts.len() && (#[trigger] texts[i])@ == t)
}

/// The given texts in ascending order, each once.
pub fn sorted_unique(texts: &Vec<&str>) -> (result: Vec<String>)
    ensures
        result@.map_values(|s: String| s@) == in_order(text_set(texts@)),
{
    let ranks = rank_texts(texts);
    let places = order_places(&ranks);
    let mut result: Vec<String> = Vec::new();
    let ghost view = |s: String| s@;
    let mut p: usize = 0;
    while p < places.len()
        invariant
            p <= places@.len() == texts@.len(),
            ranks_of(ranks@, texts@),
            sorting::orders(places@, ranks@),
            view == (|s: String| s@),
            p == 0 ==> result@.len() == 0,
            p > 0 ==> result@.len() > 0 && result@[result@.len() - 1]@ == texts@[places@[p
                - 1].index as int]@,
            ascending_texts(result@.map_values(view)),
            forall|q: int|
                0 <= q < p ==> result@.map_values(view).contains(
                    texts@[(#[trigger] places@[q]).index as int]@,
                ),
            forall|k: int|
                0 <= k < result@.len() ==> text_set(texts@).contains((#[trigger] result@[k])@),
        decreases places@.len() - p,
    {
        let index = places[p].index;
        let ghost before = result@.map_values(view);
        if p == 0 || places[p - 1].rank != places[p].rank {
            let text = texts[index];
            result.push(text.to_owned());
            proof {
                let after = result@.map_values(view);
                assert(after =~= before.push(text@));
                assert(text_set(texts@).contains(texts@[index as int]@));
                if p > 0 {
                    let last = places@[p - 1].index as int;
                    assert(ranks@[last] < ranks@[index as int]);
                    assert(text_lt(texts@[last]@, text@));
                    assert forall|i: int, j: int| 0 <= i < j < after.len() implies text_lt(
                        #[trigger] after[i],
                        #[trigger] after[j],
                    ) by {
                        if j == before.len() && i < before.len() - 1 {
                            assert(text_lt(before[i], before[before.len() - 1]));
                            lemma_text_transitive(before[i], texts@[last]@, text@);
                        }
                    }
                }
                assert forall|q: int| 0 <= q < p + 1 implies after.contains(
                    texts@[(#[trigger] places@[q]).index as int]@,
                ) by {
                    if q < p {
                        let t = texts@[places@[q].index as int]@;
                        assert(before.contains(t));
                        let k = choose|k: int| 0 <= k < before.len() && before[k] == t;
                        assert(after[k] == t);
                    } else {
                        assert(after[before.len() as int] == text@);
                    }
                }
            }
        } else {
            proof {
                let last = places@[p - 1].index as int;
                assert(ranks@[last] == ranks@[index as int]);
                assert(texts@[last]@ == texts@[index as int]@);
                assert(before.contains(texts@[places@[p - 1].index as int]@));
            }
        }
        p = p + 1;
    }
    proof {
        let listed = result@.map_values(view);
        assert forall|t: Seq<char>| #[trigger] listed.contains(t) <==> text_set(texts@).contains(
            t,
        ) by {
            if listed.contains(t) {
                let k = choose|k: int| 0 <= k < listed.len() && listed[k] == t;
                assert(text_set(texts@).contains(result@[k]@));
            }
            if text_set(texts@).contains(t) {
                let i = choose|i: int| 0 <= i < texts@.len() && (#[trigger] texts@[i])@ == t;
                assert(crate::sorting::placed_somewhere(places@, i));
                let q = choose|q: int| 0 <= q < places@.len() && (#[trigger] places@[q]).index == i;
                assert(listed.contains(texts@[places@[q].index as int]@));
            }
        }
        lemma_in_order(listed, text_set(texts@));
    }
    result
}

/// The text stands at one of the places.
pub open spec fn covered(places: Seq<usize>, texts: Seq<&str>, text: Seq<char>) -> bool {
    exists|k: int| 0 <= k < places.len() && texts[#[trigger] places[k] as int]@ == text
}

/// Where each text occurs first, in the order of the texts.
pub open spec fn firsts(places: Seq<usize>, texts: Seq<&str>) -> bool {
    &&& forall|k: int|
        0 <= k < places.len() ==> (#[trigger] places[k]) < texts.len() && forall|q: int|
            0 <= q < places[k] ==> (#[trigger] texts[q])@ != texts[places[k] as int]@
    &&& forall|a: int, b: int|
        0 <= a < b < places.len() ==> text_lt(
            texts[#[trigger] places[a] as int]@,
            texts[#[trigger] places[b] as int]@,
        )
    &&& forall|i: int| 0 <= i < texts.len() ==> covered(places, texts, (#[trigger] texts[i])@)
}

/// Finds where each text occurs first, in the order of the texts.
pub fn first_places(texts: &Vec<&str>) -> (places: Vec<usize>)
    ensures
        firsts(places@, texts@),
{
    let ranks = rank_texts(texts);
    let order = order_places(&ranks);
    let mut places: Vec<usize> = Vec::new();
    let mut p: usize = 0;
    while p < order.len()
        invariant
            p <= order@.len(),
            ranks_of(ranks@, texts@),
            sorting::orders(order@, ranks@),
            forall|k: int|
                0 <= k < places@.len() ==> (#[trigger] places@[k]) < texts@.len() && forall|q: int|
                    0 <= q < places@[k] ==> (#[trigger] texts@[q])@
                        != texts@[places@[k] as int]@,
            forall|a: int, b: int|
                0 <= a < b < places@.len() ==> ranks@[#[trigger] places@[a] as int]
                    < ranks@[#[trigger] places@[b] as int],
            places@.len() == 0 <==> p == 0,
            p > 0 ==> ranks@[places@.last() as int] == order@[p - 1].rank,
            forall|x: int|
                0 <= x < p ==> covered(
                    places@,
                    texts@,
                    texts@[(#[trigger] order@[x]).index as int]@,
                ),
        decreases order@.len() - p,
    {
        let place = order[p];
        let fresh = p == 0 || order[p - 1].rank != place.rank;
        let ghost before = places@;
        proof {
            assert(order@[p as int].index < ranks@.len());
            if p > 0 {
                assert(order@[p - 1].rank <= order@[p as int].rank);
            }
        }
        if fresh {
            proof {
                let here = place.index as int;
                assert forall|q: int| 0 <= q < here implies (#[trigger] texts@[q])@
                    != texts@[here]@ by {
                    if texts@[q]@ == texts@[here]@ {
                        assert(ranks@[q] == ranks@[here]);
                        assert(sorting::placed_somewhere(order@, q));
                        let x = choose|x: int| 0 <= x < order@.len() && (#[trigger] order@[x]).index == q;
                        if x < p {
                            if x < p - 1 {
                                assert(order@[x].rank <= order@[p - 1].rank);
                            }
                        } else if x > p {
                            assert(order@[p as int].index < order@[x].index);
                        }
                    }
                }
            }
            places.push(place.index);
            proof {
                assert forall|a: int, b: int| 0 <= a < b < places@.len() implies ranks@[
                    #[trigger] places@[a] as int] < ranks@[#[trigger] places@[b] as int] by {
                    if b == before.len() {
                        assert(places@[a] == before[a]);
                        if a < before.len() - 1 {
                            assert(ranks@[before[a] as int] < ranks@[before.last() as int]);
                        }
                    } else {
                        assert(places@[a] == before[a] && places@[b] == before[b]);
                    }
                }
            }
        }
        proof {
            assert forall|x: int| 0 <= x < p + 1 implies covered(
                places@,
                texts@,
                texts@[(#[trigger] order@[x]).index as int]@,
            ) by {
                if x < p {
                    let wanted = texts@[order@[x].index as int]@;
                    assert(covered(before, texts@, wanted));
                    let k = choose|k: int|
                        0 <= k < before.len() && texts@[#[trigger] before[k] as int]@ == wanted;
                    assert(places@[k] == before[k]);
                } else {
                    let last = places@.len() - 1;
                    assert(ranks@[places@[last] as int] == ranks@[place.index as int]);
                    assert(texts@[places@[last] as int]@ == texts@[place.index as int]@);
                }
            }
        }
        p = p + 1;
    }
    proof {
        assert forall|i: int| 0 <= i < texts@.len() implies covered(
            places@,
            texts@,
            (#[trigger] texts@[i])@,
        ) by {
            assert(sorting::placed_somewhere(order@, i));
            let x = choose|x: int| 0 <= x < order@.len() && (#[trigger] order@[x]).index == i;
            assert(covered(places@, texts@, texts@[order@[x].index as int]@));
        }
        assert forall|a: int, b: int| 0 <= a < b < places@.len() implies text_lt(
            texts@[#[trigger] places@[a] as int]@,
            texts@[#[trigger] places@[b] as int]@,
        ) by {
            assert(ranks@[places@[a] as int] < ranks@[places@[b] as int]);
        }
    }
    places
}

/// The texts at their first places are all texts in order.
pub proof fn lemma_firsts(places: Seq<usize>, texts: Seq<&str>)
    requires
        firsts(places, texts),
    ensures
        places.map_values(|place: usize| texts[place as int]@) == in_order(text_set(texts)),
{
    let listed = places.map_values(|place: usize| texts[place as int]@);
    assert forall|a: int, b: int| 0 <= a < b < listed.len() implies text_lt(
        #[trigger] listed[a],
        #[trigger] listed[b],
    ) by {
        assert(text_lt(texts[places[a] as int]@, texts[places[b] as int]@));
    }
    assert forall|t: Seq<char>| #[trigger] listed.contains(t) <==> text_set(texts).contains(t) by {
        if listed.contains(t) {
            let k = choose|k: int| 0 <= k < listed.len() && listed[k] == t;
            assert(texts[places[k] as int]@ == t);
        }
        if text_set(texts).contains(t) {
            let i = choose|i: int| 0 <= i < texts.len() && (#[trigger] texts[i])@ == t;
            assert(covered(places, texts, texts[i]@));
            let k = choose|k: int|
                0 <= k < places.len() && texts[#[trigger] places[k] as int]@ == t;
            assert(listed[k] == t);
        }
    }
    lemma_in_order(listed, text_set(texts));
}

/// Finds a text among texts in order.
pub fn find_text(texts: &Vec<&str>, wanted: &str) -> (found: Option<usize>)
    requires
        forall|a: int, b: int|
            0 <= a < b < texts@.len() ==> text_lt((#[trigger] texts@[a])@, (#[trigger] texts@[b])@),
    ensures
        match found {
            Some(i) => i < texts@.len() && texts@[i as int]@ == wanted@,
            None => forall|i: int| 0 <= i < texts@.len() ==> (#[trigger] texts@[i])@ != wanted@,
        },
{
    let mut low: usize = 0;
    let mut high: usize = texts.len();
    while low < high
        invariant
            low <= high <= texts@.len(),
            forall|a: int, b: int|
                0 <= a < b < texts@.len() ==> text_lt(
                    (#[trigger] texts@[a])@,
                    (#[trigger] texts@[b])@,
                ),
            forall|i: int| 0 <= i < low ==> (#[trigger] texts@[i])@ != wanted@,
            forall|i: int| high <= i < texts@.len() ==> (#[trigger] texts@[i])@ != wanted@,
        decreases high - low,
    {
        let middle: usize = low + (high - low) / 2;
        if same_text(texts[middle], wanted) {
            return Some(middle);
        }
        proof {
            lemma_text_total(texts@[middle as int]@, wanted@);
            assert forall|i: int| 0 <= i < texts@.len() && (#[trigger] texts@[i])@ == wanted@ implies (if text_le(
                texts@[middle as int]@,
                wanted@,
            ) {
                i > middle
            } else {
                i < middle
            }) by {
                lemma_text_total(texts@[i]@, texts@[middle as int]@);
                if i < middle {
                    assert(text_lt(texts@[i]@, texts@[middle as int]@));
                } else if i > middle {
                    assert(text_lt(texts@[middle as int]@, texts@[i]@));
                }
            }
        }
        if is_text_le(texts[middle], wanted) {
            low = middle + 1;
        } else {
            high = middle;
        }
    }
    None
}

} // verus!
