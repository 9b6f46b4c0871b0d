//! What the text of a zone file stands for: times, names, records and ranges.

use vstd::prelude::*;
use crate::chars;
use crate::dns::name;
use crate::dns::parser;
use crate::dns::parser::Machine;
use crate::dns::problem::Problem;
use crate::dns::rdata;
use crate::dns::rdata::Kind;
use crate::dns::table::Key;
use crate::dns::token;
use crate::dns::token::{Piece, Row};
use crate::dns::zone;
use crate::dns::zone::{Directive, Effect, Limits, Setting, Tally};
use crate::fields;
use crate::number;

verus! {

/// A letter that stands for a unit of time.
pub open spec fn is_unit(letter: char) -> bool {
    "wWdDhHmMsS"@.contains(letter)
}

/// The seconds of a unit of time.
pub open spec fn worth(letter: char) -> nat {
    if letter == 'w' || letter == 'W' {
        7 * 24 * 60 * 60
    } else if letter == 'd' || letter == 'D' {
        24 * 60 * 60
    } else if letter == 'h' || letter == 'H' {
        60 * 60
    } else if letter == 'm' || letter == 'M' {
        60
    } else {
        1
    }
}

proof fn lemma_digits_shift(before: Seq<char>, rest: Seq<char>, i: int)
    requires
        0 <= i <= rest.len(),
    ensures
        number::digits_end(before + rest, before.len() + i) == before.len() + number::digits_end(
            rest,
            i,
        ),
        i <= number::digits_end(rest, i) <= rest.len(),
    decreases rest.len() - i,
{
    if i < rest.len() {
        assert((before + rest)[before.len() + i] == rest[i]);
        lemma_digits_shift(before, rest, i + 1);
    }
}

proof fn lemma_digits_end(digits: Seq<char>, rest: Seq<char>, i: int)
    requires
        number::all_digits(digits),
        0 <= i <= digits.len(),
        rest.len() == 0 || !chars::is_digit(rest[0]),
    ensures
        number::digits_end(digits + rest, i) == digits.len(),
    decreases digits.len() - i,
{
    let whole = digits + rest;
    if i < digits.len() {
        assert(whole[i] == digits[i]);
        lemma_digits_end(digits, rest, i + 1);
    } else if rest.len() > 0 {
        assert(whole[i] == rest[0]);
    }
}

proof fn lemma_seconds_shift(before: Seq<char>, rest: Seq<char>, i: int, total: nat)
    requires
        0 <= i <= rest.len(),
    ensures
        name::seconds_from(before + rest, before.len() + i, total) == name::seconds_from(
            rest,
            i,
            total,
        ),
    decreases rest.len() - i,
{
    let whole = before + rest;
    let at = before.len() + i;
    lemma_digits_shift(before, rest, i);
    let stop = number::digits_end(rest, i);
    assert(whole.subrange(at, before.len() + stop) =~= rest.subrange(i, stop));
    if i < stop < rest.len() {
        assert(whole[before.len() + stop] == rest[stop]);
        let amount = number::numeral(rest.subrange(i, stop));
        match name::unit_seconds(rest[stop]) {
            Some(seconds) => {
                lemma_seconds_shift(before, rest, stop + 1, total + amount * seconds);
            },
            None => {},
        }
    }
}

proof fn lemma_seconds_more(text: Seq<char>, i: int, total: nat, more: nat)
    requires
        0 <= i <= text.len(),
        total + more <= u64::MAX,
    ensures
        match name::seconds_from(text, i, total) {
            Ok(found) => name::seconds_from(text, i, total + more) == (if found + more <= u64::MAX {
                Ok::<nat, Seq<char>>(found + more)
            } else {
                Err("TTL overflow"@)
            }),
            Err(_) => name::seconds_from(text, i, total + more) is Err,
        },
    decreases text.len() - i,
{
    lemma_digits_shift(Seq::empty(), text, i);
    assert(Seq::<char>::empty() + text =~= text);
    let stop = number::digits_end(text, i);
    if i < stop < text.len() {
        let amount = number::numeral(text.subrange(i, stop));
        match name::unit_seconds(text[stop]) {
            Some(seconds) => {
                let next = total + amount * seconds;
                if amount <= u64::MAX && next + more <= u64::MAX {
                    lemma_seconds_more(text, stop + 1, next, more);
                } else if amount <= u64::MAX && next <= u64::MAX {
                    lemma_seconds_grow(text, stop + 1, next);
                }
            },
            None => {},
        }
    }
}

proof fn lemma_seconds_grow(text: Seq<char>, i: int, total: nat)
    requires
        0 <= i <= text.len(),
    ensures
        match name::seconds_from(text, i, total) {
            Ok(found) => found >= total,
            Err(_) => true,
        },
    decreases text.len() - i,
{
    lemma_digits_shift(Seq::empty(), text, i);
    assert(Seq::<char>::empty() + text =~= text);
    let stop = number::digits_end(text, i);
    if i < stop < text.len() {
        let amount = number::numeral(text.subrange(i, stop));
        match name::unit_seconds(text[stop]) {
            Some(seconds) => {
                lemma_seconds_grow(text, stop + 1, total + amount * seconds);
            },
            None => {},
        }
    }
}

/// An amount of time before others counts its number of units and what they count.
pub proof fn amounts_of_time_add_up(digits: Seq<char>, unit: char, rest: Seq<char>)
    requires
        digits.len() > 0,
        number::all_digits(digits),
        is_unit(unit),
        number::numeral(digits) <= u64::MAX,
        number::numeral(digits) * worth(unit) <= u64::MAX,
    ensures
        ({
            let amount = number::numeral(digits) * worth(unit);
            let whole = name::seconds_from(digits.push(unit) + rest, 0, 0);
            match name::seconds_from(rest, 0, 0) {
                Ok(others) => if amount + others <= u64::MAX {
                    whole == Ok::<nat, Seq<char>>(amount + others)
                } else {
                    whole is Err
                },
                Err(_) => whole is Err,
            }
        }),
{
    reveal_strlit("wWdDhHmMsS");
    let text = digits.push(unit) + rest;
    let tail = seq![unit] + rest;
    assert(text =~= digits + tail);
    let at = choose|i: int| 0 <= i < "wWdDhHmMsS"@.len() && "wWdDhHmMsS"@[i] == unit;
    assert(name::unit_seconds(unit) == Some(worth(unit)));
    assert(tail[0] == unit);
    lemma_digits_end(digits, tail, 0);
    assert(text.subrange(0, digits.len() as int) =~= digits);
    assert(text[digits.len() as int] == unit);
    let amount = number::numeral(digits) * worth(unit);
    lemma_seconds_shift(digits.push(unit), rest, 0, amount);
    lemma_seconds_more(rest, 0, 0, amount);
}

/// A number without a unit counts seconds.
pub proof fn plain_numbers_are_seconds(digits: Seq<char>)
    requires
        digits.len() > 0,
        number::all_digits(digits),
        number::numeral(digits) <= u64::MAX,
    ensures
        name::seconds_from(digits, 0, 0) == Ok::<nat, Seq<char>>(number::numeral(digits)),
{
    lemma_digits_end(digits, Seq::empty(), 0);
    assert(digits + Seq::<char>::empty() =~= digits);
    assert(digits.subrange(0, digits.len() as int) =~= digits);
}

/// A token is a time to live where its amounts add up to no more than fits.
pub proof fn times_to_live_fit(path: Seq<char>, piece: Piece, ttl: u32)
    requires
        name::is_ascii(piece.raw),
        piece.raw.len() > 0,
    ensures
        name::ttl_of(path, piece) == Ok::<u32, Problem>(ttl) <==> name::seconds_from(
            name::letters(piece.raw),
            0,
            0,
        ) == Ok::<nat, Seq<char>>(ttl as nat),
        name::ttl_of(path, piece) is Ok <==> (name::seconds_from(name::letters(piece.raw), 0, 0)
            is Ok && name::seconds_from(name::letters(piece.raw), 0, 0)->Ok_0 <= u32::MAX),
{
}

/// Bytes that differ at most in the case of letters.
pub open spec fn alike(a: Seq<u8>, b: Seq<u8>) -> bool {
    &&& a.len() == b.len()
    &&& forall|i: int|
        0 <= i < a.len() ==> #[trigger] a[i] == b[i] || (0x41 <= a[i] <= 0x5a && b[i] == a[i] + 32)
            || (0x41 <= b[i] <= 0x5a && a[i] == b[i] + 32)
}

pub open spec fn alike_labels(a: Seq<Seq<u8>>, b: Seq<Seq<u8>>) -> bool {
    &&& a.len() == b.len()
    &&& forall|i: int| 0 <= i < a.len() ==> alike(#[trigger] a[i], b[i])
}

proof fn lemma_alike_labels(
    path: Seq<char>,
    a: Piece,
    b: Piece,
    index: int,
    one: Seq<Seq<u8>>,
    other: Seq<Seq<u8>>,
)
    requires
        alike(a.raw, b.raw),
        0 <= index,
        one.len() > 0,
        alike_labels(one, other),
        name::labels_from(path, a, index, one) is Ok,
    ensures
        name::labels_from(path, b, index, other) is Ok,
        ({
            let found = name::labels_from(path, a, index, one)->Ok_0;
            let same = name::labels_from(path, b, index, other)->Ok_0;
            found.absolute == same.absolute && alike_labels(found.labels, same.labels)
        }),
    decreases a.raw.len() - index,
{
    let (x, y) = (a.raw, b.raw);
    if index < x.len() {
        assert(alike(one.last(), other.last()));
        assert(x[index] == y[index] || x[index] != y[index]);
        if x[index] == 0x2e {
            if index + 1 < x.len() {
                lemma_alike_labels(
                    path,
                    a,
                    b,
                    index + 1,
                    one.push(Seq::empty()),
                    other.push(Seq::empty()),
                );
            }
        } else if x[index] == 0x5c {
            assert(index + 1 < x.len());
            assert(x[index + 1] == x[index + 1]);
            assert(index + 3 < x.len() ==> x[index + 2] == x[index + 2] && x[index + 3] == x[index
                + 3]);
            let byte = name::escaped(x, index)->Ok_0;
            let same = name::escaped(y, index)->Ok_0;
            lemma_longer_alike(one, other, byte, same);
            lemma_alike_labels(
                path,
                a,
                b,
                index + token::escape_length(x, index),
                name::longer(one, byte),
                name::longer(other, same),
            );
        } else {
            lemma_longer_alike(one, other, name::lower(x[index]), name::lower(y[index]));
            lemma_alike_labels(
                path,
                a,
                b,
                index + 1,
                name::longer(one, name::lower(x[index])),
                name::longer(other, name::lower(y[index])),
            );
        }
    }
}

proof fn lemma_longer_alike(one: Seq<Seq<u8>>, other: Seq<Seq<u8>>, x: u8, y: u8)
    requires
        one.len() > 0,
        alike_labels(one, other),
        alike(seq![x], seq![y]),
    ensures
        alike_labels(name::longer(one, x), name::longer(other, y)),
{
    assert(alike(one.last(), other.last()));
    let (a, b) = (one.last().push(x), other.last().push(y));
    assert(seq![x][0] == x && seq![y][0] == y);
    assert forall|i: int| 0 <= i < a.len() implies #[trigger] a[i] == b[i] || (0x41 <= a[i] <= 0x5a
        && b[i] == a[i] + 32) || (0x41 <= b[i] <= 0x5a && a[i] == b[i] + 32) by {
        if i < one.last().len() {
            assert(one.last()[i] == a[i]);
        }
    }
    let (p, q) = (name::longer(one, x), name::longer(other, y));
    assert forall|i: int| 0 <= i < p.len() implies alike(#[trigger] p[i], q[i]) by {
        if i < one.len() - 1 {
            assert(p[i] == one[i] && q[i] == other[i]);
        }
    }
}

proof fn lemma_same_label(a: Seq<u8>, b: Seq<u8>)
    requires
        alike(a, b),
    ensures
        name::rendered_label(a) == name::rendered_label(b),
    decreases a.len(),
{
    if a.len() > 0 {
        let (x, y) = (a.drop_last(), b.drop_last());
        assert forall|i: int| 0 <= i < x.len() implies #[trigger] x[i] == y[i] || (0x41 <= x[i]
            <= 0x5a && y[i] == x[i] + 32) || (0x41 <= y[i] <= 0x5a && x[i] == y[i] + 32) by {
            assert(a[i] == x[i]);
        }
        lemma_same_label(x, y);
        assert(a[a.len() - 1] == a.last());
        assert(name::lower(a.last()) == name::lower(b.last()));
    }
}

proof fn lemma_same_labels(a: Seq<Seq<u8>>, b: Seq<Seq<u8>>)
    requires
        alike_labels(a, b),
    ensures
        name::rendered_labels(a) == name::rendered_labels(b),
        name::labels_length(a) == name::labels_length(b),
        name::misfit(a) == name::misfit(b),
    decreases a.len(),
{
    assert forall|i: int| 0 <= i < a.len() implies (#[trigger] a[i]).len() == b[i].len() by {
        assert(alike(a[i], b[i]));
    }
    assert forall|i: int| 0 <= i < b.len() implies a[i].len() == (#[trigger] b[i]).len() by {
        assert(alike(a[i], b[i]));
    }
    if a.len() > 0 {
        let (x, y) = (a.drop_last(), b.drop_last());
        assert forall|i: int| 0 <= i < x.len() implies alike(#[trigger] x[i], y[i]) by {
            assert(a[i] == x[i]);
        }
        lemma_same_labels(x, y);
        assert(alike(a[a.len() - 1], b[a.len() - 1]));
        lemma_same_label(a.last(), b.last());
    }
}

/// The case of letters makes no difference to a name.
pub proof fn names_do_not_depend_on_case(path: Seq<char>, a: Piece, b: Piece, origin: Seq<char>)
    requires
        alike(a.raw, b.raw),
        name::name_of(path, a, origin) is Ok,
    ensures
        name::name_of(path, b, origin) == name::name_of(path, a, origin),
{
    let one = seq![Seq::<u8>::empty()];
    assert(alike(one[0], one[0]));
    assert(alike_labels(one, one));
    lemma_alike_labels(path, a, b, 0, one, one);
    let found = name::labels_of(path, a)->Ok_0;
    let same = name::labels_of(path, b)->Ok_0;
    lemma_same_labels(found.labels, same.labels);
    assert(a.raw == seq![0x40u8] <==> b.raw == seq![0x40u8]) by {
        if a.raw.len() == 1 {
            assert(a.raw[0] == a.raw[0]);
            assert(a.raw =~= seq![a.raw[0]]);
            assert(b.raw =~= seq![b.raw[0]]);
            assert(seq![0x40u8][0] == 0x40u8);
        }
    }
}

proof fn lemma_dotted(
    path: Seq<char>,
    a: Piece,
    b: Piece,
    index: int,
    labels: Seq<Seq<u8>>,
)
    requires
        b.raw == a.raw.push(0x2e),
        0 <= index <= a.raw.len(),
        labels.len() > 0,
        name::labels_from(path, a, index, labels) is Ok,
        !name::labels_from(path, a, index, labels)->Ok_0.absolute,
        index == a.raw.len() ==> labels.last().len() > 0,
        index < a.raw.len() || labels.last().len() > 0,
        name::labels_from(path, a, index, labels)->Ok_0.labels.last().len() > 0,
    ensures
        name::labels_from(path, b, index, labels) is Ok,
        ({
            let found = name::labels_from(path, b, index, labels)->Ok_0;
            found.absolute && found.labels == name::labels_from(path, a, index, labels)->Ok_0.labels
        }),
    decreases a.raw.len() - index,
{
    let raw = a.raw;
    if index < raw.len() {
        assert(b.raw[index] == raw[index]);
        if raw[index] == 0x2e {
            lemma_dotted(path, a, b, index + 1, labels.push(Seq::empty()));
        } else if raw[index] == 0x5c {
            assert(index + 1 < raw.len());
            assert(b.raw[index + 1] == raw[index + 1]);
            assert(token::escape_length(b.raw, index) == token::escape_length(raw, index)) by {
                if index + 3 < raw.len() {
                    assert(b.raw[index + 2] == raw[index + 2] && b.raw[index + 3] == raw[index + 3]);
                } else if index + 3 == raw.len() {
                    assert(b.raw[index + 3] == 0x2e);
                }
            }
            let byte = name::escaped(raw, index)->Ok_0;
            assert(name::escaped(b.raw, index) == name::escaped(raw, index));
            lemma_dotted(
                path,
                a,
                b,
                index + token::escape_length(raw, index),
                name::longer(labels, byte),
            );
        } else {
            lemma_dotted(path, a, b, index + 1, name::longer(labels, name::lower(raw[index])));
        }
    }
}

/// A name that does not end in a dot stands below the origin: it is the name that it
/// would be with the dot, and the origin after it.
pub proof fn relative_names_stand_below_their_origin(
    path: Seq<char>,
    a: Piece,
    b: Piece,
    origin: Seq<char>,
)
    requires
        a.raw.len() > 0,
        a.raw.last() != 0x2e,
        a.raw != seq![0x40u8],
        b.raw == a.raw.push(0x2e),
        name::name_of(path, a, origin) is Ok,
        name::name_of(path, b, origin) is Ok,
    ensures
        name::name_of(path, a, origin)->Ok_0 == name::name_of(path, b, origin)->Ok_0 + origin,
{
    lemma_not_absolute(path, a, 0, seq![Seq::empty()]);
    let found = name::labels_of(path, a)->Ok_0;
    assert(found.labels.last().len() > 0) by {
        assert(found.labels[found.labels.len() - 1] == found.labels.last());
    }
    lemma_dotted(path, a, b, 0, seq![Seq::empty()]);
    assert(b.raw.len() == a.raw.len() + 1);
}

proof fn lemma_not_absolute(path: Seq<char>, a: Piece, index: int, labels: Seq<Seq<u8>>)
    requires
        labels.len() > 0,
        0 <= index,
        a.raw.len() > 0,
        a.raw.last() != 0x2e,
    ensures
        match name::labels_from(path, a, index, labels) {
            Ok(found) => !found.absolute && found.labels.len() > 0,
            Err(_) => true,
        },
    decreases a.raw.len() - index,
{
    let raw = a.raw;
    if index < raw.len() {
        if raw[index] == 0x2e {
            lemma_not_absolute(path, a, index + 1, labels.push(Seq::empty()));
        } else if raw[index] == 0x5c {
            match name::escaped(raw, index) {
                Ok(byte) => {
                    lemma_not_absolute(
                        path,
                        a,
                        index + token::escape_length(raw, index),
                        name::longer(labels, byte),
                    );
                },
                Err(_) => {},
            }
        } else {
            lemma_not_absolute(path, a, index + 1, name::longer(labels, name::lower(raw[index])));
        }
    }
}

proof fn lemma_header(
    path: Seq<char>,
    row: Row,
    index: int,
    ttl: Option<u32>,
    class_seen: bool,
)
    requires
        0 <= index,
        zone::header_from(path, row, index, ttl, class_seen) is Ok,
    ensures
        ({
            let header = zone::header_from(path, row, index, ttl, class_seen)->Ok_0;
            &&& index < header.data <= row.tokens.len()
            &&& names_kind(path, row.tokens[header.data - 1], header.kind)
            &&& ttl is Some ==> header.ttl == ttl
            &&& header.ttl != ttl ==> header.ttl is Some && exists|j: int|
                index <= j < header.data && names_ttl(
                    path,
                    #[trigger] row.tokens[j],
                    header.ttl->0,
                )
        }),
    decreases row.tokens.len() - index,
{
    let piece = row.tokens[index];
    let shown = name::text_of(path, piece)->Ok_0;
    if rdata::kind_of(shown) is None {
        if shown.map_values(|c: char| rdata::upper(c)) == "IN"@ && !class_seen {
            lemma_header(path, row, index + 1, ttl, true);
        } else {
            let found = name::ttl_of(path, piece)->Ok_0;
            lemma_header(path, row, index + 1, Some(found), class_seen);
            assert(names_ttl(path, row.tokens[index], found));
        }
    }
}

/// A token names a kind of records.
pub open spec fn names_kind(path: Seq<char>, piece: Piece, kind: Kind) -> bool {
    name::text_of(path, piece) is Ok && rdata::kind_of(name::text_of(path, piece)->Ok_0) == Some(
        kind,
    )
}

/// A token is a time to live.
pub open spec fn names_ttl(path: Seq<char>, piece: Piece, ttl: u32) -> bool {
    name::ttl_of(path, piece) == Ok::<u32, Problem>(ttl)
}

/// A record was kept with its owner, time to live and data.
pub open spec fn keeps(
    path: Seq<char>,
    row: Row,
    before: Setting,
    after: Setting,
    tally: Tally,
    kept: Tally,
    key: Key,
    ttl: u32,
    kind: Kind,
    data: int,
) -> bool {
    let first: int = if row.leading_whitespace {
        0
    } else {
        1
    };
    &&& kept.records == tally.records.insert(key, ttl)
    &&& tally.records.contains_key(key) ==> tally.records[key] == ttl
    &&& after.owner == Some(key.owner)
    &&& row.leading_whitespace ==> before.owner == Some(key.owner)
    &&& !row.leading_whitespace ==> name::name_of(path, row.tokens[0], before.origin) == Ok::<
        Seq<char>,
        Problem,
    >(key.owner)
    &&& first < data <= row.tokens.len()
    &&& names_kind(path, row.tokens[data - 1], kind)
    &&& key.record_type == rdata::kind_name(kind)
    &&& rdata::rdata_of(kind, path, row.tokens.skip(data), before.origin) == Ok::<
        Seq<char>,
        Problem,
    >(key.rdata)
    &&& before.ttl != Some(ttl) ==> exists|j: int|
        first <= j < data && names_ttl(path, #[trigger] row.tokens[j], ttl)
    &&& forall|written: u32| #[trigger]
        names_ttl(path, row.tokens[first], written) && !names_kind(path, row.tokens[first], kind)
            ==> ttl == written
}

/// A record that is read is kept, with the owner before it where it names none, with the
/// time to live that it gives or else the default, and with the data after its type. It
/// leaves its owner to the next record, and the origin and the default as they were.
pub proof fn records_take_what_they_leave_out(
    limits: Limits,
    path: Seq<char>,
    row: Row,
    setting: Setting,
    tally: Tally,
)
    requires
        row.tokens.len() > 0,
        zone::resource(limits, path, row, setting, tally) is Ok,
    ensures
        ({
            let (after, kept) = zone::resource(limits, path, row, setting, tally)->Ok_0;
            &&& after.origin == setting.origin
            &&& after.ttl == setting.ttl
            &&& kept.zone == tally.zone + 1
            &&& kept.total == tally.total + 1
            &&& exists|key: Key, ttl: u32, kind: Kind, data: int|
                keeps(path, row, setting, after, tally, kept, key, ttl, kind, data)
        }),
{
    let first: int = if row.leading_whitespace {
        0
    } else {
        1
    };
    let (after, kept) = zone::resource(limits, path, row, setting, tally)->Ok_0;
    let header = zone::header_from(path, row, first, None, false)->Ok_0;
    lemma_header(path, row, first, None, false);
    let owner = after.owner->0;
    let ttl = if header.ttl is Some {
        header.ttl->0
    } else {
        setting.ttl->0
    };
    let key = Key {
        owner,
        record_type: rdata::kind_name(header.kind),
        rdata: rdata::rdata_of(
            header.kind,
            path,
            row.tokens.skip(header.data),
            setting.origin,
        )->Ok_0,
    };
    assert forall|written: u32| #[trigger]
        names_ttl(path, row.tokens[first], written) && !names_kind(
            path,
            row.tokens[first],
            header.kind,
        ) implies ttl == written by {
        lemma_written(path, row, first, header.kind, written);
    }
    assert(keeps(path, row, setting, after, tally, kept, key, ttl, header.kind, header.data));
}

proof fn lemma_written(path: Seq<char>, row: Row, first: int, kind: Kind, written: u32)
    requires
        0 <= first,
        zone::header_from(path, row, first, None, false) is Ok,
        zone::header_from(path, row, first, None, false)->Ok_0.kind == kind,
        names_ttl(path, row.tokens[first], written),
        !names_kind(path, row.tokens[first], kind),
    ensures
        zone::header_from(path, row, first, None, false)->Ok_0.ttl == Some(written),
{
    let shown = name::text_of(path, row.tokens[first])->Ok_0;
    assert(chars::is_digit(shown[0]));
    assert(rdata::kind_of(shown) is None);
    reveal_strlit("IN");
    let raised = shown.map_values(|c: char| rdata::upper(c));
    if raised == "IN"@ {
        assert(raised[0] == 'I');
    }
    lemma_header(path, row, first + 1, Some(written), false);
}

proof fn lemma_found(text: Seq<char>, wanted: char, from: int, at: int)
    requires
        0 <= from <= at <= text.len(),
        at < text.len() ==> text[at] == wanted,
        forall|i: int| from <= i < at ==> #[trigger] text[i] != wanted,
    ensures
        fields::find(text, wanted, from) == at,
    decreases at - from,
{
    if from < at {
        lemma_found(text, wanted, from + 1, at);
    }
}

proof fn lemma_integer(digits: Seq<char>)
    requires
        digits.len() > 0,
        number::all_digits(digits),
    ensures
        number::integer_of(digits) == Some(number::numeral(digits)),
{
    assert(chars::is_digit(digits[0]));
}

/// A range is read as its two ends, and one where it gives no step.
pub proof fn ranges_are_read(path: Seq<char>, piece: Piece, first: Seq<char>, last: Seq<char>)
    requires
        name::text_of(path, piece) == Ok::<Seq<char>, Problem>(first.push('-') + last),
        first.len() > 0,
        last.len() > 0,
        number::all_digits(first),
        number::all_digits(last),
    ensures
        ({
            let (a, b) = (number::numeral(first), number::numeral(last));
            if a <= b <= u32::MAX {
                zone::range_of(path, piece) == Ok::<(u32, u32, u32), Problem>(
                    (a as u32, b as u32, 1),
                )
            } else {
                zone::range_of(path, piece) is Err
            }
        }),
{
    let shown = first.push('-') + last;
    lemma_ends(first, last, Seq::empty());
    assert(shown + Seq::<char>::empty() =~= shown);
    lemma_integer(first);
    lemma_integer(last);
}

/// A range is read as its two ends and its step.
pub proof fn stepped_ranges_are_read(
    path: Seq<char>,
    piece: Piece,
    first: Seq<char>,
    last: Seq<char>,
    step: Seq<char>,
)
    requires
        name::text_of(path, piece) == Ok::<Seq<char>, Problem>(
            first.push('-') + last + seq!['/'] + step,
        ),
        first.len() > 0,
        last.len() > 0,
        step.len() > 0,
        number::all_digits(first),
        number::all_digits(last),
        number::all_digits(step),
    ensures
        ({
            let (a, b) = (number::numeral(first), number::numeral(last));
            let c = number::numeral(step);
            if a <= b <= u32::MAX && 0 < c <= u32::MAX {
                zone::range_of(path, piece) == Ok::<(u32, u32, u32), Problem>(
                    (a as u32, b as u32, c as u32),
                )
            } else {
                zone::range_of(path, piece) is Err
            }
        }),
{
    let shown = first.push('-') + last + seq!['/'] + step;
    lemma_ends(first, last, seq!['/'] + step);
    assert(shown =~= first.push('-') + last + (seq!['/'] + step));
    assert(shown.subrange(first.len() as int + last.len() + 2, shown.len() as int) =~= step);
    lemma_integer(first);
    lemma_integer(last);
    lemma_integer(step);
}

proof fn lemma_ends(first: Seq<char>, last: Seq<char>, rest: Seq<char>)
    requires
        number::all_digits(first),
        number::all_digits(last),
        rest.len() > 0 ==> rest[0] == '/',
    ensures
        ({
            let shown = first.push('-') + last + rest;
            let slash = first.len() + last.len() + 1;
            &&& fields::find(shown, '-', 0) == first.len()
            &&& fields::find(shown, '/', 0) == slash
            &&& shown.subrange(0, first.len() as int) == first
            &&& shown.subrange(first.len() as int + 1, slash as int) == last
        }),
{
    let shown = first.push('-') + last + rest;
    let slash = first.len() + last.len() + 1;
    assert forall|i: int| 0 <= i < first.len() implies #[trigger] shown[i] != '-' && shown[i]
        != '/' by {
        assert(shown[i] == first[i]);
        assert(chars::is_digit(first[i]));
    }
    assert(shown[first.len() as int] == '-');
    assert forall|i: int| first.len() < i < slash implies #[trigger] shown[i] != '/' by {
        assert(shown[i] == last[i - first.len() - 1]);
        assert(chars::is_digit(last[i - first.len() - 1]));
    }
    if rest.len() > 0 {
        assert(shown[slash as int] == rest[0]);
    }
    lemma_found(shown, '-', 0, first.len() as int);
    lemma_found(shown, '/', 0, slash as int);
    assert(shown.subrange(0, first.len() as int) =~= first);
    assert(shown.subrange(first.len() as int + 1, slash as int) =~= last);
}

proof fn lemma_replaced(raw: Seq<u8>, value: Seq<u8>)
    requires
        !raw.contains(0x24),
    ensures
        zone::replaced(raw, value) == raw,
        zone::dollars(raw) == 0,
    decreases raw.len(),
{
    if raw.len() > 0 {
        assert(raw[raw.len() - 1] == raw.last());
        let front = raw.drop_last();
        assert forall|i: int| 0 <= i < front.len() implies #[trigger] front[i] != 0x24 by {
            assert(raw[i] == front[i]);
        }
        lemma_replaced(front, value);
        assert(front.push(raw.last()) =~= raw);
    } else {
        assert(raw =~= Seq::empty());
    }
}

/// A value stands where the dollar sign stood, and the rest of a token as it was.
pub proof fn values_take_the_place_of_dollar_signs(before: Seq<u8>, after: Seq<u8>, value: Seq<u8>)
    requires
        !before.contains(0x24),
        !after.contains(0x24),
    ensures
        zone::replaced(before.push(0x24) + after, value) == before + value + after,
        zone::replaced(before, value) == before,
    decreases after.len(),
{
    lemma_replaced(before, value);
    let raw = before.push(0x24) + after;
    if after.len() == 0 {
        assert(raw.drop_last() =~= before);
        assert(before + value + after =~= before + value);
    } else {
        let front = after.drop_last();
        assert forall|i: int| 0 <= i < front.len() implies #[trigger] front[i] != 0x24 by {
            assert(after[i] == front[i]);
        }
        assert(after[after.len() - 1] == after.last());
        values_take_the_place_of_dollar_signs(before, front, value);
        assert(raw.drop_last() =~= before.push(0x24) + front);
        assert(raw.last() == after.last());
        assert((before + value + front).push(after.last()) =~= before + value + after);
    }
}

proof fn lemma_generated_count(
    limits: Limits,
    path: Seq<char>,
    row: Row,
    range: (u32, u32, u32),
    setting: Setting,
    tally: Tally,
    n: nat,
)
    requires
        row.tokens.len() > 2,
        zone::generated(limits, path, row, range, setting, tally, n) is Ok,
    ensures
        zone::generated(limits, path, row, range, setting, tally, n)->Ok_0.1.zone == tally.zone + n,
        zone::generated(limits, path, row, range, setting, tally, n)->Ok_0.1.total == tally.total
            + n,
    decreases n,
{
    if n > 0 {
        lemma_generated_count(limits, path, row, range, setting, tally, (n - 1) as nat);
        let (before, counted) = zone::generated(
            limits,
            path,
            row,
            range,
            setting,
            tally,
            (n - 1) as nat,
        )->Ok_0;
        let made = zone::generated_row(row, (range.0 + (n - 1) * range.2) as nat);
        assert(made.tokens.len() > 0);
        records_take_what_they_leave_out(limits, path, made, before, counted);
    }
}

/// A directive makes one record for each step from the first value of its range that is
/// not beyond the last.
pub proof fn directives_make_a_record_for_each_step(
    limits: Limits,
    path: Seq<char>,
    row: Row,
    setting: Setting,
    tally: Tally,
)
    requires
        zone::generate(limits, path, row, setting, tally) is Ok,
    ensures
        ({
            let kept = zone::generate(limits, path, row, setting, tally)->Ok_0.1;
            let (first, last, step) = zone::range_of(path, row.tokens[1])->Ok_0;
            let made = kept.zone - tally.zone;
            &&& made == kept.total - tally.total
            &&& 1 <= made <= limits.max_generate_records
            &&& first + (made - 1) * step <= last < first + made * step
        }),
{
    let range = zone::range_of(path, row.tokens[1])->Ok_0;
    let (first, last, step) = range;
    let count = zone::range_count(range);
    lemma_range(path, row.tokens[1]);
    lemma_generated_count(limits, path, row, range, setting, tally, count);
    let span = last - first;
    let wide = step as int;
    vstd::arithmetic::div_mod::lemma_fundamental_div_mod(span, wide);
    vstd::arithmetic::div_mod::lemma_mod_bound(span, wide);
    vstd::arithmetic::div_mod::lemma_div_pos_is_pos(span, wide);
    let whole = span / wide;
    assert(wide * whole == whole * wide) by (nonlinear_arith);
    assert((whole + 1) * wide == whole * wide + wide) by (nonlinear_arith);
}

proof fn lemma_range(path: Seq<char>, piece: Piece)
    requires
        zone::range_of(path, piece) is Ok,
    ensures
        ({
            let (first, last, step) = zone::range_of(path, piece)->Ok_0;
            first <= last && step > 0
        }),
{
}

/// Bytes spell a word of small letters and signs, in whatever case.
pub open spec fn spelled(raw: Seq<u8>, word: Seq<char>) -> bool {
    &&& raw.len() == word.len()
    &&& forall|i: int|
        0 <= i < raw.len() ==> {
            ||| (#[trigger] raw[i]) as char == word[i] && !(0x41 <= raw[i] <= 0x5a)
            ||| 0x41 <= raw[i] <= 0x5a && raw[i] as int + 32 == word[i] as int
        }
}

proof fn lemma_spelled(raw: Seq<u8>, word: Seq<char>)
    ensures
        spelled(raw, word) <==> zone::lowered(raw) == word,
{
    let shown = zone::lowered(raw);
    assert forall|i: int| 0 <= i < raw.len() implies #[trigger] shown[i] == rdata::small(
        raw[i] as char,
    ) by {}
    if spelled(raw, word) {
        assert forall|i: int| 0 <= i < raw.len() implies shown[i] == word[i] by {
            assert(raw[i] == raw[i]);
        }
        assert(shown =~= word);
    }
    if shown == word {
        assert forall|i: int| 0 <= i < raw.len() implies ((#[trigger] raw[i]) as char == word[i]
            && !(0x41 <= raw[i] <= 0x5a)) || (0x41 <= raw[i] <= 0x5a && raw[i] as int + 32
            == word[i] as int) by {
            assert(shown[i] == rdata::small(raw[i] as char));
        }
    }
}

proof fn lemma_directive(row: Row)
    requires
        row.tokens.len() > 0,
    ensures
        spelled(row.tokens[0].raw, "$origin"@) ==> zone::directive_of(row) == Directive::Origin,
        spelled(row.tokens[0].raw, "$ttl"@) ==> zone::directive_of(row) == Directive::Ttl,
        spelled(row.tokens[0].raw, "$include"@) ==> zone::directive_of(row) == Directive::Include,
        spelled(row.tokens[0].raw, "$generate"@) ==> zone::directive_of(row) == Directive::Generate,
{
    let raw = row.tokens[0].raw;
    reveal_strlit("$origin");
    reveal_strlit("$ttl");
    reveal_strlit("$include");
    reveal_strlit("$generate");
    lemma_spelled(raw, "$origin"@);
    lemma_spelled(raw, "$ttl"@);
    lemma_spelled(raw, "$include"@);
    lemma_spelled(raw, "$generate"@);
}

/// `$ORIGIN` sets the origin of what follows, itself read below the origin before it, and
/// nothing else.
pub proof fn origins_hold_from_there_on(
    limits: Limits,
    path: Seq<char>,
    row: Row,
    setting: Setting,
    tally: Tally,
)
    requires
        row.tokens.len() == 2,
        spelled(row.tokens[0].raw, "$origin"@),
    ensures
        match name::name_of(path, row.tokens[1], setting.origin) {
            Ok(origin) => zone::effect(limits, path, row, setting, tally) == Ok::<Effect, Problem>(
                Effect::Kept(Setting { origin, owner: setting.owner, ttl: setting.ttl }, tally),
            ),
            Err(_) => zone::effect(limits, path, row, setting, tally) is Err,
        },
{
    lemma_directive(row);
}

/// `$TTL` sets the time to live of records that give none, and nothing else.
pub proof fn default_times_hold_from_there_on(
    limits: Limits,
    path: Seq<char>,
    row: Row,
    setting: Setting,
    tally: Tally,
)
    requires
        row.tokens.len() == 2,
        spelled(row.tokens[0].raw, "$ttl"@),
    ensures
        match name::ttl_of(path, row.tokens[1]) {
            Ok(ttl) => zone::effect(limits, path, row, setting, tally) == Ok::<Effect, Problem>(
                Effect::Kept(
                    Setting { origin: setting.origin, owner: setting.owner, ttl: Some(ttl) },
                    tally,
                ),
            ),
            Err(_) => zone::effect(limits, path, row, setting, tally) is Err,
        },
{
    lemma_directive(row);
}

/// `$INCLUDE` asks for the file that it names, to be read with the origin that it gives or
/// else the one in force, and with the owner and the default that are in force.
pub proof fn inclusions_ask_for_their_file(
    limits: Limits,
    path: Seq<char>,
    row: Row,
    setting: Setting,
    tally: Tally,
)
    requires
        row.tokens.len() == 2 || row.tokens.len() == 3,
        spelled(row.tokens[0].raw, "$include"@),
        name::is_ascii(row.tokens[1].raw),
    ensures
        ({
            let found = zone::effect(limits, path, row, setting, tally);
            if row.tokens.len() == 3 && name::name_of(path, row.tokens[2], setting.origin) is Err {
                found is Err
            } else {
                &&& found is Ok
                &&& found->Ok_0 is Included
                &&& found->Ok_0->Included_0.including == path
                &&& found->Ok_0->Included_0.requested == name::letters(row.tokens[1].raw)
                &&& found->Ok_0->Included_0.setting.owner == setting.owner
                &&& found->Ok_0->Included_0.setting.ttl == setting.ttl
                &&& found->Ok_0->Included_0.setting.origin == if row.tokens.len() == 3 {
                    name::name_of(path, row.tokens[2], setting.origin)->Ok_0
                } else {
                    setting.origin
                }
            }
        }),
{
    lemma_directive(row);
}

/// Reading stops for a file that is asked for, and goes on behind the record that asked,
/// with the setting that was in force before it.
pub proof fn inclusions_leave_their_file_as_it_was(limits: Limits, machine: Machine)
    requires
        machine.readings.len() > 0,
        0 <= machine.readings.last().next < machine.readings.last().rows.len(),
        zone::effect(
            limits,
            machine.readings.last().path,
            machine.readings.last().rows[machine.readings.last().next],
            machine.readings.last().setting,
            machine.tally,
        ) matches Ok(Effect::Included(_)),
    ensures
        ({
            let top = machine.readings.last();
            let (after, asked) = parser::advanced(limits, machine)->Ok_0;
            &&& parser::advanced(limits, machine) is Ok
            &&& zone::effect(
                limits,
                top.path,
                top.rows[top.next],
                top.setting,
                machine.tally,
            ) == Ok::<Effect, Problem>(Effect::Included(asked->0))
            &&& asked is Some
            &&& after.tally == machine.tally
            &&& after.readings.len() == machine.readings.len()
            &&& after.readings.drop_last() == machine.readings.drop_last()
            &&& after.readings.last().path == top.path
            &&& after.readings.last().rows == top.rows
            &&& after.readings.last().next == top.next + 1
            &&& after.readings.last().setting == top.setting
        }),
{
    let top = machine.readings.last();
    let after = parser::stepped(machine, top.setting, machine.tally);
    assert(after.readings.drop_last() =~= machine.readings.drop_last());
}

/// A dollar sign that begins no known directive is refused.
pub proof fn unknown_directives_are_refused(
    limits: Limits,
    path: Seq<char>,
    row: Row,
    setting: Setting,
    tally: Tally,
)
    requires
        row.tokens.len() > 0,
        row.tokens[0].raw.len() > 0,
        row.tokens[0].raw[0] == 0x24,
        !spelled(row.tokens[0].raw, "$origin"@),
        !spelled(row.tokens[0].raw, "$ttl"@),
        !spelled(row.tokens[0].raw, "$include"@),
        !spelled(row.tokens[0].raw, "$generate"@),
    ensures
        zone::effect(limits, path, row, setting, tally) is Err,
{
    let raw = row.tokens[0].raw;
    lemma_spelled(raw, "$origin"@);
    lemma_spelled(raw, "$ttl"@);
    lemma_spelled(raw, "$include"@);
    lemma_spelled(raw, "$generate"@);
}

} // verus!
